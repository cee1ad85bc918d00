[package]
name = "wasmldr"
version = "0.1.0"
edition = "2021"
publish = false

[dependencies]
tar = "=0.4.46"
serde_yaml = "=0.9.34"
wasmtime = "=46.0.3"
wasmtime-wasi = "=46.0.3"
wasi-common = "=46.0.3"
