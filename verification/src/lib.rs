//! A sandbox-provisioning library for running a single untrusted bytecode
//! workload: it splits a bundled input into the workload and an auxiliary
//! resource archive, builds a read-only virtual filesystem from that archive,
//! resolves the declarative stdio configuration against it, and plans the
//! sandbox context that an execution engine consumes.

pub mod archive;
pub mod buffer;
pub mod bundle;
pub mod config;
pub mod error;
pub mod laws;
pub mod path;
pub mod sandbox;
pub mod virtfs;

pub use error::Error;
