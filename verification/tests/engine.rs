use wasmldr::error::Error;
use wasmldr::sandbox::{engine_failure, provision, EngineStep};

// A minimal module: one function of type () -> i32 returning 1, exported
// under the empty name so it is the default entry point.
fn module_returning_one() -> Vec<u8> {
    let mut b = vec![0x00, 0x61, 0x73, 0x6d, 0x01, 0x00, 0x00, 0x00];
    b.extend_from_slice(&[0x01, 0x05, 0x01, 0x60, 0x00, 0x01, 0x7f]);
    b.extend_from_slice(&[0x03, 0x02, 0x01, 0x00]);
    b.extend_from_slice(&[0x07, 0x04, 0x01, 0x00, 0x00, 0x00]);
    b.extend_from_slice(&[0x0a, 0x06, 0x01, 0x04, 0x00, 0x41, 0x01, 0x0b]);
    b
}

// The same function, but exported under nothing at all: no default entry
// point.
fn module_without_default_export() -> Vec<u8> {
    let mut b = vec![0x00, 0x61, 0x73, 0x6d, 0x01, 0x00, 0x00, 0x00];
    b.extend_from_slice(&[0x01, 0x05, 0x01, 0x60, 0x00, 0x01, 0x7f]);
    b.extend_from_slice(&[0x03, 0x02, 0x01, 0x00]);
    b.extend_from_slice(&[0x0a, 0x06, 0x01, 0x04, 0x00, 0x41, 0x01, 0x0b]);
    b
}

fn run_module(bytes: &[u8]) -> Result<Vec<wasmtime::Val>, Error> {
    let input = bytes.to_vec();
    let _ctx = provision(&input)?;
    let engine = wasmtime::Engine::default();
    let module = wasmtime::Module::from_binary(&engine, bytes)
        .map_err(|_| engine_failure(EngineStep::Compile))?;
    let exports: Vec<(String, bool)> = module
        .exports()
        .map(|e| {
            let is_func = matches!(e.ty(), wasmtime::ExternType::Func(_));
            (e.name().to_string(), is_func)
        })
        .collect();
    let entry = wasmldr::sandbox::resolve_entry(&exports)?;
    let mut store: wasmtime::Store<()> = wasmtime::Store::new(&engine, ());
    let mut linker: wasmtime::Linker<()> = wasmtime::Linker::new(&engine);
    linker
        .module(&mut store, "", &module)
        .map_err(|_| engine_failure(EngineStep::Instantiate))?;
    let func = linker
        .get(&mut store, "", &entry)
        .map_err(|_| engine_failure(EngineStep::ResolveEntry))?
        .into_func()
        .ok_or_else(|| engine_failure(EngineStep::ResolveEntry))?;
    let n = func.ty(&store).results().len();
    let mut results = vec![wasmtime::Val::I32(0); n];
    func.call(&mut store, &[], &mut results)
        .map_err(|_| engine_failure(EngineStep::Invoke))?;
    Ok(results)
}

#[test]
fn workload_run_return_1() {
    let bytes = module_returning_one();
    let results: Vec<i32> = run_module(&bytes)
        .unwrap()
        .iter()
        .map(|v| v.unwrap_i32())
        .collect();
    assert_eq!(results, vec![1]);
}

// A default entry point whose body traps immediately.
fn module_that_traps() -> Vec<u8> {
    let mut b = vec![0x00, 0x61, 0x73, 0x6d, 0x01, 0x00, 0x00, 0x00];
    b.extend_from_slice(&[0x01, 0x04, 0x01, 0x60, 0x00, 0x00]);
    b.extend_from_slice(&[0x03, 0x02, 0x01, 0x00]);
    b.extend_from_slice(&[0x07, 0x04, 0x01, 0x00, 0x00, 0x00]);
    b.extend_from_slice(&[0x0a, 0x05, 0x01, 0x03, 0x00, 0x00, 0x0b]);
    b
}

#[test]
fn workload_run_trap_is_call_failure() {
    let bytes = module_that_traps();
    match run_module(&bytes) {
        Err(Error::CallFailed) => {}
        Err(e) => panic!("unexpected error: {:?}", e),
        Ok(_) => panic!("a trapping workload must not succeed"),
    }
}

#[test]
fn workload_run_no_export() {
    let bytes = module_without_default_export();
    match run_module(&bytes) {
        Err(Error::ExportNotFound) => {}
        Err(e) => panic!("unexpected error: {:?}", e),
        Ok(v) => panic!("unexpected success with {} results", v.len()),
    }
}
