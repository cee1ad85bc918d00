//! The error kinds of workload execution.

use vstd::prelude::*;

verus! {

/// A host I/O failure, kept as the operating system reported it.
///
/// Relies on std::io::Error only as an opaque carrier of the underlying
/// OS error; nothing is assumed about its contents.
#[verifier::external_type_specification]
#[verifier::external_body]
pub struct ExIoError(std::io::Error);

/// The error codes of workload execution.
#[derive(Debug)]
pub enum Error {
    /// A declared stdio path does not resolve to the expected node type.
    ConfigurationError,
    /// The workload declares no default entry point.
    ExportNotFound,
    /// The bundle is malformed, the configuration cannot be deserialized,
    /// or the engine rejected linking or instantiation.
    InstantiationFailed,
    /// The invocation trapped or the engine rejected the call.
    CallFailed,
    /// A host filesystem operation failed.
    IoError(std::io::Error),
}

impl From<std::io::Error> for Error {
    fn from(err: std::io::Error) -> (r: Self) {
        Error::IoError(err)
    }
}

impl vstd::std_specs::convert::FromSpecImpl<std::io::Error> for Error {
    open spec fn obeys_from_spec() -> bool {
        true
    }

    open spec fn from_spec(err: std::io::Error) -> Error {
        Error::IoError(err)
    }
}

} // verus!
