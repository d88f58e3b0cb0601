use vstd::prelude::*;

verus! {

/// Status codes returned by the kernel's fallible operations.
#[derive(Debug, Clone, Copy, PartialEq, Eq, Structural)]
pub enum Status {
    Success,
    NotFound,
    NoEntry,
    InvalidArgument,
    OutOfRange,
    OutOfResource,
    CorruptFilesystem,
    IsFile,
    IsDirectory,
    NotDirectory,
    NotImplemented,
    NotSupported,
    NotEmpty,
    InUse,
    Exists,
    NoWriters,
    NoReaders,
    BadDescriptor,
    NoFilesystem,
    NoProcess,
    InvalidSession,
    ArgumentSecurity,
    InvalidExecutableFormat,
    ReadOnly,
    WriteOnly,
}

/// The result type of the kernel's fallible operations.
pub type Result<T> = core::result::Result<T, Status>;

} // verus!
