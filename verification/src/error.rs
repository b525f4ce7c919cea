//! Error values.
use vstd::prelude::*;

verus! {

/// Why an operation was refused.
#[derive(Clone, Copy, Debug, PartialEq, Eq, Structural)]
pub enum AxError {
    AddrInUse,
    AlreadyExists,
    BadAddress,
    BadState,
    ConnectionReset,
    CrossesDevices,
    DirectoryNotEmpty,
    Interrupted,
    InvalidInput,
    Io,
    IsADirectory,
    NameTooLong,
    NoMemory,
    NotADirectory,
    NotConnected,
    NotFound,
    PermissionDenied,
    ResourceBusy,
    TimedOut,
    Unsupported,
    WouldBlock,
}

pub type AxResult<T> = Result<T, AxError>;

/// Why a set of memory areas refused a change.
#[derive(Clone, Copy, Debug, PartialEq, Eq, Structural)]
pub enum MappingError {
    InvalidParam,
    AlreadyExists,
    BadState,
}

/// The error that callers of an address space see.
pub open spec fn spec_mapping_err_to_ax_err(err: MappingError) -> AxError {
    match err {
        MappingError::InvalidParam => AxError::InvalidInput,
        MappingError::AlreadyExists => AxError::AlreadyExists,
        MappingError::BadState => AxError::BadState,
    }
}

pub fn mapping_err_to_ax_err(err: MappingError) -> (r: AxError)
    ensures
        r == spec_mapping_err_to_ax_err(err),
{
    match err {
        MappingError::InvalidParam => AxError::InvalidInput,
        MappingError::AlreadyExists => AxError::AlreadyExists,
        MappingError::BadState => AxError::BadState,
    }
}

/// Why a device driver refused a request.
#[derive(Clone, Copy, Debug, PartialEq, Eq, Structural)]
pub enum DevError {
    AlreadyExists,
    Again,
    BadState,
    InvalidParam,
    Io,
    NoMemory,
    ResourceBusy,
    Unsupported,
}

pub type DevResult<T> = Result<T, DevError>;

} // verus!
