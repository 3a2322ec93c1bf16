use vstd::prelude::*;

verus! {

/// Status code: the selected backend is not supported.
pub const EBACKENDNOTSUPP: u32 = 200;

/// Status code: the erasure coding method is not implemented.
pub const EECMETHODNOTIMPL: u32 = 201;

/// Status code: the backend failed to initialize.
pub const EBACKENDINITERR: u32 = 202;

/// Status code: the backend is in use.
pub const EBACKENDINUSE: u32 = 203;

/// Status code: the backend is not available.
pub const EBACKENDNOTAVAIL: u32 = 204;

/// Status code: a checksum did not match.
pub const EBADCHKSUM: u32 = 205;

/// Status code: invalid parameters.
pub const EINVALIDPARAMS: u32 = 206;

/// Status code: a fragment header is malformed.
pub const EBADHEADER: u32 = 207;

/// Status code: too few fragments to satisfy the request.
pub const EINSUFFFRAGS: u32 = 208;

/// The result type of this crate.
pub type Result<T> = core::result::Result<T, Error>;

/// Possible errors.
#[derive(Debug, Clone, Copy, PartialEq, Eq, Structural, Hash)]
pub enum Error {
    /// The backend is not supported.
    BackendNotSupported,
    /// The erasure coding method is not implemented.
    EcMethodNotImplemented,
    /// Initialization of the backend failed.
    BackendInitError,
    /// The backend is in use.
    BackendInUse,
    /// The backend is not available.
    BackendNotAvailable,
    /// Bad checksum value.
    BadChecksum,
    /// Invalid parameters.
    InvalidParams,
    /// Bad header.
    BadHeader,
    /// Insufficient fragments.
    InsufficientFragments,
    /// Any other status code.
    Other(u32),
}

/// The error that a status code stands for.
pub open spec fn error_of_code(code: u32) -> Error {
    if code == EBACKENDNOTSUPP {
        Error::BackendNotSupported
    } else if code == EECMETHODNOTIMPL {
        Error::EcMethodNotImplemented
    } else if code == EBACKENDINITERR {
        Error::BackendInitError
    } else if code == EBACKENDINUSE {
        Error::BackendInUse
    } else if code == EBACKENDNOTAVAIL {
        Error::BackendNotAvailable
    } else if code == EBADCHKSUM {
        Error::BadChecksum
    } else if code == EINVALIDPARAMS {
        Error::InvalidParams
    } else if code == EBADHEADER {
        Error::BadHeader
    } else if code == EINSUFFFRAGS {
        Error::InsufficientFragments
    } else {
        Error::Other(code)
    }
}

/// The status code of an error.
pub open spec fn code_of_error(e: Error) -> u32 {
    match e {
        Error::BackendNotSupported => EBACKENDNOTSUPP,
        Error::EcMethodNotImplemented => EECMETHODNOTIMPL,
        Error::BackendInitError => EBACKENDINITERR,
        Error::BackendInUse => EBACKENDINUSE,
        Error::BackendNotAvailable => EBACKENDNOTAVAIL,
        Error::BadChecksum => EBADCHKSUM,
        Error::InvalidParams => EINVALIDPARAMS,
        Error::BadHeader => EBADHEADER,
        Error::InsufficientFragments => EINSUFFFRAGS,
        Error::Other(code) => code,
    }
}

/// The message that describes an error.
pub open spec fn description_of(e: Error) -> Seq<char> {
    match e {
        Error::BackendNotSupported => "The backend is not supported"@,
        Error::EcMethodNotImplemented => "The erasure coding method is not implemented"@,
        Error::BackendInitError => "Initialization of the backend is failed"@,
        Error::BackendInUse => "The backend is in use"@,
        Error::BackendNotAvailable => "The backend is not available"@,
        Error::BadChecksum => "Bad checksum value"@,
        Error::InvalidParams => "Invalid parameters"@,
        Error::BadHeader => "Bad header"@,
        Error::InsufficientFragments => "Insufficient fragments"@,
        Error::Other(_) => "Unknown error"@,
    }
}

impl Error {
    /// Makes an `Error` from a status code.
    pub fn from_error_code(code: u32) -> (r: Self)
        ensures
            r == error_of_code(code),
    {
        match code {
            EBACKENDNOTSUPP => Error::BackendNotSupported,
            EECMETHODNOTIMPL => Error::EcMethodNotImplemented,
            EBACKENDINITERR => Error::BackendInitError,
            EBACKENDINUSE => Error::BackendInUse,
            EBACKENDNOTAVAIL => Error::BackendNotAvailable,
            EBADCHKSUM => Error::BadChecksum,
            EINVALIDPARAMS => Error::InvalidParams,
            EBADHEADER => Error::BadHeader,
            EINSUFFFRAGS => Error::InsufficientFragments,
            _ => Error::Other(code),
        }
    }

    /// Returns the status code of the error.
    pub fn as_error_code(self) -> (r: u32)
        ensures
            r == code_of_error(self),
    {
        match self {
            Error::BackendNotSupported => EBACKENDNOTSUPP,
            Error::EcMethodNotImplemented => EECMETHODNOTIMPL,
            Error::BackendInitError => EBACKENDINITERR,
            Error::BackendInUse => EBACKENDINUSE,
            Error::BackendNotAvailable => EBACKENDNOTAVAIL,
            Error::BadChecksum => EBADCHKSUM,
            Error::InvalidParams => EINVALIDPARAMS,
            Error::BadHeader => EBADHEADER,
            Error::InsufficientFragments => EINSUFFFRAGS,
            Error::Other(code) => code,
        }
    }

    /// A short message that describes the error.
    pub fn description(&self) -> (r: &'static str)
        ensures
            r@ == description_of(*self),
    {
        proof {
            reveal_strlit("The backend is not supported");
        }
        match self {
            Error::BackendNotSupported => "The backend is not supported",
            Error::EcMethodNotImplemented => "The erasure coding method is not implemented",
            Error::BackendInitError => "Initialization of the backend is failed",
            Error::BackendInUse => "The backend is in use",
            Error::BackendNotAvailable => "The backend is not available",
            Error::BadChecksum => "Bad checksum value",
            Error::InvalidParams => "Invalid parameters",
            Error::BadHeader => "Bad header",
            Error::InsufficientFragments => "Insufficient fragments",
            Error::Other(_) => "Unknown error",
        }
    }
}

} // verus!
