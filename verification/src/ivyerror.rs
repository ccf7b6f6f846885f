use vstd::prelude::*;

verus! {

/// `std::io::Error`, carried through unchanged by [`IvyError::IoError`].
#[verifier::external_type_specification]
#[verifier::external_body]
pub struct ExIoError(std::io::Error);

/// `std::num::ParseIntError`, carried through unchanged by [`IvyError::ParseError`].
#[verifier::external_type_specification]
#[verifier::external_body]
pub struct ExParseIntError(std::num::ParseIntError);

/// Errors reported by the bus and by the message parsers.
#[derive(Debug)]
pub enum IvyError {
    BadInit,
    BadDomain,
    IoError(std::io::Error),
    ParseError(std::num::ParseIntError),
    ParseAnnounceError,
    ParseFail,
    PingTimeout,
    DeadLock,
}

impl From<std::io::Error> for IvyError {
    fn from(e: std::io::Error) -> (res: Self)
    {
        IvyError::IoError(e)
    }
}

impl vstd::std_specs::convert::FromSpecImpl<std::io::Error> for IvyError {
    open spec fn obeys_from_spec() -> bool {
        true
    }

    open spec fn from_spec(e: std::io::Error) -> Self {
        IvyError::IoError(e)
    }
}

impl From<std::num::ParseIntError> for IvyError {
    fn from(e: std::num::ParseIntError) -> (res: Self)
    {
        IvyError::ParseError(e)
    }
}

impl vstd::std_specs::convert::FromSpecImpl<std::num::ParseIntError> for IvyError {
    open spec fn obeys_from_spec() -> bool {
        true
    }

    open spec fn from_spec(e: std::num::ParseIntError) -> Self {
        IvyError::ParseError(e)
    }
}

} // verus!
