//! Error taxonomy of the broker.
//!
//! `ErrMessages` classifies client-facing protocol violations; each carries
//! a fixed response text. `MyError` is the session-level error: either a
//! transport fault, a protocol violation, a peer hang-up, or a failure to
//! learn the peer's address for the greeting banner.

use vstd::prelude::*;

verus! {

/// The I/O error type of the standard library, used opaquely: a session
/// records a transport fault without inspecting it.
#[verifier::external_type_specification]
#[verifier::external_body]
pub struct ExIoError(std::io::Error);

/// A session-level error. Only `CustomError` produces a response on the
/// wire; the other variants end or annotate the session outside the core.
#[derive(Debug)]
pub enum MyError {
    IoError(std::io::Error),
    CustomError(ErrMessages),
    PeerClosed,
    FailedToGetClientIP,
}

impl From<std::io::Error> for MyError {
    fn from(err: std::io::Error) -> (r: MyError) {
        MyError::IoError(err)
    }
}

impl vstd::std_specs::convert::FromSpecImpl<std::io::Error> for MyError {
    open spec fn obeys_from_spec() -> bool {
        true
    }

    open spec fn from_spec(err: std::io::Error) -> MyError {
        MyError::IoError(err)
    }
}

/// A classified protocol error, each with a fixed client-facing text.
#[derive(Debug, PartialEq, Eq)]
pub enum ErrMessages {
    NoHeadElement,
    UnknownProtocalOperation,
    UnknownCommand,
    InternalError,
}

impl ErrMessages {
    /// The response text for this error, without the trailing line
    /// terminator.
    pub open spec fn spec_message(self) -> Seq<char> {
        match self {
            ErrMessages::NoHeadElement => "-ERR No Head Element Found"@,
            ErrMessages::UnknownProtocalOperation => "-ERR 'Unknown Protocol Operation'"@,
            ErrMessages::UnknownCommand => "-ERR 'Unknown Protocol Operation'"@,
            ErrMessages::InternalError => "-ERR 'Internal Error'"@,
        }
    }

    /// The client-facing text of this error.
    pub fn message(&self) -> (r: String)
        ensures
            r@ == self.spec_message(),
    {
        match self {
            ErrMessages::NoHeadElement => String::from_str("-ERR No Head Element Found"),
            ErrMessages::UnknownProtocalOperation => String::from_str(
                "-ERR 'Unknown Protocol Operation'",
            ),
            ErrMessages::UnknownCommand => String::from_str("-ERR 'Unknown Protocol Operation'"),
            ErrMessages::InternalError => String::from_str("-ERR 'Internal Error'"),
        }
    }
}

} // verus!
