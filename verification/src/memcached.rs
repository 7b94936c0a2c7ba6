//! A memcached-like item store and its errors.

pub mod db;

pub use db::Db as MemcachedDb;

use vstd::prelude::*;

verus! {

#[verifier::external_type_specification]
#[verifier::external_body]
pub struct ExIoError(std::io::Error);

/// Errors of the memcached service.
#[derive(Debug)]
pub enum Error {
    ProtocolError,
    IOError(std::io::Error),
}

pub type MemcachedError = Error;

impl From<std::io::Error> for Error {
    fn from(e: std::io::Error) -> (r: Self) {
        Error::IOError(e)
    }
}

impl vstd::std_specs::convert::FromSpecImpl<std::io::Error> for Error {
    open spec fn obeys_from_spec() -> bool {
        true
    }

    open spec fn from_spec(e: std::io::Error) -> Self {
        Error::IOError(e)
    }
}

/// `ToString::to_string` of `std::io::Error`, through its `Display`. What
/// text that is depends on the error and the system and is left unsaid.
#[verifier::external_body]
fn io_error_text(e: &std::io::Error) -> String {
    e.to_string()
}

impl Error {
    /// The error's message: `ProtocolError`, or `IOError: ` and the text of
    /// the I/O error.
    pub fn message(&self) -> (s: String)
        ensures
            self is ProtocolError ==> s@ == "ProtocolError"@,
            self is IOError ==> s@.len() >= 9 && s@.subrange(0, 9) == "IOError: "@,
    {
        match self {
            Error::ProtocolError => String::from_str("ProtocolError"),
            Error::IOError(e) => {
                let mut s = String::from_str("IOError: ");
                s.append(io_error_text(e).as_str());
                proof {
                    reveal_strlit("IOError: ");
                    assert(s@.subrange(0, 9) =~= "IOError: "@);
                }
                s
            },
        }
    }
}

} // verus!
