//! The error surface of the HTTP front end. The routing, response and
//! listening scaffolding is ordinary async I/O that the embedding binary
//! builds around the core; only the failure taxonomy it reports back is part
//! of the library's contract.

use vstd::prelude::*;

verus! {

/// Failure to bring the viewer-facing listener up.
#[derive(Debug)]
pub enum ServerError {
    /// The configured bind address resolves to nothing usable.
    InvalidAddr,
    /// The listener itself failed.
    Io(std::io::Error),
}

impl From<()> for ServerError {
    fn from(_u: ()) -> (r: Self) {
        ServerError::InvalidAddr
    }
}

impl vstd::std_specs::convert::FromSpecImpl<()> for ServerError {
    open spec fn obeys_from_spec() -> bool {
        true
    }

    open spec fn from_spec(_u: ()) -> Self {
        ServerError::InvalidAddr
    }
}

impl From<std::io::Error> for ServerError {
    fn from(e: std::io::Error) -> (r: Self) {
        ServerError::Io(e)
    }
}

impl vstd::std_specs::convert::FromSpecImpl<std::io::Error> for ServerError {
    open spec fn obeys_from_spec() -> bool {
        true
    }

    open spec fn from_spec(e: std::io::Error) -> Self {
        ServerError::Io(e)
    }
}

} // verus!
