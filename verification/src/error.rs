//! The failures that ring operations report.

use vstd::prelude::*;
use vstd::std_specs::convert::FromSpecImpl;

verus! {

/// A failure of the connection manager, carried as it was reported.
#[derive(Clone, Debug, PartialEq, Eq)]
pub struct ConnError {
    /// What the connection manager said went wrong.
    pub reason: String,
}

/// Why a ring operation failed.
#[derive(Clone, Debug, PartialEq, Eq)]
pub enum RingProtoError {
    /// A position was asked for that lies outside the ring.
    InvalidLocation,
    /// A query that needs at least one connection found none.
    EmptyRing,
    /// The attempt to join a ring failed.
    Join,
    /// The connection manager failed; its report is passed on unchanged.
    ConnError(Box<ConnError>),
}

impl From<Box<ConnError>> for RingProtoError {
    /// The failure of the connection manager as a failure of the ring.
    fn from(err: Box<ConnError>) -> (e: RingProtoError)
        ensures
            e == RingProtoError::ConnError(err),
    {
        RingProtoError::ConnError(err)
    }
}

impl FromSpecImpl<Box<ConnError>> for RingProtoError {
    open spec fn obeys_from_spec() -> bool {
        true
    }

    open spec fn from_spec(err: Box<ConnError>) -> RingProtoError {
        RingProtoError::ConnError(err)
    }
}

} // verus!
