//! The messages exchanged between a sender and a receiver.
use vstd::prelude::*;

verus! {

/// A signal to a receiving host.
pub enum Signal {
    Stop,
}

/// The outcome reported by a receiver.
#[derive(Clone, Copy, Debug, PartialEq, Eq, Structural)]
pub enum Status {
    /// The request with this id was received.
    Good(usize),
    Bad,
}

/// The answer of a receiver to a request.
pub struct Response {
    status: Status,
}

impl Response {
    pub closed spec fn status_spec(&self) -> Status {
        self.status
    }

    pub fn new(s: Status) -> (r: Response)
        ensures
            r.status_spec() == s,
    {
        Response { status: s }
    }

    pub fn status(&self) -> (s: Status)
        ensures
            s == self.status_spec(),
    {
        self.status
    }
}

} // verus!
