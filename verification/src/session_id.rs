//! The token identifying one run of the pipeline. It is fixed at
//! construction and changes only across restarts, so a subscriber holding a
//! different token knows its state predates this process and must be
//! discarded.

use vstd::prelude::*;

verus! {

#[derive(PartialEq, Eq, Structural, Clone, Copy, Debug)]
pub struct SessionId {
    pub token: u64,
}

impl SessionId {
    /// Wrap the entropy drawn once at process start.
    pub fn new(token: u64) -> (r: SessionId)
        ensures
            r.token == token,
    {
        SessionId { token }
    }

    /// Whether a client's token names this very run.
    pub fn matches(&self, token: u64) -> (r: bool)
        ensures
            r == (self.token == token),
    {
        self.token == token
    }

    pub fn value(&self) -> (r: u64)
        ensures
            r == self.token,
    {
        self.token
    }
}

} // verus!
