//! The spacing of the requests to one site: a request goes through only while
//! the way is free, going through shuts it, and only the sleeper of the site
//! frees it again once the least wait has elapsed.
use vstd::prelude::*;

verus! {

/// Whether the next request to one site may be sent.
pub struct RequestTurn {
    open: bool,
}

impl View for RequestTurn {
    type V = bool;

    closed spec fn view(&self) -> bool {
        self.open
    }
}

impl RequestTurn {
    /// A turn that lets the first request pass.
    pub fn new() -> (g: Self)
        ensures
            g@,
    {
        RequestTurn { open: true }
    }

    /// Whether a request may pass now.
    pub fn is_open(&self) -> (b: bool)
        ensures
            b == self@,
    {
        self.open
    }

    /// Lets a request through when the way is free, and shuts the way;
    /// tells whether the request went through.
    pub fn pass(&mut self) -> (passed: bool)
        ensures
            passed == old(self)@,
            !final(self)@,
    {
        let passed = self.open;
        self.open = false;
        passed
    }

    /// Frees the way again: the least wait since the last request has elapsed.
    pub fn reopen(&mut self)
        ensures
            final(self)@,
    {
        self.open = true;
    }
}

} // verus!
