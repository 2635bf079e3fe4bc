//! The monotonic counter source: issues strictly increasing 64-bit tokens
//! used both as sync cursors and as typing-update stamps.

use vstd::prelude::*;

verus! {

/// A strictly increasing token source.  `last` is the most recently issued
/// token; `0` is never issued, so a cursor of `0` always means "initial".
pub struct Counter {
    pub last: u64,
}

impl Counter {
    pub fn new() -> (r: Counter)
        ensures
            r.last == 0,
    {
        Counter { last: 0 }
    }

    /// Issue the next token: strictly greater than every token issued before.
    pub fn next_count(&mut self) -> (r: u64)
        requires
            old(self).last < u64::MAX,
        ensures
            r == old(self).last + 1,
            final(self).last == r,
            r > old(self).last,
    {
        self.last = self.last + 1;
        self.last
    }
}

} // verus!
