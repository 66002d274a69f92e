//! Request logging support: a per-request sequence number. The log
//! middleware around it belongs to the web framework, outside the
//! library; only the counter's behaviour is stated here.

use vstd::prelude::*;

verus! {

/// Hands out the sequence number stamped on each logged request.
#[derive(Debug)]
pub struct LogMiddleware {
    pub seq: u64,
}

impl LogMiddleware {
    pub fn new() -> (m: LogMiddleware)
        ensures
            m.seq == 1,
    {
        let seq: u64 = 1;

        LogMiddleware { seq }
    }

    /// Returns the current number and steps the counter, wrapping at the
    /// top of the range as a fetch-and-add on a machine word does.
    pub fn next_seq(&mut self) -> (s: u64)
        ensures
            s == old(self).seq,
            old(self).seq < u64::MAX ==> final(self).seq == old(self).seq + 1,
            old(self).seq == u64::MAX ==> final(self).seq == 0,
    {
        let s = self.seq;
        if self.seq == u64::MAX {
            self.seq = 0;
        } else {
            self.seq = self.seq + 1;
        }
        s
    }
}

} // verus!
