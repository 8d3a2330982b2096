//! Messages that arrived and were not yet read.
use std::collections::VecDeque;
use vstd::prelude::*;

verus! {

pub struct Inbox {
    pub queue: VecDeque<Vec<u8>>,
}

impl Inbox {
    pub fn new() -> (b: Inbox)
        ensures
            b.queue@.len() == 0,
    {
        Inbox { queue: VecDeque::new() }
    }

    /// Add what was delivered, in order, and take the oldest message. With none the
    /// message is empty.
    pub fn net_recv(&mut self, delivered: Vec<Vec<u8>>) -> (msg: Vec<u8>)
        ensures
            ({
                let all = old(self).queue@ + delivered@;
                if all.len() == 0 {
                    msg@.len() == 0 && final(self).queue@ == all
                } else {
                    msg@ == all[0]@ && final(self).queue@ == all.drop_first()
                }
            }),
    {
        let ghost first = self.queue@;
        let ghost came = delivered@;
        let mut rest: VecDeque<Vec<u8>> = VecDeque::new();
        let mut left = delivered;
        while left.len() > 0
            invariant
                left@ + rest@ == came,
            decreases left@.len(),
        {
            let ghost l = left@;
            let ghost r = rest@;
            if let Some(m) = left.pop() {
                rest.push_front(m);
                assert(left@ + rest@ =~= l + r);
            }
        }
        assert(rest@ =~= came);
        self.queue.append(&mut rest);
        assert(self.queue@ =~= first + came);
        match self.queue.pop_front() {
            Some(m) => m,
            None => Vec::new(),
        }
    }
}

/// A port number held to what a port can be.
pub fn port(n: i64) -> (r: u16)
    ensures
        r == (if n < 0 {
            0
        } else if n > 65535 {
            65535
        } else {
            n as int
        }),
{
    if n < 0 {
        0
    } else if n > 65535 {
        65535
    } else {
        n as u16
    }
}

} // verus!
