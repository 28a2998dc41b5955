use vstd::prelude::*;
use crate::table::{lemma_replies_len_bound, Table};

verus! {

/// Relies on macroquad::rand::gen_range, which for integer arguments
/// returns `low` plus the width of the range scaled by a random fraction
/// strictly below one, then truncated. Below 2^32 the rounding error of
/// that double-precision product stays under the gap to `high`, so the
/// result is always below `high`; nothing else can be promised of a random
/// draw.
#[verifier::external_body]
fn random_below(n: usize) -> (r: usize)
    requires
        0 < n <= 0xffff_ffff,
    ensures
        r < n,
{
    macroquad::rand::gen_range(0, n)
}

impl Table {
    /// The computer's reply to the position whose canonical key is `key`:
    /// one of the recorded optimal replies, drawn afresh and uniformly at
    /// random on every call, so that ties are never broken predictably.
    ///
    /// `None` means the position was never recorded. Per the query
    /// discipline the caller must only ask about reachable, non-terminal
    /// positions, so a miss is the caller's defect and is surfaced rather
    /// than papered over with an arbitrary move.
    pub fn find_reply(&self, key: &String) -> (r: Option<(usize, usize)>)
        requires
            self.wf(),
        ensures
            r.is_some() == exists|i: int|
                0 <= i < self.records@.len() && (#[trigger] self.records@[i]).key@ == key@,
            match r {
                Some(m) => exists|i: int|
                    0 <= i < self.records@.len() && (#[trigger] self.records@[i]).key@ == key@
                        && self.records@[i].replies@.contains(m),
                None => true,
            },
    {
        let mut i: usize = 0;
        while i < self.records.len()
            invariant
                self.wf(),
                i <= self.records@.len(),
                forall|j: int| 0 <= j < i ==> (#[trigger] self.records@[j]).key@ != key@,
            decreases self.records@.len() - i,
        {
            if self.records[i].key == *key {
                let n = self.records[i].replies.len();
                proof {
                    lemma_replies_len_bound(self.records@[i as int].replies@);
                }
                let k = random_below(n);
                let m = self.records[i].replies[k];
                proof {
                    assert(self.records@[i as int].replies@.contains(m)) by {
                        assert(self.records@[i as int].replies@[k as int] == m);
                    }
                }
                return Some(m);
            }
            i += 1;
        }
        None
    }
}

} // verus!
