//! A filter against replayed cells.

use vstd::prelude::*;

verus! {

/// Accepts the sequence numbers of one direction of one circuit, each above
/// all that were accepted before. Gaps are fine.
#[derive(Debug)]
pub struct MonotonicCheck {
    last: u32,
}

impl MonotonicCheck {
    /// The highest number that was accepted, zero at first.
    pub closed spec fn last(self) -> u32 {
        self.last
    }

    /// A filter that has accepted nothing.
    pub fn new() -> (m: Self)
        ensures
            m.last() == 0,
    {
        Self { last: 0 }
    }

    /// Whether the number is accepted. One that is moves the filter on.
    pub fn check(&mut self, seq: u32) -> (ok: bool)
        ensures
            ok == (seq > old(self).last()),
            final(self).last() == if ok {
                seq
            } else {
                old(self).last()
            },
    {
        if seq <= self.last {
            return false;
        }
        self.last = seq;
        true
    }
}

/// The numbers of a run that a filter accepts, from the highest accepted so far.
pub open spec fn accepted(last: u32, run: Seq<u32>) -> Seq<u32>
    decreases run.len(),
{
    if run.len() == 0 {
        Seq::empty()
    } else if run[0] > last {
        seq![run[0]] + accepted(run[0], run.drop_first())
    } else {
        accepted(last, run.drop_first())
    }
}

/// Whatever comes in, what is accepted grows strictly, so that no number is
/// accepted twice, and stays above what was accepted before.
pub proof fn law_accepted_grow(last: u32, run: Seq<u32>)
    ensures
        forall|i: int|
            0 <= i < accepted(last, run).len() ==> #[trigger] accepted(last, run)[i] > last,
        forall|i: int, j: int|
            0 <= i < j < accepted(last, run).len() ==> #[trigger] accepted(last, run)[i]
                < #[trigger] accepted(last, run)[j],
    decreases run.len(),
{
    let all = accepted(last, run);
    if run.len() > 0 {
        if run[0] > last {
            law_accepted_grow(run[0], run.drop_first());
            let rest = accepted(run[0], run.drop_first());
            assert(all =~= seq![run[0]] + rest);
            assert forall|i: int| 0 <= i < all.len() implies #[trigger] all[i] > last by {
                if i > 0 {
                    assert(all[i] == rest[i - 1]);
                }
            }
            assert forall|i: int, j: int| 0 <= i < j < all.len() implies #[trigger] all[i]
                < #[trigger] all[j] by {
                assert(all[j] == rest[j - 1]);
                if i > 0 {
                    assert(all[i] == rest[i - 1]);
                }
            }
        } else {
            law_accepted_grow(last, run.drop_first());
            assert(all == accepted(last, run.drop_first()));
        }
    }
}

} // verus!
