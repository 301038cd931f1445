//! The ordered hand-off of sorted chunks to the merger: a chunk passes only
//! when its sequence number is the next one expected.
use vstd::prelude::*;

verus! {

/// The hand-off counter, with the log of the sequence numbers let through.
pub struct HandOff {
    next_expected: u64,
    passed: Ghost<Seq<u64>>,
}

impl HandOff {
    /// The sequence numbers let through, in order.
    pub closed spec fn log(&self) -> Seq<u64> {
        self.passed@
    }

    /// The sequence number expected next.
    pub closed spec fn spec_next(&self) -> nat {
        self.next_expected as nat
    }

    /// The log is `0, 1, ..` up to the expected number.
    pub closed spec fn wf(&self) -> bool {
        &&& self.passed@.len() == self.next_expected
        &&& forall|i: int| 0 <= i < self.passed@.len() ==> #[trigger] self.passed@[i] == i
    }

    /// A counter that expects chunk 0.
    pub fn new() -> (r: Self)
        ensures
            r.wf(),
            r.spec_next() == 0,
            r.log() == Seq::<u64>::empty(),
    {
        HandOff { next_expected: 0, passed: Ghost(Seq::empty()) }
    }

    /// The sequence number expected next.
    pub fn next_expected(&self) -> (r: u64)
        ensures
            r == self.spec_next(),
    {
        self.next_expected
    }

    /// Lets chunk `seq` through if it is the one expected, and then expects
    /// the following one; otherwise changes nothing.
    pub fn try_hand_off(&mut self, seq: u64) -> (r: bool)
        requires
            old(self).wf(),
            old(self).spec_next() < u64::MAX,
        ensures
            final(self).wf(),
            r == (seq == old(self).spec_next()),
            r ==> final(self).log() == old(self).log().push(seq) && final(self).spec_next() == old(self).spec_next() + 1,
            !r ==> final(self).log() == old(self).log() && final(self).spec_next() == old(self).spec_next(),
    {
        if seq == self.next_expected {
            self.passed = Ghost(self.passed@.push(seq));
            self.next_expected = self.next_expected + 1;
            true
        } else {
            false
        }
    }
}

/// Under any order of attempts, the chunks pass in strictly increasing
/// sequence numbers, with none left out: the `i`-th to pass is chunk `i`.
pub proof fn law_hand_off_in_order(h: &HandOff)
    requires
        h.wf(),
    ensures
        forall|i: int, j: int| 0 <= i < j < h.log().len() ==> h.log()[i] < h.log()[j],
        forall|i: int| 0 <= i < h.log().len() ==> #[trigger] h.log()[i] == i,
{
}

} // verus!
