use vstd::prelude::*;
use crate::category::{HandType, CATEGORY_COUNT};

verus! {

/// How many times each hand category came up. Tallies of separate runs can
/// be merged.
#[derive(Debug)]
pub struct Tally {
    pub counts: Vec<u64>,
}

impl Tally {
    /// One counter per category.
    pub open spec fn wf(&self) -> bool {
        self.counts@.len() == CATEGORY_COUNT
    }

    /// The counter of category `t`.
    pub open spec fn count_of(&self, t: HandType) -> nat {
        self.counts@[t.value() as int] as nat
    }

    /// A tally with every counter at zero.
    pub fn new() -> (r: Tally)
        ensures
            r.wf(),
            forall|t: HandType| #[trigger] r.count_of(t) == 0,
    {
        let mut counts: Vec<u64> = Vec::new();
        let mut i: u8 = 0;
        while i < CATEGORY_COUNT
            invariant
                i <= CATEGORY_COUNT,
                counts@.len() == i,
                forall|j: int| 0 <= j < i ==> counts@[j] == 0,
            decreases CATEGORY_COUNT - i,
        {
            counts.push(0);
            i += 1;
        }
        Tally { counts }
    }

    /// The counter of category `t`.
    pub fn count(&self, t: HandType) -> (r: u64)
        requires
            self.wf(),
        ensures
            r == self.count_of(t),
    {
        self.counts[t.index() as usize]
    }

    /// Counts one more hand of category `t`.
    pub fn record(&mut self, t: HandType)
        requires
            old(self).wf(),
            old(self).count_of(t) < u64::MAX,
        ensures
            final(self).wf(),
            final(self).count_of(t) == old(self).count_of(t) + 1,
            forall|u: HandType| u != t ==> #[trigger] final(self).count_of(u) == old(self).count_of(u),
    {
        let k = t.index() as usize;
        let c = self.counts[k];
        self.counts.set(k, c + 1);
    }

    /// Adds the counters of `other` to these.
    pub fn merge(&mut self, other: &Tally)
        requires
            old(self).wf(),
            other.wf(),
            forall|j: int|
                0 <= j < CATEGORY_COUNT ==> #[trigger] old(self).counts@[j] + other.counts@[j]
                    <= u64::MAX,
        ensures
            final(self).wf(),
            forall|t: HandType| #[trigger] final(self).count_of(t) == old(self).count_of(t)
                + other.count_of(t),
    {
        let ghost start = self.counts@;
        let mut i: usize = 0;
        while i < CATEGORY_COUNT as usize
            invariant
                i <= CATEGORY_COUNT,
                self.counts@.len() == CATEGORY_COUNT,
                other.wf(),
                start.len() == CATEGORY_COUNT,
                forall|j: int| 0 <= j < CATEGORY_COUNT ==> start[j] + other.counts@[j] <= u64::MAX,
                forall|j: int| 0 <= j < i ==> self.counts@[j] == start[j] + other.counts@[j],
                forall|j: int| i <= j < CATEGORY_COUNT ==> self.counts@[j] == start[j],
            decreases CATEGORY_COUNT - i,
        {
            assert(start[i as int] + other.counts@[i as int] <= u64::MAX);
            let c = self.counts[i] + other.counts[i];
            self.counts.set(i, c);
            i += 1;
        }
    }
}

} // verus!
