//! The gap histogram: slot `i` counts the occurrences of the gap `2 * (i + 1)`.

use vstd::prelude::*;

verus! {

/// Why a gap cannot be tallied.
#[derive(Clone, Copy, Debug, PartialEq, Eq, Structural)]
pub enum GapError {
    /// The gap is zero.
    Zero,
    /// The gap is odd.
    Odd,
    /// The slot of the gap cannot be addressed on this machine.
    TooLarge,
    /// The counter of the gap already holds the largest value it can.
    Saturated,
}

/// The slot that counts the gap `gap`.
pub open spec fn slot_of(gap: int) -> int {
    gap / 2 - 1
}

/// The gap that slot `slot` counts.
pub open spec fn gap_of(slot: int) -> int {
    2 * (slot + 1)
}

/// The sum of all counters.
pub open spec fn total(counts: Seq<u64>) -> nat
    decreases counts.len(),
{
    if counts.len() == 0 {
        0
    } else {
        total(counts.drop_last()) + counts.last() as nat
    }
}

/// `counts`, extended with zero counters to at least `len` slots.
pub open spec fn padded(counts: Seq<u64>, len: int) -> Seq<u64> {
    if len <= counts.len() {
        counts
    } else {
        counts + Seq::new((len - counts.len()) as nat, |i: int| 0u64)
    }
}

/// Why `gap` cannot be tallied into `counts`, if it cannot.
pub open spec fn rejection(counts: Seq<u64>, gap: u64) -> Option<GapError> {
    if gap == 0 {
        Some(GapError::Zero)
    } else if gap % 2 != 0 {
        Some(GapError::Odd)
    } else if gap / 2 > usize::MAX {
        Some(GapError::TooLarge)
    } else if slot_of(gap as int) < counts.len() && counts[slot_of(gap as int)] == u64::MAX {
        Some(GapError::Saturated)
    } else {
        None
    }
}

/// `counts` after one more occurrence of `gap`: long enough to hold the
/// slot of `gap`, and that slot one higher.
pub open spec fn tallied(counts: Seq<u64>, gap: int) -> Seq<u64> {
    let slot = slot_of(gap);
    let wide = padded(counts, slot + 1);
    wide.update(slot, (wide[slot] + 1) as u64)
}

/// No slot was lost and no counter went down.
pub open spec fn grows(before: Seq<u64>, after: Seq<u64>) -> bool {
    &&& before.len() <= after.len()
    &&& forall|i: int| 0 <= i < before.len() ==> before[i] <= #[trigger] after[i]
}

/// Growth carries over any number of steps.
pub proof fn lemma_grows_transitive(a: Seq<u64>, b: Seq<u64>, c: Seq<u64>)
    requires
        grows(a, b),
        grows(b, c),
    ensures
        grows(a, c),
{
    assert forall|i: int| 0 <= i < a.len() implies a[i] <= #[trigger] c[i] by {
        assert(a[i] <= b[i]);
        assert(b[i] <= c[i]);
    }
}

/// Appending a zero counter leaves the sum as it was.
pub proof fn lemma_total_push(counts: Seq<u64>, value: u64)
    ensures
        total(counts.push(value)) == total(counts) + value,
{
    assert(counts.push(value).drop_last() =~= counts);
}

/// Padding with zero counters leaves the sum as it was.
pub proof fn lemma_total_padded(counts: Seq<u64>, len: int)
    ensures
        total(padded(counts, len)) == total(counts),
    decreases len - counts.len(),
{
    if len > counts.len() {
        lemma_total_padded(counts, len - 1);
        assert(padded(counts, len) =~= padded(counts, len - 1).push(0u64));
        lemma_total_push(padded(counts, len - 1), 0u64);
    }
}

/// Replacing one counter moves the sum by the difference.
pub proof fn lemma_total_update(counts: Seq<u64>, slot: int, value: u64)
    requires
        0 <= slot < counts.len(),
    ensures
        total(counts.update(slot, value)) == total(counts) - counts[slot] + value,
    decreases counts.len(),
{
    let after = counts.update(slot, value);
    if slot == counts.len() - 1 {
        assert(after.drop_last() =~= counts.drop_last());
    } else {
        lemma_total_update(counts.drop_last(), slot, value);
        assert(after.drop_last() =~= counts.drop_last().update(slot, value));
    }
}

/// No counter exceeds the sum of all.
pub proof fn lemma_count_within_total(counts: Seq<u64>, slot: int)
    requires
        0 <= slot < counts.len(),
    ensures
        counts[slot] <= total(counts),
    decreases counts.len(),
{
    if slot < counts.len() - 1 {
        lemma_count_within_total(counts.drop_last(), slot);
    }
}

/// Tallying a gap raises the sum of the counters by exactly one and loses
/// nothing that was counted before.
pub proof fn lemma_tallied(counts: Seq<u64>, gap: u64)
    requires
        rejection(counts, gap).is_none(),
    ensures
        total(tallied(counts, gap as int)) == total(counts) + 1,
        grows(counts, tallied(counts, gap as int)),
        tallied(counts, gap as int).len() == if slot_of(gap as int) < counts.len() {
            counts.len()
        } else {
            (slot_of(gap as int) + 1) as nat
        },
        tallied(counts, gap as int)[slot_of(gap as int)] > 0,
{
    let slot = slot_of(gap as int);
    let wide = padded(counts, slot + 1);
    lemma_total_padded(counts, slot + 1);
    lemma_total_update(wide, slot, (wide[slot] + 1) as u64);
}

/// A gap size that was seen, and how often.
#[derive(Clone, Copy, Debug, PartialEq, Eq, Structural)]
pub struct GapCount {
    /// The gap size.
    pub gap: u64,
    /// The number of times it was seen, which is not zero.
    pub count: u64,
}

/// The gaps that were seen at least once, in increasing order, each with
/// its count.
pub open spec fn observed(counts: Seq<u64>) -> Seq<GapCount>
    decreases counts.len(),
{
    if counts.len() == 0 {
        Seq::empty()
    } else if counts.last() == 0 {
        observed(counts.drop_last())
    } else {
        observed(counts.drop_last()).push(
            GapCount { gap: gap_of(counts.len() - 1) as u64, count: counts.last() },
        )
    }
}

/// Every gap listed was seen as often as its slot says, which is at least
/// once; the gaps are listed in increasing order; and no gap that was seen
/// is left out.
pub proof fn lemma_observed(counts: Seq<u64>)
    requires
        2 * counts.len() <= u64::MAX,
    ensures
        observed(counts).len() <= counts.len(),
        forall|k: int|
            0 <= k < observed(counts).len() ==> {
                let seen = #[trigger] observed(counts)[k];
                &&& seen.count > 0
                &&& seen.gap > 0
                &&& seen.gap % 2 == 0
                &&& slot_of(seen.gap as int) < counts.len()
                &&& seen.count == counts[slot_of(seen.gap as int)]
            },
        forall|j: int, k: int|
            0 <= j < k < observed(counts).len() ==> observed(counts)[j].gap < observed(
                counts,
            )[k].gap,
        forall|slot: int|
            0 <= slot < counts.len() && counts[slot] > 0 ==> exists|k: int|
                0 <= k < observed(counts).len() && #[trigger] observed(counts)[k].gap == gap_of(
                    slot,
                ),
    decreases counts.len(),
{
    if counts.len() > 0 {
        let shorter = counts.drop_last();
        lemma_observed(shorter);
        let all = observed(counts);
        let top = counts.len() - 1;
        assert forall|slot: int| 0 <= slot < counts.len() && counts[slot] > 0 implies exists|k: int|
            0 <= k < all.len() && #[trigger] all[k].gap == gap_of(slot) by {
            if slot < top {
                assert(shorter[slot] == counts[slot]);
                let k = choose|k: int|
                    0 <= k < observed(shorter).len() && #[trigger] observed(shorter)[k].gap
                        == gap_of(slot);
                assert(all[k].gap == gap_of(slot));
            } else {
                assert(all[all.len() - 1].gap == gap_of(slot));
            }
        }
        assert forall|k: int| 0 <= k < all.len() implies {
            let seen = #[trigger] all[k];
            &&& seen.count > 0
            &&& seen.gap > 0
            &&& seen.gap % 2 == 0
            &&& slot_of(seen.gap as int) < counts.len()
            &&& seen.count == counts[slot_of(seen.gap as int)]
        } by {
            if k < observed(shorter).len() {
                let seen = observed(shorter)[k];
                assert(all[k] == seen);
                assert(shorter[slot_of(seen.gap as int)] == counts[slot_of(seen.gap as int)]);
            }
        }
        assert forall|j: int, k: int| 0 <= j < k < all.len() implies all[j].gap < all[k].gap by {
            let early = observed(shorter)[j];
            assert(all[j] == early);
            assert(slot_of(early.gap as int) < shorter.len());
            if k < observed(shorter).len() {
                assert(all[k] == observed(shorter)[k]);
            }
        }
    }
}

/// The running tally of gaps.
pub struct GapHistogram {
    counts: Vec<u64>,
}

impl View for GapHistogram {
    type V = Seq<u64>;

    closed spec fn view(&self) -> Seq<u64> {
        self.counts@
    }
}

impl GapHistogram {
    /// The histogram ends at the largest gap seen, and every slot stands for
    /// a gap that a `u64` can hold.
    pub open spec fn wf(&self) -> bool {
        &&& self@.len() > 0 ==> self@.last() > 0
        &&& 2 * self@.len() <= u64::MAX
    }

    /// The histogram of no gaps at all.
    pub fn new() -> (h: GapHistogram)
        ensures
            h.wf(),
            h@ == Seq::<u64>::empty(),
    {
        GapHistogram { counts: Vec::new() }
    }

    /// The counters, in slot order.
    pub fn counts(&self) -> (counts: &Vec<u64>)
        ensures
            counts@ == self@,
    {
        &self.counts
    }

    /// The number of slots: half the largest gap seen.
    pub fn len(&self) -> (len: usize)
        ensures
            len == self@.len(),
    {
        self.counts.len()
    }

    /// The gaps that were seen at least once, in increasing order, each
    /// with its count: the points that the estimator is fed from.
    pub fn observed(&self) -> (seen: Vec<GapCount>)
        requires
            self.wf(),
        ensures
            seen@ == observed(self@),
    {
        let mut seen: Vec<GapCount> = Vec::new();
        let mut slot: usize = 0;
        while slot < self.counts.len()
            invariant
                slot <= self.counts@.len(),
                2 * self.counts@.len() <= u64::MAX,
                seen@ == observed(self.counts@.take(slot as int)),
            decreases self.counts@.len() - slot,
        {
            let count: u64 = self.counts[slot];
            proof {
                assert(self.counts@.take(slot + 1).drop_last() =~= self.counts@.take(slot as int));
            }
            if count > 0 {
                seen.push(GapCount { gap: 2 * (slot as u64 + 1), count });
            }
            slot += 1;
        }
        proof {
            assert(self.counts@.take(slot as int) =~= self.counts@);
        }
        seen
    }

    /// Counts one more occurrence of `gap`, growing the histogram with zero
    /// counters where `gap` is larger than any gap before it. A gap that
    /// cannot be tallied leaves the histogram untouched.
    pub fn record(&mut self, gap: u64) -> (result: Result<(), GapError>)
        requires
            old(self).wf(),
        ensures
            final(self).wf(),
            match result {
                Ok(()) => rejection(old(self)@, gap).is_none() && final(self)@ == tallied(
                    old(self)@,
                    gap as int,
                ),
                Err(e) => rejection(old(self)@, gap) == Some(e) && final(self)@ == old(self)@,
            },
            grows(old(self)@, final(self)@),
            total(final(self)@) == total(old(self)@) + if result.is_ok() { 1nat } else { 0nat },
    {
        if gap == 0 {
            return Err(GapError::Zero);
        }
        if gap % 2 != 0 {
            return Err(GapError::Odd);
        }
        let half: u64 = gap / 2;
        if half > usize::MAX as u64 {
            return Err(GapError::TooLarge);
        }
        let slot: usize = (half - 1) as usize;
        if slot < self.counts.len() && self.counts[slot] == u64::MAX {
            return Err(GapError::Saturated);
        }
        let ghost before = self.counts@;
        proof {
            lemma_tallied(before, gap);
        }
        while self.counts.len() <= slot
            invariant
                self.counts@ == padded(before, self.counts@.len() as int),
                before.len() <= self.counts@.len(),
                self.counts@.len() <= slot + 1 || self.counts@.len() == before.len(),
            decreases slot + 1 - self.counts@.len(),
        {
            self.counts.push(0);
            assert(self.counts@ =~= padded(before, self.counts@.len() as int));
        }
        assert(self.counts@ == padded(before, slot + 1));
        let count: u64 = self.counts[slot];
        self.counts.set(slot, count + 1);
        Ok(())
    }
}

} // verus!
