//! The consumer of the prime stream: it tallies the gap before each prime
//! and says when a report is due.

use vstd::prelude::*;
use vstd::arithmetic::div_mod::{lemma_fundamental_div_mod, lemma_fundamental_div_mod_converse};
use primal::Primes;
use crate::histogram::{
    GapError, GapHistogram, grows, lemma_count_within_total, lemma_grows_transitive, rejection,
    slot_of, tallied, total,
};
use crate::primes::{is_prime, lemma_prime_gap};

verus! {

/// The prime before the first one that is tallied.
pub const SEED_PRIME: u64 = 3;

/// A report is due at every index that is a positive multiple of the step.
pub open spec fn is_milestone(index: nat, step: nat) -> bool {
    step > 0 && index > 0 && index % step == 0
}

/// The first milestone after `index`.
pub open spec fn next_milestone(index: nat, step: nat) -> nat {
    (index / step + 1) * step
}

/// The milestones are the step, twice the step, three times the step and
/// so on, and nothing else.
pub proof fn lemma_milestones_are_multiples(index: nat, step: nat)
    requires
        step > 0,
    ensures
        is_milestone(index, step) <==> exists|k: nat| k >= 1 && index == #[trigger] (k * step),
{
    if is_milestone(index, step) {
        let k = index / step;
        lemma_fundamental_div_mod(index as int, step as int);
        assert(step * k == k * step) by (nonlinear_arith);
        assert(k >= 1) by (nonlinear_arith)
            requires
                index == k * step,
                index > 0,
                step > 0,
        ;
        assert(index == k * step);
    }
    if exists|k: nat| k >= 1 && index == #[trigger] (k * step) {
        let k = choose|k: nat| k >= 1 && index == #[trigger] (k * step);
        lemma_fundamental_div_mod_converse(index as int, step as int, k as int, 0);
        assert(k * step > 0) by (nonlinear_arith)
            requires
                k >= 1,
                step > 0,
        ;
    }
}

/// The next milestone lies after the index, at most one step away, and
/// no index in between is a milestone.
pub proof fn lemma_next_milestone(index: nat, step: nat)
    requires
        step > 0,
    ensures
        is_milestone(next_milestone(index, step), step),
        index < next_milestone(index, step) <= index + step,
        forall|k: nat| index < k < next_milestone(index, step) ==> !is_milestone(k, step),
{
    let q = index as int / step as int;
    let r = index as int % step as int;
    lemma_fundamental_div_mod(index as int, step as int);
    assert((q + 1) * step == q * step + step) by (nonlinear_arith);
    assert(step * q == q * step) by (nonlinear_arith);
    lemma_fundamental_div_mod_converse((q + 1) * step, step as int, q + 1, 0);
    assert(q >= 0) by (nonlinear_arith)
        requires
            index == step * q + r,
            0 <= r < step,
            index >= 0,
    ;
    assert forall|k: nat| index < k < next_milestone(index, step) implies !is_milestone(
        k,
        step,
    ) by {
        lemma_fundamental_div_mod_converse(k as int, step as int, q, k - q * step);
    }
}

/// One index further, the milestone is reached or still the same one.
pub proof fn lemma_milestone_step(index: nat, step: nat)
    requires
        step > 0,
    ensures
        is_milestone(index + 1, step) <==> index + 1 == next_milestone(index, step),
        is_milestone(index + 1, step) ==> next_milestone(index + 1, step) == index + 1 + step,
        !is_milestone(index + 1, step) ==> next_milestone(index + 1, step) == next_milestone(
            index,
            step,
        ),
{
    let q = index as int / step as int;
    let r = index as int % step as int;
    lemma_fundamental_div_mod(index as int, step as int);
    assert((q + 1) * step == q * step + step) by (nonlinear_arith);
    assert((q + 2) * step == q * step + step + step) by (nonlinear_arith);
    assert(step * q == q * step) by (nonlinear_arith);
    if r + 1 < step {
        lemma_fundamental_div_mod_converse(index as int + 1, step as int, q, r + 1);
    } else {
        lemma_fundamental_div_mod_converse(index as int + 1, step as int, q + 1, 0);
    }
}

/// Why a prime was not taken.
#[derive(Clone, Copy, Debug, PartialEq, Eq, Structural)]
pub enum ObserveError {
    /// Every index that a `u64` can hold has been used.
    IndexExhausted,
    /// The prime is not larger than the one before it.
    NotIncreasing,
    /// The gap to the prime before it cannot be tallied.
    Gap(GapError),
}

/// What a consumer holds, as mathematical values.
pub struct ConsumerView {
    /// The counters of the histogram, in slot order.
    pub counts: Seq<u64>,
    /// The last prime taken, or the seed prime before the first.
    pub previous_prime: nat,
    /// The number of primes taken.
    pub index: nat,
    /// The distance between two reports.
    pub step: nat,
}

/// Why `prime` cannot be taken in state `state`, if it cannot.
pub open spec fn refusal(state: ConsumerView, prime: u64) -> Option<ObserveError> {
    if state.index >= u64::MAX {
        Some(ObserveError::IndexExhausted)
    } else if prime <= state.previous_prime {
        Some(ObserveError::NotIncreasing)
    } else {
        match rejection(state.counts, (prime - state.previous_prime) as u64) {
            Some(e) => Some(ObserveError::Gap(e)),
            None => None,
        }
    }
}

/// A prime that follows a prime from 3 on is never refused for what it is:
/// it is larger, and its gap is neither zero nor odd.
pub proof fn lemma_primes_are_taken(state: ConsumerView, prime: u64)
    requires
        is_prime(state.previous_prime),
        is_prime(prime as nat),
        3 <= state.previous_prime < prime,
    ensures
        refusal(state, prime) != Some(ObserveError::NotIncreasing),
        refusal(state, prime) != Some(ObserveError::Gap(GapError::Zero)),
        refusal(state, prime) != Some(ObserveError::Gap(GapError::Odd)),
{
    lemma_prime_gap(state.previous_prime, prime as nat);
}

/// The state before any prime was taken.
pub open spec fn fresh(step: nat) -> ConsumerView {
    ConsumerView {
        counts: Seq::empty(),
        previous_prime: SEED_PRIME as nat,
        index: 0,
        step,
    }
}

/// The state after `prime` was taken in state `state`.
pub open spec fn taken(state: ConsumerView, prime: u64) -> ConsumerView {
    ConsumerView {
        counts: tallied(state.counts, prime - state.previous_prime),
        previous_prime: prime as nat,
        index: state.index + 1,
        step: state.step,
    }
}

/// The state after `values` were taken in turn, first to last.
pub open spec fn taken_all(state: ConsumerView, values: Seq<usize>) -> ConsumerView
    decreases values.len(),
{
    if values.len() == 0 {
        state
    } else {
        taken(taken_all(state, values.drop_last()), values.last() as u64)
    }
}

/// Whether value `k` of `stream` is taken once the values before it
/// were.
pub open spec fn takes(state: ConsumerView, stream: Seq<usize>, k: int) -> bool {
    refusal(taken_all(state, stream.take(k)), stream[k] as u64).is_none()
}

/// How a run over the stream ended.
#[derive(Clone, Copy, Debug, PartialEq, Eq, Structural)]
pub enum RunOutcome {
    /// The prime with this index reached the milestone: a report is due.
    Report { index: u64, prime: u64 },
    /// The stream ended before the milestone.
    Exhausted,
    /// The stream handed out a value that cannot be taken.
    Rejected { prime: u64, error: ObserveError },
}

/// The stream of all primes in increasing order, as `primal` sieves them.
#[verifier::external_type_specification]
#[verifier::external_body]
pub struct ExPrimes(Primes);

/// The values that a stream has yet to give, in the order in which it
/// gives them, up to its end. Nothing is claimed of what the values are:
/// the consumer checks every one it takes.
pub uninterp spec fn upcoming(primes: Primes) -> Seq<usize>;

/// `Iterator::next` of `primal::Primes`: hands out the first of the values
/// that the stream has yet to give and leaves the rest to come, or returns
/// `None` where the stream has none left.
#[verifier::external_body]
fn next_prime(primes: &mut Primes) -> (next: Option<usize>)
    ensures
        match next {
            Some(p) => {
                &&& upcoming(*old(primes)).len() > 0
                &&& p == upcoming(*old(primes))[0]
                &&& upcoming(*final(primes)) == upcoming(*old(primes)).drop_first()
            },
            None => upcoming(*old(primes)).len() == 0,
        },
{
    primes.next()
}

/// Whether the two values are the seed primes 2 and 3, in this order.
pub fn is_seed_pair(first: Option<usize>, second: Option<usize>) -> (ok: bool)
    ensures
        ok == (first == Some(2usize) && second == Some(3usize)),
{
    match (first, second) {
        (Some(a), Some(b)) => a == 2 && b == 3,
        _ => false,
    }
}

/// The state of the tally: histogram, cursor and milestone.
pub struct Consumer {
    histogram: GapHistogram,
    previous_prime: u64,
    index: u64,
    step: u64,
    next_report: Option<u64>,
}

impl View for Consumer {
    type V = ConsumerView;

    closed spec fn view(&self) -> ConsumerView {
        ConsumerView {
            counts: self.histogram@,
            previous_prime: self.previous_prime as nat,
            index: self.index as nat,
            step: self.step as nat,
        }
    }
}

impl Consumer {
    /// The histogram is well formed, its counters add up to the index, and
    /// the milestone kept is the first one after the index, as far as a
    /// `u64` can hold it.
    pub closed spec fn wf(&self) -> bool {
        &&& self.histogram.wf()
        &&& self.step > 0
        &&& total(self.histogram@) == self.index
        &&& self.next_report == if next_milestone(self.index as nat, self.step as nat)
            <= u64::MAX {
            Some(next_milestone(self.index as nat, self.step as nat) as u64)
        } else {
            None
        }
    }

    /// The sum of all counters is the number of primes taken.
    pub proof fn lemma_conservation(&self)
        requires
            self.wf(),
        ensures
            total(self@.counts) == self@.index,
            self@.step > 0,
            self@.index <= u64::MAX,
            self@.previous_prime <= u64::MAX,
    {
    }

    /// No counter can be full while an index is left: a gap is never
    /// refused as saturated.
    pub proof fn lemma_never_saturated(&self, prime: u64)
        requires
            self.wf(),
        ensures
            refusal(self@, prime) != Some(ObserveError::Gap(GapError::Saturated)),
    {
        if self@.index < u64::MAX && prime > self@.previous_prime {
            let slot = slot_of(prime - self@.previous_prime);
            if 0 <= slot < self@.counts.len() {
                lemma_count_within_total(self@.counts, slot);
            }
        }
    }

    /// A consumer that has taken no prime yet and reports every `step`
    /// primes.
    pub fn new(step: u64) -> (consumer: Consumer)
        requires
            step > 0,
        ensures
            consumer.wf(),
            consumer@ == fresh(step as nat),
    {
        proof {
            lemma_fundamental_div_mod_converse(0, step as int, 0, 0);
            assert((0 + 1) * step == step) by (nonlinear_arith);
        }
        Consumer {
            histogram: GapHistogram::new(),
            previous_prime: SEED_PRIME,
            index: 0,
            step,
            next_report: Some(step),
        }
    }

    /// Pulls the two seed primes, 2 and 3, off a stream that has given
    /// nothing yet: their gap of 1 has no slot. Returns a consumer that
    /// has taken no prime, or `None` where the stream did not begin with
    /// 2 and 3.
    pub fn start(step: u64, primes: &mut Primes) -> (consumer: Option<Consumer>)
        requires
            step > 0,
        ensures
            consumer.is_some() == (upcoming(*old(primes)).len() >= 2 && upcoming(
                *old(primes),
            )[0] == 2 && upcoming(*old(primes))[1] == 3),
            consumer matches Some(c) ==> c.wf() && c@ == fresh(step as nat),
            upcoming(*old(primes)).len() >= 2 ==> upcoming(*final(primes)) == upcoming(
                *old(primes),
            ).skip(2),
    {
        let ghost stream = upcoming(*primes);
        let first = next_prime(primes);
        let second = next_prime(primes);
        proof {
            if stream.len() >= 2 {
                assert(stream.drop_first().drop_first() =~= stream.skip(2));
            }
        }
        Consumer::from_seeds(step, first, second)
    }

    /// The consumer for a stream whose first two values were `first` and
    /// `second`: one that has taken no prime where these are the seed
    /// primes 2 and 3 in this order, and none for any other values.
    pub fn from_seeds(step: u64, first: Option<usize>, second: Option<usize>) -> (consumer: Option<
        Consumer,
    >)
        requires
            step > 0,
        ensures
            consumer.is_some() == (first == Some(2usize) && second == Some(3usize)),
            consumer matches Some(c) ==> c.wf() && c@ == fresh(step as nat),
    {
        if is_seed_pair(first, second) {
            Some(Consumer::new(step))
        } else {
            None
        }
    }

    /// The histogram as it stands.
    pub fn histogram(&self) -> (histogram: &GapHistogram)
        requires
            self.wf(),
        ensures
            histogram@ == self@.counts,
            histogram.wf(),
    {
        &self.histogram
    }

    /// The number of primes taken.
    pub fn index(&self) -> (index: u64)
        ensures
            index == self@.index,
    {
        self.index
    }

    /// The last prime taken, or the seed prime before the first.
    pub fn previous_prime(&self) -> (prime: u64)
        ensures
            prime == self@.previous_prime,
    {
        self.previous_prime
    }

    /// The distance between two reports.
    pub fn step(&self) -> (step: u64)
        ensures
            step == self@.step,
    {
        self.step
    }

    /// Takes the next prime of the stream: tallies its gap to the prime
    /// before it and moves the cursor. Returns whether a report is due,
    /// which is so exactly when the new index is a milestone. A value
    /// that cannot be taken leaves the state untouched.
    pub fn observe(&mut self, prime: u64) -> (result: Result<bool, ObserveError>)
        requires
            old(self).wf(),
        ensures
            final(self).wf(),
            match result {
                Ok(due) => {
                    &&& refusal(old(self)@, prime).is_none()
                    &&& final(self)@ == taken(old(self)@, prime)
                    &&& due == is_milestone(final(self)@.index, final(self)@.step)
                },
                Err(e) => refusal(old(self)@, prime) == Some(e) && final(self)@ == old(self)@,
            },
            grows(old(self)@.counts, final(self)@.counts),
            total(final(self)@.counts) == final(self)@.index,
    {
        if self.index == u64::MAX {
            return Err(ObserveError::IndexExhausted);
        }
        if prime <= self.previous_prime {
            return Err(ObserveError::NotIncreasing);
        }
        let gap: u64 = prime - self.previous_prime;
        match self.histogram.record(gap) {
            Err(e) => {
                return Err(ObserveError::Gap(e));
            },
            Ok(()) => {},
        }
        proof {
            lemma_milestone_step(self.index as nat, self.step as nat);
            lemma_next_milestone(self.index as nat, self.step as nat);
        }
        self.index = self.index + 1;
        self.previous_prime = prime;
        let due = match self.next_report {
            Some(milestone) => milestone == self.index,
            None => false,
        };
        if due {
            self.next_report = self.index.checked_add(self.step);
        }
        Ok(due)
    }

    /// Takes primes off the stream until a report is due, the stream ends
    /// or a value is refused. The values taken are the first of the stream,
    /// each in its turn, and the state is what taking them gives. A report
    /// comes with the first milestone after the index at entry and with no
    /// other index; where the run ends otherwise, that milestone has not
    /// been reached. A refused value has left the stream and changed
    /// nothing else.
    pub fn run_to_report(&mut self, primes: &mut Primes) -> (outcome: RunOutcome)
        requires
            old(self).wf(),
        ensures
            final(self).wf(),
            grows(old(self)@.counts, final(self)@.counts),
            total(final(self)@.counts) == final(self)@.index,
            final(self)@.step == old(self)@.step,
            old(self)@.previous_prime <= final(self)@.previous_prime,
            ({
                let stream = upcoming(*old(primes));
                let n = final(self)@.index - old(self)@.index;
                &&& 0 <= n <= stream.len()
                &&& final(self)@ == taken_all(old(self)@, stream.take(n))
                &&& forall|k: int| 0 <= k < n ==> #[trigger] takes(old(self)@, stream, k)
                &&& match outcome {
                    RunOutcome::Report { index, prime } => {
                        &&& index == final(self)@.index
                        &&& prime == final(self)@.previous_prime
                        &&& final(self)@.index == next_milestone(
                            old(self)@.index,
                            old(self)@.step,
                        )
                        &&& upcoming(*final(primes)) == stream.skip(n)
                    },
                    RunOutcome::Exhausted => {
                        &&& final(self)@.index < next_milestone(
                            old(self)@.index,
                            old(self)@.step,
                        )
                        &&& n == stream.len()
                    },
                    RunOutcome::Rejected { prime, error } => {
                        &&& final(self)@.index < next_milestone(
                            old(self)@.index,
                            old(self)@.step,
                        )
                        &&& n < stream.len()
                        &&& prime == stream[n]
                        &&& refusal(final(self)@, prime) == Some(error)
                        &&& upcoming(*final(primes)) == stream.skip(n + 1)
                    },
                }
            }),
    {
        let ghost start = self@;
        let ghost stream = upcoming(*primes);
        proof {
            lemma_next_milestone(start.index, start.step);
            assert(stream.skip(0) =~= stream);
        }
        loop
            invariant
                start == old(self)@,
                stream == upcoming(*old(primes)),
                self.wf(),
                grows(start.counts, self@.counts),
                self@.step == start.step,
                start.previous_prime <= self@.previous_prime,
                start.index <= self@.index < next_milestone(start.index, start.step),
                next_milestone(self@.index, self@.step) == next_milestone(
                    start.index,
                    start.step,
                ),
                self@.index - start.index <= stream.len(),
                self@ == taken_all(start, stream.take(self@.index - start.index)),
                upcoming(*primes) == stream.skip(self@.index - start.index),
                forall|k: int|
                    0 <= k < self@.index - start.index ==> #[trigger] takes(start, stream, k),
            decreases u64::MAX - self.index,
        {
            let ghost before = self@;
            let ghost n = before.index - start.index;
            let prime: u64 = match next_prime(primes) {
                None => {
                    return RunOutcome::Exhausted;
                },
                Some(p) => p as u64,
            };
            proof {
                assert(stream.skip(n).drop_first() =~= stream.skip(n + 1));
                assert(stream.take(n + 1).drop_last() =~= stream.take(n));
            }
            match self.observe(prime) {
                Err(error) => {
                    return RunOutcome::Rejected { prime, error };
                },
                Ok(due) => {
                    proof {
                        lemma_milestone_step(before.index, before.step);
                        lemma_grows_transitive(start.counts, before.counts, self@.counts);
                        assert(takes(start, stream, n));
                    }
                    if due {
                        return RunOutcome::Report { index: self.index, prime };
                    }
                },
            }
        }
    }
}

} // verus!
