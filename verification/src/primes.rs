//! What the tally relies on about prime numbers.

use vstd::prelude::*;
use crate::histogram::slot_of;

verus! {

/// `n` is at least 2 and no smaller number but 1 divides it.
pub open spec fn is_prime(n: nat) -> bool {
    &&& n >= 2
    &&& forall|d: nat| 1 < d < n ==> #[trigger] (n % d) != 0
}

/// A prime from 3 on is odd.
pub proof fn lemma_prime_from_three_is_odd(p: nat)
    requires
        is_prime(p),
        p >= 3,
    ensures
        p % 2 == 1,
{
    assert(p % 2nat != 0);
}

/// Between two primes from 3 on, the gap is positive and even, and its
/// slot in the histogram is not negative.
pub proof fn lemma_prime_gap(earlier: nat, later: nat)
    requires
        is_prime(earlier),
        is_prime(later),
        3 <= earlier < later,
    ensures
        later - earlier > 0,
        (later - earlier) % 2 == 0,
        slot_of(later - earlier) >= 0,
{
    lemma_prime_from_three_is_odd(earlier);
    lemma_prime_from_three_is_odd(later);
}

} // verus!
