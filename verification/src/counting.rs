//! Sums over the counter array, used to state what `total_count` tracks.

use vstd::prelude::*;

verus! {

/// Sum of the first `n` counters of `s`.
pub open spec fn prefix_total(s: Seq<u64>, n: nat) -> nat
    decreases n,
{
    if n == 0 {
        0
    } else {
        prefix_total(s, (n - 1) as nat) + s[n - 1] as nat
    }
}

/// Sum of all counters of `s`.
pub open spec fn total_of(s: Seq<u64>) -> nat {
    prefix_total(s, s.len())
}

/// Each counter is at most the sum of any prefix that contains it.
pub proof fn lemma_elem_le_prefix_total(s: Seq<u64>, i: nat, n: nat)
    requires
        i < n,
        n <= s.len(),
    ensures
        s[i as int] <= prefix_total(s, n),
    decreases n,
{
    if i + 1 < n {
        lemma_elem_le_prefix_total(s, i, (n - 1) as nat);
    }
}

/// Prefix sums grow with the prefix.
pub proof fn lemma_prefix_total_monotonic(s: Seq<u64>, a: nat, b: nat)
    requires
        a <= b,
    ensures
        prefix_total(s, a) <= prefix_total(s, b),
    decreases b,
{
    if a < b {
        lemma_prefix_total_monotonic(s, a, (b - 1) as nat);
    }
}

/// Changing counter `i` changes exactly the prefix sums that contain it.
pub proof fn lemma_prefix_total_update(s: Seq<u64>, i: nat, v: u64, n: nat)
    requires
        i < s.len(),
        n <= s.len(),
    ensures
        i < n ==> prefix_total(s.update(i as int, v), n) == prefix_total(s, n) - s[i as int] + v,
        i >= n ==> prefix_total(s.update(i as int, v), n) == prefix_total(s, n),
    decreases n,
{
    if n > 0 {
        lemma_prefix_total_update(s, i, v, (n - 1) as nat);
    }
}

/// An all-zero prefix sums to zero.
pub proof fn lemma_prefix_total_zero(s: Seq<u64>, n: nat)
    requires
        n <= s.len(),
        forall|j: int| 0 <= j < n ==> s[j] == 0,
    ensures
        prefix_total(s, n) == 0,
    decreases n,
{
    if n > 0 {
        lemma_prefix_total_zero(s, (n - 1) as nat);
    }
}

} // verus!
