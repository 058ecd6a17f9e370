//! Percentile lookup: find the smallest counter slot whose cumulative count
//! reaches the requested share of the total, and report the top of that
//! slot's equivalence range.
//!
//! Percentiles are exact rationals `numerator / denominator` (in percent), so
//! the target count is computed without rounding surprises.

use vstd::arithmetic::div_mod::*;
use vstd::arithmetic::mul::*;
use vstd::prelude::*;

use crate::counting::{lemma_prefix_total_monotonic, prefix_total, total_of};
use crate::histogram::Histogram;

verus! {

/// A percentile expressed as the exact rational `numerator / denominator`,
/// in percent. `Percentile { numerator: 9999, denominator: 100 }` is 99.99%.
#[derive(Clone, Copy, PartialEq, Eq, Structural, Debug)]
pub struct Percentile {
    /// Percent numerator; values above `100 * denominator` are read as 100%.
    pub numerator: u64,
    /// Percent denominator, between 1 and 1_000_000_000.
    pub denominator: u64,
}

impl Percentile {
    /// The denominator bound keeps the exact target arithmetic inside 128 bits.
    pub open spec fn wf(&self) -> bool {
        1 <= self.denominator <= 1_000_000_000
    }

    /// The rational `numerator / denominator`, clamped to 100, compared as
    /// `self <= other`.
    pub open spec fn spec_le(&self, other: &Percentile) -> bool {
        self.spec_clamped_numerator() * other.denominator <= other.spec_clamped_numerator()
            * self.denominator
    }

    /// Numerator after clamping the rational to 100%.
    pub open spec fn spec_clamped_numerator(&self) -> nat {
        if self.numerator > 100 * self.denominator {
            100 * (self.denominator as nat)
        } else {
            self.numerator as nat
        }
    }
}

/// The count that a percentile asks for: `ceil(percentile/100 * total)`,
/// written as `(n*total + 100*den - 1) / (100*den)` over the clamped rational.
pub open spec fn spec_percentile_target(total: nat, p: Percentile) -> nat {
    ((p.spec_clamped_numerator() * total + 100 * (p.denominator as nat) - 1) as nat) / ((100 * (
    p.denominator as nat)) as nat)
}

/// First slot at or past `i` whose cumulative count reaches `target`;
/// `s.len()` when none does.
pub open spec fn first_reaching(s: Seq<u64>, target: nat, i: nat) -> nat
    decreases s.len() - i,
{
    if i >= s.len() {
        s.len()
    } else if prefix_total(s, i + 1) >= target {
        i
    } else {
        first_reaching(s, target, i + 1)
    }
}

/// A scan that stopped at `i` found the first reaching slot.
pub proof fn lemma_first_reaching_at(s: Seq<u64>, target: nat, k: nat, i: nat)
    requires
        k <= i <= s.len(),
        forall|j: nat| k <= j < i ==> #[trigger] prefix_total(s, j + 1) < target,
        i < s.len() ==> prefix_total(s, i + 1) >= target,
    ensures
        first_reaching(s, target, k) == i,
    decreases i - k,
{
    if k < i {
        assert(prefix_total(s, k + 1) < target);
        lemma_first_reaching_at(s, target, k + 1, i);
    }
}

/// The scan never reports a slot before its starting point.
pub proof fn lemma_first_reaching_ge(s: Seq<u64>, target: nat, k: nat)
    requires
        k <= s.len(),
    ensures
        first_reaching(s, target, k) >= k,
    decreases s.len() - k,
{
    if k < s.len() {
        if prefix_total(s, k + 1) < target {
            lemma_first_reaching_ge(s, target, k + 1);
        }
    }
}

/// The first reaching slot only moves right as the target grows.
pub proof fn lemma_first_reaching_monotonic(s: Seq<u64>, t1: nat, t2: nat, k: nat)
    requires
        t1 <= t2,
    ensures
        first_reaching(s, t1, k) <= first_reaching(s, t2, k),
    decreases s.len() - k,
{
    if k < s.len() {
        if prefix_total(s, k + 1) < t1 {
            lemma_first_reaching_monotonic(s, t1, t2, k + 1);
        } else if prefix_total(s, k + 1) < t2 {
            lemma_first_reaching_ge(s, t2, k + 1);
        }
    }
}

/// When the whole array reaches the target, the first reaching slot is real.
pub proof fn lemma_first_reaching_in_range(s: Seq<u64>, target: nat, k: nat)
    requires
        k <= s.len(),
        total_of(s) >= target,
    ensures
        first_reaching(s, target, k) < s.len() || (forall|j: nat|
            k <= j < s.len() ==> #[trigger] prefix_total(s, j + 1) < target),
    decreases s.len() - k,
{
    if k < s.len() {
        if prefix_total(s, k + 1) < target {
            lemma_first_reaching_in_range(s, target, k + 1);
        }
    }
}

impl Histogram {
    /// What `value_at_percentile` reports: 0 on an empty histogram, otherwise
    /// the highest value equivalent to the first slot whose cumulative count
    /// reaches the percentile's target.
    pub open spec fn spec_value_at_percentile(&self, p: Percentile) -> nat {
        if self.total_count == 0 {
            0
        } else {
            let target = spec_percentile_target(self.total_count as nat, p);
            let slot = first_reaching(self.counts@, target, 0);
            self.cfg.spec_highest_equivalent(self.cfg.spec_value_at(slot))
        }
    }

    /// Value at the given percentile of the recorded distribution: the
    /// smallest slot whose cumulative count reaches
    /// `ceil(percentile/100 * total)`, reported as the top of that slot's
    /// range. An empty histogram reports 0.
    pub fn value_at_percentile(&self, percentile: Percentile) -> (r: u64)
        requires
            self.wf(),
            percentile.wf(),
        ensures
            r as nat == self.spec_value_at_percentile(percentile),
    {
        if self.total_count == 0 {
            return 0;
        }
        let ghost total_nat = self.total_count as nat;
        let num: u128 = percentile.numerator as u128;
        let den: u128 = percentile.denominator as u128;
        let hundred_den: u128 = 100 * den;
        let pn: u128 = if num > hundred_den {
            hundred_den
        } else {
            num
        };
        let total: u128 = self.total_count as u128;
        proof {
            assert(pn * total + hundred_den < 0x10000000000000000000000000000) by (nonlinear_arith)
                requires
                    pn <= 100_000_000_000u128,
                    total < 0x10000000000000000,
                    hundred_den <= 100_000_000_000u128,
            ;
        }
        let target128: u128 = (pn * total + hundred_den - 1) / hundred_den;
        proof {
            // the target never exceeds the total, so it fits in 64 bits
            assert((pn * total + hundred_den - 1) < hundred_den * (total + 1)) by (nonlinear_arith)
                requires
                    pn <= hundred_den,
                    hundred_den >= 100,
            ;
            lemma_multiply_divide_lt(
                (pn * total + hundred_den - 1) as int,
                hundred_den as int,
                (total + 1) as int,
            );
            assert(target128 <= total);
            assert(spec_percentile_target(total_nat, percentile) == target128);
        }
        let target: u64 = target128 as u64;
        let ghost s = self.counts@;
        let len = self.counts.len();
        let mut i: usize = 0;
        let mut cum: u64 = 0;
        while i < len
            invariant
                self.wf(),
                percentile.wf(),
                s == self.counts@,
                len == self.counts@.len(),
                i <= len,
                cum as nat == prefix_total(s, i as nat),
                forall|j: nat| j < i ==> #[trigger] prefix_total(s, j + 1) < target,
                target <= self.total_count,
                self.total_count >= 1,
                target == spec_percentile_target(self.total_count as nat, percentile),
            decreases len - i,
        {
            proof {
                lemma_prefix_total_monotonic(s, (i + 1) as nat, s.len());
            }
            let c = self.counts[i];
            cum = cum + c;
            if cum >= target {
                proof {
                    lemma_first_reaching_at(s, target as nat, 0, i as nat);
                    self.cfg.lemma_layout();
                }
                let v = self.cfg.value_at_index(i);
                return self.cfg.highest_equivalent_any(v);
            }
            i = i + 1;
        }
        proof {
            if len == 0 {
                assert(total_of(s) == 0);
            } else {
                assert(prefix_total(s, ((len - 1) + 1) as nat) < target);
            }
            assert(false);
        }
        0
    }
}


impl Histogram {
    /// Values at several percentiles at once, in the order requested.
    pub fn value_at_percentiles(&self, percentiles: &Vec<Percentile>) -> (r: Vec<u64>)
        requires
            self.wf(),
            forall|i: int| 0 <= i < percentiles@.len() ==> (#[trigger] percentiles@[i]).wf(),
        ensures
            r@.len() == percentiles@.len(),
            forall|i: int|
                0 <= i < r@.len() ==> (#[trigger] r@[i]) as nat == self.spec_value_at_percentile(
                    percentiles@[i],
                ),
    {
        let mut out: Vec<u64> = Vec::new();
        let mut i: usize = 0;
        let len = percentiles.len();
        while i < len
            invariant
                self.wf(),
                i <= len,
                len == percentiles@.len(),
                out@.len() == i,
                forall|j: int| 0 <= j < percentiles@.len() ==> (#[trigger] percentiles@[j]).wf(),
                forall|j: int|
                    0 <= j < i ==> (#[trigger] out@[j]) as nat == self.spec_value_at_percentile(
                        percentiles@[j],
                    ),
            decreases len - i,
        {
            let p = percentiles[i];
            out.push(self.value_at_percentile(p));
            i = i + 1;
        }
        out
    }
}

} // verus!
