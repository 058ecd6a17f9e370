//! The histogram itself: a bucket configuration, a flat array of 64-bit
//! counters, and the tracked aggregates `total_count`, `min_value` and
//! `max_value`.

use vstd::arithmetic::mul::{
    lemma_mul_inequality, lemma_mul_is_distributive_add_other_way, lemma_mul_upper_bound,
};
use vstd::arithmetic::power2::*;
use vstd::prelude::*;

use crate::bucketing::{spec_params_accepted, BucketConfig};
use crate::counting::{
    lemma_elem_le_prefix_total, lemma_prefix_total_update, lemma_prefix_total_zero, prefix_total,
    total_of,
};
use crate::HistogramErr;

verus! {

/// Records values with bounded relative error. Values from 0 up to
/// `highest_trackable_value` are accepted; each maps to one counter slot.
pub struct Histogram {
    /// The immutable bucket layout.
    pub cfg: BucketConfig,
    /// One 64-bit counter per equivalence range.
    pub counts: Vec<u64>,
    /// Sum of all counters.
    pub total_count: u64,
    /// Smallest non-zero value recorded since the last reset; `u64::MAX` if none.
    pub min_value: u64,
    /// Largest value recorded since the last reset; 0 if none.
    pub max_value: u64,
}

impl Histogram {
    /// Internal consistency: the counter array matches the layout, the
    /// tracked total is the sum of the counters, and the tracked extremes
    /// stay within the representable range.
    pub open spec fn wf(&self) -> bool {
        &&& self.cfg.wf()
        &&& self.counts@.len() == self.cfg.counts_len
        &&& self.total_count as nat == total_of(self.counts@)
        &&& (self.max_value as nat) <= self.cfg.spec_max_value()
        &&& (self.min_value == u64::MAX || (self.min_value as nat) <= self.cfg.spec_max_value())
    }

    /// The counter holding values equivalent to `v`.
    pub open spec fn spec_count_at(&self, v: nat) -> nat {
        self.counts@[self.cfg.spec_counts_index(v) as int] as nat
    }

    /// True when the histogram holds no samples.
    pub open spec fn spec_is_empty(&self) -> bool {
        self.total_count == 0
    }

    /// Builds an empty histogram for the given range and precision, or
    /// reports that the parameters are unacceptable.
    pub fn new(
        lowest_discernible_value: u64,
        highest_trackable_value: u64,
        significant_figures: u32,
    ) -> (r: Result<Histogram, HistogramErr>)
        ensures
            r is Ok <==> spec_params_accepted(
                lowest_discernible_value,
                highest_trackable_value,
                significant_figures,
            ),
            r matches Ok(h) ==> {
                &&& h.wf()
                &&& h.cfg.lowest_discernible_value == lowest_discernible_value
                &&& h.cfg.highest_trackable_value == highest_trackable_value
                &&& h.cfg.significant_figures == significant_figures
                &&& h.total_count == 0
                &&& h.min_value == u64::MAX
                &&& h.max_value == 0
                &&& forall|j: int| 0 <= j < h.counts@.len() ==> h.counts@[j] == 0
            },
    {
        let cfg = match BucketConfig::compute(
            lowest_discernible_value,
            highest_trackable_value,
            significant_figures,
        ) {
            Ok(cfg) => cfg,
            Err(e) => {
                return Err(e);
            },
        };
        let mut counts: Vec<u64> = Vec::new();
        let mut i: usize = 0;
        while i < cfg.counts_len
            invariant
                counts@.len() == i,
                i <= cfg.counts_len,
                forall|j: int| 0 <= j < i ==> counts@[j] == 0,
            decreases cfg.counts_len - i,
        {
            counts.push(0);
            i = i + 1;
        }
        proof {
            lemma_prefix_total_zero(counts@, counts@.len());
        }
        Ok(
            Histogram {
                cfg,
                counts,
                total_count: 0,
                min_value: u64::MAX,
                max_value: 0,
            },
        )
    }

    /// Same construction under the name the bindings history uses.
    pub fn init(
        lowest_trackable_value: u64,
        highest_trackable_value: u64,
        significant_figures: u32,
    ) -> (r: Result<Histogram, HistogramErr>)
        ensures
            r is Ok <==> spec_params_accepted(
                lowest_trackable_value,
                highest_trackable_value,
                significant_figures,
            ),
            r matches Ok(h) ==> {
                &&& h.wf()
                &&& h.cfg.lowest_discernible_value == lowest_trackable_value
                &&& h.cfg.highest_trackable_value == highest_trackable_value
                &&& h.cfg.significant_figures == significant_figures
                &&& h.total_count == 0
                &&& h.min_value == u64::MAX
                &&& h.max_value == 0
                &&& forall|j: int| 0 <= j < h.counts@.len() ==> h.counts@[j] == 0
            },
    {
        Histogram::new(lowest_trackable_value, highest_trackable_value, significant_figures)
    }

    /// Zeroes every counter and the tracked aggregates, in place.
    pub fn reset(&mut self)
        requires
            old(self).wf(),
        ensures
            final(self).wf(),
            final(self).cfg == old(self).cfg,
            final(self).total_count == 0,
            final(self).min_value == u64::MAX,
            final(self).max_value == 0,
            final(self).counts@.len() == old(self).counts@.len(),
            forall|j: int| 0 <= j < final(self).counts@.len() ==> final(self).counts@[j] == 0,
    {
        let mut i: usize = 0;
        let len = self.counts.len();
        while i < len
            invariant
                self.counts@.len() == len,
                i <= len,
                self.cfg == old(self).cfg,
                self.total_count == old(self).total_count,
                self.min_value == old(self).min_value,
                self.max_value == old(self).max_value,
                forall|j: int| 0 <= j < i ==> self.counts@[j] == 0,
            decreases len - i,
        {
            self.counts.set(i, 0);
            i = i + 1;
        }
        self.total_count = 0;
        self.min_value = u64::MAX;
        self.max_value = 0;
        proof {
            lemma_prefix_total_zero(self.counts@, self.counts@.len());
        }
    }

    /// Records `count` occurrences of `value`. Returns `false` and leaves the
    /// histogram unchanged when `value` exceeds `highest_trackable_value`;
    /// otherwise bumps exactly the counter that `value` maps to.
    pub fn record_values(&mut self, value: u64, count: u64) -> (ok: bool)
        requires
            old(self).wf(),
            value <= old(self).cfg.highest_trackable_value ==> old(self).total_count + count
                <= u64::MAX,
        ensures
            final(self).wf(),
            final(self).cfg == old(self).cfg,
            ok == (value <= old(self).cfg.highest_trackable_value),
            !ok ==> *final(self) == *old(self),
            ok ==> final(self).counts@ == old(self).counts@.update(
                old(self).cfg.spec_counts_index(value as nat) as int,
                (old(self).counts@[old(self).cfg.spec_counts_index(value as nat) as int]
                    + count) as u64,
            ),
            ok ==> final(self).total_count == old(self).total_count + count,
            ok ==> final(self).min_value == (if value != 0 && value < old(self).min_value {
                value
            } else {
                old(self).min_value
            }),
            ok ==> final(self).max_value == (if value > old(self).max_value {
                value
            } else {
                old(self).max_value
            }),
    {
        if value > self.cfg.highest_trackable_value {
            return false;
        }
        proof {
            self.cfg.lemma_layout();
            self.cfg.lemma_index_mapping(value as nat);
        }
        let idx = self.cfg.counts_index_for(value);
        proof {
            lemma_elem_le_prefix_total(self.counts@, idx as nat, self.counts@.len());
        }
        let c = self.counts[idx];
        self.counts.set(idx, c + count);
        proof {
            lemma_prefix_total_update(old(self).counts@, idx as nat, (c + count) as u64, old(self).counts@.len());
        }
        self.total_count = self.total_count + count;
        if value != 0 && value < self.min_value {
            self.min_value = value;
        }
        if value > self.max_value {
            self.max_value = value;
        }
        true
    }

    /// Records a single occurrence of `value`.
    pub fn record_value(&mut self, value: u64) -> (ok: bool)
        requires
            old(self).wf(),
            value <= old(self).cfg.highest_trackable_value ==> old(self).total_count + 1
                <= u64::MAX,
        ensures
            final(self).wf(),
            final(self).cfg == old(self).cfg,
            ok == (value <= old(self).cfg.highest_trackable_value),
            !ok ==> *final(self) == *old(self),
            ok ==> final(self).counts@ == old(self).counts@.update(
                old(self).cfg.spec_counts_index(value as nat) as int,
                (old(self).counts@[old(self).cfg.spec_counts_index(value as nat) as int]
                    + 1) as u64,
            ),
            ok ==> final(self).total_count == old(self).total_count + 1,
            ok ==> final(self).min_value == (if value != 0 && value < old(self).min_value {
                value
            } else {
                old(self).min_value
            }),
            ok ==> final(self).max_value == (if value > old(self).max_value {
                value
            } else {
                old(self).max_value
            }),
    {
        self.record_values(value, 1)
    }

    /// The counter for values equivalent to `value`.
    pub fn count_at_value(&self, value: u64) -> (r: u64)
        requires
            self.wf(),
            value <= self.cfg.highest_trackable_value,
        ensures
            r as nat == self.spec_count_at(value as nat),
    {
        proof {
            self.cfg.lemma_layout();
            self.cfg.lemma_index_mapping(value as nat);
        }
        let idx = self.cfg.counts_index_for(value);
        self.counts[idx]
    }

    /// Sum of all counters.
    pub fn total_count(&self) -> (r: u64)
        ensures
            r == self.total_count,
    {
        self.total_count
    }

    /// Number of counter slots.
    pub fn get_counts_len(&self) -> (r: u64)
        ensures
            r == self.cfg.counts_len,
    {
        self.cfg.counts_len as u64
    }

    /// True when `a` and `b` fall into the same counter slot.
    pub fn values_are_equivalent(&self, a: u64, b: u64) -> (r: bool)
        requires
            self.wf(),
        ensures
            r == (self.cfg.spec_counts_index(a as nat) == self.cfg.spec_counts_index(b as nat)),
    {
        let ia = self.cfg.index_for_any(a);
        let ib = self.cfg.index_for_any(b);
        ia == ib
    }

    /// Smallest value mapping to the same slot as `value`.
    pub fn lowest_equivalent_value(&self, value: u64) -> (r: u64)
        requires
            self.wf(),
        ensures
            r as nat == self.cfg.spec_lowest_equivalent(value as nat),
            r <= value,
    {
        self.cfg.lowest_equivalent_any(value)
    }

    /// Largest value mapping to the same slot as `value`.
    pub fn highest_equivalent_value(&self, value: u64) -> (r: u64)
        requires
            self.wf(),
        ensures
            r as nat == self.cfg.spec_highest_equivalent(value as nat),
            value <= r,
    {
        self.cfg.highest_equivalent_any(value)
    }

    /// Midpoint of the equivalence range of `value`.
    pub fn median_equivalent_value(&self, value: u64) -> (r: u64)
        requires
            self.wf(),
        ensures
            r as nat == self.cfg.spec_median_equivalent(value as nat),
    {
        self.cfg.median_equivalent_any(value)
    }

    /// Width of the equivalence range of `value`.
    pub fn size_of_equivalent_value_range(&self, value: u64) -> (r: u64)
        requires
            self.wf(),
        ensures
            r as nat == self.cfg.spec_size_of_range(value as nat),
            r >= 1,
    {
        self.cfg.size_of_range_any(value)
    }

    /// Smallest recorded value: 0 when the zero slot is occupied, else the
    /// lowest value equivalent to the tracked minimum; `u64::MAX` when empty.
    pub fn min(&self) -> (r: u64)
        requires
            self.wf(),
        ensures
            r == self.spec_min(),
    {
        proof {
            self.cfg.lemma_layout();
        }
        if self.counts[0] > 0 {
            0
        } else if self.min_value == u64::MAX {
            u64::MAX
        } else {
            self.cfg.lowest_equivalent_any(self.min_value)
        }
    }

    /// What `min` reports.
    pub open spec fn spec_min(&self) -> nat {
        if self.counts@[0] > 0 {
            0
        } else if self.min_value == u64::MAX {
            u64::MAX as nat
        } else {
            self.cfg.spec_lowest_equivalent(self.min_value as nat)
        }
    }

    /// Largest recorded value: the highest value equivalent to the tracked
    /// maximum; 0 when empty.
    pub fn max(&self) -> (r: u64)
        requires
            self.wf(),
        ensures
            r == self.spec_max(),
    {
        if self.max_value == 0 {
            0
        } else {
            self.cfg.highest_equivalent_any(self.max_value)
        }
    }

    /// What `max` reports.
    pub open spec fn spec_max(&self) -> nat {
        if self.max_value == 0 {
            0
        } else {
            self.cfg.spec_highest_equivalent(self.max_value as nat)
        }
    }
}


/// Sum over the first `n` slots of count times the midpoint of the slot's
/// equivalence range: the numerator of the histogram's mean.
pub open spec fn spec_weighted_prefix(cfg: BucketConfig, s: Seq<u64>, n: nat) -> nat
    decreases n,
{
    if n == 0 {
        0
    } else {
        spec_weighted_prefix(cfg, s, (n - 1) as nat) + (s[n - 1] as nat) * cfg.spec_median_equivalent(
            cfg.spec_value_at((n - 1) as nat),
        )
    }
}

/// The weighted sum is bounded by the plain sum times the value range.
pub proof fn lemma_weighted_prefix_bound(cfg: BucketConfig, s: Seq<u64>, n: nat)
    requires
        cfg.wf(),
        s.len() == cfg.counts_len,
        n <= s.len(),
    ensures
        spec_weighted_prefix(cfg, s, n) <= prefix_total(s, n) * pow2(64),
    decreases n,
{
    cfg.lemma_layout();
    if n == 0 {
    } else {
        lemma_weighted_prefix_bound(cfg, s, (n - 1) as nat);
        let c = s[n - 1] as nat;
        let v = cfg.spec_value_at((n - 1) as nat);
        let m = cfg.spec_median_equivalent(v);
        cfg.lemma_slot_inverse((n - 1) as nat);
        cfg.lemma_index_mapping(v);
        lemma_pow2_pos((cfg.unit_magnitude as nat + cfg.spec_bucket_index(v)) as nat);
        assert(m < pow2(64)) by {
            crate::bucketing::lemma_pow2_increases_for(
                (cfg.sub_bucket_half_count_magnitude + cfg.unit_magnitude
                    + cfg.bucket_count) as nat,
                64,
            );
        }
        assert(c * m <= c * pow2(64)) by {
            crate::bucketing::lemma_mul_le_mono_right(c, m, pow2(64));
        }
        assert((prefix_total(s, (n - 1) as nat) + c) * pow2(64) == prefix_total(
            s,
            (n - 1) as nat,
        ) * pow2(64) + c * pow2(64)) by {
            lemma_mul_is_distributive_add_other_way(
                pow2(64) as int,
                prefix_total(s, (n - 1) as nat) as int,
                c as int,
            );
        }
    }
}

impl Histogram {
    /// Sum of count times range midpoint over every slot: divided by
    /// `total_count`, this is the histogram's mean.
    pub fn weighted_value_total(&self) -> (r: u128)
        requires
            self.wf(),
        ensures
            r as nat == spec_weighted_prefix(self.cfg, self.counts@, self.counts@.len()),
    {
        let ghost s = self.counts@;
        let len = self.counts.len();
        let mut sum: u128 = 0;
        let mut i: usize = 0;
        proof {
            self.cfg.lemma_layout();
            lemma2_to64();
        }
        while i < len
            invariant
                self.wf(),
                i <= len,
                len == s.len(),
                s == self.counts@,
                sum as nat == spec_weighted_prefix(self.cfg, s, i as nat),
                sum as nat <= prefix_total(s, i as nat) * pow2(64),
            decreases len - i,
        {
            proof {
                lemma2_to64();
                lemma_weighted_prefix_bound(self.cfg, s, (i + 1) as nat);
                lemma_prefix_total_bound(s, (i + 1) as nat);
            }
            let c = self.counts[i];
            let v = self.cfg.value_at_index(i);
            let m = self.cfg.median_equivalent_any(v);
            proof {
                assert((c as int) * (m as int) < 0x100000000000000000000000000000000int)
                    by (nonlinear_arith)
                    requires
                        c < 0x10000000000000000,
                        m < 0x10000000000000000,
                ;
                assert((prefix_total(s, (i + 1) as nat) as int) * (pow2(64) as int)
                    < 0x100000000000000000000000000000000int) by (nonlinear_arith)
                    requires
                        prefix_total(s, (i + 1) as nat) < 0x10000000000000000,
                        pow2(64) == 0x10000000000000000,
                ;
            }
            sum = sum + (c as u128) * (m as u128);
            i = i + 1;
        }
        sum
    }
}

/// Prefix sums never exceed the 64-bit total they come from.
pub proof fn lemma_prefix_total_bound(s: Seq<u64>, n: nat)
    requires
        n <= s.len(),
        total_of(s) <= u64::MAX,
    ensures
        prefix_total(s, n) <= u64::MAX,
{
    crate::counting::lemma_prefix_total_monotonic(s, n, s.len());
}

impl Clone for Histogram {
    /// Deep copy: an independent counter array with identical contents.
    fn clone(&self) -> (r: Self)
        ensures
            r.cfg == self.cfg,
            r.counts@ == self.counts@,
            r.total_count == self.total_count,
            r.min_value == self.min_value,
            r.max_value == self.max_value,
            self.wf() ==> r.wf(),
    {
        let mut counts: Vec<u64> = Vec::new();
        let mut i: usize = 0;
        let len = self.counts.len();
        while i < len
            invariant
                counts@.len() == i,
                i <= len,
                len == self.counts@.len(),
                forall|j: int| 0 <= j < i ==> counts@[j] == self.counts@[j],
            decreases len - i,
        {
            counts.push(self.counts[i]);
            i = i + 1;
        }
        proof {
            assert(counts@ =~= self.counts@);
        }
        Histogram {
            cfg: self.cfg,
            counts,
            total_count: self.total_count,
            min_value: self.min_value,
            max_value: self.max_value,
        }
    }
}

} // verus!
