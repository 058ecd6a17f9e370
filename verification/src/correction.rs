//! Coordinated-omission correction: recording a value measured on a regular
//! sampling interval also synthesizes the samples a stalled producer missed,
//! one at each multiple of the interval below the value.

use vstd::arithmetic::div_mod::*;
use vstd::arithmetic::mul::*;
use vstd::prelude::*;

use crate::bucketing::BucketConfig;
use crate::counting::{lemma_prefix_total_update, total_of};
use crate::histogram::Histogram;

verus! {

/// How many synthetic samples correction adds: one at `value - k * interval`
/// for each `k` with `value - k * interval >= interval`. A deliberate floor:
/// a final sub-recording below one whole interval is not synthesized, the
/// established stop rule of this correction, which keeps re-synthesis during
/// merges layout-independent.
pub open spec fn spec_num_missing(value: nat, interval: nat) -> nat {
    if interval == 0 || value <= interval {
        0
    } else {
        ((value - interval) as nat) / interval
    }
}

/// The counter array after one recording of `c` samples at `v`.
pub open spec fn counts_after_record(cfg: BucketConfig, s: Seq<u64>, v: nat, c: nat) -> Seq<u64> {
    s.update(
        cfg.spec_counts_index(v) as int,
        (s[cfg.spec_counts_index(v) as int] + c) as u64,
    )
}

/// The counter array after the first `j` synthetic recordings, each `c`
/// samples at `value - k * interval` for `k = 1 ..= j`.
pub open spec fn counts_after_missing(
    cfg: BucketConfig,
    s: Seq<u64>,
    value: nat,
    c: nat,
    interval: nat,
    j: nat,
) -> Seq<u64>
    decreases j,
{
    if j == 0 {
        s
    } else {
        counts_after_record(
            cfg,
            counts_after_missing(cfg, s, value, c, interval, (j - 1) as nat),
            (value - j * interval) as nat,
            c,
        )
    }
}

/// One recording step keeps the length and adds `c` to the array total.
pub proof fn lemma_counts_after_record_total(cfg: BucketConfig, s: Seq<u64>, v: nat, c: nat)
    requires
        cfg.wf(),
        s.len() == cfg.counts_len,
        v <= cfg.spec_max_value(),
        s[cfg.spec_counts_index(v) as int] + c <= u64::MAX,
    ensures
        counts_after_record(cfg, s, v, c).len() == s.len(),
        total_of(counts_after_record(cfg, s, v, c)) == total_of(s) + c,
{
    cfg.lemma_index_mapping(v);
    let idx = cfg.spec_counts_index(v);
    lemma_prefix_total_update(s, idx, (s[idx as int] + c) as u64, s.len());
}

/// The synthetic recordings keep the length and add `j * c` to the total.
pub proof fn lemma_counts_after_missing_total(
    cfg: BucketConfig,
    s: Seq<u64>,
    value: nat,
    c: nat,
    interval: nat,
    j: nat,
)
    requires
        cfg.wf(),
        s.len() == cfg.counts_len,
        interval >= 1,
        value <= cfg.highest_trackable_value,
        j * interval < value,
        total_of(s) + j * c <= u64::MAX,
    ensures
        counts_after_missing(cfg, s, value, c, interval, j).len() == s.len(),
        total_of(counts_after_missing(cfg, s, value, c, interval, j)) == total_of(s) + j * c,
    decreases j,
{
    cfg.lemma_layout();
    if j == 0 {
        assert(j * c == 0) by {
            lemma_mul_basics(c as int);
        }
    }
    if j > 0 {
        assert((j - 1) * interval < value) by {
            lemma_mul_inequality((j - 1) as int, j as int, interval as int);
        }
        assert(j * c == (j - 1) * c + c) by {
            lemma_mul_is_distributive_sub_other_way(c as int, j as int, 1);
        }
        assert((j - 1) * c <= j * c) by {
            lemma_mul_inequality((j - 1) as int, j as int, c as int);
        }
        lemma_counts_after_missing_total(cfg, s, value, c, interval, (j - 1) as nat);
        let prev = counts_after_missing(cfg, s, value, c, interval, (j - 1) as nat);
        let v = (value - j * interval) as nat;
        cfg.lemma_index_mapping(v);
        let idx = cfg.spec_counts_index(v);
        crate::counting::lemma_elem_le_prefix_total(prev, idx, prev.len());
        lemma_counts_after_record_total(cfg, prev, v, c);
    }
}

/// The tracked minimum after a corrected recording: the recorded value and,
/// when samples were synthesized, the lowest synthetic one.
pub open spec fn spec_min_after_corrected(old_min: u64, value: u64, interval: u64) -> u64 {
    let m = spec_num_missing(value as nat, interval as nat);
    let after_real: u64 = if value != 0 && value < old_min {
        value
    } else {
        old_min
    };
    if m == 0 {
        after_real
    } else {
        let lowest: u64 = ((value as nat - m * (interval as nat)) as u64);
        if lowest < after_real {
            lowest
        } else {
            after_real
        }
    }
}

impl Histogram {
    /// The counter array after a corrected recording of `c` samples at `v`
    /// with the given expected interval.
    pub open spec fn spec_counts_after_corrected(&self, v: nat, c: nat, interval: nat) -> Seq<
        u64,
    > {
        counts_after_missing(
            self.cfg,
            counts_after_record(self.cfg, self.counts@, v, c),
            v,
            c,
            interval,
            spec_num_missing(v, interval),
        )
    }

    /// Records `count` samples of `value` and, when `value` exceeds the
    /// expected sampling interval, also `count` synthetic samples at each
    /// interval step below it, compensating for coordinated omission.
    /// Returns `false` and changes nothing when `value` is out of range.
    pub fn record_corrected_values(
        &mut self,
        value: u64,
        count: u64,
        expected_interval: u64,
    ) -> (ok: bool)
        requires
            old(self).wf(),
            value <= old(self).cfg.highest_trackable_value ==> old(self).total_count + count * (1
                + spec_num_missing(value as nat, expected_interval as nat)) <= u64::MAX,
        ensures
            final(self).wf(),
            final(self).cfg == old(self).cfg,
            ok == (value <= old(self).cfg.highest_trackable_value),
            !ok ==> *final(self) == *old(self),
            ok ==> final(self).counts@ == old(self).spec_counts_after_corrected(
                value as nat,
                count as nat,
                expected_interval as nat,
            ),
            ok ==> final(self).total_count == old(self).total_count + count * (1
                + spec_num_missing(value as nat, expected_interval as nat)),
            ok ==> final(self).min_value == spec_min_after_corrected(
                old(self).min_value,
                value,
                expected_interval,
            ),
            ok ==> final(self).max_value == (if value > old(self).max_value {
                value
            } else {
                old(self).max_value
            }),
    {
        let ghost m = spec_num_missing(value as nat, expected_interval as nat);
        proof {
            assert(count * (1 + m) >= count * 1 && count * 1 == count) by {
                lemma_mul_inequality(1, (1 + m) as int, count as int);
                lemma_mul_is_commutative(count as int, (1 + m) as int);
                lemma_mul_basics(count as int);
            }
        }
        if !self.record_values(value, count) {
            return false;
        }
        if expected_interval == 0 || value <= expected_interval {
            assert(m == 0);
            proof {
                lemma_mul_basics(count as int);
                lemma_mul_is_commutative(count as int, (1 + m) as int);
            }
            return true;
        }
        let ghost s0 = self.counts@;
        let ghost base_total = self.total_count as nat;
        let ghost base_min = self.min_value;
        let ghost base_max = self.max_value;
        let mut delta: u64 = value - expected_interval;
        let mut j: u64 = 0;
        let ghost w = (value - expected_interval) as nat;
        let ghost iv = expected_interval as nat;
        proof {
            lemma_fundamental_div_mod(w as int, iv as int);
            lemma_mod_division_less_than_divisor(w as int, iv as int);
            lemma_mul_basics(iv as int);
            lemma_mul_basics(count as int);
            assert(count * (1 + m) == count + count * m) by {
                lemma_mul_is_distributive_add(count as int, 1, m as int);
                lemma_mul_basics(count as int);
            }
            lemma_mul_is_commutative(count as int, m as int);
        }
        while delta >= expected_interval
            invariant
                self.wf(),
                self.cfg == old(self).cfg,
                expected_interval >= 1,
                expected_interval < value <= old(self).cfg.highest_trackable_value,
                iv == expected_interval as nat,
                w == value as nat - iv,
                m == w / iv,
                m == spec_num_missing(value as nat, expected_interval as nat),
                j <= m,
                delta as nat == value as nat - (j + 1) * iv,
                self.counts@ == counts_after_missing(
                    old(self).cfg,
                    s0,
                    value as nat,
                    count as nat,
                    expected_interval as nat,
                    j as nat,
                ),
                self.total_count as nat == base_total + j * count,
                base_total + m * count <= u64::MAX,
                self.max_value == base_max,
                base_max >= value,
                base_min == (if value != 0 && value < old(self).min_value {
                    value
                } else {
                    old(self).min_value
                }),
                j == 0 ==> self.min_value == base_min,
                j >= 1 ==> self.min_value == (if delta + expected_interval < base_min {
                    (delta + expected_interval) as u64
                } else {
                    base_min
                }),
                s0.len() == old(self).cfg.counts_len,
            decreases delta,
        {
            proof {
                // delta >= interval means another missing sample fits: j + 1 <= m
                assert((j + 1) * iv + iv == (j + 2) * iv && j * iv + iv == (j + 1) * iv) by {
                    lemma_mul_is_distributive_add_other_way(iv as int, (j + 1) as int, 1);
                    lemma_mul_is_distributive_add_other_way(iv as int, j as int, 1);
                }
                assert(w >= (j + 1) * iv);
                assert(j + 1 <= m) by {
                    lemma_div_by_multiple((j + 1) as int, iv as int);
                    lemma_div_is_ordered(((j + 1) * iv) as int, w as int, iv as int);
                }
                assert((j + 1) * count <= m * count) by {
                    lemma_mul_inequality((j + 1) as int, m as int, count as int);
                }
                assert(j * count + count == (j + 1) * count) by {
                    lemma_mul_is_distributive_add_other_way(count as int, j as int, 1);
                }
            }
            let r = self.record_values(delta, count);
            assert(r);
            delta = delta - expected_interval;
            j = j + 1;
        }
        proof {
            // delta fell below the interval, so exactly m samples were added
            assert(w < (j + 1) * iv) by {
                lemma_mul_is_distributive_add_other_way(iv as int, j as int, 1);
            }
            assert(m < j + 1) by {
                lemma_mul_is_commutative((j + 1) as int, iv as int);
                lemma_multiply_divide_lt(w as int, iv as int, (j + 1) as int);
            }
            assert(j == m);
            lemma_mul_is_distributive_add_other_way(count as int, 1, m as int);
            lemma_mul_is_commutative(count as int, (1 + m) as int);
            assert(self.min_value == spec_min_after_corrected(
                old(self).min_value,
                value,
                expected_interval,
            )) by {
                lemma_mul_is_distributive_add_other_way(iv as int, m as int, 1);
            }
        }
        true
    }

    /// Corrected recording of a single sample.
    pub fn record_corrected_value(&mut self, value: u64, expected_interval: u64) -> (ok: bool)
        requires
            old(self).wf(),
            value <= old(self).cfg.highest_trackable_value ==> old(self).total_count + 1
                + spec_num_missing(value as nat, expected_interval as nat) <= u64::MAX,
        ensures
            final(self).wf(),
            final(self).cfg == old(self).cfg,
            ok == (value <= old(self).cfg.highest_trackable_value),
            !ok ==> *final(self) == *old(self),
            ok ==> final(self).counts@ == old(self).spec_counts_after_corrected(
                value as nat,
                1,
                expected_interval as nat,
            ),
            ok ==> final(self).total_count == old(self).total_count + 1 + spec_num_missing(
                value as nat,
                expected_interval as nat,
            ),
            ok ==> final(self).min_value == spec_min_after_corrected(
                old(self).min_value,
                value,
                expected_interval,
            ),
            ok ==> final(self).max_value == (if value > old(self).max_value {
                value
            } else {
                old(self).max_value
            }),
    {
        proof {
            lemma_mul_basics((1 + spec_num_missing(value as nat, expected_interval as nat)) as int);
        }
        self.record_corrected_values(value, 1, expected_interval)
    }
}

/// Relates the running synthetic index to the missing-sample count: the scan
/// is finished exactly when the next step would drop to the interval or below.
pub proof fn lemma_div_interval_count(value: nat, interval: nat, j: nat)
    requires
        interval >= 1,
        value > interval,
        j * interval <= value - interval,
    ensures
        (value - interval >= j * interval + interval) ==> j + 1 <= spec_num_missing(
            value,
            interval,
        ),
        (value - (j + 1) * interval < interval + interval) ==> spec_num_missing(value, interval)
            <= j + 1,
{
    let m = spec_num_missing(value, interval);
    let w = (value - interval) as nat;
    lemma_fundamental_div_mod(w as int, interval as int);
    lemma_mod_division_less_than_divisor(w as int, interval as int);
    if w >= j * interval + interval {
        assert((j + 1) * interval <= w) by {
            lemma_mul_is_distributive_add_other_way(interval as int, j as int, 1);
        }
        assert(j + 1 <= w / interval) by {
            lemma_div_by_multiple((j + 1) as int, interval as int);
            lemma_div_is_ordered(((j + 1) * interval) as int, w as int, interval as int);
        }
    }
    if value - (j + 1) * interval < interval + interval {
        // w < (j+2) * interval, so w / interval <= j + 1
        assert(w < (j + 2) * interval) by {
            lemma_mul_is_distributive_add_other_way(interval as int, (j + 1) as int, 1);
            lemma_mul_is_distributive_add_other_way(interval as int, j as int, 1);
        }
        assert(w / interval < j + 2) by {
            lemma_mul_is_commutative((j + 2) as int, interval as int);
            lemma_multiply_divide_lt(w as int, interval as int, (j + 2) as int);
        }
    }
}

/// When correction adds any synthetic sample, they all stay strictly
/// below the recorded value (and above zero).
pub proof fn lemma_missing_span(value: nat, interval: nat)
    requires
        spec_num_missing(value, interval) > 0,
    ensures
        interval >= 1,
        interval < value,
        spec_num_missing(value, interval) * interval < value,
{
    let w = (value - interval) as nat;
    let m = spec_num_missing(value, interval);
    lemma_fundamental_div_mod(w as int, interval as int);
    lemma_mod_division_less_than_divisor(w as int, interval as int);
    lemma_mul_is_commutative(m as int, interval as int);
}

} // verus!
