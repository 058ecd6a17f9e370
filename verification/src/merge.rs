//! Merging: adds every recorded count of a source histogram into a
//! destination, re-bucketing by value so differing layouts combine correctly.
//! Source samples above the destination's range are dropped and counted.

use vstd::arithmetic::mul::*;
use vstd::prelude::*;

use crate::bucketing::BucketConfig;
use crate::correction::{
    counts_after_record, lemma_counts_after_missing_total, lemma_counts_after_record_total,
    spec_min_after_corrected, spec_num_missing,
};
use crate::counting::{
    lemma_elem_le_prefix_total, lemma_prefix_total_monotonic, prefix_total, total_of,
};
use crate::histogram::Histogram;

verus! {

/// Destination counters after merging the first `n` source slots.
pub open spec fn merged_counts(
    dcfg: BucketConfig,
    d: Seq<u64>,
    scfg: BucketConfig,
    s: Seq<u64>,
    n: nat,
) -> Seq<u64>
    decreases n,
{
    if n == 0 {
        d
    } else {
        let prev = merged_counts(dcfg, d, scfg, s, (n - 1) as nat);
        let v = scfg.spec_value_at((n - 1) as nat);
        let c = s[n - 1] as nat;
        if c > 0 && v <= dcfg.highest_trackable_value {
            counts_after_record(dcfg, prev, v, c)
        } else {
            prev
        }
    }
}

/// Source samples among the first `n` slots that the destination cannot hold.
pub open spec fn merged_dropped(dcfg: BucketConfig, scfg: BucketConfig, s: Seq<u64>, n: nat) -> nat
    decreases n,
{
    if n == 0 {
        0
    } else {
        merged_dropped(dcfg, scfg, s, (n - 1) as nat) + (if s[n - 1] > 0
            && scfg.spec_value_at((n - 1) as nat) > dcfg.highest_trackable_value {
            s[n - 1] as nat
        } else {
            0
        })
    }
}

/// The tracked minimum after merging the first `n` source slots into a
/// destination whose minimum was `m0`.
pub open spec fn merged_min_value(
    dcfg: BucketConfig,
    scfg: BucketConfig,
    s: Seq<u64>,
    n: nat,
    m0: u64,
) -> u64
    decreases n,
{
    if n == 0 {
        m0
    } else {
        let prev = merged_min_value(dcfg, scfg, s, (n - 1) as nat, m0);
        let v = scfg.spec_value_at((n - 1) as nat);
        if s[n - 1] > 0 && v <= dcfg.highest_trackable_value {
            if v != 0 && v < prev {
                v as u64
            } else {
                prev
            }
        } else {
            prev
        }
    }
}

/// The tracked maximum after merging the first `n` source slots into a
/// destination whose maximum was `m0`.
pub open spec fn merged_max_value(
    dcfg: BucketConfig,
    scfg: BucketConfig,
    s: Seq<u64>,
    n: nat,
    m0: u64,
) -> u64
    decreases n,
{
    if n == 0 {
        m0
    } else {
        let prev = merged_max_value(dcfg, scfg, s, (n - 1) as nat, m0);
        let v = scfg.spec_value_at((n - 1) as nat);
        if s[n - 1] > 0 && v <= dcfg.highest_trackable_value && v > prev {
            v as u64
        } else {
            prev
        }
    }
}

/// Merge conservation at the spec level: what lands in the destination is the
/// source prefix minus what was dropped.
pub proof fn lemma_merged_totals(
    dcfg: BucketConfig,
    d: Seq<u64>,
    scfg: BucketConfig,
    s: Seq<u64>,
    n: nat,
)
    requires
        dcfg.wf(),
        scfg.wf(),
        d.len() == dcfg.counts_len,
        s.len() == scfg.counts_len,
        n <= s.len(),
        total_of(d) + prefix_total(s, n) <= u64::MAX,
    ensures
        merged_counts(dcfg, d, scfg, s, n).len() == d.len(),
        merged_dropped(dcfg, scfg, s, n) <= prefix_total(s, n),
        total_of(merged_counts(dcfg, d, scfg, s, n)) == total_of(d) + prefix_total(s, n)
            - merged_dropped(dcfg, scfg, s, n),
    decreases n,
{
    dcfg.lemma_layout();
    if n > 0 {
        lemma_merged_totals(dcfg, d, scfg, s, (n - 1) as nat);
        let prev = merged_counts(dcfg, d, scfg, s, (n - 1) as nat);
        let v = scfg.spec_value_at((n - 1) as nat);
        let c = s[n - 1] as nat;
        if c > 0 && v <= dcfg.highest_trackable_value {
            dcfg.lemma_index_mapping(v);
            let idx = dcfg.spec_counts_index(v);
            lemma_elem_le_prefix_total(prev, idx, prev.len());
            lemma_counts_after_record_total(dcfg, prev, v, c);
        }
    }
}

impl Histogram {
    /// Adds every recorded sample of `other` into `self`, slot by slot,
    /// re-bucketing each source value. Samples beyond this histogram's range
    /// are dropped; their count is returned. The resulting total is the sum
    /// of both totals minus the dropped count.
    pub fn add(&mut self, other: &Histogram) -> (dropped: u64)
        requires
            old(self).wf(),
            other.wf(),
            old(self).total_count + other.total_count <= u64::MAX,
        ensures
            final(self).wf(),
            final(self).cfg == old(self).cfg,
            final(self).counts@ == merged_counts(
                old(self).cfg,
                old(self).counts@,
                other.cfg,
                other.counts@,
                other.counts@.len() as nat,
            ),
            dropped as nat == merged_dropped(
                old(self).cfg,
                other.cfg,
                other.counts@,
                other.counts@.len() as nat,
            ),
            final(self).total_count == old(self).total_count + other.total_count - dropped,
            dropped <= other.total_count,
            final(self).min_value == merged_min_value(
                old(self).cfg,
                other.cfg,
                other.counts@,
                other.counts@.len() as nat,
                old(self).min_value,
            ),
            final(self).max_value == merged_max_value(
                old(self).cfg,
                other.cfg,
                other.counts@,
                other.counts@.len() as nat,
                old(self).max_value,
            ),
    {
        let ghost dcfg = self.cfg;
        let ghost d0 = self.counts@;
        let ghost s = other.counts@;
        let ghost base_total = self.total_count as nat;
        let ghost base_min = self.min_value;
        let ghost base_max = self.max_value;
        let len = other.counts.len();
        let mut dropped: u64 = 0;
        let mut i: usize = 0;
        proof {
            lemma_merged_totals(dcfg, d0, other.cfg, s, 0);
        }
        while i < len
            invariant
                self.wf(),
                other.wf(),
                self.cfg == dcfg,
                dcfg == old(self).cfg,
                d0 == old(self).counts@,
                s == other.counts@,
                len == s.len(),
                i <= len,
                d0.len() == dcfg.counts_len,
                base_total == old(self).total_count as nat,
                base_total + other.total_count <= u64::MAX,
                self.counts@ == merged_counts(dcfg, d0, other.cfg, s, i as nat),
                dropped as nat == merged_dropped(dcfg, other.cfg, s, i as nat),
                self.total_count as nat == base_total + prefix_total(s, i as nat) - dropped,
                dropped as nat <= prefix_total(s, i as nat),
                base_min == old(self).min_value,
                base_max == old(self).max_value,
                self.min_value == merged_min_value(dcfg, other.cfg, s, i as nat, base_min),
                self.max_value == merged_max_value(dcfg, other.cfg, s, i as nat, base_max),
            decreases len - i,
        {
            proof {
                lemma_prefix_total_monotonic(s, (i + 1) as nat, s.len());
                lemma_elem_le_prefix_total(s, i as nat, s.len());
            }
            let c = other.counts[i];
            if c > 0 {
                let v = other.cfg.value_at_index(i);
                let ok = self.record_values(v, c);
                if !ok {
                    dropped = dropped + c;
                }
            }
            i = i + 1;
        }
        proof {
            assert(prefix_total(s, len as nat) == other.total_count);
        }
        dropped
    }
}

/// Destination counters after merging the first `n` source slots with
/// coordinated-omission correction at the given interval.
pub open spec fn corrected_merged_counts(
    dcfg: BucketConfig,
    d: Seq<u64>,
    scfg: BucketConfig,
    s: Seq<u64>,
    interval: nat,
    n: nat,
) -> Seq<u64>
    decreases n,
{
    if n == 0 {
        d
    } else {
        let prev = corrected_merged_counts(dcfg, d, scfg, s, interval, (n - 1) as nat);
        let v = scfg.spec_value_at((n - 1) as nat);
        let c = s[n - 1] as nat;
        if c > 0 && v <= dcfg.highest_trackable_value {
            crate::correction::counts_after_missing(
                dcfg,
                counts_after_record(dcfg, prev, v, c),
                v,
                c,
                interval,
                spec_num_missing(v, interval),
            )
        } else {
            prev
        }
    }
}

/// The tracked minimum after a corrected merge of the first `n` source slots.
pub open spec fn corrected_merged_min_value(
    dcfg: BucketConfig,
    scfg: BucketConfig,
    s: Seq<u64>,
    interval: u64,
    n: nat,
    m0: u64,
) -> u64
    decreases n,
{
    if n == 0 {
        m0
    } else {
        let prev = corrected_merged_min_value(dcfg, scfg, s, interval, (n - 1) as nat, m0);
        let v = scfg.spec_value_at((n - 1) as nat);
        if s[n - 1] > 0 && v <= dcfg.highest_trackable_value {
            spec_min_after_corrected(prev, v as u64, interval)
        } else {
            prev
        }
    }
}

/// The tracked maximum after a corrected merge of the first `n` source slots.
pub open spec fn corrected_merged_max_value(
    dcfg: BucketConfig,
    scfg: BucketConfig,
    s: Seq<u64>,
    n: nat,
    m0: u64,
) -> u64 {
    merged_max_value(dcfg, scfg, s, n, m0)
}

/// Samples the corrected merge drops from the first `n` source slots.
pub open spec fn corrected_merged_dropped(
    dcfg: BucketConfig,
    scfg: BucketConfig,
    s: Seq<u64>,
    n: nat,
) -> nat {
    merged_dropped(dcfg, scfg, s, n)
}

/// Samples (real plus synthetic) that correcting the first `n` source slots
/// hands to the destination, dropped ones included.
pub open spec fn corrected_weight(
    dcfg: BucketConfig,
    scfg: BucketConfig,
    s: Seq<u64>,
    interval: nat,
    n: nat,
) -> nat
    decreases n,
{
    if n == 0 {
        0
    } else {
        corrected_weight(dcfg, scfg, s, interval, (n - 1) as nat) + (s[n - 1] as nat) * (1
            + spec_num_missing(scfg.spec_value_at((n - 1) as nat), interval))
    }
}

/// The corrected merge adds at most `corrected_weight` samples and keeps the
/// destination well-sized.
pub proof fn lemma_corrected_merged_totals(
    dcfg: BucketConfig,
    d: Seq<u64>,
    scfg: BucketConfig,
    s: Seq<u64>,
    interval: nat,
    n: nat,
)
    requires
        dcfg.wf(),
        scfg.wf(),
        d.len() == dcfg.counts_len,
        s.len() == scfg.counts_len,
        n <= s.len(),
        total_of(d) + corrected_weight(dcfg, scfg, s, interval, n) <= u64::MAX,
    ensures
        corrected_merged_counts(dcfg, d, scfg, s, interval, n).len() == d.len(),
        total_of(corrected_merged_counts(dcfg, d, scfg, s, interval, n)) <= total_of(d)
            + corrected_weight(dcfg, scfg, s, interval, n),
    decreases n,
{
    dcfg.lemma_layout();
    if n > 0 {
        let c = s[n - 1] as nat;
        let v = scfg.spec_value_at((n - 1) as nat);
        let m = spec_num_missing(v, interval);
        assert(corrected_weight(dcfg, scfg, s, interval, (n - 1) as nat) <= corrected_weight(
            dcfg,
            scfg,
            s,
            interval,
            n,
        ));
        lemma_corrected_merged_totals(dcfg, d, scfg, s, interval, (n - 1) as nat);
        let prev = corrected_merged_counts(dcfg, d, scfg, s, interval, (n - 1) as nat);
        if c > 0 && v <= dcfg.highest_trackable_value {
            dcfg.lemma_index_mapping(v);
            lemma_elem_le_prefix_total(prev, dcfg.spec_counts_index(v), prev.len());
            assert(c * (1 + m) == c + c * m) by {
                lemma_mul_is_distributive_add(c as int, 1, m as int);
                lemma_mul_basics(c as int);
            }
            lemma_counts_after_record_total(dcfg, prev, v, c);
            let mid = counts_after_record(dcfg, prev, v, c);
            lemma_mul_is_commutative(c as int, m as int);
            if m > 0 {
                // every synthetic value stays positive: m * interval < v
                crate::correction::lemma_missing_span(v, interval);
                lemma_counts_after_missing_total(dcfg, mid, v, c, interval, m);
            } else {
                assert(m * c == 0) by {
                    lemma_mul_basics(c as int);
                }
            }
        }
    }
}

impl Histogram {
    /// Merges `other` into `self` while re-synthesizing coordinated-omission
    /// correction in this histogram's own bucket layout: each recorded source
    /// value is recorded here with the corrected variant. Returns the count
    /// of source samples beyond this histogram's range, which are dropped.
    pub fn add_while_correcting_for_coordinated_omission(
        &mut self,
        other: &Histogram,
        expected_interval: u64,
    ) -> (dropped: u64)
        requires
            old(self).wf(),
            other.wf(),
            old(self).total_count + corrected_weight(
                old(self).cfg,
                other.cfg,
                other.counts@,
                expected_interval as nat,
                other.counts@.len() as nat,
            ) <= u64::MAX,
        ensures
            final(self).wf(),
            final(self).cfg == old(self).cfg,
            final(self).counts@ == corrected_merged_counts(
                old(self).cfg,
                old(self).counts@,
                other.cfg,
                other.counts@,
                expected_interval as nat,
                other.counts@.len() as nat,
            ),
            dropped as nat == corrected_merged_dropped(
                old(self).cfg,
                other.cfg,
                other.counts@,
                other.counts@.len() as nat,
            ),
            final(self).min_value == corrected_merged_min_value(
                old(self).cfg,
                other.cfg,
                other.counts@,
                expected_interval,
                other.counts@.len() as nat,
                old(self).min_value,
            ),
            final(self).max_value == corrected_merged_max_value(
                old(self).cfg,
                other.cfg,
                other.counts@,
                other.counts@.len() as nat,
                old(self).max_value,
            ),
    {
        let ghost dcfg = self.cfg;
        let ghost d0 = self.counts@;
        let ghost s = other.counts@;
        let ghost iv = expected_interval as nat;
        let ghost base_total = self.total_count as nat;
        let ghost base_min = self.min_value;
        let ghost base_max = self.max_value;
        let ghost full_weight = corrected_weight(dcfg, other.cfg, s, iv, s.len());
        let len = other.counts.len();
        let mut dropped: u64 = 0;
        let mut i: usize = 0;
        while i < len
            invariant
                self.wf(),
                other.wf(),
                self.cfg == dcfg,
                dcfg == old(self).cfg,
                d0 == old(self).counts@,
                s == other.counts@,
                iv == expected_interval as nat,
                len == s.len(),
                i <= len,
                d0.len() == dcfg.counts_len,
                base_total == old(self).total_count as nat,
                full_weight == corrected_weight(dcfg, other.cfg, s, iv, s.len()),
                base_total + full_weight <= u64::MAX,
                self.counts@ == corrected_merged_counts(dcfg, d0, other.cfg, s, iv, i as nat),
                dropped as nat == merged_dropped(dcfg, other.cfg, s, i as nat),
                self.total_count as nat <= base_total + corrected_weight(
                    dcfg,
                    other.cfg,
                    s,
                    iv,
                    i as nat,
                ),
                dropped as nat <= corrected_weight(dcfg, other.cfg, s, iv, i as nat),
                base_min == old(self).min_value,
                base_max == old(self).max_value,
                self.min_value == corrected_merged_min_value(
                    dcfg,
                    other.cfg,
                    s,
                    expected_interval,
                    i as nat,
                    base_min,
                ),
                self.max_value == corrected_merged_max_value(dcfg, other.cfg, s, i as nat, base_max),
            decreases len - i,
        {
            proof {
                lemma_corrected_weight_monotonic(dcfg, other.cfg, s, iv, (i + 1) as nat, s.len());
            }
            let c = other.counts[i];
            if c > 0 {
                let v = other.cfg.value_at_index(i);
                proof {
                    let m = spec_num_missing(v as nat, iv);
                    assert(c * (1 + m) >= c * 1) by {
                        lemma_mul_inequality(1, (1 + m) as int, c as int);
                        lemma_mul_is_commutative(c as int, (1 + m) as int);
                    }
                    lemma_mul_basics(c as int);
                }
                let ok = self.record_corrected_values(v, c, expected_interval);
                if !ok {
                    dropped = dropped + c;
                }
            }
            i = i + 1;
        }
        dropped
    }
}

/// Weights only grow with the prefix they cover.
pub proof fn lemma_corrected_weight_monotonic(
    dcfg: BucketConfig,
    scfg: BucketConfig,
    s: Seq<u64>,
    interval: nat,
    a: nat,
    b: nat,
)
    requires
        a <= b,
    ensures
        corrected_weight(dcfg, scfg, s, interval, a) <= corrected_weight(
            dcfg,
            scfg,
            s,
            interval,
            b,
        ),
    decreases b,
{
    if a < b {
        lemma_corrected_weight_monotonic(dcfg, scfg, s, interval, a, (b - 1) as nat);
    }
}

} // verus!
