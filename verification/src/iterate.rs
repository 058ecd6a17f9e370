//! Iteration over the counter array: a cursor walks the slots in order and
//! yields steps under a strategy — every recorded slot, fixed linear value
//! steps, or multiplicative logarithmic steps.
//!
//! Iterators hold no reference; each call to `next` takes the histogram it
//! was created from, and the invariant ties the cursor to that histogram's
//! counters.

use vstd::prelude::*;

use crate::bucketing::{log2_floor_u64, pow2_u64};
use crate::counting::{lemma_prefix_total_monotonic, prefix_total, total_of};
use crate::histogram::Histogram;
use vstd::arithmetic::power2::{lemma2_to64, lemma2_to64_rest, lemma_pow2_adds, pow2};

verus! {

/// One step of a counting iteration.
#[derive(PartialEq, Eq, PartialOrd, Ord, Clone, Copy, Debug)]
pub struct CountIterItem {
    /// Samples first counted by this step. Equivalent-value ranges may span
    /// several steps, so this can differ from the count at the step's value.
    pub count_added_in_this_iteration_step: u64,
    /// The count in the counter slot the cursor stands on.
    pub count: u64,
    /// The value the cursor stands on.
    pub value: u64,
    /// Largest value equivalent to `value`.
    pub highest_equivalent_value: u64,
    /// Midpoint of the range equivalent to `value`.
    pub median_equivalent_value: u64,
    /// Smallest value equivalent to `value`.
    pub lowest_equivalent_value: u64,
    /// Where the previous step reported to.
    pub value_iterated_from: u64,
    /// Where this step reports to.
    pub value_iterated_to: u64,
}


/// Yields one step per counter slot, empty slots included.
pub struct AllValuesIter {
    /// Slots examined so far.
    pub pos: usize,
    /// Samples seen so far: the prefix total over the examined slots.
    pub cumulative: u64,
    /// Where the previous step reported to.
    pub value_iterated_to: u64,
}

impl AllValuesIter {
    /// The cursor stays inside `h`'s counter array and `cumulative` is the
    /// exact prefix total of the examined slots.
    pub open spec fn inv(&self, h: &Histogram) -> bool {
        &&& self.pos <= h.cfg.counts_len
        &&& self.cumulative as nat == prefix_total(h.counts@, self.pos as nat)
    }

    /// Reports the next slot, whether or not it holds samples.
    pub fn next(&mut self, h: &Histogram) -> (item: Option<CountIterItem>)
        requires
            h.wf(),
            old(self).inv(h),
        ensures
            final(self).inv(h),
            old(self).pos <= final(self).pos,
            match item {
                Some(it) => {
                    &&& final(self).pos == old(self).pos + 1
                    &&& final(self).pos <= h.cfg.counts_len
                    &&& it.count == h.counts@[old(self).pos as int]
                    &&& it.count_added_in_this_iteration_step == it.count
                    &&& final(self).cumulative == old(self).cumulative + it.count
                    &&& it.value as nat == h.cfg.spec_value_at(old(self).pos as nat)
                    &&& it.lowest_equivalent_value as nat == h.cfg.spec_lowest_equivalent(
                        it.value as nat,
                    )
                    &&& it.highest_equivalent_value as nat == h.cfg.spec_highest_equivalent(
                        it.value as nat,
                    )
                    &&& it.median_equivalent_value as nat == h.cfg.spec_median_equivalent(
                        it.value as nat,
                    )
                },
                None => {
                    &&& *final(self) == *old(self)
                    &&& final(self).pos == h.cfg.counts_len
                    &&& final(self).cumulative == h.total_count
                },
            },
    {
        let len = h.counts.len();
        let ghost s = h.counts@;
        if self.pos >= len {
            proof {
                lemma_prefix_total_monotonic(s, self.pos as nat, s.len());
            }
            return None;
        }
        proof {
            lemma_prefix_total_monotonic(s, (self.pos + 1) as nat, s.len());
        }
        let c = h.counts[self.pos];
        self.cumulative = self.cumulative + c;
        let value = h.cfg.value_at_index(self.pos);
        self.pos = self.pos + 1;
        let from = self.value_iterated_to;
        self.value_iterated_to = value;
        Some(
            CountIterItem {
                count_added_in_this_iteration_step: c,
                count: c,
                value,
                highest_equivalent_value: h.cfg.highest_equivalent_any(value),
                median_equivalent_value: h.cfg.median_equivalent_any(value),
                lowest_equivalent_value: h.cfg.lowest_equivalent_any(value),
                value_iterated_from: from,
                value_iterated_to: value,
            },
        )
    }
}

/// Yields one step per counter slot holding at least one sample.
pub struct RecordedIter {
    /// Slots examined so far.
    pub pos: usize,
    /// Samples seen so far: the prefix total over the examined slots.
    pub cumulative: u64,
    /// Where the previous step reported to.
    pub value_iterated_to: u64,
}

impl RecordedIter {
    /// The cursor stays inside `h`'s counter array and `cumulative` is the
    /// exact prefix total of the examined slots.
    pub open spec fn inv(&self, h: &Histogram) -> bool {
        &&& self.pos <= h.cfg.counts_len
        &&& self.cumulative as nat == prefix_total(h.counts@, self.pos as nat)
    }

    /// Advances to the next slot holding samples and reports it. Summing
    /// `count_added_in_this_iteration_step` over a full iteration gives
    /// exactly `total_count`: each step adds its count to `cumulative`,
    /// which starts at 0 and equals `total_count` when `None` is reported.
    pub fn next(&mut self, h: &Histogram) -> (item: Option<CountIterItem>)
        requires
            h.wf(),
            old(self).inv(h),
        ensures
            final(self).inv(h),
            old(self).pos <= final(self).pos,
            match item {
                Some(it) => {
                    &&& old(self).pos < final(self).pos <= h.cfg.counts_len
                    &&& h.counts@[final(self).pos - 1] != 0
                    &&& forall|k: int|
                        old(self).pos <= k < final(self).pos - 1 ==> h.counts@[k] == 0
                    &&& it.count == h.counts@[final(self).pos - 1]
                    &&& it.count_added_in_this_iteration_step == it.count
                    &&& final(self).cumulative == old(self).cumulative + it.count
                    &&& it.value as nat == h.cfg.spec_value_at((final(self).pos - 1) as nat)
                    &&& it.lowest_equivalent_value as nat == h.cfg.spec_lowest_equivalent(
                        it.value as nat,
                    )
                    &&& it.highest_equivalent_value as nat == h.cfg.spec_highest_equivalent(
                        it.value as nat,
                    )
                    &&& it.median_equivalent_value as nat == h.cfg.spec_median_equivalent(
                        it.value as nat,
                    )
                },
                None => {
                    &&& final(self).cumulative == old(self).cumulative
                    &&& final(self).cumulative == h.total_count
                    &&& final(self).pos == h.cfg.counts_len
                },
            },
    {
        let len = h.counts.len();
        let ghost s = h.counts@;
        while self.pos < len
            invariant
                h.wf(),
                self.inv(h),
                len == h.cfg.counts_len,
                s == h.counts@,
                old(self).pos <= self.pos,
                self.cumulative == old(self).cumulative,
                self.value_iterated_to == old(self).value_iterated_to,
                forall|k: int| old(self).pos <= k < self.pos ==> h.counts@[k] == 0,
            decreases len - self.pos,
        {
            proof {
                lemma_prefix_total_monotonic(s, (self.pos + 1) as nat, s.len());
            }
            let c = h.counts[self.pos];
            self.pos = self.pos + 1;
            if c > 0 {
                self.cumulative = self.cumulative + c;
                let value = h.cfg.value_at_index(self.pos - 1);
                let from = self.value_iterated_to;
                self.value_iterated_to = value;
                return Some(
                    CountIterItem {
                        count_added_in_this_iteration_step: c,
                        count: c,
                        value,
                        highest_equivalent_value: h.cfg.highest_equivalent_any(value),
                        median_equivalent_value: h.cfg.median_equivalent_any(value),
                        lowest_equivalent_value: h.cfg.lowest_equivalent_any(value),
                        value_iterated_from: from,
                        value_iterated_to: value,
                    },
                );
            }
        }
        None
    }
}

/// Yields one step per fixed-width value bucket, empty buckets included,
/// until the recorded range is covered.
pub struct LinearIter {
    /// Slots consumed so far.
    pub pos: usize,
    /// Set once the cursor has tried to move past the last slot.
    pub exhausted: bool,
    /// Samples consumed so far: the prefix total over the consumed slots.
    pub cumulative: u64,
    /// Count in the slot the cursor stands on.
    pub count: u64,
    /// Value of the slot the cursor stands on; 0 before the first move.
    pub value: u64,
    /// Width of one reporting bucket.
    pub value_units_per_bucket: u64,
    /// Next reporting boundary.
    pub next_level: u64,
    /// Lowest value equivalent to the next boundary.
    pub next_level_low_eq: u64,
    /// Where the previous step reported to.
    pub value_iterated_to: u64,
}

impl LinearIter {
    /// Cursor consistency with `h`. A boundary saturated at the largest word
    /// carries a saturated lowest-equivalent too, so stepping provably stops
    /// there: no slot value reaches it.
    pub open spec fn inv(&self, h: &Histogram) -> bool {
        &&& self.pos <= h.cfg.counts_len
        &&& self.cumulative as nat == prefix_total(h.counts@, self.pos as nat)
        &&& (self.exhausted ==> self.pos == h.cfg.counts_len)
        &&& (self.pos == 0 ==> self.value == 0 && self.count == 0)
        &&& (self.pos >= 1 ==> self.value as nat == h.cfg.spec_value_at((self.pos - 1) as nat))
        &&& (self.pos >= 1 ==> self.count == h.counts@[self.pos - 1])
        &&& (self.next_level < u64::MAX ==> self.next_level_low_eq as nat
            == h.cfg.spec_lowest_equivalent(self.next_level as nat))
        &&& (self.next_level == u64::MAX ==> self.next_level_low_eq == u64::MAX)
        &&& self.next_level >= 1
        &&& self.value_units_per_bucket >= 1
    }

    /// Consumes slots up to the next reporting boundary and reports the
    /// samples first counted on the way. Each step adds exactly its
    /// `count_added_in_this_iteration_step` to `cumulative`, which equals
    /// `total_count` once `None` is reported.
    pub fn next(&mut self, h: &Histogram) -> (item: Option<CountIterItem>)
        requires
            h.wf(),
            old(self).inv(h),
        ensures
            final(self).inv(h),
            old(self).pos <= final(self).pos,
            match item {
                Some(it) => {
                    &&& final(self).pos <= h.cfg.counts_len
                    &&& it.count_added_in_this_iteration_step as nat == prefix_total(
                        h.counts@,
                        final(self).pos as nat,
                    ) - prefix_total(h.counts@, old(self).pos as nat)
                    &&& final(self).cumulative == old(self).cumulative
                        + it.count_added_in_this_iteration_step
                    &&& it.count == final(self).count
                    &&& it.value == final(self).value
                    &&& it.lowest_equivalent_value as nat == h.cfg.spec_lowest_equivalent(
                        it.value as nat,
                    )
                    &&& it.highest_equivalent_value as nat == h.cfg.spec_highest_equivalent(
                        it.value as nat,
                    )
                    &&& it.median_equivalent_value as nat == h.cfg.spec_median_equivalent(
                        it.value as nat,
                    )
                    &&& !old(self).exhausted
                    &&& final(self).value_units_per_bucket == old(self).value_units_per_bucket
                    &&& (final(self).pos > old(self).pos || final(self).next_level > old(
                        self,
                    ).next_level)
                    &&& forall|k: int|
                        old(self).pos <= k < final(self).pos - 1 ==> (
                        #[trigger] h.cfg.spec_value_at(k as nat)) < old(self).next_level_low_eq
                    &&& (!final(self).exhausted ==> {
                        // a boundary step: the cursor reached the reporting level
                        &&& old(self).next_level < u64::MAX
                        &&& it.value >= old(self).next_level_low_eq
                        &&& it.value_iterated_to == old(self).next_level
                        &&& final(self).value_iterated_to == old(self).next_level
                        &&& final(self).next_level == (if old(self).next_level <= u64::MAX - old(
                            self,
                        ).value_units_per_bucket {
                            (old(self).next_level + old(self).value_units_per_bucket) as u64
                        } else {
                            u64::MAX
                        })
                    })
                    &&& (final(self).exhausted ==> {
                        // the array ended below the reporting level
                        &&& final(self).pos == h.cfg.counts_len
                        &&& it.value < old(self).next_level_low_eq
                        &&& final(self).next_level == old(self).next_level
                        &&& final(self).value_iterated_to == old(self).value_iterated_to
                        &&& it.value_iterated_to == old(self).value_iterated_to
                    })
                },
                None => {
                    &&& *final(self) == *old(self)
                    &&& final(self).cumulative == h.total_count
                },
            },
    {
        let len = h.counts.len();
        let ghost s = h.counts@;
        let ghost entry = *old(self);
        if !(self.cumulative < h.total_count() || (!self.exhausted && self.value
            >= self.next_level_low_eq)) {
            proof {
                lemma_prefix_total_monotonic(s, self.pos as nat, s.len());
            }
            return None;
        }
        proof {
            if self.exhausted {
                assert(self.cumulative == h.total_count);
                assert(false);
            }
        }
        let mut count_added: u64 = 0;
        loop
            invariant
                h.wf(),
                self.inv(h),
                len == h.cfg.counts_len,
                s == h.counts@,
                entry == *old(self),
                entry.pos <= self.pos,
                !entry.exhausted,
                !self.exhausted,
                count_added as nat == prefix_total(s, self.pos as nat) - prefix_total(
                    s,
                    entry.pos as nat,
                ),
                self.cumulative as nat == entry.cumulative as nat + count_added,
                self.next_level == entry.next_level,
                self.next_level_low_eq == entry.next_level_low_eq,
                self.value_units_per_bucket == entry.value_units_per_bucket,
                self.value_iterated_to == entry.value_iterated_to,
                self.pos == entry.pos ==> self.value == entry.value,
                entry.cumulative < h.total_count || entry.value >= entry.next_level_low_eq,
                forall|k: int|
                    entry.pos <= k < self.pos - 1 ==> (#[trigger] h.cfg.spec_value_at(k as nat))
                        < entry.next_level_low_eq,
            decreases len - self.pos, 1int,
        {
            if self.value >= self.next_level_low_eq {
                proof {
                    // a slot value never reaches a saturated boundary
                    if self.next_level == u64::MAX {
                        if self.pos >= 1 {
                            h.cfg.lemma_slot_value_lt_max((self.pos - 1) as nat);
                        }
                        assert(false);
                    }
                }
                let from = self.value_iterated_to;
                self.value_iterated_to = self.next_level;
                let item = CountIterItem {
                    count_added_in_this_iteration_step: count_added,
                    count: self.count,
                    value: self.value,
                    highest_equivalent_value: h.cfg.highest_equivalent_any(self.value),
                    median_equivalent_value: h.cfg.median_equivalent_any(self.value),
                    lowest_equivalent_value: h.cfg.lowest_equivalent_any(self.value),
                    value_iterated_from: from,
                    value_iterated_to: self.next_level,
                };
                let units = self.value_units_per_bucket;
                if self.next_level <= u64::MAX - units {
                    self.next_level = self.next_level + units;
                } else {
                    self.next_level = u64::MAX;
                }
                if self.next_level < u64::MAX {
                    self.next_level_low_eq = h.cfg.lowest_equivalent_any(self.next_level);
                } else {
                    self.next_level_low_eq = u64::MAX;
                }
                return Some(item);
            }
            if self.pos >= len {
                proof {
                    // the first probe cannot already sit at the end: the
                    // entry guard would have reported the iteration done
                    if self.pos == entry.pos {
                        assert(self.cumulative == h.total_count);
                        assert(false);
                    }
                }
                self.exhausted = true;
                return Some(
                    CountIterItem {
                        count_added_in_this_iteration_step: count_added,
                        count: self.count,
                        value: self.value,
                        highest_equivalent_value: h.cfg.highest_equivalent_any(self.value),
                        median_equivalent_value: h.cfg.median_equivalent_any(self.value),
                        lowest_equivalent_value: h.cfg.lowest_equivalent_any(self.value),
                        value_iterated_from: self.value_iterated_to,
                        value_iterated_to: self.value_iterated_to,
                    },
                );
            }
            proof {
                lemma_prefix_total_monotonic(s, (self.pos + 1) as nat, s.len());
            }
            let c = h.counts[self.pos];
            self.count = c;
            self.cumulative = self.cumulative + c;
            count_added = count_added + c;
            self.value = h.cfg.value_at_index(self.pos);
            self.pos = self.pos + 1;
        }
    }
}

/// Yields one step per multiplicative value bucket: each boundary is the
/// previous one times the base.
pub struct LogIter {
    /// Slots consumed so far.
    pub pos: usize,
    /// Set once the cursor has tried to move past the last slot.
    pub exhausted: bool,
    /// Samples consumed so far.
    pub cumulative: u64,
    /// Count in the slot the cursor stands on.
    pub count: u64,
    /// Value of the slot the cursor stands on; 0 before the first move.
    pub value: u64,
    /// Multiplier between consecutive boundaries.
    pub log_base: u64,
    /// Next reporting boundary.
    pub next_level: u64,
    /// Lowest value equivalent to the next boundary.
    pub next_level_low_eq: u64,
    /// Where the previous step reported to.
    pub value_iterated_to: u64,
}

impl LogIter {
    /// Cursor consistency with `h`; the saturated-boundary rule is as for
    /// the linear iterator.
    pub open spec fn inv(&self, h: &Histogram) -> bool {
        &&& self.pos <= h.cfg.counts_len
        &&& self.cumulative as nat == prefix_total(h.counts@, self.pos as nat)
        &&& (self.exhausted ==> self.pos == h.cfg.counts_len)
        &&& (self.pos == 0 ==> self.value == 0 && self.count == 0)
        &&& (self.pos >= 1 ==> self.value as nat == h.cfg.spec_value_at((self.pos - 1) as nat))
        &&& (self.pos >= 1 ==> self.count == h.counts@[self.pos - 1])
        &&& (self.next_level < u64::MAX ==> self.next_level_low_eq as nat
            == h.cfg.spec_lowest_equivalent(self.next_level as nat))
        &&& (self.next_level == u64::MAX ==> self.next_level_low_eq == u64::MAX)
        &&& self.next_level >= 1
        &&& self.log_base >= 2
    }

    /// Consumes slots up to the next logarithmic boundary; conservation is
    /// as for the linear iterator.
    pub fn next(&mut self, h: &Histogram) -> (item: Option<CountIterItem>)
        requires
            h.wf(),
            old(self).inv(h),
        ensures
            final(self).inv(h),
            old(self).pos <= final(self).pos,
            match item {
                Some(it) => {
                    &&& final(self).pos <= h.cfg.counts_len
                    &&& it.count_added_in_this_iteration_step as nat == prefix_total(
                        h.counts@,
                        final(self).pos as nat,
                    ) - prefix_total(h.counts@, old(self).pos as nat)
                    &&& final(self).cumulative == old(self).cumulative
                        + it.count_added_in_this_iteration_step
                    &&& it.count == final(self).count
                    &&& it.value == final(self).value
                    &&& it.lowest_equivalent_value as nat == h.cfg.spec_lowest_equivalent(
                        it.value as nat,
                    )
                    &&& it.highest_equivalent_value as nat == h.cfg.spec_highest_equivalent(
                        it.value as nat,
                    )
                    &&& it.median_equivalent_value as nat == h.cfg.spec_median_equivalent(
                        it.value as nat,
                    )
                    &&& !old(self).exhausted
                    &&& final(self).log_base == old(self).log_base
                    &&& (final(self).pos > old(self).pos || final(self).next_level > old(
                        self,
                    ).next_level)
                    &&& forall|k: int|
                        old(self).pos <= k < final(self).pos - 1 ==> (
                        #[trigger] h.cfg.spec_value_at(k as nat)) < old(self).next_level_low_eq
                    &&& (!final(self).exhausted ==> {
                        // a boundary step: the cursor reached the reporting level
                        &&& old(self).next_level < u64::MAX
                        &&& it.value >= old(self).next_level_low_eq
                        &&& it.value_iterated_to == old(self).next_level
                        &&& final(self).value_iterated_to == old(self).next_level
                        &&& final(self).next_level == (if old(self).next_level <= u64::MAX / old(
                            self,
                        ).log_base {
                            (old(self).next_level * old(self).log_base) as u64
                        } else {
                            u64::MAX
                        })
                    })
                    &&& (final(self).exhausted ==> {
                        // the array ended below the reporting level
                        &&& final(self).pos == h.cfg.counts_len
                        &&& it.value < old(self).next_level_low_eq
                        &&& final(self).next_level == old(self).next_level
                        &&& final(self).value_iterated_to == old(self).value_iterated_to
                        &&& it.value_iterated_to == old(self).value_iterated_to
                    })
                },
                None => {
                    &&& *final(self) == *old(self)
                    &&& final(self).cumulative == h.total_count
                },
            },
    {
        let len = h.counts.len();
        let ghost s = h.counts@;
        let ghost entry = *old(self);
        if !(self.cumulative < h.total_count() || (!self.exhausted && self.value
            >= self.next_level_low_eq)) {
            proof {
                lemma_prefix_total_monotonic(s, self.pos as nat, s.len());
            }
            return None;
        }
        proof {
            if self.exhausted {
                assert(self.cumulative == h.total_count);
                assert(false);
            }
        }
        let mut count_added: u64 = 0;
        loop
            invariant
                h.wf(),
                self.inv(h),
                len == h.cfg.counts_len,
                s == h.counts@,
                entry == *old(self),
                entry.pos <= self.pos,
                !entry.exhausted,
                !self.exhausted,
                count_added as nat == prefix_total(s, self.pos as nat) - prefix_total(
                    s,
                    entry.pos as nat,
                ),
                self.cumulative as nat == entry.cumulative as nat + count_added,
                self.next_level == entry.next_level,
                self.next_level_low_eq == entry.next_level_low_eq,
                self.log_base == entry.log_base,
                self.value_iterated_to == entry.value_iterated_to,
                self.pos == entry.pos ==> self.value == entry.value,
                entry.cumulative < h.total_count || entry.value >= entry.next_level_low_eq,
                forall|k: int|
                    entry.pos <= k < self.pos - 1 ==> (#[trigger] h.cfg.spec_value_at(k as nat))
                        < entry.next_level_low_eq,
            decreases len - self.pos, 1int,
        {
            if self.value >= self.next_level_low_eq {
                proof {
                    // a slot value never reaches a saturated boundary
                    if self.next_level == u64::MAX {
                        if self.pos >= 1 {
                            h.cfg.lemma_slot_value_lt_max((self.pos - 1) as nat);
                        }
                        assert(false);
                    }
                }
                let from = self.value_iterated_to;
                self.value_iterated_to = self.next_level;
                let item = CountIterItem {
                    count_added_in_this_iteration_step: count_added,
                    count: self.count,
                    value: self.value,
                    highest_equivalent_value: h.cfg.highest_equivalent_any(self.value),
                    median_equivalent_value: h.cfg.median_equivalent_any(self.value),
                    lowest_equivalent_value: h.cfg.lowest_equivalent_any(self.value),
                    value_iterated_from: from,
                    value_iterated_to: self.next_level,
                };
                let base = self.log_base;
                if self.next_level <= u64::MAX / base {
                    proof {
                        vstd::arithmetic::mul::lemma_mul_inequality(
                            self.next_level as int,
                            (u64::MAX / base) as int,
                            base as int,
                        );
                        vstd::arithmetic::div_mod::lemma_fundamental_div_mod(
                            u64::MAX as int,
                            base as int,
                        );
                        vstd::arithmetic::div_mod::lemma_mod_division_less_than_divisor(
                            u64::MAX as int,
                            base as int,
                        );
                        vstd::arithmetic::mul::lemma_mul_is_commutative(
                            (u64::MAX / base) as int,
                            base as int,
                        );
                        // doubling or more keeps the boundary strictly growing
                        vstd::arithmetic::mul::lemma_mul_inequality(
                            2,
                            base as int,
                            self.next_level as int,
                        );
                        vstd::arithmetic::mul::lemma_mul_is_commutative(
                            base as int,
                            self.next_level as int,
                        );
                    }
                    self.next_level = self.next_level * base;
                } else {
                    self.next_level = u64::MAX;
                }
                if self.next_level < u64::MAX {
                    self.next_level_low_eq = h.cfg.lowest_equivalent_any(self.next_level);
                } else {
                    self.next_level_low_eq = u64::MAX;
                }
                return Some(item);
            }
            if self.pos >= len {
                proof {
                    // the first probe cannot already sit at the end: the
                    // entry guard would have reported the iteration done
                    if self.pos == entry.pos {
                        assert(self.cumulative == h.total_count);
                        assert(false);
                    }
                }
                self.exhausted = true;
                return Some(
                    CountIterItem {
                        count_added_in_this_iteration_step: count_added,
                        count: self.count,
                        value: self.value,
                        highest_equivalent_value: h.cfg.highest_equivalent_any(self.value),
                        median_equivalent_value: h.cfg.median_equivalent_any(self.value),
                        lowest_equivalent_value: h.cfg.lowest_equivalent_any(self.value),
                        value_iterated_from: self.value_iterated_to,
                        value_iterated_to: self.value_iterated_to,
                    },
                );
            }
            proof {
                lemma_prefix_total_monotonic(s, (self.pos + 1) as nat, s.len());
            }
            let c = h.counts[self.pos];
            self.count = c;
            self.cumulative = self.cumulative + c;
            count_added = count_added + c;
            self.value = h.cfg.value_at_index(self.pos);
            self.pos = self.pos + 1;
        }
    }
}

impl Histogram {
    /// Iterator over every slot, empty ones included.
    pub fn all_values_iter(&self) -> (it: AllValuesIter)
        requires
            self.wf(),
        ensures
            it.inv(self),
            it.pos == 0,
            it.cumulative == 0,
    {
        AllValuesIter { pos: 0, cumulative: 0, value_iterated_to: 0 }
    }

    /// Iterator over the slots that hold at least one sample.
    pub fn recorded_iter(&self) -> (it: RecordedIter)
        requires
            self.wf(),
        ensures
            it.inv(self),
            it.pos == 0,
            it.cumulative == 0,
    {
        RecordedIter { pos: 0, cumulative: 0, value_iterated_to: 0 }
    }

    /// Iterator stepping by a fixed number of value units per bucket.
    pub fn linear_iter(&self, value_units_per_bucket: u64) -> (it: LinearIter)
        requires
            self.wf(),
            value_units_per_bucket >= 1,
        ensures
            it.inv(self),
            it.pos == 0,
            it.cumulative == 0,
            it.count == 0,
            it.value == 0,
            !it.exhausted,
            it.value_iterated_to == 0,
            it.value_units_per_bucket == value_units_per_bucket,
            it.next_level == value_units_per_bucket,
    {
        let low_eq = if value_units_per_bucket < u64::MAX {
            self.cfg.lowest_equivalent_any(value_units_per_bucket)
        } else {
            u64::MAX
        };
        LinearIter {
            pos: 0,
            exhausted: false,
            cumulative: 0,
            count: 0,
            value: 0,
            value_units_per_bucket,
            next_level: value_units_per_bucket,
            next_level_low_eq: low_eq,
            value_iterated_to: 0,
        }
    }

    /// Iterator whose boundaries grow by a multiplicative base, starting at
    /// `value_units_first_bucket`.
    pub fn log_iter(&self, value_units_first_bucket: u64, log_base: u64) -> (it: LogIter)
        requires
            self.wf(),
            value_units_first_bucket >= 1,
            log_base >= 2,
        ensures
            it.inv(self),
            it.pos == 0,
            it.cumulative == 0,
            it.count == 0,
            it.value == 0,
            !it.exhausted,
            it.value_iterated_to == 0,
            it.log_base == log_base,
            it.next_level == value_units_first_bucket,
    {
        let low_eq = if value_units_first_bucket < u64::MAX {
            self.cfg.lowest_equivalent_any(value_units_first_bucket)
        } else {
            u64::MAX
        };
        LogIter {
            pos: 0,
            exhausted: false,
            cumulative: 0,
            count: 0,
            value: 0,
            log_base,
            next_level: value_units_first_bucket,
            next_level_low_eq: low_eq,
            value_iterated_to: 0,
        }
    }
}


/// One step of a percentile iteration.
#[derive(PartialEq, Eq, Clone, Copy, Debug)]
pub struct PercentileIterItem {
    /// Numerator of the percentile this step reports, in percent.
    pub percentile_numerator: u64,
    /// Denominator of the reported percentile.
    pub percentile_denominator: u64,
    /// The count in the counter slot the cursor stands on.
    pub count: u64,
    /// The value the cursor stands on.
    pub value: u64,
    /// Largest value equivalent to `value`.
    pub highest_equivalent_value: u64,
    /// Midpoint of the range equivalent to `value`.
    pub median_equivalent_value: u64,
    /// Smallest value equivalent to `value`.
    pub lowest_equivalent_value: u64,
    /// Where the previous step reported to.
    pub value_iterated_from: u64,
    /// Where this step reports to.
    pub value_iterated_to: u64,
}

/// Walks percentile targets that start coarse and refine geometrically:
/// `ticks_per_half_distance` steps for every halving of the distance left to
/// 100%. Targets are exact rationals over `ticks * 2^40`.
pub struct PercentileIter {
    /// Slots consumed so far.
    pub pos: usize,
    /// Samples consumed so far.
    pub cumulative: u64,
    /// Count in the slot the cursor stands on.
    pub count: u64,
    /// Value of the slot the cursor stands on; 0 before the first move.
    pub value: u64,
    /// Set once the final 100% step has been reported.
    pub seen_last: bool,
    /// Steps per halving of the remaining percentile distance.
    pub ticks_per_half_distance: u32,
    /// Current target: `100 * target_scaled / (ticks * 2^40)` percent.
    pub target_scaled: u64,
    /// Where the previous step reported to.
    pub value_iterated_to: u64,
}

impl PercentileIter {
    /// Cursor consistency with `h`.
    pub open spec fn inv(&self, h: &Histogram) -> bool {
        &&& self.pos <= h.cfg.counts_len
        &&& self.cumulative as nat == prefix_total(h.counts@, self.pos as nat)
        &&& (self.pos == 0 ==> self.value == 0 && self.count == 0)
        &&& (self.pos >= 1 ==> self.value as nat == h.cfg.spec_value_at((self.pos - 1) as nat))
        &&& (self.pos >= 1 ==> self.count == h.counts@[self.pos - 1])
        &&& 1 <= self.ticks_per_half_distance <= 65536
        &&& (self.target_scaled as nat) <= (self.ticks_per_half_distance as nat) * pow2(40) + pow2(
            40,
        )
        &&& (self.seen_last ==> self.cumulative as nat == total_of(h.counts@))
    }

    /// Builds the step for the cursor's current slot.
    fn make_item(&self, h: &Histogram, pnum: u64, pden: u64) -> (it: PercentileIterItem)
        requires
            h.wf(),
        ensures
            it.percentile_numerator == pnum,
            it.percentile_denominator == pden,
            it.count == self.count,
            it.value == self.value,
            it.highest_equivalent_value as nat == h.cfg.spec_highest_equivalent(self.value as nat),
            it.median_equivalent_value as nat == h.cfg.spec_median_equivalent(self.value as nat),
            it.lowest_equivalent_value as nat == h.cfg.spec_lowest_equivalent(self.value as nat),
            it.value_iterated_from == self.value_iterated_to,
            it.value_iterated_to as nat == h.cfg.spec_highest_equivalent(self.value as nat),
    {
        let high = h.cfg.highest_equivalent_any(self.value);
        PercentileIterItem {
            percentile_numerator: pnum,
            percentile_denominator: pden,
            count: self.count,
            value: self.value,
            highest_equivalent_value: high,
            median_equivalent_value: h.cfg.median_equivalent_any(self.value),
            lowest_equivalent_value: h.cfg.lowest_equivalent_any(self.value),
            value_iterated_from: self.value_iterated_to,
            value_iterated_to: high,
        }
    }

    /// Reports the current percentile target once the cumulative share
    /// reaches it, then refines the target; consumes slots in between. After
    /// the cumulative count covers the total, one final 100% step is
    /// reported and the iteration ends.
    pub fn next(&mut self, h: &Histogram) -> (item: Option<PercentileIterItem>)
        requires
            h.wf(),
            old(self).inv(h),
        ensures
            final(self).inv(h),
            old(self).pos <= final(self).pos,
            final(self).target_scaled >= old(self).target_scaled,
            final(self).ticks_per_half_distance == old(self).ticks_per_half_distance,
            final(self).seen_last == old(self).seen_last || final(self).seen_last,
            match item {
                Some(it) => {
                    &&& it.count == final(self).count
                    &&& it.value == final(self).value
                    &&& it.highest_equivalent_value as nat == h.cfg.spec_highest_equivalent(
                        final(self).value as nat,
                    )
                    &&& it.median_equivalent_value as nat == h.cfg.spec_median_equivalent(
                        final(self).value as nat,
                    )
                    &&& it.lowest_equivalent_value as nat == h.cfg.spec_lowest_equivalent(
                        final(self).value as nat,
                    )
                    &&& (final(self).pos >= 1 ==> it.value as nat == h.cfg.spec_value_at(
                        (final(self).pos - 1) as nat,
                    ))
                    &&& (final(self).pos >= 1 ==> it.count == h.counts@[final(self).pos - 1])
                    &&& (final(self).pos > old(self).pos || final(self).target_scaled > old(
                        self,
                    ).target_scaled || (final(self).seen_last && !old(self).seen_last))
                    &&& (final(self).seen_last != old(self).seen_last ==> {
                        // the closing 100% step, after the whole total was covered
                        &&& it.percentile_numerator == 100
                        &&& it.percentile_denominator == 1
                        &&& final(self).cumulative == h.total_count
                        &&& final(self).pos == old(self).pos
                        &&& final(self).target_scaled == old(self).target_scaled
                    })
                    &&& (final(self).seen_last == old(self).seen_last ==> {
                        // an ordinary step reports the pending target exactly
                        &&& it.percentile_numerator == 100 * old(self).target_scaled
                        &&& it.percentile_denominator as nat == (old(
                            self,
                        ).ticks_per_half_distance as nat) * pow2(40)
                        &&& !old(self).seen_last
                    })
                },
                None => {
                    &&& *final(self) == *old(self)
                    &&& final(self).seen_last
                    &&& final(self).cumulative == h.total_count
                },
            },
    {
        let len = h.counts.len();
        let ghost s = h.counts@;
        proof {
            lemma2_to64();
            lemma2_to64_rest();
        }
        if !(self.cumulative < h.total_count()) {
            proof {
                lemma_prefix_total_monotonic(s, self.pos as nat, s.len());
            }
            if self.seen_last {
                return None;
            }
            self.seen_last = true;
            let item = self.make_item(h, 100, 1);
            self.value_iterated_to = item.value_iterated_to;
            return Some(item);
        }
        let den: u64 = (self.ticks_per_half_distance as u64) * pow2_u64(40);
        proof {
            vstd::arithmetic::mul::lemma_mul_inequality(
                self.ticks_per_half_distance as int,
                65536,
                pow2(40) as int,
            );
            vstd::arithmetic::mul::lemma_mul_is_commutative(65536, pow2(40) as int);
            lemma_pow2_adds(16, 40);
        }
        if self.pos == 0 {
            proof {
                if len == 0 {
                    assert(total_of(s) == 0);
                }
                lemma_prefix_total_monotonic(s, 1, s.len());
            }
            let c = h.counts[0];
            self.count = c;
            self.cumulative = c;
            self.value = h.cfg.value_at_index(0);
            self.pos = 1;
        }
        loop
            invariant
                h.wf(),
                self.inv(h),
                len == h.cfg.counts_len,
                s == h.counts@,
                old(self).pos <= self.pos,
                1 <= self.pos,
                self.target_scaled == old(self).target_scaled,
                self.seen_last == old(self).seen_last,
                self.ticks_per_half_distance == old(self).ticks_per_half_distance,
                self.value_iterated_to == old(self).value_iterated_to,
                old(self).pos < len || self.pos > old(self).pos,
                old(self).cumulative < h.total_count,
                !old(self).seen_last,
                self.pos == old(self).pos ==> self.cumulative == old(self).cumulative,
                den as nat == (self.ticks_per_half_distance as nat) * pow2(40),
                den >= 1,
                den as nat <= pow2(56),
            decreases len - self.pos,
        {
            proof {
                lemma2_to64();
                lemma2_to64_rest();
                lemma_prefix_total_monotonic(s, self.pos as nat, s.len());
            }
            proof {
                assert((self.target_scaled as int) * (h.total_count as int)
                    < 0x2000000000000000000000000000000) by (nonlinear_arith)
                    requires
                        self.target_scaled < 0x200000000000000,
                        h.total_count < 0x10000000000000000,
                ;
                assert((self.cumulative as int) * (den as int)
                    < 0x1000000000000000000000000000000) by (nonlinear_arith)
                    requires
                        self.cumulative < 0x10000000000000000,
                        den <= 0x100000000000000,
                ;
            }
            if self.count != 0 && (self.target_scaled as u128) * (h.total_count() as u128) <= (
            self.cumulative as u128) * (den as u128) {
                // the cumulative share reached the target: report, then refine
                proof {
                    // the reached target is at most 100%, so it fits scaled by 100
                    vstd::arithmetic::mul::lemma_mul_inequality(
                        self.cumulative as int,
                        h.total_count as int,
                        den as int,
                    );
                    vstd::arithmetic::mul::lemma_mul_is_commutative(
                        self.cumulative as int,
                        den as int,
                    );
                    vstd::arithmetic::mul::lemma_mul_is_commutative(
                        h.total_count as int,
                        den as int,
                    );
                    if self.target_scaled > den {
                        vstd::arithmetic::mul::lemma_mul_strict_inequality(
                            den as int,
                            self.target_scaled as int,
                            h.total_count as int,
                        );
                        vstd::arithmetic::mul::lemma_mul_is_commutative(
                            den as int,
                            h.total_count as int,
                        );
                        vstd::arithmetic::mul::lemma_mul_is_commutative(
                            self.target_scaled as int,
                            h.total_count as int,
                        );
                        assert(false);
                    }
                }
                let item = self.make_item(h, 100 * self.target_scaled, den);
                self.value_iterated_to = item.value_iterated_to;
                let u = self.target_scaled;
                let remaining: u64 = if u < den {
                    den - u
                } else {
                    1
                };
                let ratio: u64 = den / remaining;
                proof {
                    vstd::arithmetic::div_mod::lemma_div_pos_is_pos(den as int, remaining as int);
                    vstd::arithmetic::div_mod::lemma_div_by_multiple(1, remaining as int);
                    vstd::arithmetic::div_mod::lemma_div_is_ordered(
                        remaining as int,
                        den as int,
                        remaining as int,
                    );
                }
                let k0 = log2_floor_u64(ratio);
                let k: u32 = if k0 >= 39 {
                    40
                } else {
                    k0 + 1
                };
                proof {
                    crate::bucketing::lemma_pow2_increases_for((40 - k) as nat, 40);
                }
                self.target_scaled = u + pow2_u64(40 - k);
                return Some(item);
            }
            if !(self.cumulative < h.total_count()) || self.pos >= len {
                // targets left unreported collapse into the closing steps
                let item = self.make_item(h, 100 * self.target_scaled, den);
                self.value_iterated_to = item.value_iterated_to;
                return Some(item);
            }
            proof {
                lemma_prefix_total_monotonic(s, (self.pos + 1) as nat, s.len());
            }
            let c = h.counts[self.pos];
            self.count = c;
            self.cumulative = self.cumulative + c;
            self.value = h.cfg.value_at_index(self.pos);
            self.pos = self.pos + 1;
        }
    }
}

impl Histogram {
    /// Iterator over geometrically refining percentile targets.
    pub fn percentile_iter(&self, ticks_per_half_distance: u32) -> (it: PercentileIter)
        requires
            self.wf(),
            1 <= ticks_per_half_distance <= 65536,
        ensures
            it.inv(self),
            it.pos == 0,
            it.cumulative == 0,
            it.count == 0,
            it.value == 0,
            !it.seen_last,
            it.target_scaled == 0,
            it.value_iterated_to == 0,
            it.ticks_per_half_distance == ticks_per_half_distance,
    {
        PercentileIter {
            pos: 0,
            cumulative: 0,
            count: 0,
            value: 0,
            seen_last: false,
            ticks_per_half_distance,
            target_scaled: 0,
            value_iterated_to: 0,
        }
    }
}

} // verus!
