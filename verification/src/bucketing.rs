//! Bucket layout: how a raw value maps to a counter index and back.
//!
//! The counter array is split into buckets. Bucket 0 covers values
//! `[0, sub_bucket_count * 2^unit_magnitude)` at unit resolution
//! `2^unit_magnitude`; every further bucket doubles the covered range and the
//! resolution, reusing only the upper half of the sub-bucket indices. The
//! sub-bucket count is the smallest power of two that keeps the relative
//! error of a bucket step within `10^-significant_figures`.

use vstd::arithmetic::div_mod::*;
use vstd::arithmetic::mul::*;
use vstd::arithmetic::power2::*;
use vstd::prelude::*;

use crate::HistogramErr;

verus! {

/// `10^sf`.
pub open spec fn ten_pow(sf: nat) -> nat
    decreases sf,
{
    if sf == 0 {
        1
    } else {
        10 * ten_pow((sf - 1) as nat)
    }
}

/// Immutable layout parameters, computed once at construction.
#[derive(Clone, Copy, PartialEq, Eq, Structural, Debug)]
pub struct BucketConfig {
    /// Smallest value distinguished from its neighbours; at least 1.
    pub lowest_discernible_value: u64,
    /// Largest value the configuration is asked to track; at least twice the lowest.
    pub highest_trackable_value: u64,
    /// Number of accurate decimal digits, between 1 and 5.
    pub significant_figures: u32,
    /// `floor(log2(lowest_discernible_value))`; normalizes bucket 0.
    pub unit_magnitude: u32,
    /// `log2(sub_bucket_half_count)`.
    pub sub_bucket_half_count_magnitude: u32,
    /// Smallest power of two at least `2 * 10^significant_figures`.
    pub sub_bucket_count: u32,
    /// Half of `sub_bucket_count`; each bucket past the first owns this many slots.
    pub sub_bucket_half_count: u32,
    /// Number of doublings needed so the top bucket covers `highest_trackable_value`.
    pub bucket_count: u32,
    /// Total number of counter slots: `(bucket_count + 1) * sub_bucket_half_count`.
    pub counts_len: usize,
}

impl BucketConfig {
    /// Internal consistency of the layout parameters.
    pub open spec fn wf(&self) -> bool {
        &&& 1 <= self.lowest_discernible_value
        &&& 2 * self.lowest_discernible_value <= self.highest_trackable_value
        &&& 1 <= self.significant_figures <= 5
        &&& pow2(self.unit_magnitude as nat) <= self.lowest_discernible_value
        &&& (self.lowest_discernible_value as nat) < pow2(self.unit_magnitude as nat + 1)
        &&& self.sub_bucket_half_count == pow2(self.sub_bucket_half_count_magnitude as nat)
        &&& self.sub_bucket_count == 2 * self.sub_bucket_half_count
        &&& (self.sub_bucket_half_count as nat) < 2 * ten_pow(self.significant_figures as nat)
        &&& 2 * ten_pow(self.significant_figures as nat) <= self.sub_bucket_count as nat
        &&& self.unit_magnitude + self.sub_bucket_half_count_magnitude <= 61
        &&& 1 <= self.bucket_count
        &&& (self.highest_trackable_value as nat) < (self.sub_bucket_count as nat) * pow2(
            (self.unit_magnitude + self.bucket_count - 1) as nat,
        )
        &&& (self.bucket_count == 1 || (self.sub_bucket_count as nat) * pow2(
            (self.unit_magnitude + self.bucket_count - 2) as nat,
        ) <= self.highest_trackable_value as nat)
        &&& self.counts_len == (self.bucket_count + 1) * self.sub_bucket_half_count
    }

    /// Largest value that maps to a counter slot: the top of the last bucket.
    pub open spec fn spec_max_value(&self) -> nat {
        ((self.sub_bucket_count as nat) * pow2(
            (self.unit_magnitude + self.bucket_count - 1) as nat,
        ) - 1) as nat
    }
}

/// Number of halvings of `v` needed to fall below `threshold`.
pub open spec fn halvings_below(v: nat, threshold: nat) -> nat
    decreases v,
{
    if threshold == 0 {
        0
    } else if v < threshold {
        0
    } else {
        1 + halvings_below(v / 2, threshold)
    }
}

/// `halvings_below(v, t)` is the least `k` with `v < t * 2^k`.
pub proof fn lemma_halvings_below(v: nat, t: nat)
    requires
        t >= 1,
    ensures
        v < t * pow2(halvings_below(v, t)),
        halvings_below(v, t) > 0 ==> t * pow2((halvings_below(v, t) - 1) as nat) <= v,
    decreases v,
{
    let k = halvings_below(v, t);
    if v < t {
        assert(pow2(0) == 1) by {
            lemma2_to64();
        }
        assert(halvings_below(v, t) == 0);
        assert(v < t * pow2(0));
    } else {
        let h = v / 2;
        lemma_halvings_below(h, t);
        let j = halvings_below(h, t);
        assert(k == j + 1);
        // v < t * 2^(j+1) from  v/2 < t * 2^j
        assert(pow2(j + 1) == 2 * pow2(j)) by {
            lemma_pow2_adds(1, j);
            lemma2_to64();
        }
        assert(v <= 2 * (t * pow2(j)) - 1) by {
            lemma_fundamental_div_mod(v as int, 2);
        }
        assert(t * (2 * pow2(j)) == 2 * (t * pow2(j))) by (nonlinear_arith);
        assert(t * pow2(j + 1) == t * (2 * pow2(j)));
        assert(v < t * pow2(k));
        // lower bound: t * 2^j <= v
        if j == 0 {
            assert(pow2(0) == 1) by {
                lemma2_to64();
            }
        } else {
            let p = pow2((j - 1) as nat);
            assert(t * p <= v / 2);
            assert(pow2(j) == 2 * p) by {
                lemma_pow2_adds(1, (j - 1) as nat);
                lemma2_to64();
            }
            assert(2 * (v / 2) <= v) by {
                lemma_fundamental_div_mod(v as int, 2);
            }
            assert(t * (2 * p) == 2 * (t * p)) by (nonlinear_arith);
        }
    }
}

impl BucketConfig {
    /// Width of bucket 0: `sub_bucket_count * 2^unit_magnitude`.
    pub open spec fn spec_bucket_zero_span(&self) -> nat {
        (self.sub_bucket_count as nat) * pow2(self.unit_magnitude as nat)
    }

    /// The coarse doubling range that `v` falls in.
    pub open spec fn spec_bucket_index(&self, v: nat) -> nat {
        halvings_below(v, self.spec_bucket_zero_span())
    }

    /// Linear position of `v` within its bucket.
    pub open spec fn spec_sub_bucket_index(&self, v: nat) -> nat {
        v / pow2((self.unit_magnitude + self.spec_bucket_index(v)) as nat)
    }

    /// The counter slot that `v` maps to.
    pub open spec fn spec_counts_index(&self, v: nat) -> nat {
        self.spec_bucket_index(v) * (self.sub_bucket_half_count as nat)
            + self.spec_sub_bucket_index(v)
    }

    /// Bucket part of the inverse mapping for slot `i`.
    pub open spec fn spec_bucket_of_slot(&self, i: nat) -> nat {
        if i < self.sub_bucket_half_count {
            0
        } else {
            (i / (self.sub_bucket_half_count as nat) - 1) as nat
        }
    }

    /// Sub-bucket part of the inverse mapping for slot `i`.
    pub open spec fn spec_sub_bucket_of_slot(&self, i: nat) -> nat {
        if i < self.sub_bucket_half_count {
            i
        } else {
            i % (self.sub_bucket_half_count as nat) + self.sub_bucket_half_count as nat
        }
    }

    /// Smallest raw value that maps to slot `i`.
    pub open spec fn spec_value_at(&self, i: nat) -> nat {
        self.spec_sub_bucket_of_slot(i) * pow2(
            (self.unit_magnitude + self.spec_bucket_of_slot(i)) as nat,
        )
    }

    /// Width of the equivalence range of `v`: all values of that range share one slot.
    pub open spec fn spec_size_of_range(&self, v: nat) -> nat {
        pow2((self.unit_magnitude + self.spec_bucket_index(v)) as nat)
    }

    /// Smallest value equivalent to `v`.
    pub open spec fn spec_lowest_equivalent(&self, v: nat) -> nat {
        self.spec_sub_bucket_index(v) * self.spec_size_of_range(v)
    }

    /// Largest value equivalent to `v`.
    pub open spec fn spec_highest_equivalent(&self, v: nat) -> nat {
        (self.spec_lowest_equivalent(v) + self.spec_size_of_range(v) - 1) as nat
    }

    /// Midpoint of the equivalence range of `v`.
    pub open spec fn spec_median_equivalent(&self, v: nat) -> nat {
        self.spec_lowest_equivalent(v) + self.spec_size_of_range(v) / 2
    }
}

/// Uniqueness: a value bracketed by `t * 2^(k-1)` and `t * 2^k` needs exactly `k` halvings.
pub proof fn lemma_halvings_unique(v: nat, t: nat, k: nat)
    requires
        t >= 1,
        v < t * pow2(k),
        k == 0 || t * pow2((k - 1) as nat) <= v,
    ensures
        halvings_below(v, t) == k,
{
    let k2 = halvings_below(v, t);
    lemma_halvings_below(v, t);
    if k2 < k {
        // v < t * 2^k2 <= t * 2^(k-1) <= v
        lemma_pow2_increases_for(k2, (k - 1) as nat);
        lemma_mul_le_mono_right(t, pow2(k2), pow2((k - 1) as nat));
        assert(false);
    }
    if k2 > k {
        lemma_pow2_increases_for(k, (k2 - 1) as nat);
        lemma_mul_le_mono_right(t, pow2(k), pow2((k2 - 1) as nat));
        assert(false);
    }
}

/// `pow2` is monotone (non-strict form).
pub proof fn lemma_pow2_increases_for(e1: nat, e2: nat)
    requires
        e1 <= e2,
    ensures
        pow2(e1) <= pow2(e2),
{
    if e1 < e2 {
        lemma_pow2_strictly_increases(e1, e2);
    }
}

/// Multiplication on the right respects `<=`.
pub proof fn lemma_mul_le_mono_right(a: nat, b: nat, c: nat)
    requires
        b <= c,
    ensures
        a * b <= a * c,
{
    lemma_mul_inequality(b as int, c as int, a as int);
    lemma_mul_is_commutative(a as int, b as int);
    lemma_mul_is_commutative(a as int, c as int);
}

impl BucketConfig {
    /// Facts that every other proof about the layout leans on.
    pub proof fn lemma_layout(&self)
        requires
            self.wf(),
        ensures
            self.spec_bucket_zero_span() == pow2(
                (self.sub_bucket_half_count_magnitude + 1 + self.unit_magnitude) as nat,
            ),
            self.spec_max_value() + 1 == pow2(
                (self.sub_bucket_half_count_magnitude + self.unit_magnitude
                    + self.bucket_count) as nat,
            ),
            self.sub_bucket_half_count_magnitude + self.unit_magnitude + self.bucket_count <= 64,
            4 <= self.sub_bucket_half_count_magnitude <= 17,
            self.bucket_count <= 60,
            self.counts_len <= 0x1000000,
            self.counts_len >= 2 * self.sub_bucket_half_count,
            self.highest_trackable_value as nat <= self.spec_max_value(),
            self.spec_bucket_zero_span() <= pow2(62),
            self.sub_bucket_count == pow2(self.sub_bucket_half_count_magnitude as nat + 1),
    {
        let shcm = self.sub_bucket_half_count_magnitude as nat;
        let u = self.unit_magnitude as nat;
        let bc = self.bucket_count as nat;
        lemma2_to64();
        lemma2_to64_rest();
        // sub_bucket_count == 2^(shcm+1)
        assert(self.sub_bucket_count == pow2(shcm + 1)) by {
            lemma_pow2_adds(1, shcm);
        }
        // shcm bounds from 20 <= 2*10^sf <= 200000
        assert(20 <= 2 * ten_pow(self.significant_figures as nat) <= 200000) by {
            reveal_with_fuel(ten_pow, 6);
        }
        if shcm < 4 {
            lemma_pow2_increases_for(shcm + 1, 4);
            assert(false);
        }
        if shcm > 17 {
            lemma_pow2_increases_for(18, shcm);
            assert(false);
        }
        assert(self.spec_bucket_zero_span() == pow2(shcm + 1 + u)) by {
            lemma_pow2_adds(shcm + 1, u);
        }
        assert((self.sub_bucket_count as nat) * pow2((u + bc - 1) as nat) == pow2(
            shcm + u + bc,
        )) by {
            lemma_pow2_adds(shcm + 1, (u + bc - 1) as nat);
        }
        // shcm + u + bc <= 64
        if bc == 1 {
            assert(shcm + u + bc <= 63);
        } else {
            assert((self.sub_bucket_count as nat) * pow2((u + bc - 2) as nat) == pow2(
                (shcm + u + bc - 1) as nat,
            )) by {
                lemma_pow2_adds(shcm + 1, (u + bc - 2) as nat);
            }
            if shcm + u + bc - 1 >= 64 {
                lemma_pow2_increases_for(64, (shcm + u + bc - 1) as nat);
                assert(false);
            }
        }
        if bc > 60 {
            assert(false);
        }
        assert(self.counts_len <= 61 * pow2(17)) by {
            lemma_mul_inequality((self.bucket_count + 1) as int, 61, self.sub_bucket_half_count as int);
            lemma_mul_le_mono_right(61, self.sub_bucket_half_count as nat, pow2(17));
        }
        assert(self.counts_len >= 2 * self.sub_bucket_half_count) by {
            lemma_mul_inequality(2, (self.bucket_count + 1) as int, self.sub_bucket_half_count as int);
        }
        assert(self.spec_bucket_zero_span() <= pow2(62)) by {
            lemma_pow2_increases_for(shcm + 1 + u, 62);
        }
    }

    /// A value within the representable range maps to a valid slot, and its
    /// equivalence range brackets it.
    pub proof fn lemma_index_mapping(&self, v: nat)
        requires
            self.wf(),
            v <= self.spec_max_value(),
        ensures
            self.spec_bucket_index(v) < self.bucket_count,
            self.spec_sub_bucket_index(v) < self.sub_bucket_count,
            self.spec_bucket_index(v) >= 1 ==> self.spec_sub_bucket_index(v)
                >= self.sub_bucket_half_count,
            self.spec_counts_index(v) < self.counts_len,
            self.spec_lowest_equivalent(v) <= v,
            v <= self.spec_highest_equivalent(v),
            self.spec_highest_equivalent(v) <= self.spec_max_value(),
            self.unit_magnitude + self.spec_bucket_index(v) + self.sub_bucket_half_count_magnitude
                + 1 <= 64,
    {
        let shcm = self.sub_bucket_half_count_magnitude as nat;
        let u = self.unit_magnitude as nat;
        let bc = self.bucket_count as nat;
        let t = self.spec_bucket_zero_span();
        let bi = self.spec_bucket_index(v);
        self.lemma_layout();
        lemma_pow2_pos(shcm + 1 + u);
        lemma_halvings_below(v, t);
        // bi < bc
        assert(t * pow2(bi) == pow2(shcm + 1 + u + bi)) by {
            lemma_pow2_adds(shcm + 1 + u, bi);
        }
        if bi >= bc {
            assert(t * pow2((bi - 1) as nat) == pow2((shcm + u + bi) as nat)) by {
                lemma_pow2_adds(shcm + 1 + u, (bi - 1) as nat);
            }
            lemma_pow2_increases_for(shcm + u + bc, shcm + u + bi);
            assert(false);
        }
        let d = pow2(u + bi);
        lemma_pow2_pos(u + bi);
        let sbi = self.spec_sub_bucket_index(v);
        // v < sbc * d, hence sbi < sbc
        assert((self.sub_bucket_count as nat) * d == pow2(shcm + 1 + u + bi)) by {
            lemma_pow2_adds(shcm + 1, u + bi);
        }
        assert(sbi < self.sub_bucket_count) by {
            lemma_mul_is_commutative(self.sub_bucket_count as int, d as int);
            lemma_multiply_divide_lt(v as int, d as int, self.sub_bucket_count as int);
        }
        // bi >= 1 ==> sbi >= half
        if bi >= 1 {
            assert(t * pow2((bi - 1) as nat) == pow2((shcm + u + bi) as nat)) by {
                lemma_pow2_adds(shcm + 1 + u, (bi - 1) as nat);
            }
            assert((self.sub_bucket_half_count as nat) * d == pow2(shcm + u + bi)) by {
                lemma_pow2_adds(shcm, u + bi);
            }
            assert(sbi >= self.sub_bucket_half_count) by {
                lemma_div_by_multiple(self.sub_bucket_half_count as int, d as int);
                lemma_div_is_ordered(
                    ((self.sub_bucket_half_count as nat) * d) as int,
                    v as int,
                    d as int,
                );
            }
        }
        // slot bound
        assert(self.spec_counts_index(v) < self.counts_len) by {
            lemma_mul_inequality(bi as int, (bc - 1) as int, self.sub_bucket_half_count as int);
            lemma_mul_is_distributive_add_other_way(
                self.sub_bucket_half_count as int,
                (bc - 1) as int,
                2,
            );
        }
        // bracketing
        assert(v == d * (v / d) + v % d) by {
            lemma_fundamental_div_mod(v as int, d as int);
        }
        lemma_mod_division_less_than_divisor(v as int, d as int);
        assert(self.spec_lowest_equivalent(v) == d * sbi) by {
            lemma_mul_is_commutative(sbi as int, d as int);
        }
        // highest equivalent stays representable
        assert((sbi + 1) * d <= pow2(shcm + 1 + u + bi)) by {
            lemma_mul_inequality((sbi + 1) as int, self.sub_bucket_count as int, d as int);
        }
        assert(pow2(shcm + 1 + u + bi) <= pow2(shcm + u + bc)) by {
            lemma_pow2_increases_for(shcm + 1 + u + bi, shcm + u + bc);
        }
        assert(self.spec_highest_equivalent(v) < (sbi + 1) * d) by {
            lemma_mul_is_distributive_add_other_way(d as int, sbi as int, 1);
        }
    }

/// Every value inside one equivalence range maps to the same slot.
pub proof fn lemma_range_shares_slot(&self, v: nat, w: nat)
    requires
        self.wf(),
        v <= self.spec_max_value(),
        self.spec_lowest_equivalent(v) <= w <= self.spec_highest_equivalent(v),
    ensures
        self.spec_bucket_index(w) == self.spec_bucket_index(v),
        self.spec_sub_bucket_index(w) == self.spec_sub_bucket_index(v),
        self.spec_counts_index(w) == self.spec_counts_index(v),
        self.spec_lowest_equivalent(w) == self.spec_lowest_equivalent(v),
        self.spec_highest_equivalent(w) == self.spec_highest_equivalent(v),
        self.spec_size_of_range(w) == self.spec_size_of_range(v),
{
    let shcm = self.sub_bucket_half_count_magnitude as nat;
    let u = self.unit_magnitude as nat;
    let t = self.spec_bucket_zero_span();
    let bi = self.spec_bucket_index(v);
    let sbi = self.spec_sub_bucket_index(v);
    let d = pow2(u + bi);
    self.lemma_layout();
    self.lemma_index_mapping(v);
    lemma_pow2_pos(u + bi);
    assert(sbi * d <= w < (sbi + 1) * d) by {
        lemma_mul_is_distributive_add_other_way(d as int, sbi as int, 1);
    }
    // same bucket
    assert((self.sub_bucket_count as nat) * d == t * pow2(bi)) by {
        lemma_pow2_adds(shcm + 1, u + bi);
        lemma_pow2_adds(shcm + 1 + u, bi);
    }
    assert(w < t * pow2(bi)) by {
        lemma_mul_inequality((sbi + 1) as int, self.sub_bucket_count as int, d as int);
    }
    if bi == 0 {
        assert(pow2(0) == 1) by {
            lemma2_to64();
        }
        assert(self.spec_bucket_index(w) == 0);
    } else {
        assert((self.sub_bucket_half_count as nat) * d == t * pow2((bi - 1) as nat)) by {
            lemma_pow2_adds(shcm, u + bi);
            lemma_pow2_adds(shcm + 1 + u, (bi - 1) as nat);
        }
        assert(t * pow2((bi - 1) as nat) <= w) by {
            lemma_mul_inequality(
                self.sub_bucket_half_count as int,
                sbi as int,
                d as int,
            );
        }
        lemma_halvings_unique(w, t, bi);
    }
    // same sub-bucket
    assert(w / d == sbi) by {
        lemma_fundamental_div_mod_converse(w as int, d as int, sbi as int, (w - sbi * d) as int);
        lemma_mul_is_commutative(sbi as int, d as int);
    }
}

/// Slots invert the mapping: the value reported for slot `i` maps back to `i`
/// and is the lowest value of its equivalence range.
pub proof fn lemma_slot_inverse(&self, i: nat)
    requires
        self.wf(),
        i < self.counts_len,
    ensures
        self.spec_value_at(i) <= self.spec_max_value(),
        self.spec_bucket_index(self.spec_value_at(i)) == self.spec_bucket_of_slot(i),
        self.spec_sub_bucket_index(self.spec_value_at(i)) == self.spec_sub_bucket_of_slot(i),
        self.spec_counts_index(self.spec_value_at(i)) == i,
        self.spec_lowest_equivalent(self.spec_value_at(i)) == self.spec_value_at(i),
        self.spec_bucket_of_slot(i) < self.bucket_count,
        self.unit_magnitude + self.spec_bucket_of_slot(i) + self.sub_bucket_half_count_magnitude
            + 1 <= 64,
{
    let shcm = self.sub_bucket_half_count_magnitude as nat;
    let u = self.unit_magnitude as nat;
    let bc = self.bucket_count as nat;
    let half = self.sub_bucket_half_count as nat;
    let t = self.spec_bucket_zero_span();
    let b = self.spec_bucket_of_slot(i);
    let s = self.spec_sub_bucket_of_slot(i);
    let d = pow2(u + b);
    let v = self.spec_value_at(i);
    self.lemma_layout();
    lemma_pow2_pos(u + b);
    lemma_pow2_pos(u);
    // slot decomposition: b < bc and s in range
    if i >= half {
        let q = i / half;
        let r = i % half;
        assert(q * half + r == i) by {
            lemma_fundamental_div_mod(i as int, half as int);
            lemma_mul_is_commutative(q as int, half as int);
        }
        lemma_mod_division_less_than_divisor(i as int, half as int);
        assert(q >= 1) by {
            lemma_div_by_multiple(1, half as int);
            lemma_div_is_ordered(half as int, i as int, half as int);
        }
        assert(q < bc + 1) by {
            lemma_mul_is_commutative(half as int, (bc + 1) as int);
            lemma_multiply_divide_lt(i as int, half as int, (bc + 1) as int);
        }
        assert(b == q - 1 && s == r + half);
    }
    assert(b < bc);
    assert(half <= s < 2 * half || (i < half && s == i));
    // v = s * d is below the top of its bucket
    assert(v < (2 * half) * d) by {
        lemma_mul_strict_inequality(s as int, (2 * half) as int, d as int);
    }
    assert((2 * half) * d == t * pow2(b)) by {
        lemma_pow2_adds(shcm + 1, u + b);
        lemma_pow2_adds(shcm + 1 + u, b);
    }
    assert(t * pow2(b) <= pow2(shcm + u + bc)) by {
        lemma_pow2_adds(shcm + 1 + u, b);
        lemma_pow2_increases_for(shcm + 1 + u + b, shcm + u + bc);
    }
    assert(v <= self.spec_max_value());
    // bucket index of v is b
    if b == 0 {
        assert(pow2(0) == 1) by {
            lemma2_to64();
        }
        assert(self.spec_bucket_index(v) == 0);
    } else {
        assert(half * d == t * pow2((b - 1) as nat)) by {
            lemma_pow2_adds(shcm, u + b);
            lemma_pow2_adds(shcm + 1 + u, (b - 1) as nat);
        }
        assert(t * pow2((b - 1) as nat) <= v) by {
            lemma_mul_inequality(half as int, s as int, d as int);
        }
        lemma_halvings_unique(v, t, b);
    }
    // sub-bucket index of v is s
    assert(v / d == s) by {
        lemma_div_by_multiple(s as int, d as int);
    }
    // the slot recomposes
    if i >= half {
        let q = i / half;
        let r = i % half;
        assert(b * half + s == q * half + r) by {
            lemma_mul_is_distributive_sub_other_way(half as int, q as int, 1);
        }
        assert(q * half + r == i) by {
            lemma_fundamental_div_mod(i as int, half as int);
            lemma_mul_is_commutative(q as int, half as int);
        }
    }
}

/// Slot values strictly increase, and consecutive equivalence ranges tile:
/// the next slot starts right past the current range.
pub proof fn lemma_adjacent_slots(&self, i: nat)
    requires
        self.wf(),
        i + 1 < self.counts_len,
    ensures
        self.spec_value_at(i + 1) == self.spec_value_at(i) + self.spec_size_of_range(
            self.spec_value_at(i),
        ),
{
    let u = self.unit_magnitude as nat;
    let half = self.sub_bucket_half_count as nat;
    let b = self.spec_bucket_of_slot(i);
    let s = self.spec_sub_bucket_of_slot(i);
    let d = pow2(u + b);
    self.lemma_layout();
    self.lemma_slot_inverse(i);
    self.lemma_slot_inverse(i + 1);
    lemma_pow2_pos(u + b);
    if i + 1 < half {
        assert(self.spec_value_at(i + 1) == (i + 1) * d);
        assert((i + 1) * d == i * d + d) by {
            lemma_mul_is_distributive_add_other_way(d as int, i as int, 1);
        }
    } else {
        let q = (i + 1) / half;
        let r = (i + 1) % half;
        assert(q * half + r == i + 1) by {
            lemma_fundamental_div_mod((i + 1) as int, half as int);
            lemma_mul_is_commutative(q as int, half as int);
        }
        lemma_mod_division_less_than_divisor((i + 1) as int, half as int);
        assert(q >= 1) by {
            lemma_div_by_multiple(1, half as int);
            lemma_div_is_ordered(half as int, (i + 1) as int, half as int);
        }
        let b2 = self.spec_bucket_of_slot(i + 1);
        let s2 = self.spec_sub_bucket_of_slot(i + 1);
        if r == 0 {
            // first slot of a bucket; the previous slot ends the bucket below
            assert(i == (q - 1) * half + (half - 1)) by {
                lemma_mul_is_distributive_sub_other_way(half as int, q as int, 1);
            }
            if q == 1 {
                // i = half - 1 sits in bucket 0
                assert(s == half - 1 && b == 0);
                assert(b2 == 0 && s2 == half);
                assert(half * d == (half - 1) * d + d) by {
                    lemma_mul_is_distributive_sub_other_way(d as int, half as int, 1);
                }
            } else {
                assert(i >= half) by {
                    lemma_mul_inequality(1, (q - 1) as int, half as int);
                }
                assert(i / half == q - 1 && i % half == half - 1) by {
                    lemma_fundamental_div_mod_converse(
                        i as int,
                        half as int,
                        (q - 1) as int,
                        (half - 1) as int,
                    );
                }
                assert(b == q - 2 && s == 2 * half - 1);
                assert(b2 == q - 1 && s2 == half);
                // half * 2^(u+b+1) == (2*half-1) * 2^(u+b) + 2^(u+b)
                assert(pow2(u + b2) == 2 * d) by {
                    lemma_pow2_adds(u + b, 1);
                    lemma2_to64();
                }
                assert(half * (2 * d) == (2 * half) * d) by (nonlinear_arith);
                assert((2 * half) * d == (2 * half - 1) * d + d) by {
                    lemma_mul_is_distributive_sub_other_way(d as int, (2 * half) as int, 1);
                }
            }
        } else {
            // same bucket, next sub-bucket
            assert(i == q * half + (r - 1));
            if i < half {
                assert(q == 0) by {
                    if q >= 1 {
                        lemma_mul_inequality(1, q as int, half as int);
                    }
                }
                assert(s == i && b == 0);
                assert(b2 == 0 && s2 == r + half);
                assert(i + 1 >= half);
                assert(s2 == i + 1);
            } else {
                assert(i / half == q && i % half == r - 1) by {
                    lemma_fundamental_div_mod_converse(
                        i as int,
                        half as int,
                        q as int,
                        (r - 1) as int,
                    );
                }
                assert(b2 == b && s2 == s + 1);
            }
            assert((s + 1) * d == s * d + d) by {
                lemma_mul_is_distributive_add_other_way(d as int, s as int, 1);
            }
        }
    }
}

/// Slot values increase with the slot index.
pub proof fn lemma_value_at_increases(&self, i: nat, j: nat)
    requires
        self.wf(),
        i <= j,
        j < self.counts_len,
    ensures
        self.spec_value_at(i) <= self.spec_value_at(j),
        i < j ==> self.spec_value_at(i) < self.spec_value_at(j),
    decreases j - i,
{
    if i < j {
        self.lemma_value_at_increases(i, (j - 1) as nat);
        self.lemma_adjacent_slots((j - 1) as nat);
        lemma_pow2_pos(
            (self.unit_magnitude + self.spec_bucket_of_slot((j - 1) as nat)) as nat,
        );
        self.lemma_slot_inverse((j - 1) as nat);
    }
}
}


/// Floor of the base-2 logarithm, phrased through `halvings_below`.
pub open spec fn spec_log2_floor(v: nat) -> nat {
    (halvings_below(v, 1) - 1) as nat
}

/// Magnitude of the sub-bucket half count demanded by `sf` significant figures.
pub open spec fn spec_half_magnitude(sf: nat) -> nat {
    (halvings_below((2 * ten_pow(sf) - 1) as nat, 1) - 1) as nat
}

/// The construction parameters spec-level acceptance test.
pub open spec fn spec_params_accepted(lowest: u64, highest: u64, sigfig: u32) -> bool {
    &&& 1 <= lowest
    &&& 2 * (lowest as nat) <= highest as nat
    &&& 1 <= sigfig <= 5
    &&& spec_log2_floor(lowest as nat) + spec_half_magnitude(sigfig as nat) <= 61
}

/// `2^e` as a machine word.
pub fn pow2_u64(e: u32) -> (r: u64)
    requires
        e < 64,
    ensures
        r as nat == pow2(e as nat),
{
    let mut i: u32 = 0;
    let mut r: u64 = 1;
    proof {
        lemma2_to64();
    }
    while i < e
        invariant
            i <= e < 64,
            r as nat == pow2(i as nat),
        decreases e - i,
    {
        proof {
            lemma_pow2_adds(i as nat, 1);
            lemma2_to64();
            lemma_pow2_strictly_increases(i as nat + 1, 64);
        }
        r = r * 2;
        i = i + 1;
    }
    r
}

/// Smallest magnitude `m` with `2^m >= bound`, for `2 <= bound <= 200000`.
fn magnitude_covering(bound: u64) -> (m: u32)
    requires
        2 <= bound <= 200000,
    ensures
        bound <= pow2(m as nat),
        m >= 1,
        pow2((m - 1) as nat) < bound,
        m <= 18,
{
    let mut m: u32 = 1;
    proof {
        lemma2_to64();
    }
    while pow2_u64(m) < bound
        invariant
            1 <= m <= 18,
            2 <= bound <= 200000,
            pow2((m - 1) as nat) < bound,
        decreases 18 - m,
    {
        proof {
            if m >= 18 {
                lemma_pow2_increases_for(18, m as nat);
                lemma2_to64();
                assert(false);
            }
        }
        m = m + 1;
    }
    m
}

/// `floor(log2(v))` for `v >= 1`.
pub(crate) fn log2_floor_u64(v: u64) -> (m: u32)
    requires
        v >= 1,
    ensures
        pow2(m as nat) <= v,
        (v as nat) < pow2(m as nat + 1),
        m <= 63,
        m as nat == spec_log2_floor(v as nat),
{
    let mut m: u32 = 0;
    proof {
        lemma2_to64();
    }
    while m < 63 && pow2_u64(m + 1) <= v
        invariant
            m <= 63,
            pow2(m as nat) <= v,
        decreases 63 - m,
    {
        m = m + 1;
    }
    proof {
        if m == 63 {
            lemma2_to64();
            lemma2_to64_rest();
        }
        lemma_halvings_unique(v as nat, 1, m as nat + 1);
        lemma_mul_basics(pow2(m as nat) as int);
        lemma_mul_basics(pow2(m as nat + 1) as int);
    }
    m
}

/// Number of doublings of bucket 0 needed so the top bucket covers `highest`.
fn buckets_to_cover(
    highest: u64,
    sub_bucket_count: u32,
    unit_magnitude: u32,
    half_magnitude: u32,
) -> (bc: u32)
    requires
        sub_bucket_count as nat == pow2(half_magnitude as nat + 1),
        unit_magnitude + half_magnitude <= 61,
    ensures
        1 <= bc,
        half_magnitude + unit_magnitude + bc <= 64,
        (highest as nat) < (sub_bucket_count as nat) * pow2((unit_magnitude + bc - 1) as nat),
        bc == 1 || (sub_bucket_count as nat) * pow2((unit_magnitude + bc - 2) as nat)
            <= highest as nat,
{
    proof {
        lemma_pow2_adds(half_magnitude as nat + 1, unit_magnitude as nat);
        lemma_pow2_increases_for(half_magnitude as nat + 1 + unit_magnitude as nat, 62);
        lemma2_to64();
        lemma2_to64_rest();
    }
    let zero_span: u64 = sub_bucket_count as u64 * pow2_u64(unit_magnitude);
    let mut bucket_count: u32 = 1;
    let mut smallest_untrackable: u64 = zero_span;
    while smallest_untrackable <= highest && smallest_untrackable <= u64::MAX / 2
        invariant
            1 <= bucket_count,
            half_magnitude + unit_magnitude + bucket_count <= 63,
            sub_bucket_count as nat == pow2(half_magnitude as nat + 1),
            smallest_untrackable as nat == (sub_bucket_count as nat) * pow2(
                (unit_magnitude + bucket_count - 1) as nat,
            ),
            smallest_untrackable as nat == pow2(
                (half_magnitude + unit_magnitude + bucket_count) as nat,
            ),
            smallest_untrackable >= 1,
            bucket_count == 1 || (sub_bucket_count as nat) * pow2(
                (unit_magnitude + bucket_count - 2) as nat,
            ) <= highest as nat,
        decreases u64::MAX - smallest_untrackable,
    {
        proof {
            lemma_pow2_adds((half_magnitude + unit_magnitude + bucket_count) as nat, 1);
            lemma2_to64();
            lemma_pow2_adds((unit_magnitude + bucket_count - 1) as nat, 1);
            lemma_mul_is_associative(
                sub_bucket_count as int,
                pow2((unit_magnitude + bucket_count - 1) as nat) as int,
                2,
            );
            if half_magnitude + unit_magnitude + bucket_count + 1 > 63 {
                lemma_pow2_increases_for(
                    64,
                    (half_magnitude + unit_magnitude + bucket_count + 1) as nat,
                );
                lemma2_to64();
                assert(false);
            }
        }
        smallest_untrackable = smallest_untrackable * 2;
        bucket_count = bucket_count + 1;
    }
    if smallest_untrackable <= highest {
        // one more doubling leaves the 64-bit range, so one more bucket covers all
        proof {
            lemma_pow2_adds((half_magnitude + unit_magnitude + bucket_count) as nat, 1);
            lemma2_to64();
            lemma_pow2_adds((unit_magnitude + bucket_count - 1) as nat, 1);
            lemma_mul_is_associative(
                sub_bucket_count as int,
                pow2((unit_magnitude + bucket_count - 1) as nat) as int,
                2,
            );
        }
        bucket_count = bucket_count + 1;
    }
    bucket_count
}

impl BucketConfig {
    /// Layout computation: derives all bucket parameters from the requested
    /// range and precision, or reports why they are unacceptable.
    pub fn compute(lowest: u64, highest: u64, significant_figures: u32) -> (r: Result<
        BucketConfig,
        HistogramErr,
    >)
        ensures
            r is Ok <==> spec_params_accepted(lowest, highest, significant_figures),
            r matches Ok(c) ==> {
                &&& c.wf()
                &&& c.lowest_discernible_value == lowest
                &&& c.highest_trackable_value == highest
                &&& c.significant_figures == significant_figures
            },
    {
        if lowest < 1 || significant_figures < 1 || significant_figures > 5 {
            return Err(HistogramErr::InitFailed);
        }
        if highest / 2 < lowest {
            proof {
                lemma_fundamental_div_mod(highest as int, 2);
            }
            return Err(HistogramErr::InitFailed);
        }
        assert(2 * lowest <= highest) by {
            lemma_fundamental_div_mod(highest as int, 2);
        }
        // 10^sf, between 10 and 100000
        let ten_to_sf: u64 = if significant_figures == 1 {
            10
        } else if significant_figures == 2 {
            100
        } else if significant_figures == 3 {
            1000
        } else if significant_figures == 4 {
            10000
        } else {
            100000
        };
        assert(ten_to_sf == ten_pow(significant_figures as nat)) by {
            reveal_with_fuel(ten_pow, 6);
        }
        let single_unit_resolution: u64 = 2 * ten_to_sf;
        let sbc_magnitude: u32 = magnitude_covering(single_unit_resolution);
        assert(sbc_magnitude >= 5) by {
            lemma2_to64();
            if sbc_magnitude < 5 {
                lemma_pow2_increases_for(sbc_magnitude as nat, 4);
            }
        }
        let half_magnitude: u32 = sbc_magnitude - 1;
        assert(spec_half_magnitude(significant_figures as nat) == half_magnitude) by {
            lemma_halvings_unique(
                (2 * ten_pow(significant_figures as nat) - 1) as nat,
                1,
                sbc_magnitude as nat,
            );
            lemma_mul_basics(pow2(sbc_magnitude as nat) as int);
            lemma_mul_basics(pow2((sbc_magnitude - 1) as nat) as int);
        }
        let unit_magnitude: u32 = log2_floor_u64(lowest);
        if unit_magnitude + half_magnitude > 61 {
            return Err(HistogramErr::InitFailed);
        }
        let sub_bucket_half_count: u32 = pow2_u64(half_magnitude) as u32;
        assert(sub_bucket_half_count as nat == pow2(half_magnitude as nat)) by {
            lemma_pow2_increases_for(half_magnitude as nat, 17);
            lemma2_to64();
        }
        let sub_bucket_count: u32 = 2 * sub_bucket_half_count;
        proof {
            lemma_pow2_adds(half_magnitude as nat, 1);
            lemma2_to64();
        }
        let bucket_count: u32 = buckets_to_cover(
            highest,
            sub_bucket_count,
            unit_magnitude,
            half_magnitude,
        );
        assert(bucket_count <= 60);
        assert(((bucket_count + 1) as nat) * (sub_bucket_half_count as nat) <= 61 * 0x20000) by {
            lemma_pow2_increases_for(half_magnitude as nat, 17);
            lemma2_to64();
            lemma_mul_inequality((bucket_count + 1) as int, 61, sub_bucket_half_count as int);
            lemma_mul_le_mono_right(61, sub_bucket_half_count as nat, 0x20000);
        }
        let counts_len: usize = ((bucket_count + 1) as usize) * (sub_bucket_half_count as usize);
        Ok(
            BucketConfig {
                lowest_discernible_value: lowest,
                highest_trackable_value: highest,
                significant_figures,
                unit_magnitude,
                sub_bucket_half_count_magnitude: half_magnitude,
                sub_bucket_count,
                sub_bucket_half_count,
                bucket_count,
                counts_len,
            },
        )
    }
}


impl BucketConfig {
    /// Coarse bucket that `value` falls in.
    #[verifier::rlimit(50)]
    pub fn bucket_index_of(&self, value: u64) -> (bi: u32)
        requires
            self.wf(),
        ensures
            bi as nat == self.spec_bucket_index(value as nat),
            bi <= 63,
    {
        proof {
            self.lemma_layout();
            lemma_pow2_pos(self.unit_magnitude as nat);
            lemma2_to64();
            lemma2_to64_rest();
        }
        let span: u64 = (self.sub_bucket_count as u64) * pow2_u64(self.unit_magnitude);
        let mut v: u64 = value;
        let mut k: u32 = 0;
        while v >= span
            invariant
                self.wf(),
                span as nat == self.spec_bucket_zero_span(),
                span >= 32,
                self.spec_bucket_index(value as nat) == k + halvings_below(
                    v as nat,
                    span as nat,
                ),
                value as nat >= (v as nat) * pow2(k as nat),
                k <= 63,
            decreases v,
        {
            proof {
                lemma_pow2_adds(k as nat, 1);
                lemma2_to64();
                assert((v as nat) * pow2(k as nat) >= (2 * (v as nat / 2)) * pow2(k as nat)) by {
                    lemma_fundamental_div_mod(v as int, 2);
                    lemma_mul_inequality(
                        (2 * (v as nat / 2)) as int,
                        v as int,
                        pow2(k as nat) as int,
                    );
                }
                assert((2 * (v as nat / 2)) * pow2(k as nat) == (v as nat / 2) * pow2(
                    k as nat + 1,
                )) by (nonlinear_arith)
                    requires
                        pow2(k as nat + 1) == 2 * pow2(k as nat),
                ;
                if k >= 63 {
                    // value >= v * 2^63 >= 32 * 2^63 is impossible for a u64
                    assert((v as nat) * pow2(63) >= 32 * pow2(63)) by {
                        lemma_mul_inequality(32, v as int, pow2(63) as int);
                    }
                    assert(false);
                }
            }
            v = v / 2;
            k = k + 1;
        }
        k
    }

    /// The counter slot that `value` maps to.
    pub fn counts_index_for(&self, value: u64) -> (idx: usize)
        requires
            self.wf(),
            value as nat <= self.spec_max_value(),
        ensures
            idx as nat == self.spec_counts_index(value as nat),
            idx < self.counts_len,
    {
        proof {
            self.lemma_index_mapping(value as nat);
            self.lemma_layout();
        }
        let bi = self.bucket_index_of(value);
        proof {
            lemma_pow2_pos((self.unit_magnitude + bi) as nat);
        }
        let d: u64 = pow2_u64(self.unit_magnitude + bi);
        let sbi: u64 = value / d;
        proof {
            lemma_mul_inequality(
                bi as int,
                (self.bucket_count - 1) as int,
                self.sub_bucket_half_count as int,
            );
            lemma_pow2_increases_for(self.sub_bucket_half_count_magnitude as nat, 17);
            lemma2_to64();
            lemma_mul_le_mono_right((self.bucket_count - 1) as nat, self.sub_bucket_half_count as nat, 0x20000);
        }
        (bi as usize) * (self.sub_bucket_half_count as usize) + (sbi as usize)
    }

    /// Smallest raw value that maps to slot `i`.
    pub fn value_at_index(&self, i: usize) -> (v: u64)
        requires
            self.wf(),
            i < self.counts_len,
        ensures
            v as nat == self.spec_value_at(i as nat),
            v as nat <= self.spec_max_value(),
    {
        proof {
            self.lemma_slot_inverse(i as nat);
            self.lemma_layout();
        }
        proof {
            lemma_pow2_increases_for(
                (self.sub_bucket_half_count_magnitude + self.unit_magnitude
                    + self.bucket_count) as nat,
                64,
            );
            lemma2_to64();
        }
        let half = self.sub_bucket_half_count as usize;
        if i < half {
            assert((i as nat) * pow2(self.unit_magnitude as nat) == self.spec_value_at(i as nat));
            let r = (i as u64) * pow2_u64(self.unit_magnitude);
            r
        } else {
            proof {
                lemma_mod_division_less_than_divisor(i as int, half as int);
                lemma_mul_is_commutative(half as int, (self.bucket_count + 1) as int);
                lemma_multiply_divide_lt(i as int, half as int, (self.bucket_count + 1) as int);
                lemma_div_by_multiple(1, half as int);
                lemma_div_is_ordered(half as int, i as int, half as int);
            }
            let b: u32 = (i / half) as u32 - 1;
            let s: u64 = (i % half) as u64 + self.sub_bucket_half_count as u64;
            assert(b == self.spec_bucket_of_slot(i as nat));
            assert(s == self.spec_sub_bucket_of_slot(i as nat));
            assert((s as nat) * pow2((self.unit_magnitude + b) as nat) == self.spec_value_at(
                i as nat,
            ));
            let r = s * pow2_u64(self.unit_magnitude + b);
            r
        }
    }

    /// Index math valid for any 64-bit value, representable or not: the
    /// sub-bucket stays within its bucket and the equivalence range brackets
    /// the value without leaving the 64-bit range.
    pub proof fn lemma_index_mapping_any(&self, v: nat)
        requires
            self.wf(),
            v < pow2(64),
        ensures
            self.unit_magnitude + self.spec_bucket_index(v) + self.sub_bucket_half_count_magnitude
                + 1 <= 64,
            self.spec_bucket_index(v) <= 63,
            self.spec_sub_bucket_index(v) < self.sub_bucket_count,
            self.spec_lowest_equivalent(v) <= v,
            v <= self.spec_highest_equivalent(v),
            self.spec_highest_equivalent(v) < pow2(64),
    {
        let shcm = self.sub_bucket_half_count_magnitude as nat;
        let u = self.unit_magnitude as nat;
        let e = shcm + 1 + u;
        let t = self.spec_bucket_zero_span();
        let bi = self.spec_bucket_index(v);
        self.lemma_layout();
        lemma_pow2_pos(e);
        lemma_halvings_below(v, t);
        // bi stays small enough that 2^(e + bi) <= 2^64
        if bi > 64 - e {
            assert(t * pow2((bi - 1) as nat) == pow2((e + bi - 1) as nat)) by {
                lemma_pow2_adds(e, (bi - 1) as nat);
            }
            lemma_pow2_increases_for(64, (e + bi - 1) as nat);
            assert(false);
        }
        let d = pow2(u + bi);
        lemma_pow2_pos(u + bi);
        let sbi = self.spec_sub_bucket_index(v);
        assert((self.sub_bucket_count as nat) * d == t * pow2(bi)) by {
            lemma_pow2_adds(shcm + 1, u + bi);
            lemma_pow2_adds(e, bi);
        }
        assert(sbi < self.sub_bucket_count) by {
            lemma_mul_is_commutative(self.sub_bucket_count as int, d as int);
            lemma_multiply_divide_lt(v as int, d as int, self.sub_bucket_count as int);
        }
        // bracketing
        assert(v == d * (v / d) + v % d) by {
            lemma_fundamental_div_mod(v as int, d as int);
        }
        lemma_mod_division_less_than_divisor(v as int, d as int);
        assert(self.spec_lowest_equivalent(v) == d * sbi) by {
            lemma_mul_is_commutative(sbi as int, d as int);
        }
        assert((sbi + 1) * d <= pow2(e + bi)) by {
            lemma_mul_inequality((sbi + 1) as int, self.sub_bucket_count as int, d as int);
            lemma_pow2_adds(e, bi);
        }
        assert(pow2(e + bi) <= pow2(64)) by {
            lemma_pow2_increases_for(e + bi, 64);
        }
        assert(self.spec_highest_equivalent(v) < (sbi + 1) * d) by {
            lemma_mul_is_distributive_add_other_way(d as int, sbi as int, 1);
        }
    }

    /// The counter slot that `value` maps to, computed for any value; the
    /// slot is in range exactly for representable values.
    pub fn index_for_any(&self, value: u64) -> (idx: usize)
        requires
            self.wf(),
        ensures
            idx as nat == self.spec_counts_index(value as nat),
            value as nat <= self.spec_max_value() ==> idx < self.counts_len,
    {
        proof {
            lemma2_to64();
            lemma2_to64_rest();
            self.lemma_layout();
            self.lemma_index_mapping_any(value as nat);
            if value as nat <= self.spec_max_value() {
                self.lemma_index_mapping(value as nat);
            }
        }
        let bi = self.bucket_index_of(value);
        proof {
            lemma_pow2_pos((self.unit_magnitude + bi) as nat);
            lemma_mul_inequality(bi as int, 63, self.sub_bucket_half_count as int);
            lemma_pow2_increases_for(self.sub_bucket_half_count_magnitude as nat, 17);
            lemma_mul_le_mono_right(63, self.sub_bucket_half_count as nat, 0x20000);
        }
        let d: u64 = pow2_u64(self.unit_magnitude + bi);
        let sbi: u64 = value / d;
        (bi as usize) * (self.sub_bucket_half_count as usize) + (sbi as usize)
    }

    /// Smallest value equivalent to `value`, for any 64-bit value.
    pub fn lowest_equivalent_any(&self, value: u64) -> (r: u64)
        requires
            self.wf(),
        ensures
            r as nat == self.spec_lowest_equivalent(value as nat),
            r <= value,
    {
        proof {
            lemma2_to64();
            lemma2_to64_rest();
            self.lemma_index_mapping_any(value as nat);
            lemma_pow2_pos(
                (self.unit_magnitude as nat + self.spec_bucket_index(value as nat)) as nat,
            );
        }
        let bi = self.bucket_index_of(value);
        let d: u64 = pow2_u64(self.unit_magnitude + bi);
        proof {
            lemma_fundamental_div_mod(value as int, d as int);
            lemma_mod_division_less_than_divisor(value as int, d as int);
            lemma_mul_is_commutative((value as nat / d as nat) as int, d as int);
        }
        (value / d) * d
    }

    /// Width of the equivalence range holding `value`, for any 64-bit value.
    pub fn size_of_range_any(&self, value: u64) -> (r: u64)
        requires
            self.wf(),
        ensures
            r as nat == self.spec_size_of_range(value as nat),
            r >= 1,
    {
        proof {
            lemma2_to64();
            lemma2_to64_rest();
            self.lemma_index_mapping_any(value as nat);
            lemma_pow2_pos(
                (self.unit_magnitude as nat + self.spec_bucket_index(value as nat)) as nat,
            );
        }
        let bi = self.bucket_index_of(value);
        pow2_u64(self.unit_magnitude + bi)
    }

    /// Largest value equivalent to `value`, for any 64-bit value.
    pub fn highest_equivalent_any(&self, value: u64) -> (r: u64)
        requires
            self.wf(),
        ensures
            r as nat == self.spec_highest_equivalent(value as nat),
            value <= r,
    {
        proof {
            lemma2_to64();
            lemma2_to64_rest();
            self.lemma_index_mapping_any(value as nat);
        }
        let low = self.lowest_equivalent_any(value);
        let size = self.size_of_range_any(value);
        low + (size - 1)
    }

    /// Midpoint of the equivalence range holding `value`, for any 64-bit value.
    pub fn median_equivalent_any(&self, value: u64) -> (r: u64)
        requires
            self.wf(),
        ensures
            r as nat == self.spec_median_equivalent(value as nat),
    {
        proof {
            lemma2_to64();
            lemma2_to64_rest();
            self.lemma_index_mapping_any(value as nat);
        }
        let low = self.lowest_equivalent_any(value);
        let size = self.size_of_range_any(value);
        low + size / 2
    }
}


/// Two well-formed layouts for the same requested parameters agree on every
/// derived field.
pub proof fn lemma_config_unique(c1: BucketConfig, c2: BucketConfig)
    requires
        c1.wf(),
        c2.wf(),
        c1.lowest_discernible_value == c2.lowest_discernible_value,
        c1.highest_trackable_value == c2.highest_trackable_value,
        c1.significant_figures == c2.significant_figures,
    ensures
        c1 == c2,
{
    c1.lemma_layout();
    c2.lemma_layout();
    // unit magnitude is the unique power-of-two bracket of `lowest`
    if c1.unit_magnitude < c2.unit_magnitude {
        lemma_pow2_increases_for(c1.unit_magnitude as nat + 1, c2.unit_magnitude as nat);
        assert(false);
    }
    if c2.unit_magnitude < c1.unit_magnitude {
        lemma_pow2_increases_for(c2.unit_magnitude as nat + 1, c1.unit_magnitude as nat);
        assert(false);
    }
    // the half-count magnitude is the unique bracket of 2 * 10^sf
    if c1.sub_bucket_half_count_magnitude < c2.sub_bucket_half_count_magnitude {
        lemma_pow2_increases_for(
            c1.sub_bucket_half_count_magnitude as nat + 1,
            c2.sub_bucket_half_count_magnitude as nat,
        );
        assert(false);
    }
    if c2.sub_bucket_half_count_magnitude < c1.sub_bucket_half_count_magnitude {
        lemma_pow2_increases_for(
            c2.sub_bucket_half_count_magnitude as nat + 1,
            c1.sub_bucket_half_count_magnitude as nat,
        );
        assert(false);
    }
    // the bucket count is the least number of doublings that covers `highest`
    let u = c1.unit_magnitude as nat;
    let sbc = c1.sub_bucket_count as nat;
    if c1.bucket_count < c2.bucket_count {
        assert(sbc * pow2((u + c2.bucket_count - 2) as nat) <= c1.highest_trackable_value as nat);
        assert(pow2((u + c1.bucket_count - 1) as nat) <= pow2((u + c2.bucket_count - 2) as nat))
            by {
            lemma_pow2_increases_for(
                (u + c1.bucket_count - 1) as nat,
                (u + c2.bucket_count - 2) as nat,
            );
        }
        lemma_mul_le_mono_right(
            sbc,
            pow2((u + c1.bucket_count - 1) as nat),
            pow2((u + c2.bucket_count - 2) as nat),
        );
        assert(false);
    }
    if c2.bucket_count < c1.bucket_count {
        assert(sbc * pow2((u + c1.bucket_count - 2) as nat) <= c1.highest_trackable_value as nat);
        assert(pow2((u + c2.bucket_count - 1) as nat) <= pow2((u + c1.bucket_count - 2) as nat))
            by {
            lemma_pow2_increases_for(
                (u + c2.bucket_count - 1) as nat,
                (u + c1.bucket_count - 2) as nat,
            );
        }
        lemma_mul_le_mono_right(
            sbc,
            pow2((u + c2.bucket_count - 1) as nat),
            pow2((u + c1.bucket_count - 2) as nat),
        );
        assert(false);
    }
}

/// A well-formed layout's parameters pass the construction acceptance test.
pub proof fn lemma_wf_accepted(c: BucketConfig)
    requires
        c.wf(),
    ensures
        spec_params_accepted(
            c.lowest_discernible_value,
            c.highest_trackable_value,
            c.significant_figures,
        ),
        spec_log2_floor(c.lowest_discernible_value as nat) == c.unit_magnitude,
        spec_half_magnitude(c.significant_figures as nat) == c.sub_bucket_half_count_magnitude,
{
    let u = c.unit_magnitude as nat;
    let shcm = c.sub_bucket_half_count_magnitude as nat;
    let t2 = 2 * ten_pow(c.significant_figures as nat);
    c.lemma_layout();
    assert(spec_log2_floor(c.lowest_discernible_value as nat) == u) by {
        lemma_halvings_unique(c.lowest_discernible_value as nat, 1, u + 1);
        lemma_mul_basics(pow2(u) as int);
        lemma_mul_basics(pow2(u + 1) as int);
    }
    assert(spec_half_magnitude(c.significant_figures as nat) == shcm) by {
        lemma_halvings_unique((t2 - 1) as nat, 1, shcm + 1);
        lemma_mul_basics(pow2(shcm) as int);
        lemma_mul_basics(pow2(shcm + 1) as int);
    }
}


impl BucketConfig {
    /// Slot values leave headroom at the top of the 64-bit range: a boundary
    /// saturated at the largest word can never be reached by a slot value.
    pub proof fn lemma_slot_value_lt_max(&self, i: nat)
        requires
            self.wf(),
            i < self.counts_len,
        ensures
            self.spec_value_at(i) < u64::MAX,
    {
        let u = self.unit_magnitude as nat;
        let bc = self.bucket_count as nat;
        let shcm = self.sub_bucket_half_count_magnitude as nat;
        let b = self.spec_bucket_of_slot(i);
        let sv = self.spec_sub_bucket_of_slot(i);
        let d = pow2((u + b) as nat);
        self.lemma_layout();
        self.lemma_slot_inverse(i);
        lemma_pow2_pos(u + b);
        assert(self.spec_value_at(i) <= (self.sub_bucket_count - 1) * pow2((u + bc - 1) as nat))
            by {
            lemma_pow2_increases_for(u + b, (u + bc - 1) as nat);
            lemma_mul_upper_bound(
                sv as int,
                (self.sub_bucket_count - 1) as int,
                d as int,
                pow2((u + bc - 1) as nat) as int,
            );
        }
        assert((self.sub_bucket_count - 1) * pow2((u + bc - 1) as nat) == (
        self.sub_bucket_count as nat) * pow2((u + bc - 1) as nat) - pow2((u + bc - 1) as nat)) by {
            lemma_mul_is_distributive_sub_other_way(
                pow2((u + bc - 1) as nat) as int,
                self.sub_bucket_count as int,
                1,
            );
        }
        if u + bc >= 2 {
            lemma2_to64();
            // the top bucket is at least two units wide
            assert(pow2((u + bc - 1) as nat) >= 2) by {
                lemma_pow2_increases_for(1, (u + bc - 1) as nat);
                lemma2_to64();
            }
            assert(self.spec_max_value() + 1 <= pow2(64)) by {
                lemma_pow2_increases_for(shcm + u + bc, 64);
            }
        } else {
            // a single bucket at unit magnitude zero covers a small range
            assert(self.spec_max_value() + 1 == pow2(shcm + 1)) by {
                lemma2_to64();
            }
            assert(pow2(shcm + 1) <= pow2(18)) by {
                lemma_pow2_increases_for(shcm + 1, 18);
            }
            lemma2_to64();
        }
    }
}

} // verus!
