//! Laws that relate several operations, stated over the same spec functions
//! the operations' own contracts use.

use vstd::arithmetic::mul::*;
use vstd::prelude::*;

use crate::counting::{prefix_total, total_of};
use crate::histogram::Histogram;
use crate::percentile::{
    first_reaching, lemma_first_reaching_monotonic, spec_percentile_target, Percentile,
};

verus! {

/// Equivalence monotonicity: every value sits inside its own equivalence
/// range, and the bottom of that range maps to the same counter slot.
pub proof fn lemma_equivalent_range_brackets_value(h: &Histogram, v: u64)
    requires
        h.wf(),
        v <= h.cfg.highest_trackable_value,
    ensures
        h.cfg.spec_lowest_equivalent(v as nat) <= v as nat,
        v as nat <= h.cfg.spec_highest_equivalent(v as nat),
        h.cfg.spec_counts_index(h.cfg.spec_lowest_equivalent(v as nat)) == h.cfg.spec_counts_index(
            v as nat,
        ),
{
    h.cfg.lemma_layout();
    h.cfg.lemma_index_mapping(v as nat);
    h.cfg.lemma_range_shares_slot(v as nat, h.cfg.spec_lowest_equivalent(v as nat));
}

/// Percentile monotonicity: a larger percentile never reports a smaller value.
pub proof fn lemma_percentile_monotonic(h: &Histogram, p1: Percentile, p2: Percentile)
    requires
        h.wf(),
        p1.wf(),
        p2.wf(),
        p1.spec_le(&p2),
    ensures
        h.spec_value_at_percentile(p1) <= h.spec_value_at_percentile(p2),
{
    if h.total_count != 0 {
        let total = h.total_count as nat;
        let s = h.counts@;
        let n1 = p1.spec_clamped_numerator();
        let d1 = p1.denominator as nat;
        let n2 = p2.spec_clamped_numerator();
        let d2 = p2.denominator as nat;
        let t1 = spec_percentile_target(total, p1);
        let t2 = spec_percentile_target(total, p2);
        // the ordering premise, unfolded
        assert(n1 * d2 <= n2 * d1);
        // the targets follow the rational order
        assert((n1 * total) * (100 * d2) <= (n2 * total) * (100 * d1)) by (nonlinear_arith)
            requires
                n1 * d2 <= n2 * d1,
                total >= 1,
                d1 >= 1,
                d2 >= 1,
        ;
        lemma_ceil_div_le_cross(n1 * total, 100 * d1, n2 * total, 100 * d2);
        assert(t1 <= t2);
        lemma_target_bounds(total, p1);
        lemma_target_bounds(total, p2);
        // the first slot reaching the target moves right with the target
        let slot1 = first_reaching(s, t1, 0);
        let slot2 = first_reaching(s, t2, 0);
        lemma_first_reaching_monotonic(s, t1, t2, 0);
        lemma_reaching_slot_in_range(h, t2);
        lemma_reaching_slot_in_range(h, t1);
        // slot values and their range tops are ordered
        h.cfg.lemma_slot_inverse(slot1 as nat);
        h.cfg.lemma_slot_inverse(slot2 as nat);
        h.cfg.lemma_index_mapping(h.cfg.spec_value_at(slot1));
        h.cfg.lemma_index_mapping(h.cfg.spec_value_at(slot2));
        if slot1 < slot2 {
            h.cfg.lemma_adjacent_slots(slot1);
            h.cfg.lemma_value_at_increases((slot1 + 1) as nat, slot2);
            vstd::arithmetic::power2::lemma_pow2_pos(
                (h.cfg.unit_magnitude as nat + h.cfg.spec_bucket_index(
                    h.cfg.spec_value_at(slot1),
                )) as nat,
            );
            assert(h.cfg.spec_highest_equivalent(h.cfg.spec_value_at(slot1)) < h.cfg.spec_value_at(
                slot1 + 1,
            ));
            assert(h.cfg.spec_value_at(slot2) <= h.cfg.spec_highest_equivalent(
                h.cfg.spec_value_at(slot2),
            ));
        } else {
            assert(slot1 == slot2);
        }
        assert(h.spec_value_at_percentile(p1) == h.cfg.spec_highest_equivalent(
            h.cfg.spec_value_at(slot1),
        ));
        assert(h.spec_value_at_percentile(p2) == h.cfg.spec_highest_equivalent(
            h.cfg.spec_value_at(slot2),
        ));
    }
}

/// A reachable target's first slot is a real slot.
pub proof fn lemma_reaching_slot_in_range(h: &Histogram, target: nat)
    requires
        h.wf(),
        h.total_count >= 1,
        target <= h.total_count,
    ensures
        first_reaching(h.counts@, target, 0) < h.counts@.len(),
{
    let s = h.counts@;
    if s.len() == 0 {
        assert(total_of(s) == 0);
        assert(false);
    }
    if target == 0 {
        assert(first_reaching(s, 0, 0) == 0);
    } else {
        crate::percentile::lemma_first_reaching_in_range(s, target, 0);
        if first_reaching(s, target, 0) >= s.len() {
            assert(prefix_total(s, ((s.len() - 1) + 1) as nat) < target);
            assert(false);
        }
    }
}

/// The ceiling target never exceeds the population it is a share of.
pub proof fn lemma_target_bounds(total: nat, p: Percentile)
    requires
        total >= 1,
        p.wf(),
    ensures
        spec_percentile_target(total, p) <= total,
{
    let pn = p.spec_clamped_numerator();
    let d = p.denominator as nat;
    assert(pn * total + 100 * d - 1 < (100 * d) * (total + 1)) by (nonlinear_arith)
        requires
            d >= 1,
            pn <= 100 * d,
            total >= 1,
    ;
    vstd::arithmetic::div_mod::lemma_multiply_divide_lt(
        (pn * total + 100 * d - 1) as int,
        (100 * d) as int,
        (total + 1) as int,
    );
}

/// Ceiling division respects the rational order: from `a*d <= c*b` with
/// positive denominators, `ceil(a/b) <= ceil(c/d)`.
pub proof fn lemma_ceil_div_le_cross(a: nat, b: nat, c: nat, d: nat)
    requires
        b >= 1,
        d >= 1,
        a * d <= c * b,
    ensures
        ((a + b - 1) as nat) / b <= ((c + d - 1) as nat) / d,
{
    let k = ((c + d - 1) as nat) / d;
    // k * d covers c
    assert(c <= k * d) by {
        vstd::arithmetic::div_mod::lemma_fundamental_div_mod((c + d - 1) as int, d as int);
        vstd::arithmetic::div_mod::lemma_mod_division_less_than_divisor(
            (c + d - 1) as int,
            d as int,
        );
        lemma_mul_is_commutative(k as int, d as int);
    }
    // so a fits under k * b
    assert(a <= k * b) by {
        assert(c * b <= (k * d) * b) by {
            lemma_mul_inequality(c as int, (k * d) as int, b as int);
            lemma_mul_is_commutative(c as int, b as int);
            lemma_mul_is_commutative((k * d) as int, b as int);
        }
        assert((k * d) * b == (k * b) * d) by (nonlinear_arith);
        if a > k * b {
            assert((k * b) * d < a * d) by {
                lemma_mul_strict_inequality((k * b) as int, a as int, d as int);
                lemma_mul_is_commutative((k * b) as int, d as int);
                lemma_mul_is_commutative(a as int, d as int);
            }
            assert(false);
        }
    }
    // and the left ceiling stays at or below k
    assert(a + b - 1 < (k + 1) * b) by {
        lemma_mul_is_distributive_add_other_way(b as int, k as int, 1);
    }
    assert(((a + b - 1) as nat) / b < k + 1) by {
        lemma_mul_is_commutative((k + 1) as int, b as int);
        vstd::arithmetic::div_mod::lemma_multiply_divide_lt(
            (a + b - 1) as int,
            b as int,
            (k + 1) as int,
        );
    }
}

} // verus!
