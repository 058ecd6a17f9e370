//! Compact serialization: the bucket parameters and the non-zero counters as
//! `(zero-skip, run-length, count)` triples of variable-width integers, the
//! whole payload wrapped in base64 text for safe embedding in ASCII
//! transports. The form is self-describing: a decoder needs no out-of-band
//! schema.

use vstd::arithmetic::div_mod::*;
use vstd::prelude::*;

use crate::bucketing::{
    lemma_config_unique, lemma_wf_accepted, spec_params_accepted, BucketConfig,
};
use crate::counting::{lemma_prefix_total_monotonic, prefix_total, total_of};
use crate::histogram::Histogram;
use crate::HistogramErr;

verus! {

// --- variable-width integers -----------------------------------------------

/// Little-endian base-128 form of `v`: seven payload bits per byte, the high
/// bit marking continuation. Every field of this format is non-negative, so
/// the plain unsigned form is used; a zig-zag sign fold would add nothing.
pub open spec fn varint_bytes(v: nat) -> Seq<u8>
    decreases v,
{
    if v < 128 {
        seq![v as u8]
    } else {
        seq![(128 + v % 128) as u8] + varint_bytes(v / 128)
    }
}

/// Parses one variable-width integer from the front of `s`: the value and
/// the bytes consumed.
pub open spec fn varint_parse(s: Seq<u8>) -> Option<(nat, nat)>
    decreases s.len(),
{
    if s.len() == 0 {
        None
    } else if s[0] < 128 {
        Some((s[0] as nat, 1))
    } else {
        match varint_parse(s.skip(1)) {
            Some(p) => Some((((s[0] - 128) as nat + 128 * p.0) as nat, p.1 + 1)),
            None => None,
        }
    }
}

/// A successful parse consumes at least one and at most all bytes.
pub proof fn lemma_varint_parse_len(s: Seq<u8>)
    ensures
        varint_parse(s) matches Some(p) ==> 1 <= p.1 <= s.len(),
    decreases s.len(),
{
    if s.len() > 0 && s[0] >= 128 {
        lemma_varint_parse_len(s.skip(1));
    }
}

/// Parsing right after writing gives the value back, whatever follows.
pub proof fn lemma_varint_roundtrip(v: nat, rest: Seq<u8>)
    ensures
        varint_parse(varint_bytes(v) + rest) == Some((v, varint_bytes(v).len())),
    decreases v,
{
    let s = varint_bytes(v) + rest;
    if v < 128 {
        assert(s[0] == v as u8);
    } else {
        lemma_varint_roundtrip(v / 128, rest);
        assert(s.skip(1) =~= varint_bytes(v / 128) + rest);
        assert(s[0] == (128 + v % 128) as u8);
        lemma_fundamental_div_mod(v as int, 128);
    }
}

/// Appends the variable-width form of `v`.
pub fn write_varint(out: &mut Vec<u8>, v: u64)
    ensures
        final(out)@ == old(out)@ + varint_bytes(v as nat),
    decreases v,
{
    if v < 128 {
        out.push(v as u8);
        assert(final(out)@ =~= old(out)@ + varint_bytes(v as nat));
    } else {
        let ghost pre = out@;
        out.push(128 + (v % 128) as u8);
        write_varint(out, v / 128);
        assert(final(out)@ =~= pre + varint_bytes(v as nat));
    }
}

/// Reads one variable-width integer at `pos`. `None` when the bytes end
/// inside the integer or the value does not fit in 64 bits.
pub fn read_varint(bytes: &Vec<u8>, pos: usize) -> (r: Option<(u64, usize)>)
    requires
        pos <= bytes@.len(),
    ensures
        match r {
            Some(p) => {
                &&& varint_parse(bytes@.skip(pos as int)) == Some((p.0 as nat, (p.1 - pos) as nat))
                &&& pos < p.1 <= bytes@.len()
            },
            None => varint_parse(bytes@.skip(pos as int)) matches Some(q) ==> q.0 > u64::MAX,
        },
    decreases bytes@.len() - pos,
{
    if pos >= bytes.len() {
        return None;
    }
    let b = bytes[pos];
    if b < 128 {
        return Some((b as u64, pos + 1));
    }
    proof {
        assert(bytes@.skip(pos as int).skip(1) =~= bytes@.skip(pos as int + 1));
    }
    match read_varint(bytes, pos + 1) {
        None => {
            proof {
                if varint_parse(bytes@.skip(pos as int)) matches Some(q) {
                    lemma_varint_parse_len(bytes@.skip(pos as int + 1));
                }
            }
            None
        },
        Some((v, np)) => {
            if v <= (u64::MAX - 127) / 128 {
                proof {
                    lemma_fundamental_div_mod((u64::MAX - 127) as int, 128);
                    lemma_mod_division_less_than_divisor((u64::MAX - 127) as int, 128);
                    vstd::arithmetic::mul::lemma_mul_inequality(
                        v as int,
                        ((u64::MAX - 127) / 128) as int,
                        128,
                    );
                    vstd::arithmetic::mul::lemma_mul_is_commutative(
                        ((u64::MAX - 127) / 128) as int,
                        128,
                    );
                }
                Some(((b - 128) as u64 + 128 * v, np))
            } else {
                proof {
                    vstd::arithmetic::mul::lemma_mul_inequality(
                        ((u64::MAX - 127) / 128 + 1) as int,
                        v as int,
                        128,
                    );
                    vstd::arithmetic::mul::lemma_mul_is_commutative(
                        ((u64::MAX - 127) / 128 + 1) as int,
                        128,
                    );
                    vstd::arithmetic::mul::lemma_mul_is_commutative(v as int, 128);
                    lemma_fundamental_div_mod((u64::MAX - 127) as int, 128);
                    lemma_mod_division_less_than_divisor((u64::MAX - 127) as int, 128);
                }
                None
            }
        },
    }
}

// --- runs over the counter array ---------------------------------------------

/// Zeros at and after slot `i`, up to the next non-zero slot.
pub open spec fn zeros_at(s: Seq<u64>, i: nat) -> nat
    decreases s.len() - i,
{
    if i >= s.len() {
        0
    } else if s[i as int] != 0 {
        0
    } else {
        1 + zeros_at(s, i + 1)
    }
}

/// Length of the maximal run of slots equal to `s[i]` starting at `i`.
pub open spec fn run_len_at(s: Seq<u64>, i: nat) -> nat
    decreases s.len() - i,
{
    if i >= s.len() {
        0
    } else if i + 1 == s.len() || s[i as int + 1] != s[i as int] {
        1
    } else {
        1 + run_len_at(s, i + 1)
    }
}

/// What the zero scan finds: zeros up to the first non-zero slot or the end.
pub proof fn lemma_zeros_at(s: Seq<u64>, i: nat)
    requires
        i <= s.len(),
    ensures
        i + zeros_at(s, i) <= s.len(),
        forall|k: int| i <= k < i + zeros_at(s, i) ==> s[k] == 0,
        i + zeros_at(s, i) < s.len() ==> s[(i + zeros_at(s, i)) as int] != 0,
    decreases s.len() - i,
{
    if i < s.len() && s[i as int] == 0 {
        lemma_zeros_at(s, i + 1);
    }
}

/// What the run scan finds: equal slots, then a different one or the end.
pub proof fn lemma_run_len_at(s: Seq<u64>, i: nat)
    requires
        i < s.len(),
    ensures
        1 <= run_len_at(s, i),
        i + run_len_at(s, i) <= s.len(),
        forall|k: int| i <= k < i + run_len_at(s, i) ==> s[k] == s[i as int],
        i + run_len_at(s, i) < s.len() ==> s[(i + run_len_at(s, i)) as int] != s[i as int],
    decreases s.len() - i,
{
    if !(i + 1 == s.len() || s[i as int + 1] != s[i as int]) {
        lemma_run_len_at(s, i + 1);
    }
}

/// The counters from slot `i` on, as zero-skip / run-length / count triples.
/// Trailing zeros are not written.
pub open spec fn encode_counts(s: Seq<u64>, i: nat) -> Seq<u8>
    decreases s.len() - i,
    when i <= s.len()
    via encode_counts_dec
{
    let z = zeros_at(s, i);
    if i + z >= s.len() {
        Seq::empty()
    } else {
        let r = run_len_at(s, (i + z) as nat);
        varint_bytes(z) + varint_bytes(r) + varint_bytes(s[(i + z) as int] as nat)
            + encode_counts(s, (i + z + r) as nat)
    }
}

#[via_fn]
proof fn encode_counts_dec(s: Seq<u64>, i: nat) {
    let z = zeros_at(s, i);
    if i + z < s.len() {
        lemma_zeros_at(s, i);
        lemma_run_len_at(s, (i + z) as nat);
    }
}

/// A sequence of `n` empty counters.
pub open spec fn zero_counts(n: nat) -> Seq<u64> {
    Seq::new(n, |k: int| 0u64)
}

/// A run of `n` counters holding `v`.
pub open spec fn run_counts(n: nat, v: u64) -> Seq<u64> {
    Seq::new(n, |k: int| v)
}

/// Parses triples into a counter array of exactly `slots` slots. `None` on
/// trailing garbage, short reads, zero runs or counts, oversized values, or
/// runs past the end.
pub open spec fn decode_counts(b: Seq<u8>, slots: nat) -> Option<Seq<u64>>
    decreases b.len(),
    via decode_counts_dec
{
    if b.len() == 0 {
        Some(zero_counts(slots))
    } else {
        match varint_parse(b) {
            None => None,
            Some(zp) => match varint_parse(b.skip(zp.1 as int)) {
                None => None,
                Some(rp) => match varint_parse(b.skip((zp.1 + rp.1) as int)) {
                    None => None,
                    Some(vp) => {
                        if rp.0 >= 1 && 1 <= vp.0 <= u64::MAX && zp.0 + rp.0 <= slots {
                            match decode_counts(
                                b.skip((zp.1 + rp.1 + vp.1) as int),
                                (slots - zp.0 - rp.0) as nat,
                            ) {
                                None => None,
                                Some(rest) => Some(
                                    zero_counts(zp.0) + run_counts(rp.0, vp.0 as u64) + rest,
                                ),
                            }
                        } else {
                            None
                        }
                    },
                },
            },
        }
    }
}

#[via_fn]
proof fn decode_counts_dec(b: Seq<u8>, slots: nat) {
    if b.len() != 0 {
        lemma_varint_parse_len(b);
        match varint_parse(b) {
            Some(zp) => {
                lemma_varint_parse_len(b.skip(zp.1 as int));
                match varint_parse(b.skip(zp.1 as int)) {
                    Some(rp) => {
                        lemma_varint_parse_len(b.skip((zp.1 + rp.1) as int));
                    },
                    None => {},
                }
            },
            None => {},
        }
    }
}

/// Decoding what was encoded restores the counters from slot `i` on.
pub proof fn lemma_counts_roundtrip(s: Seq<u64>, i: nat)
    requires
        i <= s.len(),
    ensures
        decode_counts(encode_counts(s, i), (s.len() - i) as nat) == Some(s.skip(i as int)),
    decreases s.len() - i,
{
    lemma_zeros_at(s, i);
    let z = zeros_at(s, i);
    if i + z >= s.len() {
        assert(encode_counts(s, i) =~= Seq::<u8>::empty());
        assert(zero_counts((s.len() - i) as nat) =~= s.skip(i as int));
    } else {
        lemma_run_len_at(s, (i + z) as nat);
        let r = run_len_at(s, (i + z) as nat);
        let v = s[(i + z) as int];
        let tail = encode_counts(s, (i + z + r) as nat);
        let b = encode_counts(s, i);
        let bv = varint_bytes(v as nat);
        let bz = varint_bytes(z);
        let br = varint_bytes(r);
        assert(b == bz + br + bv + tail);
        lemma_varint_roundtrip(z, br + bv + tail);
        assert(b =~= bz + (br + bv + tail));
        assert(b.skip(bz.len() as int) =~= br + (bv + tail));
        lemma_varint_roundtrip(r, bv + tail);
        assert(b.skip((bz.len() + br.len()) as int) =~= bv + tail);
        lemma_varint_roundtrip(v as nat, tail);
        assert(b.skip((bz.len() + br.len() + bv.len()) as int) =~= tail);
        lemma_counts_roundtrip(s, (i + z + r) as nat);
        assert(v != 0);
        assert(decode_counts(b, (s.len() - i) as nat) == Some(
            zero_counts(z) + run_counts(r, v) + s.skip((i + z + r) as int),
        ));
        assert(zero_counts(z) + run_counts(r, v) + s.skip((i + z + r) as int) =~= s.skip(
            i as int,
        ));
    }
}


/// Last slot before `n` holding a sample; 0 when there is none.
pub open spec fn last_occupied_below(s: Seq<u64>, n: nat) -> nat
    decreases n,
{
    if n == 0 {
        0
    } else if s[n - 1] != 0 {
        (n - 1) as nat
    } else {
        last_occupied_below(s, (n - 1) as nat)
    }
}

/// A successful decode fills exactly the requested number of slots.
pub proof fn lemma_decode_counts_len(b: Seq<u8>, slots: nat)
    ensures
        decode_counts(b, slots) matches Some(s) ==> s.len() == slots,
    decreases b.len(),
{
    if b.len() != 0 {
        lemma_varint_parse_len(b);
        match varint_parse(b) {
            None => {},
            Some(zp) => {
                lemma_varint_parse_len(b.skip(zp.1 as int));
                match varint_parse(b.skip(zp.1 as int)) {
                    None => {},
                    Some(rp) => {
                        lemma_varint_parse_len(b.skip((zp.1 + rp.1) as int));
                        match varint_parse(b.skip((zp.1 + rp.1) as int)) {
                            None => {},
                            Some(vp) => {
                                if rp.0 >= 1 && 1 <= vp.0 <= u64::MAX && zp.0 + rp.0 <= slots {
                                    lemma_decode_counts_len(
                                        b.skip((zp.1 + rp.1 + vp.1) as int),
                                        (slots - zp.0 - rp.0) as nat,
                                    );
                                }
                            },
                        }
                    },
                }
            },
        }
    }
}

// --- base64 text wrapping ----------------------------------------------------

/// The base64 alphabet, by 6-bit value.
pub open spec fn b64_char(v: nat) -> u8 {
    if v < 26 {
        (65 + v) as u8
    } else if v < 52 {
        (97 + (v - 26)) as u8
    } else if v < 62 {
        (48 + (v - 52)) as u8
    } else if v == 62 {
        43u8
    } else {
        47u8
    }
}

/// Value of an alphabet byte; 64 marks a byte outside the alphabet.
pub open spec fn b64_value(c: u8) -> nat {
    if 65 <= c <= 90 {
        (c - 65) as nat
    } else if 97 <= c <= 122 {
        (c - 97 + 26) as nat
    } else if 48 <= c <= 57 {
        (c - 48 + 52) as nat
    } else if c == 43 {
        62
    } else if c == 47 {
        63
    } else {
        64
    }
}

/// A byte of the alphabet.
pub open spec fn b64_is_valid(c: u8) -> bool {
    b64_value(c) < 64
}

/// The alphabet is invertible.
pub proof fn lemma_b64_char_value(v: nat)
    requires
        v < 64,
    ensures
        b64_is_valid(b64_char(v)),
        b64_value(b64_char(v)) == v,
{
}

/// Base64 text for `s`: four alphabet bytes per three payload bytes, the
/// final group padded with `=`.
pub open spec fn b64_encode_seq(s: Seq<u8>) -> Seq<u8>
    decreases s.len(),
{
    if s.len() == 0 {
        Seq::empty()
    } else if s.len() == 1 {
        let a = s[0] as nat;
        seq![b64_char(a / 4), b64_char((a % 4) * 16), 61u8, 61u8]
    } else if s.len() == 2 {
        let a = s[0] as nat;
        let b = s[1] as nat;
        seq![b64_char(a / 4), b64_char((a % 4) * 16 + b / 16), b64_char((b % 16) * 4), 61u8]
    } else {
        let a = s[0] as nat;
        let b = s[1] as nat;
        let c = s[2] as nat;
        seq![
            b64_char(a / 4),
            b64_char((a % 4) * 16 + b / 16),
            b64_char((b % 16) * 4 + c / 64),
            b64_char(c % 64),
        ] + b64_encode_seq(s.skip(3))
    }
}

/// Payload bytes for base64 text; `None` on any byte outside the alphabet,
/// misplaced padding, or a length that is not a multiple of four.
pub open spec fn b64_decode_seq(t: Seq<u8>) -> Option<Seq<u8>>
    decreases t.len(),
{
    if t.len() == 0 {
        Some(Seq::empty())
    } else if t.len() < 4 {
        None
    } else {
        let v0 = b64_value(t[0]);
        let v1 = b64_value(t[1]);
        if v0 >= 64 || v1 >= 64 {
            None
        } else if t.len() == 4 && t[2] == 61 && t[3] == 61 {
            Some(seq![(v0 * 4 + v1 / 16) as u8])
        } else if t.len() == 4 && t[3] == 61 {
            let v2 = b64_value(t[2]);
            if v2 >= 64 {
                None
            } else {
                Some(seq![(v0 * 4 + v1 / 16) as u8, ((v1 % 16) * 16 + v2 / 4) as u8])
            }
        } else {
            let v2 = b64_value(t[2]);
            let v3 = b64_value(t[3]);
            if v2 >= 64 || v3 >= 64 {
                None
            } else {
                match b64_decode_seq(t.skip(4)) {
                    None => None,
                    Some(rest) => Some(
                        seq![
                            (v0 * 4 + v1 / 16) as u8,
                            ((v1 % 16) * 16 + v2 / 4) as u8,
                            ((v2 % 4) * 64 + v3) as u8,
                        ] + rest,
                    ),
                }
            }
        }
    }
}

/// One group of up to three bytes survives the trip through the alphabet.
proof fn lemma_b64_group(a: nat, b: nat, c: nat)
    requires
        a < 256,
        b < 256,
        c < 256,
    ensures
        b64_char(a / 4) != 61 && b64_char((a % 4) * 16 + b / 16) != 61,
        b64_char((b % 16) * 4 + c / 64) != 61 && b64_char(c % 64) != 61,
        b64_value(b64_char(a / 4)) * 4 + b64_value(b64_char((a % 4) * 16 + b / 16)) / 16 == a,
        (b64_value(b64_char((a % 4) * 16 + b / 16)) % 16) * 16 + b64_value(
            b64_char((b % 16) * 4 + c / 64),
        ) / 4 == b,
        (b64_value(b64_char((b % 16) * 4 + c / 64)) % 4) * 64 + b64_value(b64_char(c % 64)) == c,
{
    lemma_b64_char_value(a / 4);
    lemma_b64_char_value((a % 4) * 16 + b / 16);
    lemma_b64_char_value((b % 16) * 4 + c / 64);
    lemma_b64_char_value(c % 64);
    lemma_fundamental_div_mod(a as int, 4);
    lemma_fundamental_div_mod(b as int, 16);
    lemma_fundamental_div_mod(c as int, 64);
    lemma_fundamental_div_mod_converse(
        ((a % 4) * 16 + b / 16) as int,
        16,
        (a % 4) as int,
        (b / 16) as int,
    );
    lemma_fundamental_div_mod_converse(
        ((b % 16) * 4 + c / 64) as int,
        4,
        (b % 16) as int,
        (c / 64) as int,
    );
}

/// Decoding restores what was encoded.
pub proof fn lemma_b64_roundtrip(s: Seq<u8>)
    ensures
        b64_decode_seq(b64_encode_seq(s)) == Some(s),
    decreases s.len(),
{
    let t = b64_encode_seq(s);
    if s.len() == 0 {
        assert(s =~= Seq::<u8>::empty());
    } else if s.len() == 1 {
        let a = s[0] as nat;
        lemma_b64_group(a, 0, 0);
        assert(seq![(b64_value(t[0]) * 4 + b64_value(t[1]) / 16) as u8] =~= s);
    } else if s.len() == 2 {
        let a = s[0] as nat;
        let b = s[1] as nat;
        lemma_b64_group(a, b, 0);
        assert(seq![
            (b64_value(t[0]) * 4 + b64_value(t[1]) / 16) as u8,
            ((b64_value(t[1]) % 16) * 16 + b64_value(t[2]) / 4) as u8,
        ] =~= s);
    } else {
        let a = s[0] as nat;
        let b = s[1] as nat;
        let c = s[2] as nat;
        lemma_b64_group(a, b, c);
        lemma_b64_roundtrip(s.skip(3));
        assert(t.skip(4) =~= b64_encode_seq(s.skip(3)));
        if s.len() == 3 {
            assert(b64_encode_seq(s.skip(3)) =~= Seq::<u8>::empty());
        }
        assert(t.len() == 4 || t.len() > 4);
        if t.len() == 4 {
            // exactly one full group and nothing after it
            assert(b64_decode_seq(t.skip(4)) == Some(Seq::<u8>::empty()));
        }
        assert(seq![
            (b64_value(t[0]) * 4 + b64_value(t[1]) / 16) as u8,
            ((b64_value(t[1]) % 16) * 16 + b64_value(t[2]) / 4) as u8,
            ((b64_value(t[2]) % 4) * 64 + b64_value(t[3]) as nat) as u8,
        ] + s.skip(3) =~= s);
    }
}


// --- executable run-length coding -------------------------------------------

/// Appends the triples for all counters, exactly as `encode_counts` lays
/// them out.
pub fn append_counts(out: &mut Vec<u8>, counts: &Vec<u64>)
    ensures
        final(out)@ == old(out)@ + encode_counts(counts@, 0),
{
    let ghost s = counts@;
    let ghost goal = old(out)@ + encode_counts(counts@, 0);
    let len = counts.len();
    let mut i: usize = 0;
    proof {
        lemma_zeros_at(s, 0);
    }
    while i < len
        invariant
            i <= len,
            len == s.len(),
            s == counts@,
            out@ + encode_counts(s, i as nat) == goal,
        decreases len - i,
    {
        // zero run
        let mut z: usize = 0;
        while i + z < len && counts[i + z] == 0
            invariant
                i + z <= len,
                len == s.len(),
                s == counts@,
                forall|k: int| i <= k < i + z ==> s[k] == 0,
            decreases len - i - z,
        {
            z = z + 1;
        }
        proof {
            lemma_zeros_at(s, i as nat);
            // the scan found exactly the zero run
            if zeros_at(s, i as nat) < z {
                assert(s[(i + zeros_at(s, i as nat)) as int] == 0);
                assert(false);
            }
            if zeros_at(s, i as nat) > z {
                assert(s[(i + z) as int] == 0);
                assert(false);
            }
        }
        if i + z == len {
            i = len;
        } else {
            let v = counts[i + z];
            let mut r: usize = 1;
            while i + z + r < len && counts[i + z + r] == v
                invariant
                    1 <= r,
                    i + z + r <= len,
                    len == s.len(),
                    s == counts@,
                    v == s[(i + z) as int],
                    forall|k: int| i + z <= k < i + z + r ==> s[k] == v,
                decreases len - i - z - r,
            {
                r = r + 1;
            }
            proof {
                lemma_run_len_at(s, (i + z) as nat);
                let rr = run_len_at(s, (i + z) as nat);
                if rr < r {
                    assert(s[(i + z + rr) as int] == v);
                    assert(false);
                }
                if rr > r {
                    assert(s[(i + z + r) as int] == v);
                    assert(false);
                }
            }
            let ghost pre = out@;
            write_varint(out, z as u64);
            write_varint(out, r as u64);
            write_varint(out, v);
            proof {
                assert(out@ =~= pre + (varint_bytes(z as nat) + varint_bytes(r as nat)
                    + varint_bytes(v as nat)));
                assert(pre + encode_counts(s, i as nat) == goal);
                assert(encode_counts(s, i as nat) =~= (varint_bytes(z as nat) + varint_bytes(
                    r as nat,
                ) + varint_bytes(v as nat)) + encode_counts(s, (i + z + r) as nat));
                assert(out@ + encode_counts(s, (i + z + r) as nat) =~= goal);
            }
            i = i + z + r;
        }
    }
    assert(final(out)@ =~= goal);
}

/// Reads the triples at `pos` into a counter array of exactly `slots` slots.
pub fn read_counts(bytes: &Vec<u8>, pos: usize, slots: usize) -> (r: Option<Vec<u64>>)
    requires
        pos <= bytes@.len(),
    ensures
        match r {
            Some(v) => decode_counts(bytes@.skip(pos as int), slots as nat) == Some(v@),
            None => decode_counts(bytes@.skip(pos as int), slots as nat) is None,
        },
    decreases bytes@.len() - pos,
{
    let ghost b = bytes@.skip(pos as int);
    if pos == bytes.len() {
        let mut out: Vec<u64> = Vec::new();
        let mut k: usize = 0;
        while k < slots
            invariant
                k <= slots,
                out@.len() == k,
                forall|j: int| 0 <= j < k ==> out@[j] == 0,
            decreases slots - k,
        {
            out.push(0);
            k = k + 1;
        }
        proof {
            assert(out@ =~= zero_counts(slots as nat));
        }
        return Some(out);
    }
    proof {
        lemma_varint_parse_len(b);
    }
    let (z, p1) = match read_varint(bytes, pos) {
        None => {
            return None;
        },
        Some(p) => p,
    };
    proof {
        assert(bytes@.skip(p1 as int) =~= b.skip((p1 - pos) as int));
        lemma_varint_parse_len(b.skip((p1 - pos) as int));
    }
    let (r, p2) = match read_varint(bytes, p1) {
        None => {
            return None;
        },
        Some(p) => p,
    };
    proof {
        assert(bytes@.skip(p2 as int) =~= b.skip((p2 - pos) as int));
        lemma_varint_parse_len(b.skip((p2 - pos) as int));
    }
    let (v, p3) = match read_varint(bytes, p2) {
        None => {
            return None;
        },
        Some(p) => p,
    };
    proof {
        assert(bytes@.skip(p3 as int) =~= b.skip((p3 - pos) as int));
    }
    if !(r >= 1 && v >= 1) {
        return None;
    }
    if z > slots as u64 || r > slots as u64 - z {
        return None;
    }
    let rest = match read_counts(bytes, p3, slots - (z as usize) - (r as usize)) {
        None => {
            return None;
        },
        Some(rest) => rest,
    };
    let mut out: Vec<u64> = Vec::new();
    let mut k: usize = 0;
    let zs = z as usize;
    let rs = r as usize;
    while k < zs
        invariant
            k <= zs,
            out@.len() == k,
            forall|j: int| 0 <= j < k ==> out@[j] == 0,
        decreases zs - k,
    {
        out.push(0);
        k = k + 1;
    }
    let mut k2: usize = 0;
    while k2 < rs
        invariant
            k2 <= rs,
            out@.len() == zs + k2,
            forall|j: int| 0 <= j < zs ==> out@[j] == 0,
            forall|j: int| zs <= j < zs + k2 ==> out@[j] == v,
        decreases rs - k2,
    {
        out.push(v);
        k2 = k2 + 1;
    }
    let mut k3: usize = 0;
    let rl = rest.len();
    while k3 < rl
        invariant
            k3 <= rl,
            rl == rest@.len(),
            out@.len() == zs + rs + k3,
            forall|j: int| 0 <= j < zs ==> out@[j] == 0,
            forall|j: int| zs <= j < zs + rs ==> out@[j] == v,
            forall|j: int| zs + rs <= j < zs + rs + k3 ==> out@[j] == rest@[j - zs - rs],
        decreases rl - k3,
    {
        let x = rest[k3];
        out.push(x);
        k3 = k3 + 1;
    }
    proof {
        assert(out@ =~= zero_counts(z as nat) + run_counts(r as nat, v) + rest@);
    }
    Some(out)
}

// --- executable base64 -------------------------------------------------------

/// Alphabet byte for a 6-bit value.
fn b64_char_of(v: u8) -> (c: u8)
    requires
        v < 64,
    ensures
        c == b64_char(v as nat),
{
    if v < 26 {
        65 + v
    } else if v < 52 {
        97 + (v - 26)
    } else if v < 62 {
        48 + (v - 52)
    } else if v == 62 {
        43
    } else {
        47
    }
}

/// Value of an alphabet byte; 64 when outside the alphabet.
fn b64_value_of(c: u8) -> (v: u8)
    ensures
        v as nat == b64_value(c),
{
    if 65 <= c && c <= 90 {
        c - 65
    } else if 97 <= c && c <= 122 {
        c - 97 + 26
    } else if 48 <= c && c <= 57 {
        c - 48 + 52
    } else if c == 43 {
        62
    } else if c == 47 {
        63
    } else {
        64
    }
}

/// Base64 text for the bytes.
pub fn b64_encode(bytes: &Vec<u8>) -> (out: Vec<u8>)
    ensures
        out@ == b64_encode_seq(bytes@),
{
    let ghost s = bytes@;
    let len = bytes.len();
    let mut out: Vec<u8> = Vec::new();
    let mut i: usize = 0;
    proof {
        assert(s.skip(0) =~= s);
        assert(out@ + b64_encode_seq(s) =~= b64_encode_seq(s));
    }
    while len - i >= 3
        invariant
            i <= len,
            len == s.len(),
            s == bytes@,
            out@ + b64_encode_seq(s.skip(i as int)) == b64_encode_seq(s),
        decreases len - i,
    {
        let ghost pre = out@;
        let a = bytes[i];
        let b = bytes[i + 1];
        let c = bytes[i + 2];
        out.push(b64_char_of(a / 4));
        out.push(b64_char_of((a % 4) * 16 + b / 16));
        out.push(b64_char_of((b % 16) * 4 + c / 64));
        out.push(b64_char_of(c % 64));
        proof {
            assert(s.skip(i as int).skip(3) =~= s.skip(i as int + 3));
            assert(out@ + b64_encode_seq(s.skip(i as int + 3)) =~= pre + b64_encode_seq(
                s.skip(i as int),
            ));
        }
        i = i + 3;
    }
    if len - i == 1 {
        let a = bytes[i];
        out.push(b64_char_of(a / 4));
        out.push(b64_char_of((a % 4) * 16));
        out.push(61);
        out.push(61);
        proof {
            assert(out@ =~= b64_encode_seq(s));
        }
    } else if len - i == 2 {
        let a = bytes[i];
        let b = bytes[i + 1];
        out.push(b64_char_of(a / 4));
        out.push(b64_char_of((a % 4) * 16 + b / 16));
        out.push(b64_char_of((b % 16) * 4));
        out.push(61);
        proof {
            assert(out@ =~= b64_encode_seq(s));
        }
    } else {
        proof {
            assert(b64_encode_seq(s.skip(i as int)) =~= Seq::<u8>::empty());
            assert(out@ =~= b64_encode_seq(s));
        }
    }
    out
}

/// Payload bytes for base64 text, or `None` when the text is malformed.
pub fn b64_decode(t: &Vec<u8>) -> (r: Option<Vec<u8>>)
    ensures
        match r {
            Some(v) => b64_decode_seq(t@) == Some(v@),
            None => b64_decode_seq(t@) is None,
        },
{
    let ghost s = t@;
    let len = t.len();
    let mut out: Vec<u8> = Vec::new();
    let mut j: usize = 0;
    proof {
        assert(s.skip(0) =~= s);
        match b64_decode_seq(s) {
            Some(rest) => {
                assert(out@ + rest =~= rest);
            },
            None => {},
        }
    }
    while len - j > 4
        invariant
            j <= len,
            len == s.len(),
            s == t@,
            b64_decode_seq(s) == match b64_decode_seq(s.skip(j as int)) {
                Some(rest) => Some(out@ + rest),
                None => None::<Seq<u8>>,
            },
        decreases len - j,
    {
        let v0 = b64_value_of(t[j]);
        let v1 = b64_value_of(t[j + 1]);
        let v2 = b64_value_of(t[j + 2]);
        let v3 = b64_value_of(t[j + 3]);
        if v0 >= 64 || v1 >= 64 || v2 >= 64 || v3 >= 64 {
            return None;
        }
        let ghost pre = out@;
        out.push(v0 * 4 + v1 / 16);
        out.push((v1 % 16) * 16 + v2 / 4);
        out.push((v2 % 4) * 64 + v3);
        proof {
            assert(s.skip(j as int).skip(4) =~= s.skip(j as int + 4));
            match b64_decode_seq(s.skip(j as int + 4)) {
                Some(rest) => {
                    assert(out@ + rest =~= pre + (seq![
                        (b64_value(s[j as int]) * 4 + b64_value(s[j as int + 1]) / 16) as u8,
                        ((b64_value(s[j as int + 1]) % 16) * 16 + b64_value(
                            s[j as int + 2],
                        ) / 4) as u8,
                        ((b64_value(s[j as int + 2]) % 4) * 64 + b64_value(
                            s[j as int + 3],
                        )) as u8,
                    ] + rest));
                },
                None => {},
            }
        }
        j = j + 4;
    }
    if j == len {
        proof {
            assert(b64_decode_seq(s.skip(j as int)) == Some(Seq::<u8>::empty()));
            assert(out@ + Seq::<u8>::empty() =~= out@);
        }
        return Some(out);
    }
    if len - j < 4 {
        return None;
    }
    // final group of four, possibly padded
    let v0 = b64_value_of(t[j]);
    let v1 = b64_value_of(t[j + 1]);
    if v0 >= 64 || v1 >= 64 {
        return None;
    }
    let c2 = t[j + 2];
    let c3 = t[j + 3];
    let ghost pre = out@;
    if c2 == 61 && c3 == 61 {
        out.push(v0 * 4 + v1 / 16);
        proof {
            assert(out@ =~= pre + seq![(b64_value(s[j as int]) * 4 + b64_value(
                s[j as int + 1],
            ) / 16) as u8]);
        }
        return Some(out);
    }
    if c3 == 61 {
        let v2 = b64_value_of(c2);
        if v2 >= 64 {
            return None;
        }
        out.push(v0 * 4 + v1 / 16);
        out.push((v1 % 16) * 16 + v2 / 4);
        proof {
            assert(out@ =~= pre + seq![
                (b64_value(s[j as int]) * 4 + b64_value(s[j as int + 1]) / 16) as u8,
                ((b64_value(s[j as int + 1]) % 16) * 16 + b64_value(s[j as int + 2]) / 4) as u8,
            ]);
        }
        return Some(out);
    }
    let v2 = b64_value_of(c2);
    let v3 = b64_value_of(c3);
    if v2 >= 64 || v3 >= 64 {
        return None;
    }
    out.push(v0 * 4 + v1 / 16);
    out.push((v1 % 16) * 16 + v2 / 4);
    out.push((v2 % 4) * 64 + v3);
    proof {
        assert(s.skip(j as int).skip(4) =~= s.skip(j as int + 4));
        assert(b64_decode_seq(s.skip(j as int + 4)) == Some(Seq::<u8>::empty()));
        assert(out@ =~= pre + (seq![
            (b64_value(s[j as int]) * 4 + b64_value(s[j as int + 1]) / 16) as u8,
            ((b64_value(s[j as int + 1]) % 16) * 16 + b64_value(s[j as int + 2]) / 4) as u8,
            ((b64_value(s[j as int + 2]) % 4) * 64 + b64_value(s[j as int + 3])) as u8,
        ] + Seq::<u8>::empty()));
    }
    Some(out)
}


// --- the whole payload ---------------------------------------------------------

/// Tag naming this encoded form.
pub open spec fn cookie() -> Seq<u8> {
    seq![72u8, 68u8, 82u8, 49u8]
}

/// The serialized payload before text wrapping: tag, range, precision,
/// total, counters.
pub open spec fn spec_payload(cfg: BucketConfig, counts: Seq<u64>, total: u64) -> Seq<u8> {
    cookie() + varint_bytes(cfg.lowest_discernible_value as nat) + varint_bytes(
        cfg.highest_trackable_value as nat,
    ) + seq![cfg.significant_figures as u8] + varint_bytes(total as nat) + encode_counts(counts, 0)
}

/// Parses the header; gives the four parameters and the remaining bytes.
pub open spec fn spec_header(p: Seq<u8>) -> Option<(u64, u64, u32, u64, Seq<u8>)> {
    if p.len() < 4 || p[0] != 72 || p[1] != 68 || p[2] != 82 || p[3] != 49 {
        None
    } else {
        match varint_parse(p.skip(4)) {
            None => None,
            Some(lo) => if lo.0 > u64::MAX {
                None
            } else {
                match varint_parse(p.skip(4 + lo.1 as int)) {
                    None => None,
                    Some(hi) => if hi.0 > u64::MAX || 4 + lo.1 + hi.1 >= p.len() {
                        None
                    } else {
                        let sf = p[4 + lo.1 as int + hi.1 as int];
                        match varint_parse(p.skip(5 + lo.1 as int + hi.1 as int)) {
                            None => None,
                            Some(tot) => if tot.0 > u64::MAX {
                                None
                            } else {
                                Some(
                                    (
                                        lo.0 as u64,
                                        hi.0 as u64,
                                        sf as u32,
                                        tot.0 as u64,
                                        p.skip(5 + lo.1 as int + hi.1 as int + tot.1 as int),
                                    ),
                                )
                            },
                        }
                    },
                }
            },
        }
    }
}

/// The unique well-formed layout for accepted parameters.
pub open spec fn spec_config_for(lowest: u64, highest: u64, sigfig: u32) -> BucketConfig {
    choose|c: BucketConfig|
        c.wf() && c.lowest_discernible_value == lowest && c.highest_trackable_value == highest
            && c.significant_figures == sigfig
}

/// Everything decoding yields: the layout, the counters, and the total.
pub open spec fn spec_decode(e: Seq<u8>) -> Option<(BucketConfig, Seq<u64>, u64)> {
    match b64_decode_seq(e) {
        None => None,
        Some(p) => match spec_header(p) {
            None => None,
            Some(h) => {
                let (lo, hi, sf, tot, body) = h;
                if !spec_params_accepted(lo, hi, sf) {
                    None
                } else {
                    let cfg = spec_config_for(lo, hi, sf);
                    match decode_counts(body, cfg.counts_len as nat) {
                        None => None,
                        Some(counts) => if total_of(counts) == tot {
                            Some((cfg, counts, tot))
                        } else {
                            None
                        },
                    }
                }
            },
        },
    }
}

impl Histogram {
    /// The base64 text this histogram serializes to.
    pub open spec fn spec_encoded(&self) -> Seq<u8> {
        b64_encode_seq(spec_payload(self.cfg, self.counts@, self.total_count))
    }

    /// Serializes the histogram into self-describing base64 text: the bucket
    /// parameters, the total count, and the non-zero counters in compact
    /// run-length form.
    pub fn encode(&self) -> (r: Result<Vec<u8>, HistogramErr>)
        requires
            self.wf(),
        ensures
            r matches Ok(e) && e@ == self.spec_encoded(),
    {
        let mut payload: Vec<u8> = Vec::new();
        payload.push(72);
        payload.push(68);
        payload.push(82);
        payload.push(49);
        let ghost after_cookie = payload@;
        write_varint(&mut payload, self.cfg.lowest_discernible_value);
        write_varint(&mut payload, self.cfg.highest_trackable_value);
        payload.push(self.cfg.significant_figures as u8);
        write_varint(&mut payload, self.total_count);
        append_counts(&mut payload, &self.counts);
        proof {
            assert(payload@ =~= spec_payload(self.cfg, self.counts@, self.total_count));
        }
        Ok(b64_encode(&payload))
    }

    /// Rebuilds a histogram from `encode`'s text. Fails with a diagnostic on
    /// anything malformed: broken base64, a missing or foreign tag, truncated
    /// fields, unacceptable parameters, damaged counters, or a total that
    /// does not match them.
    pub fn decode(encoded: &Vec<u8>) -> (r: Result<Histogram, HistogramErr>)
        ensures
            r is Ok <==> spec_decode(encoded@) is Some,
            r matches Ok(h2) ==> {
                &&& h2.wf()
                &&& spec_decode(encoded@) == Some((h2.cfg, h2.counts@, h2.total_count))
                &&& h2.min_value == (if h2.total_count > 0 {
                    h2.cfg.spec_value_at(zeros_at(h2.counts@, 0)) as u64
                } else {
                    u64::MAX
                })
                &&& h2.max_value == (if h2.total_count > 0 {
                    h2.cfg.spec_value_at(last_occupied_below(h2.counts@, h2.counts@.len())) as u64
                } else {
                    0
                })
            },
    {
        let payload = match b64_decode(encoded) {
            None => {
                return Err(HistogramErr::CodecFailed("invalid base64 text"));
            },
            Some(p) => p,
        };
        let ghost pv = payload@;
        if payload.len() < 4 || payload[0] != 72 || payload[1] != 68 || payload[2] != 82
            || payload[3] != 49 {
            return Err(HistogramErr::CodecFailed("unrecognized header tag"));
        }
        let (lowest, p1) = match read_varint(&payload, 4) {
            None => {
                proof {
                    lemma_varint_parse_len(pv.skip(4));
                }
                return Err(HistogramErr::CodecFailed("truncated header"));
            },
            Some(p) => p,
        };
        let (highest, p2) = match read_varint(&payload, p1) {
            None => {
                proof {
                    lemma_varint_parse_len(pv.skip(p1 as int));
                }
                return Err(HistogramErr::CodecFailed("truncated header"));
            },
            Some(p) => p,
        };
        if p2 >= payload.len() {
            return Err(HistogramErr::CodecFailed("truncated header"));
        }
        let sigfig = payload[p2] as u32;
        let (total, p3) = match read_varint(&payload, p2 + 1) {
            None => {
                proof {
                    lemma_varint_parse_len(pv.skip(p2 as int + 1));
                }
                return Err(HistogramErr::CodecFailed("truncated header"));
            },
            Some(p) => p,
        };
        proof {
            assert(spec_header(pv) == Some((lowest, highest, sigfig, total, pv.skip(p3 as int))));
        }
        let cfg = match BucketConfig::compute(lowest, highest, sigfig) {
            Err(_) => {
                return Err(HistogramErr::CodecFailed("unacceptable configuration"));
            },
            Ok(cfg) => cfg,
        };
        proof {
            lemma_config_unique(cfg, spec_config_for(lowest, highest, sigfig));
        }
        let counts = match read_counts(&payload, p3, cfg.counts_len) {
            None => {
                return Err(HistogramErr::CodecFailed("damaged counter data"));
            },
            Some(c) => c,
        };
        proof {
            lemma_decode_counts_len(pv.skip(p3 as int), cfg.counts_len as nat);
        }
        // the stored total must match the counters
        let ghost cs = counts@;
        let ghost outcome = if total_of(cs) == total {
            Some((cfg, cs, total))
        } else {
            None::<(BucketConfig, Seq<u64>, u64)>
        };
        proof {
            assert(spec_decode(encoded@) == outcome);
        }
        let clen = counts.len();
        let mut sum: u64 = 0;
        let mut k: usize = 0;
        while k < clen
            invariant
                k <= clen,
                clen == cs.len(),
                cs == counts@,
                sum as nat == prefix_total(cs, k as nat),
                spec_decode(encoded@) == outcome,
                outcome == (if total_of(cs) == total {
                    Some((cfg, cs, total))
                } else {
                    None::<(BucketConfig, Seq<u64>, u64)>
                }),
            decreases clen - k,
        {
            let c = counts[k];
            if sum > u64::MAX - c {
                proof {
                    lemma_prefix_total_monotonic(cs, (k + 1) as nat, cs.len());
                }
                return Err(HistogramErr::CodecFailed("count total mismatch"));
            }
            sum = sum + c;
            k = k + 1;
        }
        if sum != total {
            return Err(HistogramErr::CodecFailed("count total mismatch"));
        }
        // track the extreme recorded values from the counters
        let mut min_value: u64 = u64::MAX;
        let mut max_value: u64 = 0;
        let mut any_seen: bool = false;
        let mut k2: usize = 0;
        proof {
            cfg.lemma_layout();
            vstd::arithmetic::power2::lemma_pow2_pos(
                (cfg.sub_bucket_half_count_magnitude + cfg.unit_magnitude
                    + cfg.bucket_count) as nat,
            );
        }
        while k2 < clen
            invariant
                k2 <= clen,
                clen == cs.len(),
                cs == counts@,
                cfg.wf(),
                clen == cfg.counts_len,
                max_value as nat <= cfg.spec_max_value(),
                min_value == u64::MAX || min_value as nat <= cfg.spec_max_value(),
                sum as nat == total_of(cs),
                sum == total,
                spec_decode(encoded@) == Some((cfg, cs, total)),
                any_seen <==> zeros_at(cs, 0) < k2,
                !any_seen ==> min_value == u64::MAX && max_value == 0,
                any_seen ==> min_value as nat == cfg.spec_value_at(zeros_at(cs, 0)),
                any_seen ==> max_value as nat == cfg.spec_value_at(
                    last_occupied_below(cs, k2 as nat),
                ),
            decreases clen - k2,
        {
            proof {
                lemma_zeros_at(cs, 0);
                if counts@[k2 as int] > 0 && zeros_at(cs, 0) > k2 {
                    assert(cs[k2 as int] == 0);
                    assert(false);
                }
                if counts@[k2 as int] == 0 && zeros_at(cs, 0) == k2 {
                    assert(false);
                }
            }
            if counts[k2] > 0 {
                let v = cfg.value_at_index(k2);
                if !any_seen {
                    min_value = v;
                    any_seen = true;
                }
                max_value = v;
                proof {
                    assert(last_occupied_below(cs, (k2 + 1) as nat) == k2 as nat);
                }
            } else {
                proof {
                    assert(last_occupied_below(cs, (k2 + 1) as nat) == last_occupied_below(
                        cs,
                        k2 as nat,
                    ));
                }
            }
            k2 = k2 + 1;
        }
        proof {
            // occupied slots exist exactly when the total is positive
            lemma_zeros_at(cs, 0);
            if total > 0 && zeros_at(cs, 0) >= clen {
                crate::counting::lemma_prefix_total_zero(cs, cs.len());
                assert(false);
            }
            if total == 0 && zeros_at(cs, 0) < clen {
                crate::counting::lemma_elem_le_prefix_total(cs, zeros_at(cs, 0), cs.len());
                assert(false);
            }
        }
        Ok(Histogram { cfg, counts, total_count: sum, min_value, max_value })
    }
}

/// Decoding an encoded histogram restores the layout, the total count, and
/// the count of every recordable value.
pub proof fn lemma_codec_round_trip(h: &Histogram)
    requires
        h.wf(),
    ensures
        spec_decode(h.spec_encoded()) == Some((h.cfg, h.counts@, h.total_count)),
        forall|v: nat|
            v <= h.cfg.highest_trackable_value ==> #[trigger] h.counts@[h.cfg.spec_counts_index(
                v,
            ) as int] == spec_decode(h.spec_encoded()).unwrap().1[h.cfg.spec_counts_index(
                v,
            ) as int],
{
    let p = spec_payload(h.cfg, h.counts@, h.total_count);
    lemma_b64_roundtrip(p);
    // the header parses back to the fields it was written from
    let blo = varint_bytes(h.cfg.lowest_discernible_value as nat);
    let bhi = varint_bytes(h.cfg.highest_trackable_value as nat);
    let btot = varint_bytes(h.total_count as nat);
    let body = encode_counts(h.counts@, 0);
    let sfs = seq![h.cfg.significant_figures as u8];
    assert(p =~= cookie() + blo + bhi + sfs + btot + body);
    lemma_varint_roundtrip(
        h.cfg.lowest_discernible_value as nat,
        bhi + sfs + btot + body,
    );
    assert(p.skip(4) =~= blo + (bhi + sfs + btot + body));
    lemma_varint_roundtrip(h.cfg.highest_trackable_value as nat, sfs + btot + body);
    assert(p.skip(4 + blo.len() as int) =~= bhi + (sfs + btot + body));
    assert(p[4 + blo.len() as int + bhi.len() as int] == h.cfg.significant_figures as u8);
    lemma_varint_roundtrip(h.total_count as nat, body);
    assert(p.skip(5 + blo.len() as int + bhi.len() as int) =~= btot + body);
    assert(p.skip(5 + blo.len() as int + bhi.len() as int + btot.len() as int) =~= body);
    assert(h.cfg.significant_figures <= 5);
    assert(spec_header(p) == Some(
        (
            h.cfg.lowest_discernible_value,
            h.cfg.highest_trackable_value,
            h.cfg.significant_figures,
            h.total_count,
            body,
        ),
    ));
    // the parameters are accepted and name this very layout
    lemma_wf_accepted(h.cfg);
    let cfg2 = spec_config_for(
        h.cfg.lowest_discernible_value,
        h.cfg.highest_trackable_value,
        h.cfg.significant_figures,
    );
    assert(cfg2.wf() && cfg2.lowest_discernible_value == h.cfg.lowest_discernible_value
        && cfg2.highest_trackable_value == h.cfg.highest_trackable_value
        && cfg2.significant_figures == h.cfg.significant_figures) by {
        assert(h.cfg.wf() && h.cfg.lowest_discernible_value == h.cfg.lowest_discernible_value
            && h.cfg.highest_trackable_value == h.cfg.highest_trackable_value
            && h.cfg.significant_figures == h.cfg.significant_figures);
    }
    lemma_config_unique(h.cfg, cfg2);
    // the counters and their total come back
    lemma_counts_roundtrip(h.counts@, 0);
    assert(h.counts@.skip(0) =~= h.counts@);
}

} // verus!
