//! Bit-field packing over 64-bit words.
//!
//! A field is `width` bits wide, `1 <= width <= 64`, and starts at bit
//! `lsb`, with `lsb + width <= 64`. Contracts are stated over the
//! mathematical reading of a field: the value of the field of `word` is
//! `(word / 2^lsb) % 2^width`, and replacing a field keeps the bits below
//! `lsb` and at or above `lsb + width` unchanged.

use vstd::prelude::*;
use vstd::arithmetic::power2::{pow2, lemma_pow2_adds, lemma_pow2_pos, lemma_pow2_strictly_increases, lemma2_to64, lemma2_to64_rest};
use vstd::arithmetic::div_mod::{
    lemma_fundamental_div_mod,
    lemma_hoist_over_denominator,
    lemma_mod_multiples_vanish,
    lemma_basic_div,
    lemma_small_mod,
};
use vstd::arithmetic::mul::{
    lemma_mul_inequality,
    lemma_mul_is_associative,
    lemma_mul_is_commutative,
    lemma_mul_is_distributive_sub_other_way,
    lemma_mul_nonnegative,
};
use vstd::bits::{lemma_u64_low_bits_mask_is_mod, lemma_u64_pow2_no_overflow, lemma_u64_shl_is_mul, lemma_u64_shr_is_div};

verus! {

/// The unsigned value `n` fits in a `width`-bit unsigned field.
pub open spec fn unsigned_fits(n: u64, width: u64) -> bool {
    (n as nat) < pow2(width as nat)
}

/// The signed value `n` fits in a `width`-bit two's-complement field.
pub open spec fn signed_fits(n: i64, width: u64) -> bool {
    &&& -(pow2((width - 1) as nat) as int) <= n as int
    &&& (n as int) < pow2((width - 1) as nat) as int
}

/// The `width`-bit field of `word` that starts at bit `lsb`, read as an
/// unsigned number.
pub open spec fn field_of(word: nat, width: nat, lsb: nat) -> nat {
    (word / pow2(lsb)) % pow2(width)
}

/// `word` with the `width`-bit field at `lsb` replaced by `value`: the part
/// below the field and the part above it are kept, and `value` sits between
/// them.
pub open spec fn with_field(word: nat, width: nat, lsb: nat, value: nat) -> nat {
    word % pow2(lsb) + value * pow2(lsb) + (word / pow2(lsb + width)) * pow2(lsb + width)
}

/// The two's-complement reading of a `width`-bit field value `f`.
pub open spec fn signed_value(f: nat, width: nat) -> int {
    if f < pow2((width - 1) as nat) {
        f as int
    } else {
        f - pow2(width)
    }
}

/// Returns true iff the signed value `n` fits into `width` signed bits.
pub fn fitss(n: i64, width: u64) -> (r: bool)
    requires
        1 <= width <= 64,
    ensures
        r == signed_fits(n, width),
{
    if width == 64 {
        proof {
            lemma2_to64_rest();
        }
        true
    } else {
        proof {
            lemma_u64_pow2_no_overflow((width - 1) as nat);
            lemma_u64_shl_is_mul(1u64, (width - 1) as u64);
            lemma_pow2_strictly_increases((width - 1) as nat, 63);
            lemma2_to64_rest();
        }
        let half = 1u64 << (width - 1);
        let h = half as i64;
        -h <= n && n < h
    }
}

/// Returns true iff the unsigned value `n` fits into `width` unsigned bits.
pub fn fitsu(n: u64, width: u64) -> (r: bool)
    requires
        1 <= width <= 64,
    ensures
        r == unsigned_fits(n, width),
{
    if width == 64 {
        proof {
            lemma2_to64_rest();
        }
        true
    } else {
        proof {
            lemma_u64_pow2_no_overflow(width as nat);
            lemma_u64_shl_is_mul(1u64, width);
        }
        n < (1u64 << width)
    }
}

/// Retrieve the unsigned value of the `width`-bit field of `word` that
/// starts at bit `lsb`.
pub fn getu(word: u64, width: u64, lsb: u64) -> (r: u64)
    requires
        1 <= width <= 64,
        lsb + width <= 64,
    ensures
        r as nat == field_of(word as nat, width as nat, lsb as nat),
{
    proof {
        lemma_u64_shr_is_div(word, lsb);
    }
    let shifted = word >> lsb;
    if width == 64 {
        proof {
            lemma2_to64();
            lemma2_to64_rest();
            lemma_small_mod(shifted as nat, pow2(64));
        }
        shifted
    } else {
        proof {
            lemma_u64_pow2_no_overflow(width as nat);
            lemma_u64_shl_is_mul(1u64, width);
            lemma_u64_low_bits_mask_is_mod(shifted, width as nat);
        }
        shifted & ((1u64 << width) - 1)
    }
}

/// Retrieve the signed value of the `width`-bit field of `word` that starts
/// at bit `lsb`, sign-extended from its high bit.
pub fn gets(word: u64, width: u64, lsb: u64) -> (r: i64)
    requires
        1 <= width <= 64,
        lsb + width <= 64,
    ensures
        r as int == signed_value(field_of(word as nat, width as nat, lsb as nat), width as nat),
{
    let u = getu(word, width, lsb);
    proof {
        lemma_pow2_pos(width as nat);
        lemma_mod_bound_nat(word as nat / pow2(lsb as nat), pow2(width as nat));
    }
    if width == 64 {
        proof {
            lemma2_to64_rest();
        }
        if u < 0x8000_0000_0000_0000u64 {
            u as i64
        } else {
            -((u64::MAX - u) as i64) - 1
        }
    } else {
        proof {
            lemma_u64_pow2_no_overflow((width - 1) as nat);
            lemma_u64_shl_is_mul(1u64, (width - 1) as u64);
            lemma_u64_pow2_no_overflow(width as nat);
            lemma_u64_shl_is_mul(1u64, width);
            lemma_pow2_adds((width - 1) as nat, 1);
            lemma2_to64();
        }
        let half = 1u64 << (width - 1);
        if u < half {
            u as i64
        } else {
            let pw = 1u64 << width;
            -((pw - u) as i64)
        }
    }
}

/// Shift `word` left by `shift` bits: its value times `2^shift`, reduced
/// to the low 64 bits.
pub fn shl(word: u64, shift: u64) -> (r: u64)
    requires
        shift < 64,
    ensures
        r as nat == (word as nat * pow2(shift as nat)) % pow2(64),
{
    proof {
        lemma_u64_pow2_no_overflow(shift as nat);
        lemma_u64_shl_is_mul(1u64, shift);
        lemma2_to64_rest();
        assert(word << shift == (word * (1u64 << shift)) % 0x1_0000_0000_0000_0000) by (bit_vector)
            requires
                shift < 64u64,
        ;
    }
    word << shift
}

/// Shift `word` right by `shift` bits: its value divided by `2^shift`,
/// truncated.
pub fn shr(word: u64, shift: u64) -> (r: u64)
    requires
        shift < 64,
    ensures
        r as nat == word as nat / pow2(shift as nat),
{
    proof {
        lemma_u64_shr_is_div(word, shift);
    }
    word >> shift
}

/// A remainder is below its modulus.
proof fn lemma_mod_bound_nat(x: nat, m: nat)
    requires
        0 < m,
    ensures
        x % m < m,
{
}

/// `with_field(word, width, lsb, value)` fits in a 64-bit word whenever
/// `value` fits in the field. The proof splits the word at `lsb` and at
/// `lsb + width` and bounds the three parts separately.
proof fn lemma_with_field_bounds(word: u64, width: u64, lsb: u64, value: u64)
    requires
        1 <= width <= 64,
        lsb + width <= 64,
        unsigned_fits(value, width),
    ensures
        with_field(word as nat, width as nat, lsb as nat, value as nat) < pow2(64),
        word as nat % pow2(lsb as nat) + (value as nat) * pow2(lsb as nat) < pow2((lsb + width) as nat),
{
    let w = width as nat;
    let l = lsb as nat;
    let pl = pow2(l);
    let pm = pow2(l + w);
    lemma_pow2_pos(l);
    lemma_pow2_pos(w);
    lemma_pow2_pos(l + w);
    lemma_pow2_adds(l, w);
    lemma_pow2_adds(l + w, (64 - l - w) as nat);
    lemma_pow2_pos((64 - l - w) as nat);
    let low = word as nat % pl;
    let q = word as nat / pm;
    // low + value * pl < pm
    assert((value as nat) * pl <= (pow2(w) - 1) * pl) by {
        lemma_mul_inequality(value as int, pow2(w) - 1, pl as int);
    }
    assert((pow2(w) - 1) * pl == pow2(w) * pl - pl) by {
        lemma_mul_is_distributive_sub_other_way(pl as int, pow2(w) as int, 1);
    }
    assert(pow2(w) * pl == pm) by {
        lemma_mul_is_commutative(pow2(w) as int, pl as int);
    }
    assert(low + (value as nat) * pl < pm);
    // q * pm <= pow2(64) - pm
    let k = pow2((64 - l - w) as nat);
    assert(pm * k == pow2(64));
    assert(q < k) by {
        if q >= k {
            lemma_mul_inequality(k as int, q as int, pm as int);
            lemma_mul_is_commutative(k as int, pm as int);
            lemma_fundamental_div_mod(word as int, pm as int);
            lemma_mod_bound_nat(word as nat, pm);
            assert(q * pm <= word as nat);
            lemma2_to64_rest();
            assert(false);
        }
    }
    assert(q * pm <= (k - 1) * pm) by {
        lemma_mul_inequality(q as int, k - 1, pm as int);
    }
    assert((k - 1) * pm == k * pm - pm) by {
        lemma_mul_is_distributive_sub_other_way(pm as int, k as int, 1);
    }
    assert(k * pm == pow2(64)) by {
        lemma_mul_is_commutative(k as int, pm as int);
    }
    assert(q * pm <= pow2(64) - pm);
}

/// Return a modified version of the unsigned `word`, in which the `width`
/// bits beginning at bit `lsb` now contain the unsigned `value`. Returns
/// `None` iff the value does not fit in `width` unsigned bits.
pub fn newu(word: u64, width: u64, lsb: u64, value: u64) -> (r: Option<u64>)
    requires
        1 <= width <= 64,
        lsb + width <= 64,
    ensures
        r is Some <==> unsigned_fits(value, width),
        r matches Some(w) ==> w as nat == with_field(word as nat, width as nat, lsb as nat, value as nat),
{
    if !fitsu(value, width) {
        return None;
    }
    proof {
        lemma_u64_pow2_no_overflow(lsb as nat);
        lemma_u64_shl_is_mul(1u64, lsb);
        lemma_pow2_pos(lsb as nat);
        lemma_with_field_bounds(word, width, lsb, value);
        lemma2_to64_rest();
        if lsb + width < 64 {
            lemma_pow2_strictly_increases((lsb + width) as nat, 64);
        }
    }
    let pl = 1u64 << lsb;
    let low = word % pl;
    proof {
        assert((value as nat) * (pl as nat) < pow2((lsb + width) as nat));
        lemma_mul_nonnegative(value as int, pl as int);
    }
    let mid = value * pl;
    let high: u64 = if width + lsb == 64 {
        proof {
            lemma_basic_div(word as int, pow2(64) as int);
        }
        0u64
    } else {
        proof {
            lemma_u64_pow2_no_overflow((lsb + width) as nat);
            lemma_u64_shl_is_mul(1u64, (lsb + width) as u64);
            lemma_pow2_pos((lsb + width) as nat);
            lemma_fundamental_div_mod(word as int, pow2((lsb + width) as nat) as int);
            lemma_mod_bound_nat(word as nat, pow2((lsb + width) as nat));
            lemma_mul_is_commutative((word as nat / pow2((lsb + width) as nat)) as int, pow2((lsb + width) as nat) as int);
        }
        let ph = 1u64 << (lsb + width);
        (word / ph) * ph
    };
    Some(high + (low + mid))
}

/// Return a modified version of the unsigned `word`, in which the `width`
/// bits beginning at bit `lsb` now contain the two's-complement encoding of
/// the signed `value`. Returns `None` iff the value does not fit in `width`
/// signed bits.
pub fn news(word: u64, width: u64, lsb: u64, value: i64) -> (r: Option<u64>)
    requires
        1 <= width <= 64,
        lsb + width <= 64,
    ensures
        r is Some <==> signed_fits(value, width),
        r matches Some(w) ==> w as nat == with_field(
            word as nat,
            width as nat,
            lsb as nat,
            ((value as int) % (pow2(width as nat) as int)) as nat,
        ),
{
    if !fitss(value, width) {
        return None;
    }
    proof {
        lemma_pow2_pos(width as nat);
        lemma_pow2_pos((width - 1) as nat);
        lemma_pow2_adds((width - 1) as nat, 1);
        lemma2_to64();
        lemma2_to64_rest();
    }
    let tv: u64 = if value >= 0 {
        proof {
            lemma_small_mod(value as nat, pow2(width as nat));
        }
        value as u64
    } else if width == 64 {
        proof {
            lemma_mod_multiples_vanish(1, value as int, pow2(64) as int);
            lemma_small_mod((value + pow2(64)) as nat, pow2(64));
        }
        (u64::MAX - (-(value + 1)) as u64)
    } else {
        proof {
            lemma_u64_pow2_no_overflow(width as nat);
            lemma_u64_shl_is_mul(1u64, width);
            lemma_mod_multiples_vanish(1, value as int, pow2(width as nat) as int);
            lemma_small_mod((value + pow2(width as nat)) as nat, pow2(width as nat));
        }
        let pw = 1u64 << width;
        pw - ((-value) as u64)
    };
    newu(word, width, lsb, tv)
}

/// Extracting a just-written unsigned field gives the value back: the
/// round trip `get_unsigned(new_unsigned(word, width, lsb, value))` is the
/// identity on every `value` that fits the field.
pub proof fn lemma_new_get_unsigned(word: nat, width: nat, lsb: nat, value: nat)
    requires
        1 <= width <= 64,
        lsb + width <= 64,
        value < pow2(width),
    ensures
        field_of(with_field(word, width, lsb, value), width, lsb) == value,
{
    let pl = pow2(lsb);
    let pw = pow2(width);
    let pm = pow2(lsb + width);
    lemma_pow2_pos(lsb);
    lemma_pow2_pos(width);
    lemma_pow2_pos(lsb + width);
    lemma_pow2_adds(lsb, width);
    let low = word % pl;
    let q = word / pm;
    let x = with_field(word, width, lsb, value);
    // x == low + (value + q * pw) * pl
    assert(q * pm == (q * pw) * pl) by {
        lemma_mul_is_commutative(pl as int, pw as int);
        lemma_mul_is_associative(q as int, pw as int, pl as int);
    }
    assert(x == low + (value + q * pw) * pl) by {
        vstd::arithmetic::mul::lemma_mul_is_distributive_add_other_way(pl as int, value as int, (q * pw) as int);
        lemma_mul_nonnegative(q as int, pw as int);
    }
    // hence x / pl == value + q * pw
    assert(x as int / pl as int == low as int / pl as int + (value + q * pw)) by {
        lemma_mul_nonnegative(q as int, pw as int);
        lemma_hoist_over_denominator(low as int, (value + q * pw) as int, pl);
    }
    assert(low / pl == 0) by {
        lemma_mod_bound_nat(word, pl);
        lemma_basic_div(low as int, pl as int);
    }
    assert(x / pl == value + q * pw);
    // and (value + q * pw) % pw == value
    assert(((pw * q + value) as int) % (pw as int) == (value as int) % (pw as int)) by {
        lemma_mod_multiples_vanish(q as int, value as int, pw as int);
    }
    assert(pw * q == q * pw) by {
        lemma_mul_is_commutative(pw as int, q as int);
    }
    lemma_small_mod(value, pw);
}

/// Extracting a just-written signed field gives the value back: the round
/// trip `get_signed(new_signed(word, width, lsb, value))` is the identity
/// on every `value` that fits the field.
pub proof fn lemma_new_get_signed(word: nat, width: nat, lsb: nat, value: int)
    requires
        1 <= width <= 64,
        lsb + width <= 64,
        -(pow2((width - 1) as nat) as int) <= value < pow2((width - 1) as nat) as int,
    ensures
        signed_value(
            field_of(
                with_field(word, width, lsb, (value % (pow2(width) as int)) as nat),
                width,
                lsb,
            ),
            width,
        ) == value,
{
    let pw = pow2(width) as int;
    let ph = pow2((width - 1) as nat) as int;
    lemma_pow2_pos(width);
    lemma_pow2_pos((width - 1) as nat);
    lemma_pow2_adds((width - 1) as nat, 1);
    lemma2_to64();
    assert(pw == 2 * ph);
    let tv = value % pw;
    if value >= 0 {
        lemma_small_mod(value as nat, pow2(width));
        assert(tv == value);
    } else {
        lemma_mod_multiples_vanish(1, value, pw);
        lemma_small_mod((value + pw) as nat, pow2(width));
        assert(tv == value + pw);
    }
    lemma_new_get_unsigned(word, width, lsb, tv as nat);
}

} // verus!
