//! Ordering of IEEE-754 single-precision values given by their bit patterns.
//!
//! A distance is carried through the library as the `u32` bit pattern of an
//! `f32`. [`order_key`] maps a bit pattern to an unsigned key whose natural
//! order is the total order of the floating-point values (negative values
//! below positive ones, `-0.0` just below `+0.0`). [`rank`] is the same key
//! with both zeros mapped to the key of `+0.0`: on values that are not NaN,
//! two ranks compare exactly as the floating-point values do, `-0.0 == +0.0`
//! included. [`lt`] is the IEEE `<` comparison itself: false whenever a NaN
//! is involved.

use vstd::prelude::*;

verus! {

/// Sign bit of a single-precision value.
pub const SIGN_BIT: u32 = 0x8000_0000u32;

/// The ordering key of a bit pattern.
pub open spec fn spec_order_key(bits: u32) -> u32 {
    if bits & 0x8000_0000u32 != 0 {
        !bits
    } else {
        bits | 0x8000_0000u32
    }
}

/// True when the bit pattern encodes a NaN.
pub open spec fn spec_is_nan(bits: u32) -> bool {
    (bits & 0x7f80_0000u32) == 0x7f80_0000u32 && (bits & 0x007f_ffffu32) != 0
}

/// True when the bit pattern encodes `+0.0` or `-0.0`.
pub open spec fn spec_is_zero(bits: u32) -> bool {
    bits & 0x7fff_ffffu32 == 0
}

/// The ordering key with the two zeros identified.
pub open spec fn spec_rank(bits: u32) -> u32 {
    if spec_is_zero(bits) {
        0x8000_0000u32
    } else {
        spec_order_key(bits)
    }
}

/// IEEE-754 `a < b` on bit patterns.
pub open spec fn spec_lt(a: u32, b: u32) -> bool {
    &&& !spec_is_nan(a)
    &&& !spec_is_nan(b)
    &&& spec_rank(a) < spec_rank(b)
}

/// Maps a bit pattern to its ordering key.
pub fn order_key(bits: u32) -> (key: u32)
    ensures
        key == spec_order_key(bits),
{
    if bits & SIGN_BIT != 0 {
        !bits
    } else {
        bits | SIGN_BIT
    }
}

/// Maps a bit pattern to its rank: its ordering key, with `-0.0` ranked as
/// `+0.0`.
pub fn rank(bits: u32) -> (r: u32)
    ensures
        r == spec_rank(bits),
{
    if is_zero(bits) {
        SIGN_BIT
    } else {
        order_key(bits)
    }
}

/// True when `bits` encodes a NaN.
pub fn is_nan(bits: u32) -> (r: bool)
    ensures
        r == spec_is_nan(bits),
{
    (bits & 0x7f80_0000u32) == 0x7f80_0000u32 && (bits & 0x007f_ffffu32) != 0
}

/// True when `bits` encodes a zero of either sign.
pub fn is_zero(bits: u32) -> (r: bool)
    ensures
        r == spec_is_zero(bits),
{
    bits & 0x7fff_ffffu32 == 0
}

/// IEEE-754 `a < b`, where `a` and `b` are bit patterns.
pub fn lt(a: u32, b: u32) -> (r: bool)
    ensures
        r == spec_lt(a, b),
{
    !is_nan(a) && !is_nan(b) && rank(a) < rank(b)
}

/// Distinct bit patterns have distinct ordering keys, so the key order is a
/// total order on bit patterns.
pub proof fn lemma_order_key_injective(a: u32, b: u32)
    ensures
        spec_order_key(a) == spec_order_key(b) ==> a == b,
{
    assert(((a & 0x8000_0000u32 != 0) ==> (b & 0x8000_0000u32 != 0) ==> !a == !b ==> a == b)
        && ((a & 0x8000_0000u32 != 0) ==> (b & 0x8000_0000u32 == 0) ==> !a != (b | 0x8000_0000u32))
        && ((a & 0x8000_0000u32 == 0) ==> (b & 0x8000_0000u32 != 0) ==> (a | 0x8000_0000u32) != !b)
        && ((a & 0x8000_0000u32 == 0) ==> (b & 0x8000_0000u32 == 0)
            ==> (a | 0x8000_0000u32) == (b | 0x8000_0000u32) ==> a == b)) by (bit_vector);
}

/// IEEE `<` is irreflexive and transitive.
pub proof fn lemma_lt_strict_order(a: u32, b: u32, c: u32)
    ensures
        !spec_lt(a, a),
        spec_lt(a, b) && spec_lt(b, c) ==> spec_lt(a, c),
{
}

/// Two bit patterns of equal rank are the same pattern, or both zeros.
pub proof fn lemma_rank_identifies_only_zeros(a: u32, b: u32)
    ensures
        spec_rank(a) == spec_rank(b) ==> a == b || (spec_is_zero(a) && spec_is_zero(b)),
{
    lemma_order_key_injective(a, b);
    lemma_zero_keys(a);
    lemma_zero_keys(b);
    assert(spec_order_key(a) == 0x8000_0000u32 ==> a == 0) by (bit_vector);
    assert(spec_order_key(b) == 0x8000_0000u32 ==> b == 0) by (bit_vector);
    assert(a == 0 ==> spec_is_zero(a)) by (bit_vector);
    assert(b == 0 ==> spec_is_zero(b)) by (bit_vector);
}

/// The two zeros are adjacent in the key order: `-0.0` has key `2^31 - 1` and
/// `+0.0` has key `2^31`.
pub proof fn lemma_zero_keys(bits: u32)
    ensures
        spec_is_zero(bits) ==> spec_order_key(bits) == 0x7fff_ffffu32 || spec_order_key(bits)
            == 0x8000_0000u32,
{
    assert(bits & 0x7fff_ffffu32 == 0 ==> (bits & 0x8000_0000u32 != 0 ==> !bits == 0x7fff_ffffu32) && (
    bits & 0x8000_0000u32 == 0 ==> (bits | 0x8000_0000u32) == 0x8000_0000u32)) by (bit_vector);
}

/// Every positive value orders above every negative value: a bit pattern
/// with the sign bit clear has a key at least `2^31`, one with the sign bit
/// set has a key below `2^31`.
pub proof fn lemma_sign_splits_keys(bits: u32)
    ensures
        bits & 0x8000_0000u32 == 0 ==> spec_order_key(bits) >= 0x8000_0000u32,
        bits & 0x8000_0000u32 != 0 ==> spec_order_key(bits) < 0x8000_0000u32,
{
    assert(bits & 0x8000_0000u32 == 0 ==> (bits | 0x8000_0000u32) >= 0x8000_0000u32) by (bit_vector);
    assert(bits & 0x8000_0000u32 != 0 ==> !bits < 0x8000_0000u32) by (bit_vector);
}

/// The exponent field of a bit pattern (bits 23 to 30).
pub open spec fn spec_exponent(bits: u32) -> nat {
    ((bits / 0x80_0000u32) % 0x100u32) as nat
}

/// The fraction field of a bit pattern (bits 0 to 22).
pub open spec fn spec_fraction(bits: u32) -> nat {
    (bits % 0x80_0000u32) as nat
}

/// The sign bit of a bit pattern is set.
pub open spec fn spec_negative(bits: u32) -> bool {
    bits >= 0x8000_0000u32
}

/// The magnitude that an IEEE-754 single-precision bit pattern encodes, in
/// units of the smallest subnormal `2^-149`: the fraction for a subnormal
/// (exponent field 0), and `(2^23 + fraction) * 2^(exponent - 1)`, that is
/// `2^(exponent - 127) * (1 + fraction / 2^23)` scaled by `2^149`, for a
/// normal value. The infinities (exponent field 255, fraction 0) come out
/// above every finite magnitude; a NaN has no meaningful magnitude.
pub open spec fn spec_magnitude(bits: u32) -> nat {
    let e = spec_exponent(bits);
    if e == 0 {
        spec_fraction(bits)
    } else {
        (0x80_0000 + spec_fraction(bits)) * vstd::arithmetic::power2::pow2((e - 1) as nat)
    }
}

/// The signed value that a bit pattern encodes, in units of `2^-149`; both
/// zeros have value 0.
pub open spec fn spec_value(bits: u32) -> int {
    if spec_negative(bits) {
        -(spec_magnitude(bits) as int)
    } else {
        spec_magnitude(bits) as int
    }
}

/// The low 31 bits of a pattern are its exponent and fraction fields, and
/// the key of a pattern read as an integer.
proof fn lemma_fields(x: u32)
    ensures
        (x % 0x8000_0000u32) as int == spec_exponent(x) * 0x80_0000 + spec_fraction(x),
        spec_exponent(x) < 0x100,
        spec_fraction(x) < 0x80_0000,
        spec_negative(x) ==> spec_order_key(x) == 0x7fff_ffff - (x % 0x8000_0000u32),
        !spec_negative(x) ==> spec_order_key(x) == 0x8000_0000 + (x % 0x8000_0000u32),
        spec_is_zero(x) <==> x % 0x8000_0000u32 == 0,
{
    assert(x % 0x8000_0000u32 == ((x / 0x80_0000u32) % 0x100u32) * 0x80_0000u32 + x % 0x80_0000u32) by (bit_vector);
    assert(x & 0x8000_0000u32 != 0 <==> x >= 0x8000_0000u32) by (bit_vector);
    assert(x >= 0x8000_0000u32 ==> !x == 0x7fff_ffffu32 - x % 0x8000_0000u32) by (bit_vector);
    assert(x < 0x8000_0000u32 ==> (x | 0x8000_0000u32) == 0x8000_0000u32 + x % 0x8000_0000u32) by (bit_vector);
    assert(x & 0x7fff_ffffu32 == x % 0x8000_0000u32) by (bit_vector);
}

/// The magnitude grows with the low 31 bits of the pattern.
proof fn lemma_magnitude_monotone(a: u32, b: u32)
    ensures
        a % 0x8000_0000u32 < b % 0x8000_0000u32 ==> spec_magnitude(a) < spec_magnitude(b),
        a % 0x8000_0000u32 == b % 0x8000_0000u32 ==> spec_magnitude(a) == spec_magnitude(b),
        spec_magnitude(a) == 0 <==> a % 0x8000_0000u32 == 0,
{
    lemma_fields(a);
    lemma_fields(b);
    let ea = spec_exponent(a);
    let eb = spec_exponent(b);
    let fa = spec_fraction(a);
    let fb = spec_fraction(b);
    if ea > 0 {
        vstd::arithmetic::power2::lemma_pow2_pos((ea - 1) as nat);
        let pa = vstd::arithmetic::power2::pow2((ea - 1) as nat);
        assert((0x80_0000 + fa) * pa > 0) by (nonlinear_arith)
            requires
                pa > 0,
        ;
    }
    if ea < eb {
        let pb = vstd::arithmetic::power2::pow2((eb - 1) as nat);
        vstd::arithmetic::power2::lemma_pow2_pos((eb - 1) as nat);
        assert(0x80_0000 * pb <= (0x80_0000 + fb) * pb) by (nonlinear_arith)
            requires
                pb > 0,
        ;
        if ea == 0 {
            assert(0x80_0000 <= 0x80_0000 * pb) by (nonlinear_arith)
                requires
                    pb > 0,
            ;
        } else {
            let pa = vstd::arithmetic::power2::pow2((ea - 1) as nat);
            vstd::arithmetic::power2::lemma_pow2_unfold(ea);
            if ea < eb - 1 {
                vstd::arithmetic::power2::lemma_pow2_strictly_increases(ea, (eb - 1) as nat);
            }
            assert(vstd::arithmetic::power2::pow2(ea) <= pb);
            assert((0x80_0000 + fa) * pa < 0x80_0000 * pb) by (nonlinear_arith)
                requires
                    fa < 0x80_0000,
                    2 * pa <= pb,
                    pa > 0,
            ;
        }
    } else if ea == eb && fa < fb && ea > 0 {
        let p = vstd::arithmetic::power2::pow2((ea - 1) as nat);
        vstd::arithmetic::power2::lemma_pow2_pos((ea - 1) as nat);
        assert((0x80_0000 + fa) * p < (0x80_0000 + fb) * p) by (nonlinear_arith)
            requires
                fa < fb,
                p > 0,
        ;
    }
}

/// The ordering key follows the value that the bit patterns encode: for two
/// patterns that are not NaN, the key of `a` is below the key of `b` exactly
/// when `a` is the smaller value, or `a` is `-0.0` and `b` is `+0.0`; a rank,
/// and IEEE `<`, compare exactly as the values do, the two zeros being
/// equal. So among negative values the larger magnitude has the smaller key.
pub proof fn lemma_order_key_follows_value(a: u32, b: u32)
    requires
        !spec_is_nan(a),
        !spec_is_nan(b),
    ensures
        spec_order_key(a) < spec_order_key(b) <==> spec_value(a) < spec_value(b) || (spec_value(a) == spec_value(b)
            && spec_negative(a) && !spec_negative(b)),
        spec_rank(a) < spec_rank(b) <==> spec_value(a) < spec_value(b),
        spec_lt(a, b) <==> spec_value(a) < spec_value(b),
{
    lemma_fields(a);
    lemma_fields(b);
    lemma_magnitude_monotone(a, b);
    lemma_magnitude_monotone(b, a);
}

} // verus!
