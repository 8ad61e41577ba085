//! IEEE-754 single-precision bit patterns read as numbers: the sign,
//! exponent and mantissa fields, the exact value of a finite pattern, and the
//! numeric and total orders on patterns. These give the ranking keys a
//! meaning that does not depend on how the keys are computed.
use vstd::arithmetic::div_mod::{lemma_fundamental_div_mod, lemma_mod_bound};
use vstd::arithmetic::mul::{lemma_mul_inequality, lemma_mul_strict_inequality};
use vstd::arithmetic::power2::{
    lemma_pow2_pos, lemma_pow2_strictly_increases, lemma_pow2_unfold, pow2,
};
use vstd::prelude::*;

verus! {

/// The sign bit: 1 for a negative pattern.
pub open spec fn sign_field(bits: u32) -> int {
    bits as int / 0x8000_0000
}

/// The 8-bit biased exponent.
pub open spec fn exponent_field(bits: u32) -> int {
    (bits as int / 0x80_0000) % 0x100
}

/// The 23-bit mantissa (fraction).
pub open spec fn mantissa_field(bits: u32) -> int {
    bits as int % 0x80_0000
}

/// Exponent and mantissa together, in field order: the pattern without its
/// sign bit.
pub open spec fn field_magnitude(bits: u32) -> int {
    exponent_field(bits) * 0x80_0000 + mantissa_field(bits)
}

/// A NaN: all exponent bits set and a non-zero mantissa.
pub open spec fn is_nan_value(bits: u32) -> bool {
    exponent_field(bits) == 0xFF && mantissa_field(bits) != 0
}

/// A zero of either sign: zero exponent and zero mantissa.
pub open spec fn is_zero(bits: u32) -> bool {
    exponent_field(bits) == 0 && mantissa_field(bits) == 0
}

/// An infinity: all exponent bits set and a zero mantissa.
pub open spec fn is_infinity(bits: u32) -> bool {
    exponent_field(bits) == 0xFF && mantissa_field(bits) == 0
}

/// The absolute value of a finite pattern times `2^149`, which makes it a
/// whole number: `mantissa` for a subnormal, `(2^23 + mantissa) *
/// 2^(exponent - 1)` for a normal number.
pub open spec fn scaled_magnitude(bits: u32) -> int {
    if exponent_field(bits) == 0 {
        mantissa_field(bits)
    } else {
        (0x80_0000 + mantissa_field(bits)) * pow2((exponent_field(bits) - 1) as nat)
    }
}

/// The value of a finite pattern times `2^149`.
pub open spec fn scaled_value(bits: u32) -> int {
    if sign_field(bits) == 1 {
        -scaled_magnitude(bits)
    } else {
        scaled_magnitude(bits)
    }
}

/// `a < b` as numbers, for patterns that are not NaN: `-inf` below
/// everything else, `+inf` above everything else, finite values by value
/// (so `-0.0` and `+0.0` are not less than each other).
pub open spec fn numerically_less(a: u32, b: u32) -> bool {
    if is_infinity(a) && sign_field(a) == 1 {
        !(is_infinity(b) && sign_field(b) == 1)
    } else if is_infinity(b) && sign_field(b) == 0 {
        !(is_infinity(a) && sign_field(a) == 0)
    } else if is_infinity(a) || is_infinity(b) {
        false
    } else {
        scaled_value(a) < scaled_value(b)
    }
}

/// IEEE-754 `totalOrder` strictly: negative patterns before positive ones;
/// among positive patterns the smaller exponent-and-mantissa first, among
/// negative ones the larger first.
pub open spec fn total_order_less(a: u32, b: u32) -> bool {
    ||| sign_field(a) == 1 && sign_field(b) == 0
    ||| sign_field(a) == 0 && sign_field(b) == 0 && field_magnitude(a) < field_magnitude(b)
    ||| sign_field(a) == 1 && sign_field(b) == 1 && field_magnitude(a) > field_magnitude(b)
}

/// A pattern is its sign, exponent and mantissa fields side by side.
pub proof fn lemma_fields(bits: u32)
    ensures
        bits as int == sign_field(bits) * 0x8000_0000 + field_magnitude(bits),
        0 <= sign_field(bits) <= 1,
        0 <= exponent_field(bits) < 0x100,
        0 <= mantissa_field(bits) < 0x80_0000,
        0 <= field_magnitude(bits) < 0x8000_0000,
        is_nan_value(bits) <==> field_magnitude(bits) > 0x7F80_0000,
        is_infinity(bits) <==> field_magnitude(bits) == 0x7F80_0000,
{
    let b = bits as int;
    lemma_fundamental_div_mod(b, 0x80_0000);
    lemma_mod_bound(b, 0x80_0000);
    let q = b / 0x80_0000;
    lemma_fundamental_div_mod(q, 0x100);
    lemma_mod_bound(q, 0x100);
    lemma_fundamental_div_mod(b, 0x8000_0000);
    lemma_mod_bound(b, 0x8000_0000);
    assert(0 <= q < 0x200);
    assert(q / 0x100 == b / 0x8000_0000) by {
        let s = q / 0x100;
        let e = q % 0x100;
        let m = b % 0x80_0000;
        assert(b == 0x8000_0000 * s + (0x80_0000 * e + m));
        vstd::arithmetic::div_mod::lemma_fundamental_div_mod_converse(
            b,
            0x8000_0000,
            s,
            0x80_0000 * e + m,
        );
    }
}

/// The scaled magnitude is zero exactly for the two zeros, and below
/// `2^23 * 2^e` for exponent `e`, at least `2^23 * 2^(e - 1)` for a normal
/// exponent `e`.
proof fn lemma_scaled_bounds(bits: u32)
    requires
        exponent_field(bits) < 0xFF,
        0 <= exponent_field(bits),
        0 <= mantissa_field(bits) < 0x80_0000,
    ensures
        scaled_magnitude(bits) >= 0,
        (scaled_magnitude(bits) == 0) <==> (field_magnitude(bits) == 0),
        scaled_magnitude(bits) < 0x80_0000 * pow2(exponent_field(bits) as nat),
        exponent_field(bits) > 0 ==> scaled_magnitude(bits) >= 0x80_0000 * pow2(
            (exponent_field(bits) - 1) as nat,
        ),
{
    let e = exponent_field(bits);
    let m = mantissa_field(bits);
    lemma_pow2_pos(e as nat);
    if e == 0 {
        assert(pow2(0) == 1) by {
            vstd::arithmetic::power2::lemma2_to64();
        }
    } else {
        let p = pow2((e - 1) as nat) as int;
        lemma_pow2_pos((e - 1) as nat);
        lemma_pow2_unfold(e as nat);
        lemma_mul_strict_inequality(0x80_0000 + m, 0x100_0000, p);
        lemma_mul_inequality(0x80_0000, 0x80_0000 + m, p);
        assert((0x80_0000 + m) * p > 0) by (nonlinear_arith)
            requires
                p > 0,
                m >= 0,
        ;
        assert(0x100_0000 * p == 0x80_0000 * (2 * p)) by (nonlinear_arith);
    }
}

/// Among finite patterns the scaled magnitude grows strictly with the
/// exponent-and-mantissa fields.
pub proof fn lemma_scaled_strictly_increasing(x: u32, y: u32)
    requires
        field_magnitude(x) < field_magnitude(y) < 0x7F80_0000,
    ensures
        scaled_magnitude(x) < scaled_magnitude(y),
{
    lemma_fields(x);
    lemma_fields(y);
    let ex = exponent_field(x);
    let ey = exponent_field(y);
    let mx = mantissa_field(x);
    let my = mantissa_field(y);
    lemma_scaled_bounds(x);
    lemma_scaled_bounds(y);
    if ex == ey {
        assert(mx < my);
        if ex > 0 {
            let p = pow2((ex - 1) as nat) as int;
            lemma_pow2_pos((ex - 1) as nat);
            lemma_mul_strict_inequality(0x80_0000 + mx, 0x80_0000 + my, p);
        }
    } else {
        assert(ex < ey);
        // x < 2^23 * 2^ex <= 2^23 * 2^(ey - 1) <= y
        if ex < ey - 1 {
            lemma_pow2_strictly_increases(ex as nat, (ey - 1) as nat);
        }
        lemma_mul_inequality(pow2(ex as nat) as int, pow2((ey - 1) as nat) as int, 0x80_0000);
        assert(0x80_0000 * pow2(ex as nat) <= 0x80_0000 * pow2((ey - 1) as nat)) by (
        nonlinear_arith)
            requires
                pow2(ex as nat) * 0x80_0000 <= pow2((ey - 1) as nat) * 0x80_0000,
        ;
    }
}

/// Among finite patterns, the exponent-and-mantissa fields and the scaled
/// magnitude are in the same order.
pub proof fn lemma_scaled_order(x: u32, y: u32)
    requires
        field_magnitude(x) < 0x7F80_0000,
        field_magnitude(y) < 0x7F80_0000,
    ensures
        (field_magnitude(x) < field_magnitude(y)) <==> (scaled_magnitude(x) < scaled_magnitude(y)),
        (field_magnitude(x) == field_magnitude(y)) <==> (scaled_magnitude(x) == scaled_magnitude(
            y,
        )),
        scaled_magnitude(x) >= 0,
        scaled_magnitude(y) >= 0,
        (scaled_magnitude(x) == 0) <==> is_zero(x),
        (scaled_magnitude(y) == 0) <==> is_zero(y),
{
    lemma_fields(x);
    lemma_fields(y);
    lemma_scaled_bounds(x);
    lemma_scaled_bounds(y);
    if field_magnitude(x) < field_magnitude(y) {
        lemma_scaled_strictly_increasing(x, y);
    } else if field_magnitude(y) < field_magnitude(x) {
        lemma_scaled_strictly_increasing(y, x);
    } else {
        assert(exponent_field(x) == exponent_field(y) && mantissa_field(x) == mantissa_field(y));
    }
}

} // verus!
