//! IEEE-754 single-precision values handled through their bit patterns.
//! Comparisons are exact integer statements of the floating-point ones.
use vstd::arithmetic::power2::{
    lemma_pow2_pos, lemma_pow2_strictly_increases, lemma_pow2_unfold, pow2,
};
use vstd::prelude::*;

verus! {

/// Magnitude bits (everything but the sign) of an `f32` bit pattern.
pub open spec fn magnitude(bits: u32) -> int {
    bits as int % 0x8000_0000
}

/// Whether the sign bit of an `f32` bit pattern is set.
pub open spec fn negative(bits: u32) -> bool {
    bits as int >= 0x8000_0000
}

/// Whether an `f32` bit pattern encodes a NaN.
pub open spec fn is_nan(bits: u32) -> bool {
    magnitude(bits) > 0x7f80_0000
}

/// Position of a non-NaN `f32` on the number line, up to a monotone
/// rescaling: both zeros map to 0.
pub open spec fn numeric_key(bits: u32) -> int {
    if negative(bits) {
        -magnitude(bits)
    } else {
        magnitude(bits)
    }
}

/// The floating-point comparison `a > b` on two `f32` bit patterns: false
/// whenever either side is NaN.
pub open spec fn f32_gt(a: u32, b: u32) -> bool {
    !is_nan(a) && !is_nan(b) && numeric_key(a) > numeric_key(b)
}

/// Key of the IEEE-754 `totalOrder` predicate (`f32::total_cmp`):
/// comparing keys compares the floats in that order.
pub open spec fn total_key(bits: u32) -> int {
    if negative(bits) {
        -magnitude(bits) - 1
    } else {
        magnitude(bits)
    }
}

/// `a > b` for two `f32` values given by their bit patterns.
pub fn bits_gt(a: u32, b: u32) -> (r: bool)
    ensures
        r == f32_gt(a, b),
{
    let ma = a % 0x8000_0000;
    let mb = b % 0x8000_0000;
    if ma > 0x7f80_0000 || mb > 0x7f80_0000 {
        return false;
    }
    let ka: i64 = if a >= 0x8000_0000 { -(ma as i64) } else { ma as i64 };
    let kb: i64 = if b >= 0x8000_0000 { -(mb as i64) } else { mb as i64 };
    ka > kb
}

/// The `f32::total_cmp` key of a bit pattern, as a signed integer.
pub fn total_key_of(bits: u32) -> (r: i64)
    ensures
        r == total_key(bits),
{
    let m = bits % 0x8000_0000;
    if bits >= 0x8000_0000 {
        -(m as i64) - 1
    } else {
        m as i64
    }
}

/// Index of the greatest element under `f32::total_cmp`, taking the last one
/// when several are equal (as `Iterator::max_by` does).
pub fn argmax_total(values: &[u32]) -> (r: usize)
    requires
        values@.len() > 0,
    ensures
        r < values@.len(),
        forall|j: int| 0 <= j < values@.len() ==> total_key(values@[j]) <= total_key(values@[r as int]),
        forall|j: int| r < j < values@.len() ==> total_key(values@[j]) < total_key(values@[r as int]),
{
    let mut best: usize = 0;
    let mut best_key = total_key_of(values[0]);
    let mut i: usize = 1;
    while i < values.len()
        invariant
            1 <= i <= values@.len(),
            best < i,
            best_key == total_key(values@[best as int]),
            forall|j: int| 0 <= j < i ==> total_key(values@[j]) <= best_key,
            forall|j: int| best < j < i ==> total_key(values@[j]) < best_key,
        decreases values@.len() - i,
    {
        let k = total_key_of(values[i]);
        if k >= best_key {
            best = i;
            best_key = k;
        }
        i = i + 1;
    }
    best
}

/// The sign field of an `f32` bit pattern (bit 31).
pub open spec fn sign_field(bits: u32) -> nat {
    bits as nat / 0x8000_0000
}

/// The biased exponent field of an `f32` bit pattern (bits 23 to 30).
pub open spec fn exponent_field(bits: u32) -> nat {
    (bits as nat / 0x80_0000) % 0x100
}

/// The fraction field of an `f32` bit pattern (bits 0 to 22).
pub open spec fn fraction_field(bits: u32) -> nat {
    bits as nat % 0x80_0000
}

/// Whether the fields encode a NaN: the top exponent with a nonzero
/// fraction.
pub open spec fn encodes_nan(bits: u32) -> bool {
    exponent_field(bits) == 0xff && fraction_field(bits) != 0
}

/// The absolute value of the encoded number times 2^149, which makes every
/// finite `f32` an integer: the fraction for subnormals, and the fraction
/// with its implicit leading one, shifted by the exponent, otherwise. An
/// infinity comes out above every finite value.
pub open spec fn scaled_abs(bits: u32) -> nat {
    let e = exponent_field(bits);
    let f = fraction_field(bits);
    if e == 0 {
        f
    } else {
        (0x80_0000 + f) * pow2((e - 1) as nat)
    }
}

/// The encoded number times 2^149, with its sign.
pub open spec fn scaled_value(bits: u32) -> int {
    if sign_field(bits) == 1 {
        -scaled_abs(bits)
    } else {
        scaled_abs(bits) as int
    }
}

proof fn lemma_fields(bits: u32)
    ensures
        magnitude(bits) == exponent_field(bits) * 0x80_0000 + fraction_field(bits),
        negative(bits) == (sign_field(bits) == 1),
        sign_field(bits) <= 1,
        exponent_field(bits) < 0x100,
        fraction_field(bits) < 0x80_0000,
        is_nan(bits) == encodes_nan(bits),
{
    let m = bits % 0x8000_0000;
    let e = (bits / 0x80_0000) % 0x100;
    let f = bits % 0x80_0000;
    assert(m == e * 0x80_0000 + f && bits / 0x8000_0000 <= 1 && (bits >= 0x8000_0000) == (
    bits / 0x8000_0000 == 1)) by (bit_vector)
        requires
            m == bits % 0x8000_0000,
            e == (bits / 0x80_0000) % 0x100,
            f == bits % 0x80_0000,
    ;
}

/// A larger magnitude field (below NaN) encodes a larger absolute value.
proof fn lemma_scaled_abs_increasing(a: u32, b: u32)
    requires
        magnitude(a) < magnitude(b) <= 0x7f80_0000,
    ensures
        scaled_abs(a) < scaled_abs(b),
{
    lemma_fields(a);
    lemma_fields(b);
    let ea = exponent_field(a);
    let fa = fraction_field(a);
    let eb = exponent_field(b);
    let fb = fraction_field(b);
    assert(ea < eb || (ea == eb && fa < fb));
    if ea == eb {
        if ea > 0 {
            let p = pow2((ea - 1) as nat);
            lemma_pow2_pos((ea - 1) as nat);
            assert((0x80_0000 + fa) * p < (0x80_0000 + fb) * p) by (nonlinear_arith)
                requires
                    p > 0,
                    fa < fb,
            ;
        }
    } else {
        let pb = pow2((eb - 1) as nat);
        lemma_pow2_pos((eb - 1) as nat);
        if ea == 0 {
            assert(fa < (0x80_0000 + fb) * pb) by (nonlinear_arith)
                requires
                    pb >= 1,
                    fa < 0x80_0000,
            ;
        } else {
            let pa = pow2((ea - 1) as nat);
            lemma_pow2_pos((ea - 1) as nat);
            lemma_pow2_unfold(ea);
            if ea < eb - 1 {
                lemma_pow2_strictly_increases(ea, (eb - 1) as nat);
            }
            let pe = pow2(ea);
            assert(pe <= pb);
            assert((0x80_0000 + fa) * pa < (0x80_0000 + fb) * pb) by (nonlinear_arith)
                requires
                    pe == 2 * pa,
                    pe <= pb,
                    fa < 0x80_0000,
                    pa > 0,
            ;
        }
    }
}

/// Equal magnitude fields encode equal absolute values, and only the zero
/// field encodes zero.
proof fn lemma_scaled_abs_same(a: u32, b: u32)
    requires
        magnitude(a) == magnitude(b),
    ensures
        scaled_abs(a) == scaled_abs(b),
        scaled_abs(a) == 0 <==> magnitude(a) == 0,
{
    lemma_fields(a);
    lemma_fields(b);
    if exponent_field(a) > 0 {
        let p = pow2((exponent_field(a) - 1) as nat);
        lemma_pow2_pos((exponent_field(a) - 1) as nat);
        assert((0x80_0000 + fraction_field(a)) * p > 0) by (nonlinear_arith)
            requires
                p > 0,
        ;
    }
}

/// The floating-point `a > b` of `f32_gt` is the numeric comparison of the
/// encoded values, false whenever either side is NaN.
pub proof fn lemma_f32_gt_numeric(a: u32, b: u32)
    ensures
        f32_gt(a, b) == (!encodes_nan(a) && !encodes_nan(b) && scaled_value(a) > scaled_value(b)),
{
    lemma_fields(a);
    lemma_fields(b);
    if !is_nan(a) && !is_nan(b) {
        lemma_numeric_order(a, b);
        lemma_numeric_order(b, a);
    }
}

/// On non-NaN values, the numeric key orders as the encoded numbers do.
proof fn lemma_numeric_order(a: u32, b: u32)
    requires
        !is_nan(a),
        !is_nan(b),
    ensures
        numeric_key(a) < numeric_key(b) <==> scaled_value(a) < scaled_value(b),
{
    lemma_fields(a);
    lemma_fields(b);
    lemma_scaled_abs_same(a, a);
    lemma_scaled_abs_same(b, b);
    if magnitude(a) < magnitude(b) {
        lemma_scaled_abs_increasing(a, b);
    } else if magnitude(b) < magnitude(a) {
        lemma_scaled_abs_increasing(b, a);
    } else {
        lemma_scaled_abs_same(a, b);
    }
}

/// `f32::total_cmp` order extends the numeric order: of two non-NaN values,
/// the numerically smaller one has the smaller key (e.g. -3.0 before -0.5).
pub proof fn lemma_total_key_monotone(a: u32, b: u32)
    requires
        !encodes_nan(a),
        !encodes_nan(b),
        scaled_value(a) < scaled_value(b),
    ensures
        total_key(a) < total_key(b),
{
    lemma_fields(a);
    lemma_fields(b);
    lemma_scaled_abs_same(a, a);
    lemma_scaled_abs_same(b, b);
    if magnitude(a) < magnitude(b) {
        lemma_scaled_abs_increasing(a, b);
    } else if magnitude(b) < magnitude(a) {
        lemma_scaled_abs_increasing(b, a);
    } else {
        lemma_scaled_abs_same(a, b);
    }
}

} // verus!
