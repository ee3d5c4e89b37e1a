//! The electro-optical transfer curve in exact fixed point.
//!
//! A stored 8-bit sample `v` maps to linear light `(v / 255)^(12/5)`, the
//! display gamma of 2.4.  Here the curve is evaluated exactly over the
//! integers at a scale of 2^16: the result is the integer fifth root of
//! `b^4`, where `b = v^3 * 2^20 / 255^3` is the cubed, rescaled sample.
//! At this scale the map is monotone but not strictly so: the darkest
//! samples floor to the same value (0 and 1 both map to zero linear
//! light), while the endpoints are exact (0 maps to 0, 255 to 2^16).
use vstd::prelude::*;

use crate::math::{
    pow5,
    lemma_pow5_lt,
    lemma_iroot5_unique,
    lemma_mul_le,
    iroot5_u128,
    iroot5_spec,
    lemma_iroot5_spec_char,
};

verus! {

/// The fourth power of an integer.
pub open spec fn pow4(a: int) -> int {
    a * a * a * a
}

/// The cubed sample rescaled so that 255 maps to 2^20.
pub open spec fn gamma_base(v: u8) -> int {
    (v * v * v * 0x10_0000) / 0xFD_02FF
}

/// Whether `r` is the linear-light value of the sample `v` at scale 2^16:
/// the integer fifth root of the fourth power of the rescaled cube.
pub open spec fn is_linear_light(v: u8, r: int) -> bool {
    &&& 0 <= r
    &&& pow5(r) <= pow4(gamma_base(v))
    &&& pow4(gamma_base(v)) < pow5(r + 1)
}

/// The linear-light value of a stored sample, at scale 2^16:
/// zero is no light, 2^16 is full brightness.
pub open spec fn linear_light(v: u8) -> int {
    iroot5_spec(pow4(gamma_base(v)))
}

/// The fourth power splits into a product of squares.
pub proof fn lemma_pow4_decomp(a: int)
    by (nonlinear_arith)
    ensures
        pow4(a) == (a * a) * (a * a),
{
}

/// The rescaled cube never exceeds 2^20, so its fourth power never exceeds
/// the fifth power of 2^16.
pub proof fn lemma_gamma_base_bounds(v: u8)
    ensures
        0 <= gamma_base(v) <= 0x10_0000,
        0 <= pow4(gamma_base(v)) <= pow5(0x1_0000),
{
    assert(0 <= v * v * v <= 0xFD_02FF) by (nonlinear_arith)
        requires
            v <= 255,
    ;
    assert(0 <= gamma_base(v) <= 0x10_0000);
    assert(0 <= pow4(gamma_base(v)) <= pow4(0x10_0000)) by (nonlinear_arith)
        requires
            0 <= gamma_base(v) <= 0x10_0000,
    ;
    assert(pow4(0x10_0000) == pow5(0x1_0000));
}

/// The linear-light value is a 2^16-scaled fraction of full brightness.
pub proof fn lemma_linear_light_bounds(v: u8)
    ensures
        0 <= linear_light(v) <= 0x1_0000,
{
    lemma_gamma_base_bounds(v);
    lemma_iroot5_spec_char(pow4(gamma_base(v)));
    let r = linear_light(v);
    if r > 0x1_0000 {
        lemma_pow5_lt(0x1_0000, r);
    }
}

/// The transfer is monotone: a brighter stored sample never maps to less
/// linear light.  It is not strictly increasing: at scale 2^16 the darkest
/// samples collapse (0 and 1 both map to zero).
pub proof fn lemma_linear_light_monotone(a: u8, b: u8)
    requires
        a <= b,
    ensures
        linear_light(a) <= linear_light(b),
{
    assert(a * a * a <= b * b * b) by (nonlinear_arith)
        requires
            0 <= a <= b,
    ;
    vstd::arithmetic::div_mod::lemma_div_is_ordered(
        a * a * a * 0x10_0000,
        b * b * b * 0x10_0000,
        0xFD_02FF,
    );
    lemma_gamma_base_bounds(a);
    lemma_gamma_base_bounds(b);
    assert(pow4(gamma_base(a)) <= pow4(gamma_base(b))) by (nonlinear_arith)
        requires
            0 <= gamma_base(a) <= gamma_base(b),
    ;
    lemma_iroot5_spec_char(pow4(gamma_base(a)));
    lemma_iroot5_spec_char(pow4(gamma_base(b)));
    let ra = linear_light(a);
    let rb = linear_light(b);
    if ra > rb {
        lemma_pow5_lt(rb, ra);
        assert(pow5(rb + 1) <= pow5(ra)) by (nonlinear_arith)
            requires
                0 <= rb + 1 <= ra,
        ;
    }
}

/// A witness for `is_linear_light` pins `linear_light` down.
pub proof fn lemma_linear_light_is(v: u8, r: int)
    requires
        is_linear_light(v, r),
    ensures
        linear_light(v) == r,
{
    lemma_gamma_base_bounds(v);
    lemma_iroot5_spec_char(pow4(gamma_base(v)));
    lemma_iroot5_unique(pow4(gamma_base(v)), r, linear_light(v));
}

/// Computes the linear-light value of a sample.
pub fn linear_light_value(v: u8) -> (r: u32)
    ensures
        r == linear_light(v),
        r <= 0x1_0000,
{
    proof {
        lemma_mul_le(v as int, v as int, 255, 255);
        lemma_mul_le((v * v) as int, v as int, 0xFE01, 255);
    }
    let v3: u64 = (v as u64) * (v as u64) * (v as u64);
    let c: u64 = v3 * 0x10_0000 / 0xFD_02FF;
    proof {
        assert(c == gamma_base(v));
        assert(c <= 0x10_0000);
    }
    let a: u128 = c as u128;
    proof {
        lemma_mul_le(a as int, a as int, 0x10_0000, 0x10_0000);
    }
    let a2: u128 = a * a;
    proof {
        lemma_mul_le(a2 as int, a2 as int, 0x100_0000_0000, 0x100_0000_0000);
    }
    let a4: u128 = a2 * a2;
    proof {
        lemma_pow4_decomp(a as int);
        assert(a4 == pow4(gamma_base(v)));
        assert(pow4(0x10_0000) == pow5(0x1_0000));
        lemma_pow5_lt(0x1_0000, 0x1_0001);
        assert(a4 <= pow4(0x10_0000)) by (nonlinear_arith)
            requires
                a4 == pow4(a as int),
                0 <= a <= 0x10_0000,
        ;
    }
    let r = iroot5_u128(a4);
    proof {
        lemma_linear_light_is(v, r as int);
    }
    r
}

/// A full table of the 256 linear-light values.
pub open spec fn lin_table_wf(t: Seq<u32>) -> bool {
    &&& t.len() == 256
    &&& forall|i: int| 0 <= i < 256 ==> #[trigger] t[i] == linear_light(i as u8)
    &&& forall|i: int| 0 <= i < 256 ==> #[trigger] t[i] <= 0x1_0000
}

/// Builds the 256-entry table of linear-light values used by the scorer and
/// the budget estimator, so that each pixel costs one lookup.
pub fn build_linear_table() -> (t: Vec<u32>)
    ensures
        lin_table_wf(t@),
{
    let mut t: Vec<u32> = Vec::new();
    let mut v: usize = 0;
    while v < 256
        invariant
            v <= 256,
            t@.len() == v,
            forall|i: int| 0 <= i < v ==> #[trigger] t@[i] == linear_light(i as u8),
            forall|i: int| 0 <= i < v ==> #[trigger] t@[i] <= 0x1_0000,
        decreases 256 - v,
    {
        let x = linear_light_value(v as u8);
        t.push(x);
        v = v + 1;
    }
    t
}

} // verus!
