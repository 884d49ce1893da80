//! The algebra of the four-way split: the operand evaluations, the product
//! polynomial at the seven points, and the bounds that keep every buffer exact.

use crate::eval::SharedEval;
use crate::kernels::Addition;
use crate::limbs::{
    Limb, lemma_pow_b_add, lemma_pow_b_monotone, lemma_pow_b_pos, lemma_val_bound,
    lemma_val_concat, lemma_val_split, lemma_val_zero, pow_b, radix, val,
};
use crate::ssa::carry::SsaCarry;
use crate::toom3::{
    Toom3, abs, lemma_expand2, lemma_signed_product, lemma_toom3_scratch_monotone,
    lemma_val_prefix_step_full, spec_toom3_scratch,
};

use vstd::arithmetic::mul::*;
use vstd::prelude::*;

verus! {
/// The four parts of an operand, evaluated at `x`.
pub open spec fn eval4(p0: int, p1: int, p2: int, p3: int, x: int) -> int {
    p0 + p1 * x + p2 * (x * x) + p3 * (x * x * x)
}

/// The four parts of an operand at `1/2`, scaled by eight.
pub open spec fn eval4_half(p0: int, p1: int, p2: int, p3: int) -> int {
    8 * p0 + 4 * p1 + 2 * p2 + p3
}

/// The four evaluation points in closed form.
pub proof fn lemma_eval4_points(p0: int, p1: int, p2: int, p3: int)
    ensures
        eval4(p0, p1, p2, p3, 1) == p0 + p1 + p2 + p3,
        eval4(p0, p1, p2, p3, -1) == p0 - p1 + p2 - p3,
        eval4(p0, p1, p2, p3, 2) == p0 + 2 * p1 + 4 * p2 + 8 * p3,
        eval4(p0, p1, p2, p3, -2) == p0 - 2 * p1 + 4 * p2 - 8 * p3,
{
    assert(eval4(p0, p1, p2, p3, 1) == p0 + p1 + p2 + p3) by (nonlinear_arith);
    assert(eval4(p0, p1, p2, p3, -1) == p0 - p1 + p2 - p3) by (nonlinear_arith);
    assert(eval4(p0, p1, p2, p3, 2) == p0 + 2 * p1 + 4 * p2 + 8 * p3) by (nonlinear_arith);
    assert(eval4(p0, p1, p2, p3, -2) == p0 - 2 * p1 + 4 * p2 - 8 * p3) by (nonlinear_arith);
}

/// Each of the four parts is below `B^s`.
pub open spec fn parts_below(p0: Seq<Limb>, p1: Seq<Limb>, p2: Seq<Limb>, p3: Seq<Limb>, s: nat) -> bool {
    p0.len() <= s && p1.len() <= s && p2.len() <= s && p3.len() <= s
}

/// Parts of at most `s` limbs are below `B^s`.
pub(crate) proof fn lemma_parts_bound(p0: Seq<Limb>, p1: Seq<Limb>, p2: Seq<Limb>, p3: Seq<Limb>, s: nat)
    requires
        parts_below(p0, p1, p2, p3, s),
    ensures
        val(p0) < pow_b(s),
        val(p1) < pow_b(s),
        val(p2) < pow_b(s),
        val(p3) < pow_b(s),
        15 * pow_b(s) < pow_b(s + 1),
{
    lemma_val_bound(p0);
    lemma_val_bound(p1);
    lemma_val_bound(p2);
    lemma_val_bound(p3);
    lemma_pow_b_monotone(p0.len(), s);
    lemma_pow_b_monotone(p1.len(), s);
    lemma_pow_b_monotone(p2.len(), s);
    lemma_pow_b_monotone(p3.len(), s);
    lemma_pow_b_pos(s);
    assert(pow_b(s + 1) == radix() * pow_b(s));
}

/// The seven product coefficients are nonnegative and small enough that
/// every interpolation intermediate stays below `range`.
pub open spec fn coefficients_fit(
    c0: int,
    c1: int,
    c2: int,
    c3: int,
    c4: int,
    c5: int,
    c6: int,
    range: int,
) -> bool {
    &&& c0 >= 0 && c1 >= 0 && c2 >= 0 && c3 >= 0 && c4 >= 0 && c5 >= 0 && c6 >= 0
    &&& 128 * (c0 + c1 + c2 + c3 + c4 + c5 + c6) < range
}

/// The larger of two lengths.
pub open spec fn max_len(a: nat, b: nat) -> nat {
    if a >= b {
        a
    } else {
        b
    }
}

/// Every evaluation of four parts below `P` lies below `15 P` in magnitude.
pub(crate) proof fn lemma_evaluation_bounds(p0: int, p1: int, p2: int, p3: int, pp: int)
    requires
        0 <= p0 < pp,
        0 <= p1 < pp,
        0 <= p2 < pp,
        0 <= p3 < pp,
    ensures
        0 <= eval4(p0, p1, p2, p3, 1) < 15 * pp,
        abs(eval4(p0, p1, p2, p3, -1)) < 15 * pp,
        0 <= eval4(p0, p1, p2, p3, 2) < 15 * pp,
        abs(eval4(p0, p1, p2, p3, -2)) < 15 * pp,
        0 <= eval4_half(p0, p1, p2, p3) < 15 * pp,
{
    lemma_eval4_points(p0, p1, p2, p3);
}

/// A product of two four-term sums is the sum of the sixteen cross products.
pub(crate) proof fn lemma_bilinear4(p0: int, p1: int, p2: int, p3: int, q0: int, q1: int, q2: int, q3: int)
    ensures
        (p0 + p1 + p2 + p3) * (q0 + q1 + q2 + q3) == p0 * q0 + p0 * q1 + p0 * q2 + p0 * q3 + p1
            * q0 + p1 * q1 + p1 * q2 + p1 * q3 + p2 * q0 + p2 * q1 + p2 * q2 + p2 * q3 + p3 * q0
            + p3 * q1 + p3 * q2 + p3 * q3,
{
    let q = q0 + q1 + q2 + q3;
    lemma_mul_is_distributive_add_other_way(q, p0 + p1 + p2, p3);
    lemma_mul_is_distributive_add_other_way(q, p0 + p1, p2);
    lemma_mul_is_distributive_add_other_way(q, p0, p1);
    lemma_row4(p0, q0, q1, q2, q3);
    lemma_row4(p1, q0, q1, q2, q3);
    lemma_row4(p2, q0, q1, q2, q3);
    lemma_row4(p3, q0, q1, q2, q3);
}

/// `p (q0 + q1 + q2 + q3) = p q0 + p q1 + p q2 + p q3`.
pub(crate) proof fn lemma_row4(p: int, q0: int, q1: int, q2: int, q3: int)
    ensures
        p * (q0 + q1 + q2 + q3) == p * q0 + p * q1 + p * q2 + p * q3,
{
    lemma_mul_is_distributive_add(p, q0 + q1 + q2, q3);
    lemma_mul_is_distributive_add(p, q0 + q1, q2);
    lemma_mul_is_distributive_add(p, q0, q1);
}

/// `(a u)(b v) = (a b)(u v)`.
pub(crate) proof fn lemma_scaled(a: int, b: int, u: int, v: int)
    ensures
        (a * u) * (b * v) == (a * b) * (u * v),
{
    assert((a * u) * (b * v) == (a * b) * (u * v)) by (nonlinear_arith);
}

/// The product of two evaluations with scales `k0..k3` is the sum of the
/// cross products, each scaled by the product of its two scales.
pub(crate) proof fn lemma_point(
    k0: int,
    k1: int,
    k2: int,
    k3: int,
    x0: int,
    x1: int,
    x2: int,
    x3: int,
    y0: int,
    y1: int,
    y2: int,
    y3: int,
)
    ensures
        (k0 * x0 + k1 * x1 + k2 * x2 + k3 * x3) * (k0 * y0 + k1 * y1 + k2 * y2 + k3 * y3) == (k0
            * k0) * (x0 * y0) + (k0 * k1) * (x0 * y1) + (k0 * k2) * (x0 * y2) + (k0 * k3) * (x0
            * y3) + (k1 * k0) * (x1 * y0) + (k1 * k1) * (x1 * y1) + (k1 * k2) * (x1 * y2) + (k1
            * k3) * (x1 * y3) + (k2 * k0) * (x2 * y0) + (k2 * k1) * (x2 * y1) + (k2 * k2) * (x2
            * y2) + (k2 * k3) * (x2 * y3) + (k3 * k0) * (x3 * y0) + (k3 * k1) * (x3 * y1) + (k3
            * k2) * (x3 * y2) + (k3 * k3) * (x3 * y3),
{
    lemma_bilinear4(k0 * x0, k1 * x1, k2 * x2, k3 * x3, k0 * y0, k1 * y1, k2 * y2, k3 * y3);
    lemma_scaled(k0, k0, x0, y0);
    lemma_scaled(k0, k1, x0, y1);
    lemma_scaled(k0, k2, x0, y2);
    lemma_scaled(k0, k3, x0, y3);
    lemma_scaled(k1, k0, x1, y0);
    lemma_scaled(k1, k1, x1, y1);
    lemma_scaled(k1, k2, x1, y2);
    lemma_scaled(k1, k3, x1, y3);
    lemma_scaled(k2, k0, x2, y0);
    lemma_scaled(k2, k1, x2, y1);
    lemma_scaled(k2, k2, x2, y2);
    lemma_scaled(k2, k3, x2, y3);
    lemma_scaled(k3, k0, x3, y0);
    lemma_scaled(k3, k1, x3, y1);
    lemma_scaled(k3, k2, x3, y2);
    lemma_scaled(k3, k3, x3, y3);
}

/// `k x = k * x` for the literal scales the points use.
pub(crate) proof fn lemma_unit(x: int)
    ensures
        1 * x == x,
        -1 * x == -x,
{
}

/// The product polynomial at the seven points, in its coefficients.
pub(crate) proof fn lemma_toom4_points(
    x0: int,
    x1: int,
    x2: int,
    x3: int,
    y0: int,
    y1: int,
    y2: int,
    y3: int,
)
    ensures
        ({
            let c0 = x0 * y0;
            let c1 = x0 * y1 + x1 * y0;
            let c2 = x0 * y2 + x1 * y1 + x2 * y0;
            let c3 = x0 * y3 + x1 * y2 + x2 * y1 + x3 * y0;
            let c4 = x1 * y3 + x2 * y2 + x3 * y1;
            let c5 = x2 * y3 + x3 * y2;
            let c6 = x3 * y3;
            &&& eval4(x0, x1, x2, x3, 1) * eval4(y0, y1, y2, y3, 1) == c0 + c1 + c2 + c3 + c4 + c5
                + c6
            &&& eval4(x0, x1, x2, x3, -1) * eval4(y0, y1, y2, y3, -1) == c0 - c1 + c2 - c3 + c4
                - c5 + c6
            &&& eval4(x0, x1, x2, x3, 2) * eval4(y0, y1, y2, y3, 2) == c0 + 2 * c1 + 4 * c2 + 8
                * c3 + 16 * c4 + 32 * c5 + 64 * c6
            &&& eval4(x0, x1, x2, x3, -2) * eval4(y0, y1, y2, y3, -2) == c0 - 2 * c1 + 4 * c2 - 8
                * c3 + 16 * c4 - 32 * c5 + 64 * c6
            &&& eval4_half(x0, x1, x2, x3) * eval4_half(y0, y1, y2, y3) == 64 * c0 + 32 * c1 + 16
                * c2 + 8 * c3 + 4 * c4 + 2 * c5 + c6
        }),
{
    lemma_eval4_points(x0, x1, x2, x3);
    lemma_eval4_points(y0, y1, y2, y3);
    lemma_point(1, 1, 1, 1, x0, x1, x2, x3, y0, y1, y2, y3);
    lemma_point(1, -1, 1, -1, x0, x1, x2, x3, y0, y1, y2, y3);
    lemma_point(1, 2, 4, 8, x0, x1, x2, x3, y0, y1, y2, y3);
    lemma_point(1, -2, 4, -8, x0, x1, x2, x3, y0, y1, y2, y3);
    lemma_point(8, 4, 2, 1, x0, x1, x2, x3, y0, y1, y2, y3);
    lemma_unit(x0);
    lemma_unit(x1);
    lemma_unit(x2);
    lemma_unit(x3);
    lemma_unit(y0);
    lemma_unit(y1);
    lemma_unit(y2);
    lemma_unit(y3);
}

/// Two four-part numbers multiply into the seven coefficients placed at
/// their part widths.
pub proof fn lemma_poly4_product(
    x0: int,
    x1: int,
    x2: int,
    x3: int,
    y0: int,
    y1: int,
    y2: int,
    y3: int,
    x: int,
)
    ensures
        eval4(x0, x1, x2, x3, x) * eval4(y0, y1, y2, y3, x) == x0 * y0 + (x0 * y1 + x1 * y0) * x + (
        x0 * y2 + x1 * y1 + x2 * y0) * (x * x) + (x0 * y3 + x1 * y2 + x2 * y1 + x3 * y0) * (x * x
            * x) + (x1 * y3 + x2 * y2 + x3 * y1) * (x * x * x * x) + (x2 * y3 + x3 * y2) * (x * x
            * x * x * x) + (x3 * y3) * (x * x * x * x * x * x),
{
    let k1 = x;
    let k2 = x * x;
    let k3 = x * x * x;
    lemma_point(1, k1, k2, k3, x0, x1, x2, x3, y0, y1, y2, y3);
    lemma_mul_basics(x0);
    lemma_mul_basics(y0);
    lemma_mul_basics(k1);
    lemma_mul_basics(k2);
    lemma_mul_basics(k3);
    lemma_mul_is_commutative(x1, k1);
    lemma_mul_is_commutative(x2, k2);
    lemma_mul_is_commutative(x3, k3);
    lemma_mul_is_commutative(y1, k1);
    lemma_mul_is_commutative(y2, k2);
    lemma_mul_is_commutative(y3, k3);
    lemma_mul_basics(x0 * y0);
    // Scale products are powers of `x`.
    let p2 = x * x;
    let p3 = p2 * x;
    let p4 = p3 * x;
    lemma_mul_is_commutative(x, p2);
    lemma_mul_is_commutative(x, p3);
    lemma_mul_is_associative(p2, x, x);
    lemma_mul_is_associative(p2, p2, x);
    lemma_mul_is_commutative(p2, p3);
    lemma_mul_is_associative(p3, p2, x);
    lemma_mul_is_commutative(p3, p2);
    assert(k1 * k2 == x * x * x && k2 * k1 == x * x * x && k1 * k3 == x * x * x * x && k3 * k1
        == x * x * x * x && k2 * k2 == x * x * x * x && k2 * k3 == x * x * x * x * x && k3 * k2
        == x * x * x * x * x && k3 * k3 == x * x * x * x * x * x && k1 * k1 == x * x);
    // Group the cross products by power.
    let (a, b, c, d, e, f, g) = (
        x0 * y0,
        x0 * y1 + x1 * y0,
        x0 * y2 + x1 * y1 + x2 * y0,
        x0 * y3 + x1 * y2 + x2 * y1 + x3 * y0,
        x1 * y3 + x2 * y2 + x3 * y1,
        x2 * y3 + x3 * y2,
        x3 * y3,
    );
    lemma_mul_is_distributive_add_other_way(k1, x0 * y1, x1 * y0);
    lemma_mul_is_distributive_add_other_way(x * x, x0 * y2 + x1 * y1, x2 * y0);
    lemma_mul_is_distributive_add_other_way(x * x, x0 * y2, x1 * y1);
    lemma_mul_is_distributive_add_other_way(x * x * x, x0 * y3 + x1 * y2 + x2 * y1, x3 * y0);
    lemma_mul_is_distributive_add_other_way(x * x * x, x0 * y3 + x1 * y2, x2 * y1);
    lemma_mul_is_distributive_add_other_way(x * x * x, x0 * y3, x1 * y2);
    lemma_mul_is_distributive_add_other_way(x * x * x * x, x1 * y3 + x2 * y2, x3 * y1);
    lemma_mul_is_distributive_add_other_way(x * x * x * x, x1 * y3, x2 * y2);
    lemma_mul_is_distributive_add_other_way(x * x * x * x * x, x2 * y3, x3 * y2);
    lemma_mul_is_commutative(k1, x0 * y1);
    lemma_mul_is_commutative(k1, x1 * y0);
    lemma_mul_is_commutative(k2, x0 * y2);
    lemma_mul_is_commutative(k2, x2 * y0);
    lemma_mul_is_commutative(x * x, x1 * y1);
    lemma_mul_is_commutative(k3, x0 * y3);
    lemma_mul_is_commutative(k3, x3 * y0);
    lemma_mul_is_commutative(x * x * x, x1 * y2);
    lemma_mul_is_commutative(x * x * x, x2 * y1);
    lemma_mul_is_commutative(x * x * x * x, x1 * y3);
    lemma_mul_is_commutative(x * x * x * x, x3 * y1);
    lemma_mul_is_commutative(x * x * x * x, x2 * y2);
    lemma_mul_is_commutative(x * x * x * x * x, x2 * y3);
    lemma_mul_is_commutative(x * x * x * x * x, x3 * y2);
    lemma_mul_is_commutative(x * x * x * x * x * x, x3 * y3);
    lemma_mul_is_commutative(b, k1);
    lemma_mul_is_commutative(c, x * x);
    lemma_mul_is_commutative(d, x * x * x);
    lemma_mul_is_commutative(e, x * x * x * x);
    lemma_mul_is_commutative(f, x * x * x * x * x);
    lemma_mul_is_commutative(g, x * x * x * x * x * x);
}

/// `B^(k s) = X^k` for `X = B^s`, up to the sixth power.
pub(crate) proof fn lemma_part_powers(s: nat)
    ensures
        ({
            let x = pow_b(s) as int;
            &&& pow_b(2 * s) == x * x
            &&& pow_b(3 * s) == x * x * x
            &&& pow_b(4 * s) == x * x * x * x
            &&& pow_b(5 * s) == x * x * x * x * x
            &&& pow_b(6 * s) == x * x * x * x * x * x
        }),
{
    let x = pow_b(s) as int;
    lemma_pow_b_add(s, s);
    lemma_pow_b_add(2 * s, s);
    lemma_pow_b_add(3 * s, s);
    lemma_pow_b_add(4 * s, s);
    lemma_pow_b_add(5 * s, s);
    assert(s + s == 2 * s);
    assert(2 * s + s == 3 * s);
    assert(3 * s + s == 4 * s);
    assert(4 * s + s == 5 * s);
    assert(5 * s + s == 6 * s);
}

/// A destination laid out as the constant product, the one-product region,
/// a zero gap, and the infinity product.
pub(crate) proof fn lemma_four_regions(
    d: Seq<Limb>,
    low: Seq<Limb>,
    one: Seq<Limb>,
    gap: Seq<Limb>,
    inf: Seq<Limb>,
    s: nat,
)
    requires
        s >= 1,
        d == low + one + gap + inf,
        low.len() == 2 * s,
        one.len() == 2 * s + 2,
        gap.len() == 2 * s - 2,
        crate::limbs::all_zero(gap),
    ensures
        val(d) == val(low) + pow_b(2 * s) * val(one) + pow_b(6 * s) * val(inf),
{
    lemma_val_concat(low + one + gap, inf);
    lemma_val_concat(low + one, gap);
    lemma_val_concat(low, one);
    lemma_val_zero(gap);
    lemma_mul_basics(pow_b(4 * s + 2) as int);
    assert((low + one + gap).len() == 6 * s);
}

} // verus!
