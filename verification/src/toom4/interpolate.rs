//! Seven-point interpolation and the reconstruction around the quadratic
//! coefficient.

use crate::eval::SharedEval;
use crate::kernels::Addition;
use crate::limbs::{
    Limb, lemma_pow_b_add, lemma_pow_b_monotone, lemma_pow_b_pos, lemma_val_bound,
    lemma_val_concat, lemma_val_split, lemma_val_zero, pow_b, radix, val,
};
use crate::ssa::carry::SsaCarry;
use crate::toom3::{
    Toom3, abs, lemma_expand2, lemma_signed_product, lemma_toom3_scratch_monotone,
    lemma_val_prefix_step_full, spec_toom3_scratch,
};
use crate::toom4::algebra::{coefficients_fit};
use crate::toom4::cook::{Toom4};
use vstd::arithmetic::mul::*;
use vstd::prelude::*;

verus! {

/// The five middle point values of the product polynomial with
/// coefficients `c0..c6`: at `1, -1, 2, -2`, and at `1/2` scaled by `64`.
pub open spec fn seven_points(
    c0: int,
    c1: int,
    c2: int,
    c3: int,
    c4: int,
    c5: int,
    c6: int,
) -> (int, int, int, int, int) {
    (
        c0 + c1 + c2 + c3 + c4 + c5 + c6,
        c0 - c1 + c2 - c3 + c4 - c5 + c6,
        c0 + 2 * c1 + 4 * c2 + 8 * c3 + 16 * c4 + 32 * c5 + 64 * c6,
        c0 - 2 * c1 + 4 * c2 - 8 * c3 + 16 * c4 - 32 * c5 + 64 * c6,
        64 * c0 + 32 * c1 + 16 * c2 + 8 * c3 + 4 * c4 + 2 * c5 + c6,
    )
}

/// A magnitude with its sign.
pub open spec fn signed(magnitude: nat, negative: bool) -> int {
    if negative {
        -magnitude
    } else {
        magnitude as int
    }
}

/// The five middle point values the buffers hold, signs applied.
pub open spec fn observed_points(
    one: nat,
    neg_one: nat,
    neg_one_negative: bool,
    two: nat,
    neg_two: nat,
    neg_two_negative: bool,
    half: nat,
) -> (int, int, int, int, int) {
    (
        one as int,
        signed(neg_one, neg_one_negative),
        two as int,
        signed(neg_two, neg_two_negative),
        half as int,
    )
}

/// With the constant and leading coefficients fixed, the five middle point
/// values determine the five middle coefficients.
pub proof fn lemma_seven_points_unique(
    c0: int,
    c1: int,
    c2: int,
    c3: int,
    c4: int,
    c5: int,
    c6: int,
    d1: int,
    d2: int,
    d3: int,
    d4: int,
    d5: int,
)
    requires
        seven_points(c0, c1, c2, c3, c4, c5, c6) == seven_points(c0, d1, d2, d3, d4, d5, c6),
    ensures
        c1 == d1 && c2 == d2 && c3 == d3 && c4 == d4 && c5 == d5,
{
}

/// The five middle point products and the signs of the values at `-2` and
/// `-1`.
pub struct MiddleValues<'a> {
    pub neg_two: &'a mut [Limb],
    pub one: &'a mut [Limb],
    pub neg_one: &'a mut [Limb],
    pub two: &'a mut [Limb],
    pub half: &'a mut [Limb],
    pub neg_two_negative: bool,
    pub neg_one_negative: bool,
}

/// A kernel result known to lie in `[0, R)` carried nothing out.
proof fn lemma_no_wrap(new_val: int, wrap: int, exact: int, range: int)
    requires
        range > 0,
        0 <= new_val < range,
        0 <= exact < range,
        wrap >= 0,
        new_val - wrap * range == exact,
    ensures
        wrap == 0,
        new_val == exact,
{
    if wrap >= 1 {
        assert(wrap * range >= range) by (nonlinear_arith)
            requires
                wrap >= 1,
                range > 0,
        ;
    }
}

/// `dst -= src` for `src <= dst`.
fn sub_exact(dst: &mut [Limb], src: &[Limb])
    requires
        src@.len() <= old(dst)@.len(),
        val(src@) <= val(old(dst)@),
    ensures
        final(dst)@.len() == old(dst)@.len(),
        val(final(dst)@) == val(old(dst)@) - val(src@),
{
    let ghost d0 = val(dst@) as int;
    let borrow = SsaCarry::sub_full_in_place(dst, src);
    proof {
        lemma_val_bound(dst@);
        lemma_val_bound(old(dst)@);
        lemma_no_wrap(val(dst@) as int, borrow as int, d0 - val(src@), pow_b(dst@.len()) as int);
    }
}

/// `dst += src` when the sum fits `dst`.
fn add_exact(dst: &mut [Limb], src: &[Limb])
    requires
        src@.len() <= old(dst)@.len(),
        val(old(dst)@) + val(src@) < pow_b(old(dst)@.len()),
    ensures
        final(dst)@.len() == old(dst)@.len(),
        val(final(dst)@) == val(old(dst)@) + val(src@),
{
    let ghost d0 = val(dst@) as int;
    let carry = SsaCarry::add_full_in_place(dst, src);
    proof {
        lemma_val_bound(dst@);
        if carry > 0 {
            assert(carry * pow_b(dst@.len()) >= pow_b(dst@.len())) by (nonlinear_arith)
                requires
                    carry >= 1,
                    pow_b(dst@.len()) > 0,
            ;
        }
    }
}

/// `dst -= src * w` for `src * w <= dst`.
fn sub_mul_exact(dst: &mut [Limb], src: &[Limb], w: Limb)
    requires
        src@.len() <= old(dst)@.len(),
        val(src@) * w <= val(old(dst)@),
    ensures
        final(dst)@.len() == old(dst)@.len(),
        val(final(dst)@) == val(old(dst)@) - val(src@) * w,
{
    let ghost d0 = val(dst@) as int;
    let borrow = SharedEval::sub_mul_word_in_place(dst, src, w);
    proof {
        lemma_val_bound(dst@);
        lemma_val_bound(old(dst)@);
        lemma_no_wrap(val(dst@) as int, borrow as int, d0 - val(src@) * w, pow_b(dst@.len()) as int);
    }
}

/// `dst /= d` for a `dst` that `d` divides.
fn div_exact(dst: &mut [Limb], d: Limb, Ghost(q): Ghost<int>)
    requires
        d > 0,
        val(old(dst)@) == q * d,
    ensures
        final(dst)@.len() == old(dst)@.len(),
        val(final(dst)@) == q,
{
    let r = SharedEval::div_word_in_place(dst, d);
    proof {
        let v = val(dst@) as int;
        assert(v * d + r == q * d);
        assert((v - q) * d == -(r as int)) by (nonlinear_arith)
            requires
                v * d + r == q * d,
        ;
        if v > q {
            assert((v - q) * d >= d) by (nonlinear_arith)
                requires
                    v - q >= 1,
                    d > 0,
            ;
        } else if v < q {
            assert((v - q) * d <= -d) by (nonlinear_arith)
                requires
                    v - q <= -1,
                    d > 0,
            ;
        }
    }
}

impl Toom4 {
    /// From `W(x)` in `pos` and the magnitude of `W(-x)` in `neg` with its
    /// sign, writes the halves of their sum and difference: `e` over `pos`
    /// and `o` over `neg`.
    fn split_even_odd(
        pos: &mut [Limb],
        neg: &mut [Limb],
        negative: bool,
        Ghost(e): Ghost<int>,
        Ghost(o): Ghost<int>,
    )
        requires
            old(pos)@.len() >= 1,
            old(neg)@.len() == old(pos)@.len(),
            e >= 0,
            o >= 0,
            val(old(pos)@) == e + o,
            (if negative {
                -val(old(neg)@)
            } else {
                val(old(neg)@) as int
            }) == e - o,
            2 * (e + o) < pow_b(old(pos)@.len()),
        ensures
            final(pos)@.len() == old(pos)@.len(),
            final(neg)@.len() == old(neg)@.len(),
            val(final(pos)@) == e,
            val(final(neg)@) == o,
    {
        if negative {
            // pos = W - M = 2e, neg = M + 2e = W, pos = e, neg = W - e = o.
            sub_exact(pos, neg);
            add_exact(neg, pos);
            div_exact(pos, 2, Ghost(e));
            sub_exact(neg, pos);
        } else {
            let ghost w = val(pos@) as int;
            let ghost m = val(neg@) as int;
            let (carry, borrow) = SharedEval::add_sub_in_place(pos, neg);
            proof {
                lemma_val_bound(pos@);
                lemma_val_bound(neg@);
                let range = pow_b(pos@.len()) as int;
                if carry > 0 {
                    assert(carry * range >= range) by (nonlinear_arith)
                        requires
                            carry >= 1,
                            range > 0,
                    ;
                }
                lemma_no_wrap(val(neg@) as int, borrow as int, w - m, range);
            }
            div_exact(pos, 2, Ghost(e));
            div_exact(neg, 2, Ghost(o));
        }
    }
}

impl Toom4 {
    /// The even coefficients: from `E(1) = c0 + c2 + c4 + c6` in `one` and
    /// `E(2) = c0 + 4 c2 + 16 c4 + 64 c6` in `two`, leaves `c2` and `c4`.
    fn interpolate_even(
        one: &mut [Limb],
        two: &mut [Limb],
        zero: &[Limb],
        infinity: &[Limb],
        Ghost(c0): Ghost<int>,
        Ghost(c2): Ghost<int>,
        Ghost(c4): Ghost<int>,
        Ghost(c6): Ghost<int>,
    )
        requires
            old(two)@.len() == old(one)@.len(),
            zero@.len() <= old(one)@.len(),
            infinity@.len() <= old(one)@.len(),
            c0 >= 0 && c2 >= 0 && c4 >= 0 && c6 >= 0,
            val(zero@) == c0,
            val(infinity@) == c6,
            val(old(one)@) == c0 + c2 + c4 + c6,
            val(old(two)@) == c0 + 4 * c2 + 16 * c4 + 64 * c6,
        ensures
            final(one)@.len() == old(one)@.len(),
            final(two)@.len() == old(two)@.len(),
            val(final(one)@) == c2,
            val(final(two)@) == c4,
    {
        sub_exact(one, zero);
        sub_exact(one, infinity);
        sub_exact(two, zero);
        sub_mul_exact(two, infinity, 64);
        div_exact(two, 4, Ghost(c2 + 4 * c4));
        sub_exact(two, one);
        div_exact(two, 3, Ghost(c4));
        sub_exact(one, two);
    }

    /// The odd coefficients: from `O(1) = c1 + c3 + c5` in `neg_one`,
    /// `O(2) / 2 = c1 + 4 c3 + 16 c5` in `neg_two` and `64 C(1/2)` in `half`,
    /// with the even coefficients known, leaves `c1`, `c5` and `c3`.
    fn interpolate_odd(
        neg_one: &mut [Limb],
        neg_two: &mut [Limb],
        half: &mut [Limb],
        zero: &[Limb],
        second: &[Limb],
        fourth: &[Limb],
        infinity: &[Limb],
        Ghost(c0): Ghost<int>,
        Ghost(c1): Ghost<int>,
        Ghost(c2): Ghost<int>,
        Ghost(c3): Ghost<int>,
        Ghost(c4): Ghost<int>,
        Ghost(c5): Ghost<int>,
        Ghost(c6): Ghost<int>,
    )
        requires
            old(neg_one)@.len() >= 1,
            old(neg_two)@.len() == old(neg_one)@.len(),
            old(half)@.len() == old(neg_one)@.len(),
            zero@.len() <= old(neg_one)@.len(),
            second@.len() <= old(neg_one)@.len(),
            fourth@.len() <= old(neg_one)@.len(),
            infinity@.len() <= old(neg_one)@.len(),
            coefficients_fit(c0, c1, c2, c3, c4, c5, c6, pow_b(old(neg_one)@.len()) as int),
            val(zero@) == c0,
            val(second@) == c2,
            val(fourth@) == c4,
            val(infinity@) == c6,
            val(old(neg_one)@) == c1 + c3 + c5,
            val(old(neg_two)@) == c1 + 4 * c3 + 16 * c5,
            val(old(half)@) == 64 * c0 + 32 * c1 + 16 * c2 + 8 * c3 + 4 * c4 + 2 * c5 + c6,
        ensures
            final(neg_one)@.len() == old(neg_one)@.len(),
            final(neg_two)@.len() == old(neg_two)@.len(),
            final(half)@.len() == old(half)@.len(),
            val(final(neg_one)@) == c1,
            val(final(half)@) == c3,
            val(final(neg_two)@) == c5,
    {
        let w = half.len();
        let ghost range = pow_b(w as nat) as int;
        sub_mul_exact(half, zero, 64);
        sub_mul_exact(half, second, 16);
        sub_mul_exact(half, fourth, 4);
        sub_exact(half, infinity);
        div_exact(half, 2, Ghost(16 * c1 + 4 * c3 + c5));
        sub_exact(half, neg_one);
        div_exact(half, 3, Ghost(5 * c1 + c3));
        sub_exact(neg_two, neg_one);
        div_exact(neg_two, 3, Ghost(c3 + 5 * c5));
        add_exact(half, neg_two);
        // (5 c1 + c3) + (c3 + 5 c5) - 5 (c1 + c3 + c5) = -3 c3, wrapped.
        let borrow = SharedEval::sub_mul_word_in_place(half, neg_one, 5);
        proof {
            lemma_val_bound(half@);
            let v = val(half@) as int;
            assert(v - borrow * range == -3 * c3);
            if borrow == 0 {
                assert(c3 == 0);
            } else if borrow == 1 {
                assert(v == range - 3 * c3);
            } else {
                assert(borrow * range >= 2 * range) by (nonlinear_arith)
                    requires
                        borrow >= 2,
                        range > 0,
                ;
            }
        }
        SharedEval::negate_in_place(half);
        div_exact(half, 3, Ghost(c3));
        sub_exact(neg_two, half);
        div_exact(neg_two, 5, Ghost(c5));
        sub_exact(neg_one, half);
        sub_exact(neg_one, neg_two);
    }

    /// Interpolates the five middle coefficients from the seven point values.
    /// Afterwards `neg_one`, `one`, `half`, `two` and `neg_two` hold `c1`
    /// through `c5`.
    fn interpolate(
        zero: &[Limb],
        infinity: &[Limb],
        neg_two: &mut [Limb],
        one: &mut [Limb],
        neg_one: &mut [Limb],
        two: &mut [Limb],
        half: &mut [Limb],
        neg_two_negative: bool,
        neg_one_negative: bool,
        Ghost(c0): Ghost<int>,
        Ghost(c1): Ghost<int>,
        Ghost(c2): Ghost<int>,
        Ghost(c3): Ghost<int>,
        Ghost(c4): Ghost<int>,
        Ghost(c5): Ghost<int>,
        Ghost(c6): Ghost<int>,
    )
        requires
            old(one)@.len() >= 1,
            old(neg_one)@.len() == old(one)@.len(),
            old(two)@.len() == old(one)@.len(),
            old(neg_two)@.len() == old(one)@.len(),
            old(half)@.len() == old(one)@.len(),
            zero@.len() <= old(one)@.len(),
            infinity@.len() <= old(one)@.len(),
            coefficients_fit(c0, c1, c2, c3, c4, c5, c6, pow_b(old(one)@.len()) as int),
            val(zero@) == c0,
            val(infinity@) == c6,
            val(old(one)@) == c0 + c1 + c2 + c3 + c4 + c5 + c6,
            (if neg_one_negative {
                -val(old(neg_one)@)
            } else {
                val(old(neg_one)@) as int
            }) == c0 - c1 + c2 - c3 + c4 - c5 + c6,
            val(old(two)@) == c0 + 2 * c1 + 4 * c2 + 8 * c3 + 16 * c4 + 32 * c5 + 64 * c6,
            (if neg_two_negative {
                -val(old(neg_two)@)
            } else {
                val(old(neg_two)@) as int
            }) == c0 - 2 * c1 + 4 * c2 - 8 * c3 + 16 * c4 - 32 * c5 + 64 * c6,
            val(old(half)@) == 64 * c0 + 32 * c1 + 16 * c2 + 8 * c3 + 4 * c4 + 2 * c5 + c6,
        ensures
            final(one)@.len() == old(one)@.len(),
            final(neg_one)@.len() == old(neg_one)@.len(),
            final(two)@.len() == old(two)@.len(),
            final(neg_two)@.len() == old(neg_two)@.len(),
            final(half)@.len() == old(half)@.len(),
            val(final(neg_one)@) == c1,
            val(final(one)@) == c2,
            val(final(half)@) == c3,
            val(final(two)@) == c4,
            val(final(neg_two)@) == c5,
    {
        Self::split_even_odd(
            one,
            neg_one,
            neg_one_negative,
            Ghost(c0 + c2 + c4 + c6),
            Ghost(c1 + c3 + c5),
        );
        Self::split_even_odd(
            two,
            neg_two,
            neg_two_negative,
            Ghost(c0 + 4 * c2 + 16 * c4 + 64 * c6),
            Ghost(2 * c1 + 8 * c3 + 32 * c5),
        );
        div_exact(neg_two, 2, Ghost(c1 + 4 * c3 + 16 * c5));
        Self::interpolate_even(one, two, zero, infinity, Ghost(c0), Ghost(c2), Ghost(c4), Ghost(c6));
        Self::interpolate_odd(
            neg_one,
            neg_two,
            half,
            zero,
            one,
            two,
            infinity,
            Ghost(c0),
            Ghost(c1),
            Ghost(c2),
            Ghost(c3),
            Ghost(c4),
            Ghost(c5),
            Ghost(c6),
        );
    }

    /// Interpolates using the constant and infinity products `c0 = zero` and
    /// `c6 = infinity`. When the five middle values are those of a product
    /// polynomial with coefficients `c1..c5`, afterwards `middle.neg_one`,
    /// `middle.one`, `middle.half`, `middle.two` and `middle.neg_two` hold
    /// `c1` through `c5`.
    pub fn interpolate_with_endpoints(zero: &[Limb], infinity: &[Limb], middle: MiddleValues)
        requires
            middle.one@.len() >= 1,
            middle.neg_one@.len() == middle.one@.len(),
            middle.two@.len() == middle.one@.len(),
            middle.neg_two@.len() == middle.one@.len(),
            middle.half@.len() == middle.one@.len(),
            zero@.len() <= middle.one@.len(),
            infinity@.len() <= middle.one@.len(),
            exists|c1: int, c2: int, c3: int, c4: int, c5: int|
                #[trigger] seven_points(val(zero@) as int, c1, c2, c3, c4, c5, val(infinity@) as int)
                    == observed_points(
                    val(middle.one@),
                    val(middle.neg_one@),
                    middle.neg_one_negative,
                    val(middle.two@),
                    val(middle.neg_two@),
                    middle.neg_two_negative,
                    val(middle.half@),
                ) && coefficients_fit(
                    val(zero@) as int,
                    c1,
                    c2,
                    c3,
                    c4,
                    c5,
                    val(infinity@) as int,
                    pow_b(middle.one@.len()) as int,
                ),
        ensures
            final(middle.one)@.len() == old(middle.one)@.len(),
            final(middle.neg_one)@.len() == old(middle.neg_one)@.len(),
            final(middle.two)@.len() == old(middle.two)@.len(),
            final(middle.neg_two)@.len() == old(middle.neg_two)@.len(),
            final(middle.half)@.len() == old(middle.half)@.len(),
            forall|c1: int, c2: int, c3: int, c4: int, c5: int|
                #[trigger] seven_points(val(zero@) as int, c1, c2, c3, c4, c5, val(infinity@) as int)
                    == observed_points(
                    val(old(middle.one)@),
                    val(old(middle.neg_one)@),
                    middle.neg_one_negative,
                    val(old(middle.two)@),
                    val(old(middle.neg_two)@),
                    middle.neg_two_negative,
                    val(old(middle.half)@),
                ) ==> val(final(middle.neg_one)@) == c1 && val(final(middle.one)@) == c2 && val(
                    final(middle.half)@,
                ) == c3 && val(final(middle.two)@) == c4 && val(final(middle.neg_two)@) == c5,
    {
        let ghost c0 = val(zero@) as int;
        let ghost c6 = val(infinity@) as int;
        let ghost observed = observed_points(
            val(middle.one@),
            val(middle.neg_one@),
            middle.neg_one_negative,
            val(middle.two@),
            val(middle.neg_two@),
            middle.neg_two_negative,
            val(middle.half@),
        );
        let ghost (c1, c2, c3, c4, c5) = choose|c1: int, c2: int, c3: int, c4: int, c5: int|
            #[trigger] seven_points(c0, c1, c2, c3, c4, c5, c6) == observed && coefficients_fit(
                c0,
                c1,
                c2,
                c3,
                c4,
                c5,
                c6,
                pow_b(middle.one@.len()) as int,
            );
        let MiddleValues { neg_two, one, neg_one, two, half, neg_two_negative, neg_one_negative } =
            middle;
        Self::interpolate(
            zero,
            infinity,
            neg_two,
            one,
            neg_one,
            two,
            half,
            neg_two_negative,
            neg_one_negative,
            Ghost(c0),
            Ghost(c1),
            Ghost(c2),
            Ghost(c3),
            Ghost(c4),
            Ghost(c5),
            Ghost(c6),
        );
        proof {
            assert forall|d1: int, d2: int, d3: int, d4: int, d5: int|
                #[trigger] seven_points(c0, d1, d2, d3, d4, d5, c6) == observed implies d1 == c1
                && d2 == c2 && d3 == c3 && d4 == c4 && d5 == c5 by {
                lemma_seven_points_unique(c0, c1, c2, c3, c4, c5, c6, d1, d2, d3, d4, d5);
            }
        }
    }
}

impl Toom4 {
    /// Adds the four middle coefficients around the quadratic one already in
    /// place: `first` at `s`, `third` at `3s`, `fourth` at `4s` and `fifth`
    /// at `5s` part widths.
    pub fn reconstruct_around_quadratic(
        dst: &mut [Limb],
        split_len: usize,
        first: &[Limb],
        third: &[Limb],
        fourth: &[Limb],
        fifth: &[Limb],
    )
        requires
            5 * split_len <= old(dst)@.len(),
            val(old(dst)@) + val(first@) * pow_b(split_len as nat) + val(third@) * pow_b(
                3 * split_len as nat,
            ) + val(fourth@) * pow_b(4 * split_len as nat) + val(fifth@) * pow_b(
                5 * split_len as nat,
            ) < pow_b(old(dst)@.len()),
        ensures
            final(dst)@.len() == old(dst)@.len(),
            val(final(dst)@) == val(old(dst)@) + val(first@) * pow_b(split_len as nat) + val(
                third@,
            ) * pow_b(3 * split_len as nat) + val(fourth@) * pow_b(4 * split_len as nat) + val(
                fifth@,
            ) * pow_b(5 * split_len as nat),
    {
        let n = dst.len();
        proof {
            lemma_pow_b_pos(split_len as nat);
            lemma_pow_b_pos(3 * split_len as nat);
            lemma_pow_b_pos(4 * split_len as nat);
            lemma_pow_b_pos(5 * split_len as nat);
            lemma_mul_nonnegative(val(first@) as int, pow_b(split_len as nat) as int);
            lemma_mul_nonnegative(val(third@) as int, pow_b(3 * split_len as nat) as int);
            lemma_mul_nonnegative(val(fourth@) as int, pow_b(4 * split_len as nat) as int);
            lemma_mul_nonnegative(val(fifth@) as int, pow_b(5 * split_len as nat) as int);
        }
        SharedEval::add_coefficient_in_place(dst, first, split_len);
        SharedEval::add_coefficient_in_place(dst, third, 3 * split_len);
        SharedEval::add_coefficient_in_place(dst, fourth, 4 * split_len);
        SharedEval::add_coefficient_in_place(dst, fifth, 5 * split_len);
    }
}

} // verus!
