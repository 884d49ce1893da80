//! Toom-Cook 3-by-2 multiplication for operands whose lengths differ by a
//! factor between one and a half and three: the longer one is split in
//! three parts, the shorter in two, and the product is evaluated at
//! `0, 1, -1, ∞`.

use crate::eval::SharedEval;
use crate::kernels::Addition;
use crate::limbs::{
    Limb, lemma_pow_b_add, lemma_pow_b_monotone, lemma_pow_b_pos, lemma_val_bound,
    lemma_val_concat, lemma_val_zero, pow_b, radix, val,
};
use crate::ssa::carry::SsaCarry;
use crate::toom3::{
    Toom3, abs, lemma_signed_product, lemma_toom3_scratch_monotone, spec_toom3_scratch,
};
use vstd::arithmetic::mul::*;
use vstd::prelude::*;

verus! {

/// The part width the longer operand is cut into: `ceil(larger / 3)`.
pub open spec fn spec_toom32_split_len(larger: nat) -> nat {
    (larger + 2) / 3
}

/// The shapes the tier splits: three parts of the longer operand and
/// exactly two of the shorter one.
pub open spec fn spec_toom32_shape(larger: nat, smaller: nat) -> bool {
    let s = spec_toom32_split_len(larger);
    &&& larger > 2 * s
    &&& s < smaller <= 2 * s
}

/// Operand widths the tier takes, in either order, with a workspace of
/// `scratch_len` limbs.
pub open spec fn spec_toom32_accepts(len_a: nat, len_b: nat, scratch_len: nat) -> bool {
    &&& len_a >= len_b ==> spec_toom32_shape(len_a, len_b)
    &&& len_a < len_b ==> spec_toom32_shape(len_b, len_a)
    &&& scratch_len >= spec_toom32_scratch(
        if len_a >= len_b {
            len_a
        } else {
            len_b
        },
    )
}

/// The tier is order-independent: it takes operands of widths `(a, b)`
/// exactly when it takes them as `(b, a)`, and the product it writes is the
/// same either way.
pub proof fn lemma_toom32_order_independent(a: Seq<Limb>, b: Seq<Limb>, scratch_len: nat)
    ensures
        spec_toom32_accepts(a.len(), b.len(), scratch_len) == spec_toom32_accepts(b.len(), a.len(), scratch_len),
        val(a) * val(b) == val(b) * val(a),
{
    lemma_mul_is_commutative(val(a) as int, val(b) as int);
}

/// Scratch one split partitions: two point products of `2(s + 1)` limbs,
/// four evaluations of `s + 1` limbs, and the products' own.
pub open spec fn spec_toom32_local_scratch_len(split_len: nat, inner_space: nat) -> nat {
    8 * (split_len + 1) + inner_space
}

/// Scratch a 3-by-2 product whose longer operand has `larger` limbs needs.
pub open spec fn spec_toom32_scratch(larger: nat) -> nat {
    let s = spec_toom32_split_len(larger);
    spec_toom32_local_scratch_len(s, spec_toom3_scratch(s + 1))
}

/// Namespace for the 3-by-2 tier.
pub struct Toom32;

impl Toom32 {
    /// Evaluates a two-part operand at `1` and `-1`: `positive` receives
    /// `part0 + part1`, `negative_magnitude` receives `|part0 - part1|`, and
    /// the result says whether the value at `-1` is negative.
    pub fn evaluate_one_and_negative_one(
        positive: &mut [Limb],
        negative_magnitude: &mut [Limb],
        part0: &[Limb],
        part1: &[Limb],
    ) -> (negative: bool)
        requires
            old(positive)@.len() == old(negative_magnitude)@.len(),
            part1@.len() <= part0@.len(),
            part0@.len() < old(positive)@.len(),
        ensures
            final(positive)@.len() == old(positive)@.len(),
            final(negative_magnitude)@.len() == old(negative_magnitude)@.len(),
            val(final(positive)@) == val(part0@) + val(part1@),
            val(final(negative_magnitude)@) == abs(val(part0@) - val(part1@)),
            negative == (val(part0@) < val(part1@)),
    {
        let n = positive.len();
        let ghost range = pow_b(n as nat) as int;
        proof {
            lemma_val_bound(part0@);
            lemma_val_bound(part1@);
            lemma_pow_b_monotone(part0@.len(), (n - 1) as nat);
            lemma_pow_b_monotone(part1@.len(), (n - 1) as nat);
            assert(pow_b(n as nat) == radix() * pow_b((n - 1) as nat));
        }
        Addition::fill_zero(negative_magnitude);
        Addition::copy_prefix(negative_magnitude, part0);
        proof {
            let rest = negative_magnitude@.subrange(part0@.len() as int, n as int);
            assert(negative_magnitude@ =~= part0@ + rest);
            lemma_val_concat(part0@, rest);
            lemma_val_zero(rest);
            lemma_mul_basics(pow_b(part0@.len()) as int);
        }
        Addition::copy_prefix(positive, negative_magnitude);
        proof {
            assert(positive@ =~= negative_magnitude@);
        }
        let carry = SsaCarry::add_full_in_place(positive, part1);
        proof {
            lemma_val_bound(positive@);
            assert(carry == 0) by (nonlinear_arith)
                requires
                    val(positive@) + carry * range == val(part0@) + val(part1@),
                    val(part0@) + val(part1@) < range,
                    val(positive@) >= 0,
                    carry <= 1,
            ;
        }
        let borrow = SsaCarry::sub_full_in_place(negative_magnitude, part1);
        proof {
            lemma_val_bound(negative_magnitude@);
        }
        if borrow != 0 {
            let ghost wrapped = val(negative_magnitude@) as int;
            SharedEval::negate_in_place(negative_magnitude);
            proof {
                assert(wrapped == val(part0@) - val(part1@) + range);
            }
            true
        } else {
            false
        }
    }

    /// Interpolates the two middle coefficients of a cubic product from
    /// `one = c(1)`, `negative_one = |c(-1)|` with its sign, `zero = c(0)`
    /// and `infinity = c(∞)`: the linear coefficient is
    /// `(c(1) - c(-1)) / 2 - c(∞)` and the quadratic one
    /// `(c(1) + c(-1)) / 2 - c(0)`. When `c(-1)` is negative the linear
    /// coefficient ends in `one` and the quadratic one in `negative_one`;
    /// otherwise the other way round.
    pub fn interpolate_middle(
        one: &mut [Limb],
        negative_one: &mut [Limb],
        zero: &[Limb],
        infinity: &[Limb],
        negative_one_is_negative: bool,
    )
        requires
            old(negative_one)@.len() == old(one)@.len(),
            zero@.len() <= old(one)@.len(),
            infinity@.len() <= old(one)@.len(),
            val(old(one)@) + val(old(negative_one)@) < pow_b(old(one)@.len()),
            val(old(negative_one)@) <= val(old(one)@),
            (val(old(one)@) + val(old(negative_one)@)) % 2 == 0,
            ({
                let signed: int = if negative_one_is_negative {
                    -val(old(negative_one)@)
                } else {
                    val(old(negative_one)@) as int
                };
                &&& (val(old(one)@) - signed) / 2 >= val(infinity@)
                &&& (val(old(one)@) + signed) / 2 >= val(zero@)
            }),
        ensures
            final(one)@.len() == old(one)@.len(),
            final(negative_one)@.len() == old(negative_one)@.len(),
            ({
                let signed: int = if negative_one_is_negative {
                    -val(old(negative_one)@)
                } else {
                    val(old(negative_one)@) as int
                };
                let linear = (val(old(one)@) - signed) / 2 - val(infinity@);
                let quadratic = (val(old(one)@) + signed) / 2 - val(zero@);
                if negative_one_is_negative {
                    val(final(one)@) == linear && val(final(negative_one)@) == quadratic
                } else {
                    val(final(one)@) == quadratic && val(final(negative_one)@) == linear
                }
            }),
    {
        let w = one.len();
        let ghost range = pow_b(w as nat) as int;
        let ghost o = val(one@) as int;
        let ghost m = val(negative_one@) as int;
        let (carry, borrow) = SharedEval::add_sub_in_place(one, negative_one);
        proof {
            lemma_val_bound(one@);
            lemma_val_bound(negative_one@);
            assert(carry == 0) by (nonlinear_arith)
                requires
                    val(one@) + carry * range == o + m,
                    o + m < range,
                    val(one@) >= 0,
                    carry <= 1,
            ;
            assert(borrow == 0) by (nonlinear_arith)
                requires
                    val(negative_one@) - borrow * range == o - m,
                    o - m >= 0,
                    val(negative_one@) < range,
                    borrow <= 1,
            ;
            lemma_mul_basics(range);
            assert(val(one@) == o + m);
            assert(val(negative_one@) == o - m);
        }
        let r1 = SharedEval::div_word_in_place(one, 2);
        let r2 = SharedEval::div_word_in_place(negative_one, 2);
        proof {
            vstd::arithmetic::div_mod::lemma_fundamental_div_mod(o + m, 2);
            let k = (o + m) / 2;
            assert(o - m == 2 * (k - m));
            assert(r1 == 0);
            assert(r2 == 0);
            lemma_val_bound(one@);
            lemma_val_bound(negative_one@);
        }
        let ghost sum_half = val(one@) as int;
        let ghost difference_half = val(negative_one@) as int;
        if negative_one_is_negative {
            // c(1) - c(-1) = o + m sits in `one`, c(1) + c(-1) = o - m in
            // `negative_one`.
            let b1 = SsaCarry::sub_full_in_place(one, infinity);
            let b2 = SsaCarry::sub_full_in_place(negative_one, zero);
            proof {
                lemma_val_bound(one@);
                lemma_val_bound(negative_one@);
                assert(b1 == 0) by (nonlinear_arith)
                    requires
                        val(one@) - b1 * range == sum_half - val(infinity@),
                        sum_half - val(infinity@) >= 0,
                        val(one@) < range,
                        b1 <= 1,
                ;
                assert(b2 == 0) by (nonlinear_arith)
                    requires
                        val(negative_one@) - b2 * range == difference_half - val(zero@),
                        difference_half - val(zero@) >= 0,
                        val(negative_one@) < range,
                        b2 <= 1,
                ;
            }
        } else {
            let b1 = SsaCarry::sub_full_in_place(one, zero);
            let b2 = SsaCarry::sub_full_in_place(negative_one, infinity);
            proof {
                lemma_val_bound(one@);
                lemma_val_bound(negative_one@);
                assert(b1 == 0) by (nonlinear_arith)
                    requires
                        val(one@) - b1 * range == sum_half - val(zero@),
                        sum_half - val(zero@) >= 0,
                        val(one@) < range,
                        b1 <= 1,
                ;
                assert(b2 == 0) by (nonlinear_arith)
                    requires
                        val(negative_one@) - b2 * range == difference_half - val(infinity@),
                        difference_half - val(infinity@) >= 0,
                        val(negative_one@) < range,
                        b2 <= 1,
                ;
            }
        }
    }

    /// Scratch one split partitions, in word arithmetic.
    pub fn local_scratch_len(split_len: usize, inner_space: usize) -> (len: usize)
        ensures
            spec_toom32_local_scratch_len(split_len as nat, inner_space as nat) <= usize::MAX
                ==> len == spec_toom32_local_scratch_len(split_len as nat, inner_space as nat),
    {
        let eval_len = split_len.wrapping_add(1);
        proof {
            if spec_toom32_local_scratch_len(split_len as nat, inner_space as nat) <= usize::MAX {
                vstd::arithmetic::div_mod::lemma_small_mod(
                    (eval_len * 8) as nat,
                    (usize::MAX + 1) as nat,
                );
            }
        }
        eval_len.wrapping_mul(8).wrapping_add(inner_space)
    }
}

impl Toom32 {
    /// Multiplies `a` by `b` into `dst`, which holds exactly
    /// `a.len() + b.len()` limbs, when the longer operand splits in three
    /// parts of `ceil(len / 3)` limbs and the shorter one in exactly two.
    pub fn mul(dst: &mut [Limb], a: &[Limb], b: &[Limb], scratch: &mut [Limb])
        requires
            old(dst)@.len() == a@.len() + b@.len(),
            spec_toom32_accepts(a@.len(), b@.len(), old(scratch)@.len()),
        ensures
            final(dst)@.len() == old(dst)@.len(),
            final(scratch)@.len() == old(scratch)@.len(),
            val(final(dst)@) == val(a@) * val(b@),
    {
        if a.len() >= b.len() {
            Self::mul_ordered(dst, a, b, scratch);
        } else {
            Self::mul_ordered(dst, b, a, scratch);
            proof {
                lemma_mul_is_commutative(val(a@) as int, val(b@) as int);
            }
        }
    }

    /// The 3-by-2 product with the longer operand first.
    fn mul_ordered(dst: &mut [Limb], larger: &[Limb], smaller: &[Limb], scratch: &mut [Limb])
        requires
            old(dst)@.len() == larger@.len() + smaller@.len(),
            spec_toom32_shape(larger@.len(), smaller@.len()),
            old(scratch)@.len() >= spec_toom32_scratch(larger@.len()),
        ensures
            final(dst)@.len() == old(dst)@.len(),
            final(scratch)@.len() == old(scratch)@.len(),
            val(final(dst)@) == val(larger@) * val(smaller@),
    {
        let total = dst.len();
        let n = larger.len();
        let s = (n + 2) / 3;
        let e = s + 1;
        let (a0, a1, a2) = Toom3::split_three(larger, s);
        let b0 = &smaller[0..s];
        let b1 = &smaller[s..smaller.len()];
        proof {
            crate::limbs::lemma_val_split(smaller@, s as int);
            assert(smaller@.subrange(0, s as int) =~= b0@);
            assert(smaller@.subrange(s as int, smaller@.len() as int) =~= b1@);
            lemma_toom3_scratch_monotone(s as nat, e as nat);
            lemma_toom3_scratch_monotone(a2@.len(), e as nat);
            lemma_toom3_scratch_monotone(b1@.len(), e as nat);
            lemma_toom3_scratch_monotone(a0@.len(), e as nat);
            Self::lemma_algebra(a0@, a1@, a2@, b0@, b1@, s as nat);
            lemma_signed_product(val(a0@) - val(a1@) + val(a2@), val(b0@) - val(b1@));
        }
        let (one, rest1) = scratch.split_at_mut(2 * e);
        let (negative_one, rest2) = rest1.split_at_mut(2 * e);
        let (positive_a, rest3) = rest2.split_at_mut(e);
        let (positive_b, rest4) = rest3.split_at_mut(e);
        let (negative_a, rest5) = rest4.split_at_mut(e);
        let (negative_b, inner) = rest5.split_at_mut(e);
        let flipped = Self::evaluate_points(
            one,
            negative_one,
            positive_a,
            positive_b,
            negative_a,
            negative_b,
            inner,
            a0,
            a1,
            a2,
            b0,
            b1,
            s,
        );
        Self::write_endpoints(dst, a0, b0, a2, b1, s, inner);
        let ghost x0 = val(a0@) as int;
        let ghost x1 = val(a1@) as int;
        let ghost x2 = val(a2@) as int;
        let ghost y0 = val(b0@) as int;
        let ghost y1 = val(b1@) as int;
        proof {
            Self::lemma_result(larger@, smaller@, a0@, a1@, a2@, b0@, b1@, s as nat);
        }
        Self::finish(
            dst,
            one,
            negative_one,
            s,
            flipped,
            Ghost(x0 * y0),
            Ghost(x0 * y1 + x1 * y0),
            Ghost(x1 * y1 + x2 * y0),
            Ghost(x2 * y1),
        );
    }

    /// Interpolates the middle coefficients and adds them in: afterwards
    /// `dst` holds `c0 + c1 X + c2 X^2 + c3 X^3` with `X = B^s`.
    fn finish(
        dst: &mut [Limb],
        one: &mut [Limb],
        negative_one: &mut [Limb],
        s: usize,
        flipped: bool,
        Ghost(c0): Ghost<int>,
        Ghost(c1): Ghost<int>,
        Ghost(c2): Ghost<int>,
        Ghost(c3): Ghost<int>,
    )
        requires
            s >= 1,
            old(dst)@.len() >= 3 * s,
            old(negative_one)@.len() == old(one)@.len(),
            2 * s <= old(one)@.len(),
            c0 >= 0 && c1 >= 0 && c2 >= 0 && c3 >= 0,
            val(old(dst)@.subrange(0, 2 * s as int)) == c0,
            val(old(dst)@.subrange(3 * s as int, old(dst)@.len() as int)) == c3,
            old(dst)@.len() - 3 * s <= old(one)@.len(),
            val(old(dst)@) == c0 + c3 * pow_b(3 * s as nat),
            val(old(one)@) == c0 + c1 + c2 + c3,
            (if flipped {
                -val(old(negative_one)@)
            } else {
                val(old(negative_one)@) as int
            }) == c0 - c1 + c2 - c3,
            val(old(one)@) + val(old(negative_one)@) < pow_b(old(one)@.len()),
            (c0 + c3 * pow_b(3 * s as nat)) + c1 * pow_b(s as nat) + c2 * pow_b(2 * s as nat)
                < pow_b(old(dst)@.len()),
        ensures
            final(dst)@.len() == old(dst)@.len(),
            final(one)@.len() == old(one)@.len(),
            final(negative_one)@.len() == old(negative_one)@.len(),
            val(final(dst)@) == (c0 + c3 * pow_b(3 * s as nat)) + c1 * pow_b(s as nat) + c2
                * pow_b(2 * s as nat),
    {
        let total = dst.len();
        {
            let zero = &dst[0..2 * s];
            let infinity = &dst[3 * s..total];
            proof {
                assert(zero@ =~= dst@.subrange(0, 2 * s as int));
                assert(infinity@ =~= dst@.subrange(3 * s as int, total as int));
                let o = val(one@) as int;
                let m = val(negative_one@) as int;
                let signed: int = if flipped {
                    -m
                } else {
                    m
                };
                assert(o + signed == 2 * (c0 + c2));
                assert(o - signed == 2 * (c1 + c3));
                assert(m <= o);
                assert((o + m) % 2 == 0);
            }
            Self::interpolate_middle(one, negative_one, zero, infinity, flipped);
        }
        if flipped {
            Self::place_middle(dst, one, negative_one, s);
        } else {
            Self::place_middle(dst, negative_one, one, s);
        }
    }

    /// Evaluates both operands at `1` and `-1` and multiplies the
    /// evaluations into `one` and `negative_one` (as a magnitude); the result
    /// is the sign of the value at `-1`.
    fn evaluate_points(
        one: &mut [Limb],
        negative_one: &mut [Limb],
        positive_a: &mut [Limb],
        positive_b: &mut [Limb],
        negative_a: &mut [Limb],
        negative_b: &mut [Limb],
        inner: &mut [Limb],
        a0: &[Limb],
        a1: &[Limb],
        a2: &[Limb],
        b0: &[Limb],
        b1: &[Limb],
        s: usize,
    ) -> (negative: bool)
        requires
            s >= 1,
            old(one)@.len() == 2 * s + 2,
            old(negative_one)@.len() == 2 * s + 2,
            old(positive_a)@.len() == s + 1,
            old(positive_b)@.len() == s + 1,
            old(negative_a)@.len() == s + 1,
            old(negative_b)@.len() == s + 1,
            old(inner)@.len() >= spec_toom3_scratch(s as nat + 1),
            a0@.len() <= s,
            a1@.len() <= s,
            a2@.len() <= s,
            b0@.len() == s,
            b1@.len() <= s,
        ensures
            final(one)@.len() == 2 * s + 2,
            final(negative_one)@.len() == 2 * s + 2,
            final(inner)@.len() == old(inner)@.len(),
            final(positive_a)@.len() == s + 1,
            final(positive_b)@.len() == s + 1,
            final(negative_a)@.len() == s + 1,
            final(negative_b)@.len() == s + 1,
            val(final(one)@) == (val(a0@) + val(a1@) + val(a2@)) * (val(b0@) + val(b1@)),
            val(final(negative_one)@) == abs(val(a0@) - val(a1@) + val(a2@)) * abs(
                val(b0@) - val(b1@),
            ),
            negative == ((val(a0@) - val(a1@) + val(a2@) < 0) != (val(b0@) - val(b1@) < 0)),
    {
        let long_side_flipped = Toom3::evaluate_one_and_negative_one(
            positive_a,
            negative_a,
            a0,
            a1,
            a2,
        );
        let short_side_flipped = Self::evaluate_one_and_negative_one(
            positive_b,
            negative_b,
            b0,
            b1,
        );
        Toom3::mul_exact(one, positive_a, positive_b, inner);
        Toom3::mul_exact(negative_one, negative_a, negative_b, inner);
        long_side_flipped != short_side_flipped
    }

    /// Adds `linear * B^s + quadratic * B^{2s}` into `dst` when it fits.
    fn place_middle(dst: &mut [Limb], linear: &[Limb], quadratic: &[Limb], s: usize)
        requires
            2 * s <= old(dst)@.len(),
            val(old(dst)@) + val(linear@) * pow_b(s as nat) + val(quadratic@) * pow_b(
                2 * s as nat,
            ) < pow_b(old(dst)@.len()),
        ensures
            final(dst)@.len() == old(dst)@.len(),
            val(final(dst)@) == val(old(dst)@) + val(linear@) * pow_b(s as nat) + val(
                quadratic@,
            ) * pow_b(2 * s as nat),
    {
        let n = dst.len();
        proof {
            lemma_pow_b_pos(s as nat);
            lemma_pow_b_pos(2 * s as nat);
            lemma_mul_nonnegative(val(quadratic@) as int, pow_b(2 * s as nat) as int);
        }
        SharedEval::add_coefficient_in_place(dst, linear, s);
        SharedEval::add_coefficient_in_place(dst, quadratic, 2 * s);
    }

    /// Writes `a0 * b0` over the low `2s` limbs of `dst`, zeroes the next
    /// `s`, and writes `a2 * b1` over the rest.
    fn write_endpoints(
        dst: &mut [Limb],
        a0: &[Limb],
        b0: &[Limb],
        a2: &[Limb],
        b1: &[Limb],
        s: usize,
        inner: &mut [Limb],
    )
        requires
            a0@.len() == s,
            b0@.len() == s,
            old(dst)@.len() == 3 * s + a2@.len() + b1@.len(),
            old(inner)@.len() >= spec_toom3_scratch(s as nat),
            old(inner)@.len() >= spec_toom3_scratch(
                if a2@.len() >= b1@.len() {
                    a2@.len()
                } else {
                    b1@.len()
                },
            ),
        ensures
            final(dst)@.len() == old(dst)@.len(),
            final(inner)@.len() == old(inner)@.len(),
            val(final(dst)@.subrange(0, 2 * s as int)) == val(a0@) * val(b0@),
            val(final(dst)@.subrange(3 * s as int, final(dst)@.len() as int)) == val(a2@) * val(
                b1@,
            ),
            val(final(dst)@) == val(a0@) * val(b0@) + val(a2@) * val(b1@) * pow_b(3 * s as nat),
    {
        let total = dst.len();
        let ghost zero_final: Seq<Limb>;
        let ghost gap_final: Seq<Limb>;
        let ghost inf_final: Seq<Limb>;
        {
            let (zero, rest) = dst.split_at_mut(2 * s);
            let (gap, infinity) = rest.split_at_mut(s);
            Toom3::mul_exact(zero, a0, b0, inner);
            Addition::fill_zero(gap);
            Toom3::mul_exact(infinity, a2, b1, inner);
            proof {
                zero_final = zero@;
                gap_final = gap@;
                inf_final = infinity@;
            }
        }
        proof {
            assert(dst@ =~= zero_final + (gap_final + inf_final));
            assert(dst@.subrange(0, 2 * s as int) =~= zero_final);
            assert(dst@.subrange(3 * s as int, total as int) =~= inf_final);
            lemma_val_concat(zero_final, gap_final + inf_final);
            lemma_val_concat(gap_final, inf_final);
            lemma_val_zero(gap_final);
            lemma_pow_b_add((2 * s) as nat, s as nat);
            lemma_mul_basics(pow_b((2 * s) as nat) as int);
            lemma_mul_is_associative(
                pow_b((2 * s) as nat) as int,
                pow_b(s as nat) as int,
                val(inf_final) as int,
            );
            lemma_mul_is_commutative(pow_b((3 * s) as nat) as int, val(inf_final) as int);
        }
    }

    /// The point values in terms of the product's coefficients, and the room
    /// they need.
    proof fn lemma_algebra(
        a0: Seq<Limb>,
        a1: Seq<Limb>,
        a2: Seq<Limb>,
        b0: Seq<Limb>,
        b1: Seq<Limb>,
        s: nat,
    )
        requires
            s >= 1,
            a0.len() <= s,
            a1.len() <= s,
            a2.len() <= s,
            b0.len() <= s,
            b1.len() <= s,
        ensures
            ({
                let (x0, x1, x2) = (val(a0) as int, val(a1) as int, val(a2) as int);
                let (y0, y1) = (val(b0) as int, val(b1) as int);
                let c0 = x0 * y0;
                let c1 = x0 * y1 + x1 * y0;
                let c2 = x1 * y1 + x2 * y0;
                let c3 = x2 * y1;
                &&& c0 >= 0 && c1 >= 0 && c2 >= 0 && c3 >= 0
                &&& (x0 + x1 + x2) * (y0 + y1) == c0 + c1 + c2 + c3
                &&& (x0 - x1 + x2) * (y0 - y1) == c0 - c1 + c2 - c3
                &&& (x0 + x1 + x2) * (y0 + y1) + abs(x0 - x1 + x2) * abs(y0 - y1) < pow_b(
                    2 * s + 2,
                )
                &&& x0 + x1 + x2 < pow_b(s + 1)
                &&& y0 + y1 < pow_b(s + 1)
            }),
    {
        let p = pow_b(s) as int;
        let (x0, x1, x2) = (val(a0) as int, val(a1) as int, val(a2) as int);
        let (y0, y1) = (val(b0) as int, val(b1) as int);
        let c0 = x0 * y0;
        let c1 = x0 * y1 + x1 * y0;
        let c2 = x1 * y1 + x2 * y0;
        let c3 = x2 * y1;
        lemma_pow_b_pos(s);
        lemma_val_bound(a0);
        lemma_val_bound(a1);
        lemma_val_bound(a2);
        lemma_val_bound(b0);
        lemma_val_bound(b1);
        lemma_pow_b_monotone(a0.len(), s);
        lemma_pow_b_monotone(a1.len(), s);
        lemma_pow_b_monotone(a2.len(), s);
        lemma_pow_b_monotone(b0.len(), s);
        lemma_pow_b_monotone(b1.len(), s);
        crate::toom3::lemma_poly_product(x0, x1, x2, y0, y1, 0, 1, c0, c1, c2 + x0 * 0, c3 + x1 * 0, x2 * 0);
        crate::toom3::lemma_poly_product(x0, x1, x2, y0, y1, 0, -1, c0, c1, c2 + x0 * 0, c3 + x1 * 0, x2 * 0);
        assert((x0 + x1 + x2) * (y0 + y1) == c0 + c1 + c2 + c3) by (nonlinear_arith)
            requires
                (x0 + x1 * 1 + x2 * (1 * 1)) * (y0 + y1 * 1 + 0 * (1 * 1)) == c0 + c1 * 1 + (c2 + x0
                    * 0) * (1 * 1) + (c3 + x1 * 0) * (1 * 1 * 1) + (x2 * 0) * (1 * 1 * 1 * 1),
        ;
        assert((x0 - x1 + x2) * (y0 - y1) == c0 - c1 + c2 - c3) by (nonlinear_arith)
            requires
                (x0 + x1 * (-1) + x2 * ((-1) * (-1))) * (y0 + y1 * (-1) + 0 * ((-1) * (-1))) == c0
                    + c1 * (-1) + (c2 + x0 * 0) * ((-1) * (-1)) + (c3 + x1 * 0) * ((-1) * (-1) * (
                -1)) + (x2 * 0) * ((-1) * (-1) * (-1) * (-1)),
        ;
        lemma_pow_b_add(s, s);
        lemma_pow_b_add(2 * s, 2);
        lemma_pow_b_add(s, 1);
        crate::limbs::lemma_pow_b_one();
        assert(pow_b(2) == radix() * radix()) by {
            lemma_pow_b_add(1, 1);
        }
        assert(pow_b(2 * s + 2) == (p * p) * (radix() * radix()));
        assert(pow_b(s + 1) == p * radix());
        assert(c0 >= 0 && c1 >= 0 && c2 >= 0 && c3 >= 0) by (nonlinear_arith)
            requires
                x0 >= 0,
                x1 >= 0,
                x2 >= 0,
                y0 >= 0,
                y1 >= 0,
                c0 == x0 * y0,
                c1 == x0 * y1 + x1 * y0,
                c2 == x1 * y1 + x2 * y0,
                c3 == x2 * y1,
        ;
        assert((x0 + x1 + x2) * (y0 + y1) < 6 * (p * p)) by (nonlinear_arith)
            requires
                0 <= x0 + x1 + x2 < 3 * p,
                0 <= y0 + y1 < 2 * p,
        ;
        assert(abs(x0 - x1 + x2) * abs(y0 - y1) < 2 * (p * p)) by (nonlinear_arith)
            requires
                0 <= abs(x0 - x1 + x2) < 2 * p,
                0 <= abs(y0 - y1) < p,
        ;
        assert(8 * (p * p) < (p * p) * (radix() * radix())) by (nonlinear_arith)
            requires
                p >= 1,
        ;
        assert(3 * p < p * radix()) by (nonlinear_arith)
            requires
                p >= 1,
        ;
    }

    /// The product is the four coefficients placed at their part widths.
    proof fn lemma_result(
        a: Seq<Limb>,
        b: Seq<Limb>,
        a0: Seq<Limb>,
        a1: Seq<Limb>,
        a2: Seq<Limb>,
        b0: Seq<Limb>,
        b1: Seq<Limb>,
        s: nat,
    )
        requires
            val(a) == val(a0) + pow_b(s) * val(a1) + pow_b(2 * s) * val(a2),
            val(b) == val(b0) + pow_b(s) * val(b1),
        ensures
            ({
                let (x0, x1, x2) = (val(a0) as int, val(a1) as int, val(a2) as int);
                let (y0, y1) = (val(b0) as int, val(b1) as int);
                let x = pow_b(s) as int;
                &&& val(a) * val(b) == x0 * y0 + (x0 * y1 + x1 * y0) * x + (x1 * y1 + x2 * y0) * (
                x * x) + (x2 * y1) * (x * x * x)
                &&& pow_b(2 * s) == x * x
                &&& pow_b(3 * s) == x * x * x
                &&& val(a) * val(b) == (x0 * y0 + (x2 * y1) * pow_b(3 * s)) + (x0 * y1 + x1 * y0)
                    * pow_b(s) + (x1 * y1 + x2 * y0) * pow_b(2 * s)
            }),
            val(a) * val(b) < pow_b(a.len() + b.len()),
    {
        let (x0, x1, x2) = (val(a0) as int, val(a1) as int, val(a2) as int);
        let (y0, y1) = (val(b0) as int, val(b1) as int);
        let x = pow_b(s) as int;
        lemma_val_bound(a);
        lemma_val_bound(b);
        lemma_pow_b_add(a.len(), b.len());
        assert(val(a) * val(b) < pow_b(a.len()) * pow_b(b.len())) by (nonlinear_arith)
            requires
                val(a) < pow_b(a.len()),
                val(b) < pow_b(b.len()),
        ;
        lemma_pow_b_add(s, s);
        lemma_pow_b_add(2 * s, s);
        assert(pow_b(3 * s) == x * x * x) by (nonlinear_arith)
            requires
                pow_b(3 * s) == pow_b(2 * s) * pow_b(s),
                pow_b(2 * s) == x * x,
                pow_b(s) == x,
        ;
        crate::toom3::lemma_poly_product(
            x0,
            x1,
            x2,
            y0,
            y1,
            0,
            x,
            x0 * y0,
            x0 * y1 + x1 * y0,
            x0 * 0 + x1 * y1 + x2 * y0,
            x1 * 0 + x2 * y1,
            x2 * 0,
        );
        assert(val(a) * val(b) == x0 * y0 + (x0 * y1 + x1 * y0) * x + (x1 * y1 + x2 * y0) * (x * x)
            + (x2 * y1) * (x * x * x)) by (nonlinear_arith)
            requires
                val(a) == x0 + x * x1 + (x * x) * x2,
                val(b) == y0 + x * y1,
                (x0 + x1 * x + x2 * (x * x)) * (y0 + y1 * x + 0 * (x * x)) == x0 * y0 + (x0 * y1
                    + x1 * y0) * x + (x0 * 0 + x1 * y1 + x2 * y0) * (x * x) + (x1 * 0 + x2 * y1) * (
                x * x * x) + (x2 * 0) * (x * x * x * x),
        ;
    }
}

impl Toom32 {
    /// Scratch a 3-by-2 product of operands of `len_a` and `len_b` limbs
    /// needs, saturating at `usize::MAX`.
    pub fn mul_scratch_len(len_a: usize, len_b: usize) -> (len: usize)
        ensures
            len == crate::num::sat(
                spec_toom32_scratch(
                    if len_a >= len_b {
                        len_a as nat
                    } else {
                        len_b as nat
                    },
                ) as int,
            ),
    {
        let larger = if len_a >= len_b {
            len_a
        } else {
            len_b
        };
        let s = larger / 3 + if larger % 3 == 0 {
            0
        } else {
            1
        };
        proof {
            assert(s == spec_toom32_split_len(larger as nat));
        }
        let inner = Toom3::sqr_forced_scratch_len(s + 1);
        if s > (usize::MAX - 8) / 8 {
            return usize::MAX;
        }
        match (8 * (s + 1)).checked_add(inner) {
            Some(total) => total,
            None => usize::MAX,
        }
    }

    /// Whether operands of these lengths split three by two.
    pub fn suitable(len_a: usize, len_b: usize) -> (admitted: bool)
        ensures
            admitted == (if len_a >= len_b {
                spec_toom32_shape(len_a as nat, len_b as nat)
            } else {
                spec_toom32_shape(len_b as nat, len_a as nat)
            }),
    {
        let (larger, smaller) = if len_a >= len_b {
            (len_a, len_b)
        } else {
            (len_b, len_a)
        };
        let s = larger / 3 + if larger % 3 == 0 {
            0
        } else {
            1
        };
        proof {
            assert(s == spec_toom32_split_len(larger as nat));
        }
        larger - s > s && s < smaller && smaller - s <= s
    }
}

} // verus!
