//! Splitting an operand in four and evaluating it at the tier's points.

use crate::eval::SharedEval;
use crate::kernels::Addition;
use crate::limbs::{
    Limb, lemma_pow_b_add, lemma_pow_b_monotone, lemma_pow_b_pos, lemma_val_bound,
    lemma_val_concat, lemma_val_split, lemma_val_zero, pow_b, radix, val,
};
use crate::ssa::carry::SsaCarry;
use crate::toom3::{
    Toom3, abs, lemma_expand2, lemma_signed_product, lemma_toom3_scratch_monotone,
    lemma_val_prefix_step_full, spec_toom3_scratch,
};
use crate::toom4::algebra::{eval4, eval4_half, lemma_eval4_points, lemma_parts_bound, parts_below};
use crate::toom4::cook::{EvaluationKernels, Toom4};
use vstd::arithmetic::mul::*;
use vstd::prelude::*;

verus! {
/// Writes `part` over `dst`, zero-extended.
fn load_part(dst: &mut [Limb], part: &[Limb])
    requires
        part@.len() <= old(dst)@.len(),
    ensures
        final(dst)@.len() == old(dst)@.len(),
        val(final(dst)@) == val(part@),
{
    let n = dst.len();
    Addition::fill_zero(dst);
    let ghost z = dst@;
    Addition::copy_prefix(dst, part);
    proof {
        let rest = z.subrange(part@.len() as int, n as int);
        assert(dst@ =~= part@ + rest);
        lemma_val_concat(part@, rest);
        assert(crate::limbs::all_zero(rest)) by {
            assert forall|j: int| 0 <= j < rest.len() implies rest[j] == 0 by {
                assert(z[j + part@.len()] == 0);
            }
        }
        lemma_val_zero(rest);
        lemma_mul_basics(pow_b(part@.len()) as int);
    }
}

/// Adds `part * w` into `dst` when the sum fits.
fn add_scaled(dst: &mut [Limb], part: &[Limb], w: Limb)
    requires
        part@.len() <= old(dst)@.len(),
        val(old(dst)@) + val(part@) * w < pow_b(old(dst)@.len()),
    ensures
        final(dst)@.len() == old(dst)@.len(),
        val(final(dst)@) == val(old(dst)@) + val(part@) * w,
{
    proof {
        assert(pow_b(0) == 1);
        lemma_mul_basics(val(part@) * w);
    }
    SharedEval::add_mul_word_at(dst, part, w, 0);
}

impl Toom4 {
    /// Splits `values` into four parts of `split_len` limbs, the later ones
    /// possibly shorter or empty.
    pub fn split_four(values: &[Limb], split_len: usize) -> (parts: (&[Limb], &[Limb], &[Limb], &[Limb]))
        ensures
            values@.len() > 3 * split_len ==> parts.0@.len() == split_len && parts.1@.len()
                == split_len && parts.2@.len() == split_len && parts.3@.len() == values@.len() - 3
                * split_len,
            parts_below(parts.0@, parts.1@, parts.2@, parts.3@, split_len as nat) || values@.len()
                > 4 * split_len,
            parts.0@.len() + parts.1@.len() + parts.2@.len() + parts.3@.len() == values@.len(),
            values@.len() > 3 * split_len ==> parts.0@ == values@.subrange(0, split_len as int)
                && parts.1@ == values@.subrange(split_len as int, 2 * split_len as int) && parts.2@
                == values@.subrange(2 * split_len as int, 3 * split_len as int) && parts.3@
                == values@.subrange(3 * split_len as int, values@.len() as int),
            val(values@) == eval4(
                val(parts.0@) as int,
                val(parts.1@) as int,
                val(parts.2@) as int,
                val(parts.3@) as int,
                pow_b(split_len as nat) as int,
            ),
    {
        let n = values.len();
        let s = split_len;
        let ghost x = pow_b(s as nat) as int;
        let ghost e = Seq::<Limb>::empty();
        proof {
            lemma_pow_b_add(s as nat, s as nat);
            lemma_pow_b_add(2 * s as nat, s as nat);
            assert(val(e) == 0);
            lemma_mul_basics(x);
            lemma_mul_basics(x * x);
            lemma_mul_basics(x * x * x);
        }
        if n > s && n - s > s && n - s - s > s {
            let part0 = &values[0..s];
            let part1 = &values[s..s * 2];
            let part2 = &values[s * 2..s * 3];
            let part3 = &values[s * 3..n];
            proof {
                let r1 = values@.subrange(s as int, n as int);
                let r2 = r1.subrange(s as int, r1.len() as int);
                lemma_val_split(values@, s as int);
                lemma_val_split(r1, s as int);
                lemma_val_split(r2, s as int);
                assert(values@.subrange(0, s as int) =~= part0@);
                assert(r1.subrange(0, s as int) =~= part1@);
                assert(r2.subrange(0, s as int) =~= part2@);
                assert(r2.subrange(s as int, r2.len() as int) =~= part3@);
                assert(values@.subrange(s as int, 2 * s as int) =~= part1@);
                assert(values@.subrange(2 * s as int, 3 * s as int) =~= part2@);
                assert(values@.subrange(3 * s as int, n as int) =~= part3@);
                Self::lemma_nest(val(part0@) as int, val(part1@) as int, val(part2@) as int, val(part3@) as int, x);
            }
            (part0, part1, part2, part3)
        } else if n > s && n - s > s {
            let part0 = &values[0..s];
            let part1 = &values[s..s * 2];
            let part2 = &values[s * 2..n];
            let empty: &[Limb] = &values[n..n];
            proof {
                let r1 = values@.subrange(s as int, n as int);
                lemma_val_split(values@, s as int);
                lemma_val_split(r1, s as int);
                assert(values@.subrange(0, s as int) =~= part0@);
                assert(r1.subrange(0, s as int) =~= part1@);
                assert(r1.subrange(s as int, r1.len() as int) =~= part2@);
                assert(empty@ =~= e);
                Self::lemma_nest(val(part0@) as int, val(part1@) as int, val(part2@) as int, 0, x);
            }
            (part0, part1, part2, empty)
        } else if n > s {
            let part0 = &values[0..s];
            let part1 = &values[s..n];
            let empty: &[Limb] = &values[n..n];
            proof {
                lemma_val_split(values@, s as int);
                assert(values@.subrange(0, s as int) =~= part0@);
                assert(values@.subrange(s as int, n as int) =~= part1@);
                assert(empty@ =~= e);
                Self::lemma_nest(val(part0@) as int, val(part1@) as int, 0, 0, x);
            }
            (part0, part1, empty, empty)
        } else {
            let empty: &[Limb] = &values[n..n];
            proof {
                assert(empty@ =~= e);
                Self::lemma_nest(val(values@) as int, 0, 0, 0, x);
            }
            (values, empty, empty, empty)
        }
    }

    /// Horner's nesting of four parts.
    proof fn lemma_nest(p0: int, p1: int, p2: int, p3: int, x: int)
        ensures
            p0 + x * (p1 + x * (p2 + x * p3)) == eval4(p0, p1, p2, p3, x),
    {
        assert(p0 + x * (p1 + x * (p2 + x * p3)) == eval4(p0, p1, p2, p3, x)) by (nonlinear_arith);
    }
}


impl Toom4 {
    /// Evaluates a four-part operand at `1` (`point_shift == 0`) or at `2`
    /// (`point_shift == 1`) over the whole of `dst`.
    pub fn evaluate_positive(
        dst: &mut [Limb],
        part0: &[Limb],
        part1: &[Limb],
        part2: &[Limb],
        part3: &[Limb],
        point_shift: u32,
    )
        requires
            point_shift <= 1,
            old(dst)@.len() >= 1,
            parts_below(part0@, part1@, part2@, part3@, (old(dst)@.len() - 1) as nat),
        ensures
            final(dst)@.len() == old(dst)@.len(),
            val(final(dst)@) == eval4(
                val(part0@) as int,
                val(part1@) as int,
                val(part2@) as int,
                val(part3@) as int,
                if point_shift == 0 {
                    1int
                } else {
                    2int
                },
            ),
    {
        let n = dst.len();
        let ghost s = (n - 1) as nat;
        proof {
            lemma_parts_bound(part0@, part1@, part2@, part3@, s);
            assert(n == s + 1);
        }
        let (w1, w2, w3): (Limb, Limb, Limb) = if point_shift == 0 {
            (1, 1, 1)
        } else {
            (2, 4, 8)
        };
        load_part(dst, part0);
        add_scaled(dst, part1, w1);
        add_scaled(dst, part2, w2);
        add_scaled(dst, part3, w3);
    }

    /// Evaluates `8 A(1/2) = 8 part0 + 4 part1 + 2 part2 + part3` over the
    /// whole of `dst`.
    pub fn evaluate_half_scaled(
        dst: &mut [Limb],
        part0: &[Limb],
        part1: &[Limb],
        part2: &[Limb],
        part3: &[Limb],
    )
        requires
            old(dst)@.len() >= 1,
            parts_below(part0@, part1@, part2@, part3@, (old(dst)@.len() - 1) as nat),
        ensures
            final(dst)@.len() == old(dst)@.len(),
            val(final(dst)@) == eval4_half(
                val(part0@) as int,
                val(part1@) as int,
                val(part2@) as int,
                val(part3@) as int,
            ),
    {
        let n = dst.len();
        proof {
            lemma_parts_bound(part0@, part1@, part2@, part3@, (n - 1) as nat);
        }
        load_part(dst, part3);
        add_scaled(dst, part2, 2);
        add_scaled(dst, part1, 4);
        add_scaled(dst, part0, 8);
    }

    /// Evaluates `8 A(1/2)` when the first three parts fill the body below
    /// the guard limb exactly and the last does not exceed it; otherwise
    /// reports `false` and leaves `dst` alone.
    pub fn evaluate_half_scaled_with_kernel(
        dst: &mut [Limb],
        part0: &[Limb],
        part1: &[Limb],
        part2: &[Limb],
        part3: &[Limb],
    ) -> (evaluated: bool)
        ensures
            final(dst)@.len() == old(dst)@.len(),
            evaluated == (old(dst)@.len() >= 1 && part0@.len() == old(dst)@.len() - 1
                && part1@.len() == old(dst)@.len() - 1 && part2@.len() == old(dst)@.len() - 1
                && part3@.len() <= old(dst)@.len() - 1),
            evaluated ==> val(final(dst)@) == eval4_half(
                val(part0@) as int,
                val(part1@) as int,
                val(part2@) as int,
                val(part3@) as int,
            ),
            !evaluated ==> final(dst)@ == old(dst)@,
    {
        let n = dst.len();
        if n == 0 {
            return false;
        }
        let body = n - 1;
        if part0.len() != body || part1.len() != body || part2.len() != body || part3.len() > body {
            return false;
        }
        Self::evaluate_half_scaled(dst, part0, part1, part2, part3);
        true
    }

    /// Evaluates a four-part operand at `-1` (`point_shift == 0`) or at `-2`
    /// (`point_shift == 1`): `dst` receives the magnitude, `odd` is used for
    /// the odd half, and the result says whether the value is negative.
    pub fn evaluate_negative_magnitude(
        dst: &mut [Limb],
        odd: &mut [Limb],
        part0: &[Limb],
        part1: &[Limb],
        part2: &[Limb],
        part3: &[Limb],
        point_shift: u32,
    ) -> (negative: bool)
        requires
            point_shift <= 1,
            old(dst)@.len() >= 1,
            old(odd)@.len() == old(dst)@.len(),
            parts_below(part0@, part1@, part2@, part3@, (old(dst)@.len() - 1) as nat),
        ensures
            final(dst)@.len() == old(dst)@.len(),
            final(odd)@.len() == old(odd)@.len(),
            ({
                let v = eval4(
                    val(part0@) as int,
                    val(part1@) as int,
                    val(part2@) as int,
                    val(part3@) as int,
                    if point_shift == 0 {
                        -1int
                    } else {
                        -2int
                    },
                );
                &&& val(final(dst)@) == abs(v)
                &&& negative == (v < 0)
            }),
    {
        let n = dst.len();
        proof {
            lemma_parts_bound(part0@, part1@, part2@, part3@, (n - 1) as nat);
        }
        let (w_even, w_odd1, w_odd3): (Limb, Limb, Limb) = if point_shift == 0 {
            (1, 1, 1)
        } else {
            (4, 2, 8)
        };
        load_part(dst, part0);
        add_scaled(dst, part2, w_even);
        Addition::fill_zero(odd);
        proof {
            lemma_val_zero(odd@);
        }
        add_scaled(odd, part1, w_odd1);
        add_scaled(odd, part3, w_odd3);
        let ghost even = val(dst@) as int;
        let ghost oddv = val(odd@) as int;
        let borrow = SsaCarry::sub_full_in_place(dst, odd);
        proof {
            lemma_val_bound(dst@);
            let v = eval4(
                val(part0@) as int,
                val(part1@) as int,
                val(part2@) as int,
                val(part3@) as int,
                if point_shift == 0 {
                    -1int
                } else {
                    -2int
                },
            );
            let (p0, p1, p2, p3) = (val(part0@) as int, val(part1@) as int, val(part2@) as int, val(part3@) as int);
            assert(even == p0 + p2 * w_even);
            assert(oddv == p1 * w_odd1 + p3 * w_odd3);
            lemma_eval4_points(p0, p1, p2, p3);
            if point_shift == 0 {
                assert(w_even == 1 && w_odd1 == 1 && w_odd3 == 1);
                assert(v == p0 - p1 + p2 - p3);
            } else {
                assert(w_even == 4 && w_odd1 == 2 && w_odd3 == 8);
                assert(v == p0 - 2 * p1 + 4 * p2 - 8 * p3);
            }
            assert(v == even - oddv);
            if borrow == 0 {
                assert(val(dst@) == even - oddv);
            } else {
                assert(borrow == 1);
                assert(val(dst@) == even - oddv + pow_b(n as nat));
            }
        }
        if borrow != 0 {
            proof {
                assert(val(dst@) > 0);
            }
            SharedEval::negate_in_place(dst);
            true
        } else {
            false
        }
    }
}

impl Toom4 {
    /// Evaluates one operand at `+1` and `-1` (or at `+2` and `-2` when
    /// `AT_TWO`) when the first three parts fill the body below the guard
    /// limb exactly and the last does not exceed it: `positive` receives the
    /// value at the positive point, `negative` the magnitude at the negative
    /// one, and the sign of the latter comes back. Other shapes return `None`
    /// and leave both buffers alone.
    pub fn evaluate_positive_and_negative_balanced<const AT_TWO: bool>(
        positive: &mut [Limb],
        negative: &mut [Limb],
        part0: &[Limb],
        part1: &[Limb],
        part2: &[Limb],
        part3: &[Limb],
        kernels: EvaluationKernels,
    ) -> (sign: Option<bool>)
        ensures
            final(positive)@.len() == old(positive)@.len(),
            final(negative)@.len() == old(negative)@.len(),
            sign is Some <==> (old(positive)@.len() >= 2 && old(negative)@.len() == old(positive)@.len()
                && part0@.len() == old(positive)@.len() - 1 && part1@.len() == old(positive)@.len()
                - 1 && part2@.len() == old(positive)@.len() - 1 && part3@.len() <= old(
                positive,
            )@.len() - 1),
            sign is None ==> final(positive)@ == old(positive)@ && final(negative)@ == old(
                negative,
            )@,
            sign is Some ==> ({
                let x: int = if AT_TWO {
                    2
                } else {
                    1
                };
                let (p0, p1, p2, p3) = (val(part0@) as int, val(part1@) as int, val(part2@) as int, val(part3@) as int);
                &&& val(final(positive)@) == eval4(p0, p1, p2, p3, x)
                &&& val(final(negative)@) == abs(eval4(p0, p1, p2, p3, -x))
                &&& sign.unwrap() == (eval4(p0, p1, p2, p3, -x) < 0)
            }),
    {
        let n = positive.len();
        if n < 2 || negative.len() != n {
            return None;
        }
        let body = n - 1;
        if part0.len() != body || part1.len() != body || part2.len() != body || part3.len() > body {
            return None;
        }
        let point_shift: u32 = if AT_TWO {
            1
        } else {
            0
        };
        let sign = Self::evaluate_negative_magnitude(
            negative,
            positive,
            part0,
            part1,
            part2,
            part3,
            point_shift,
        );
        Self::evaluate_positive(positive, part0, part1, part2, part3, point_shift);
        Some(sign)
    }
}

} // verus!
