//! Toom-Cook 3-way multiplication and squaring: split each operand in three,
//! evaluate at `0, 1, -1, 2, ∞`, multiply pointwise, and interpolate.

use crate::basecase::Multiplication;
use crate::eval::SharedEval;
use crate::kernels::Addition;
use crate::limbs::{
    Limb, lemma_pow_b_add, lemma_pow_b_monotone, lemma_pow_b_pos, lemma_val_bound,
    lemma_val_concat, lemma_val_split, lemma_val_zero, pow_b, radix, val,
};
use crate::ssa::carry::SsaCarry;
use vstd::arithmetic::mul::*;
use vstd::prelude::*;

verus! {

/// Operands at least this long take the three-way split.
pub const TOOM_COOK_THRESHOLD: usize = 96;

/// Operands at least this long take the three-way split when squared.
pub const SQR_TOOM_COOK_THRESHOLD: usize = 128;

/// One level's scratch, carved into disjoint buffers.
pub struct ScratchLayout<'a> {
    pub one: &'a mut [Limb],
    pub neg_one: &'a mut [Limb],
    pub two: &'a mut [Limb],
    pub eval_a: &'a mut [Limb],
    pub eval_b: &'a mut [Limb],
    pub inner: &'a mut [Limb],
}

/// The three middle point products and the sign of the value at `-1`.
pub struct MiddleValues<'a> {
    pub one: &'a mut [Limb],
    pub neg_one: &'a mut [Limb],
    pub two: &'a mut [Limb],
    pub neg_one_negative: bool,
}

/// The three middle point values of the product polynomial with
/// coefficients `c0..c4`: at `1`, `-1` and `2`.
pub open spec fn five_points(c0: int, c1: int, c2: int, c3: int, c4: int) -> (int, int, int) {
    (c0 + c1 + c2 + c3 + c4, c0 - c1 + c2 - c3 + c4, c0 + 2 * c1 + 4 * c2 + 8 * c3 + 16 * c4)
}

/// The value of an endpoint product stored at `offset` over `len` limbs of
/// `dst`, or zero when it is absent.
pub open spec fn endpoint_value(dst: Seq<Limb>, offset: int, len: int) -> int {
    if len > 0 {
        val(dst.subrange(offset, offset + len)) as int
    } else {
        0
    }
}

/// The part width for an operand of `n` limbs: `ceil(n / 3)`.
pub open spec fn spec_split_len(n: nat) -> nat {
    (n + 2) / 3
}

/// Scratch one level of the split partitions: three point products of
/// `2s + 1` limbs, two evaluations of `s + 1` limbs, and the recursion's own.
pub open spec fn spec_local_scratch_len(split_len: nat, inner_space: nat) -> nat {
    3 * (2 * split_len + 1) + 2 * (split_len + 1) + inner_space
}

/// Scratch a three-way product or square of operands of at most `n` limbs
/// needs, recursion included.
pub open spec fn spec_toom3_scratch(n: nat) -> nat
    decreases n,
{
    if n < 3 {
        0
    } else {
        spec_local_scratch_len(spec_split_len(n), spec_toom3_scratch(spec_split_len(n)))
    }
}

/// More limbs never need less scratch.
pub proof fn lemma_toom3_scratch_monotone(m: nat, n: nat)
    requires
        m <= n,
    ensures
        spec_toom3_scratch(m) <= spec_toom3_scratch(n),
    decreases n,
{
    if m >= 3 {
        lemma_toom3_scratch_monotone(spec_split_len(m), spec_split_len(n));
    }
}

/// The product of two three-part polynomials at `x`, in terms of the
/// product's coefficients.
pub proof fn lemma_poly_product(
    a0: int,
    a1: int,
    a2: int,
    b0: int,
    b1: int,
    b2: int,
    x: int,
    c0: int,
    c1: int,
    c2: int,
    c3: int,
    c4: int,
)
    requires
        c0 == a0 * b0,
        c1 == a0 * b1 + a1 * b0,
        c2 == a0 * b2 + a1 * b1 + a2 * b0,
        c3 == a1 * b2 + a2 * b1,
        c4 == a2 * b2,
    ensures
        (a0 + a1 * x + a2 * (x * x)) * (b0 + b1 * x + b2 * (x * x)) == c0 + c1 * x + c2 * (x
            * x) + c3 * (x * x * x) + c4 * (x * x * x * x),
{
    let y = x * x;
    let z = x * y;
    let w = y * y;
    assert(x * x * x == z) by (nonlinear_arith)
        requires
            y == x * x,
            z == x * y,
    ;
    assert(x * x * x * x == w) by (nonlinear_arith)
        requires
            y == x * x,
            w == y * y,
    ;
    let pa = a0 + a1 * x + a2 * y;
    let pb = b0 + b1 * x + b2 * y;
    assert(pa * pb == a0 * pb + (a1 * x) * pb + (a2 * y) * pb) by (nonlinear_arith)
        requires
            pa == a0 + a1 * x + a2 * y,
    ;
    assert(a0 * pb == a0 * b0 + (a0 * b1) * x + (a0 * b2) * y) by (nonlinear_arith)
        requires
            pb == b0 + b1 * x + b2 * y,
    ;
    lemma_row(a1, x, b0, b1, b2, x, y, y, z);
    lemma_row(a2, y, b0, b1, b2, x, y, z, w);
    lemma_mul_is_commutative(x, y);
    assert(c1 * x == (a0 * b1) * x + (a1 * b0) * x) by (nonlinear_arith)
        requires
            c1 == a0 * b1 + a1 * b0,
    ;
    assert(c2 * y == (a0 * b2) * y + (a1 * b1) * y + (a2 * b0) * y) by (nonlinear_arith)
        requires
            c2 == a0 * b2 + a1 * b1 + a2 * b0,
    ;
    assert(c3 * z == (a1 * b2) * z + (a2 * b1) * z) by (nonlinear_arith)
        requires
            c3 == a1 * b2 + a2 * b1,
    ;
}

/// The values a three-way split evaluates and interpolates: the product
/// polynomial `c(x) = a(x) b(x)` at the five points, in terms of its
/// coefficients.
proof fn lemma_toom3_points(
    a0: int,
    a1: int,
    a2: int,
    b0: int,
    b1: int,
    b2: int,
    x: int,
    c0: int,
    c1: int,
    c2: int,
    c3: int,
    c4: int,
)
    requires
        c0 == a0 * b0,
        c1 == a0 * b1 + a1 * b0,
        c2 == a0 * b2 + a1 * b1 + a2 * b0,
        c3 == a1 * b2 + a2 * b1,
        c4 == a2 * b2,
    ensures
        (a0 + a1 + a2) * (b0 + b1 + b2) == c0 + c1 + c2 + c3 + c4,
        (a0 - a1 + a2) * (b0 - b1 + b2) == c0 - c1 + c2 - c3 + c4,
        (a0 + 2 * a1 + 4 * a2) * (b0 + 2 * b1 + 4 * b2) == c0 + 2 * c1 + 4 * c2 + 8 * c3 + 16
            * c4,
        (a0 + a1 * x + a2 * (x * x)) * (b0 + b1 * x + b2 * (x * x)) == c0 + c1 * x + c2 * (x
            * x) + c3 * (x * x * x) + c4 * (x * x * x * x),
{
    lemma_poly_product(a0, a1, a2, b0, b1, b2, 1, c0, c1, c2, c3, c4);
    lemma_poly_product(a0, a1, a2, b0, b1, b2, -1, c0, c1, c2, c3, c4);
    lemma_poly_product(a0, a1, a2, b0, b1, b2, 2, c0, c1, c2, c3, c4);
    lemma_poly_product(a0, a1, a2, b0, b1, b2, x, c0, c1, c2, c3, c4);
    assert((a0 + a1 + a2) * (b0 + b1 + b2) == c0 + c1 + c2 + c3 + c4) by (nonlinear_arith)
        requires
            (a0 + a1 * 1 + a2 * (1 * 1)) * (b0 + b1 * 1 + b2 * (1 * 1)) == c0 + c1 * 1 + c2 * (1
                * 1) + c3 * (1 * 1 * 1) + c4 * (1 * 1 * 1 * 1),
    ;
    assert((a0 - a1 + a2) * (b0 - b1 + b2) == c0 - c1 + c2 - c3 + c4) by (nonlinear_arith)
        requires
            (a0 + a1 * (-1) + a2 * ((-1) * (-1))) * (b0 + b1 * (-1) + b2 * ((-1) * (-1))) == c0
                + c1 * (-1) + c2 * ((-1) * (-1)) + c3 * ((-1) * (-1) * (-1)) + c4 * ((-1) * (-1)
                * (-1) * (-1)),
    ;
    assert((a0 + 2 * a1 + 4 * a2) * (b0 + 2 * b1 + 4 * b2) == c0 + 2 * c1 + 4 * c2 + 8 * c3 + 16
        * c4) by (nonlinear_arith)
        requires
            (a0 + a1 * 2 + a2 * (2 * 2)) * (b0 + b1 * 2 + b2 * (2 * 2)) == c0 + c1 * 2 + c2 * (2
                * 2) + c3 * (2 * 2 * 2) + c4 * (2 * 2 * 2 * 2),
    ;
}

/// `(p q)(b0 + b1 x + b2 y) = (p b0) q + (p b1)(q x) + (p b2)(q y)`, with the
/// two products of powers named.
proof fn lemma_row(p: int, q: int, b0: int, b1: int, b2: int, x: int, y: int, qx: int, qy: int)
    requires
        qx == q * x,
        qy == q * y,
    ensures
        (p * q) * (b0 + b1 * x + b2 * y) == (p * b0) * q + (p * b1) * qx + (p * b2) * qy,
{
    lemma_mul_is_distributive_add(p * q, b0 + b1 * x, b2 * y);
    lemma_mul_is_distributive_add(p * q, b0, b1 * x);
    lemma_swap_pairs(p, q, b0, 1);
    lemma_swap_pairs(p, q, b1, x);
    lemma_swap_pairs(p, q, b2, y);
    lemma_mul_basics(q);
    lemma_mul_basics(p * b0);
    lemma_mul_is_commutative(p, b0);
}

/// `(p q)(r t) = (p r)(q t)`.
proof fn lemma_swap_pairs(p: int, q: int, r: int, t: int)
    ensures
        (p * q) * (r * t) == (p * r) * (q * t),
{
    assert((p * q) * (r * t) == (p * r) * (q * t)) by (nonlinear_arith);
    lemma_mul_basics(t);
}

/// A kernel difference that is known to be a nonnegative value below the
/// buffer's range carries no borrow.
proof fn lemma_exact_sub(new_val: int, borrow: int, x: int, y: int, range: int)
    requires
        new_val - borrow * range == x - y,
        0 <= new_val < range,
        0 <= x - y < range,
        0 <= borrow <= 1,
    ensures
        borrow == 0,
        new_val == x - y,
{
}

/// A kernel sum that is known to stay below the buffer's range carries out
/// nothing.
proof fn lemma_exact_add(new_val: int, carry: int, x: int, y: int, range: int)
    requires
        new_val + carry * range == x + y,
        0 <= new_val < range,
        0 <= x + y < range,
        0 <= carry <= 1,
    ensures
        carry == 0,
        new_val == x + y,
{
}

/// Namespace for the three-way tier.
pub struct Toom3;

impl Toom3 {
    /// Splits `values` into parts of `split_len` limbs: the low part, the
    /// middle part and the remainder, any of the last two possibly empty.
    pub fn split_three(values: &[Limb], split_len: usize) -> (parts: (&[Limb], &[Limb], &[Limb]))
        ensures
            parts.0@.len() == if values@.len() < split_len {
                values@.len()
            } else {
                split_len as nat
            },
            parts.1@.len() <= split_len,
            values@.len() > split_len ==> parts.0@.len() == split_len,
            parts.1@.len() > 0 ==> values@.len() > split_len,
            values@.len() <= split_len ==> parts.1@.len() == 0,
            parts.2@.len() > 0 ==> values@.len() > 2 * split_len && parts.1@.len() == split_len,
            values@.len() > 2 * split_len ==> parts.2@.len() == values@.len() - 2 * split_len,
            values@.len() <= 2 * split_len ==> parts.2@.len() == 0,
            val(values@) == val(parts.0@) + pow_b(split_len as nat) * val(parts.1@) + pow_b(
                2 * split_len as nat,
            ) * val(parts.2@),
            parts.0@.len() + parts.1@.len() + parts.2@.len() == values@.len(),
            parts.0@ == values@.subrange(0, parts.0@.len() as int),
            parts.1@ == values@.subrange(
                parts.0@.len() as int,
                (parts.0@.len() + parts.1@.len()) as int,
            ),
            parts.2@ == values@.subrange(
                (parts.0@.len() + parts.1@.len()) as int,
                (parts.0@.len() + parts.1@.len() + parts.2@.len()) as int,
            ),
    {
        let n = values.len();
        let s = split_len;
        proof {
            lemma_pow_b_add(s as nat, s as nat);
            assert(2 * s == s + s);
            assert(val(Seq::<Limb>::empty()) == 0);
            lemma_mul_basics(pow_b(s as nat) as int);
            lemma_mul_basics(pow_b(2 * s as nat) as int);
        }
        if n > s && n - s > s {
            let part0 = &values[0..s];
            let part1 = &values[s..s * 2];
            let part2 = &values[s * 2..n];
            proof {
                let rest = values@.subrange(s as int, n as int);
                lemma_val_split(values@, s as int);
                lemma_val_split(rest, s as int);
                assert(values@.subrange(0, s as int) =~= part0@);
                assert(rest.subrange(0, s as int) =~= part1@);
                assert(rest.subrange(s as int, rest.len() as int) =~= part2@);
                assert(values@.subrange(s as int, 2 * s as int) =~= part1@);
                assert(values@.subrange(2 * s as int, n as int) =~= part2@);
                assert(val(values@) == val(part0@) + pow_b(s as nat) * (val(part1@) + pow_b(
                    s as nat,
                ) * val(part2@)));
                assert(pow_b(s as nat) * (val(part1@) + pow_b(s as nat) * val(part2@)) == pow_b(
                    s as nat,
                ) * val(part1@) + pow_b(2 * s as nat) * val(part2@)) by (nonlinear_arith)
                    requires
                        pow_b(2 * s as nat) == pow_b(s as nat) * pow_b(s as nat),
                ;
            }
            (part0, part1, part2)
        } else if n > s {
            let part0 = &values[0..s];
            let part1 = &values[s..n];
            let empty: &[Limb] = &values[n..n];
            proof {
                lemma_val_split(values@, s as int);
                assert(values@.subrange(0, s as int) =~= part0@);
                assert(values@.subrange(s as int, n as int) =~= part1@);
                assert(empty@ =~= Seq::<Limb>::empty());
                assert(values@.subrange(n as int, n as int) =~= Seq::<Limb>::empty());
            }
            (part0, part1, empty)
        } else {
            let empty: &[Limb] = &values[n..n];
            proof {
                assert(empty@ =~= Seq::<Limb>::empty());
            }
            proof {
                assert(values@.subrange(0, n as int) =~= values@);
                assert(values@.subrange(n as int, n as int) =~= Seq::<Limb>::empty());
            }
            (values, empty, empty)
        }
    }

    /// Carves one level's scratch into its three point products, the two
    /// operand evaluations, and the space left for the recursive products.
    pub fn split_scratch<'a>(scratch: &'a mut [Limb], product_len: usize, eval_len: usize) -> (layout:
        ScratchLayout<'a>)
        requires
            3 * product_len + 2 * eval_len <= old(scratch)@.len(),
        ensures
            layout.one@ == old(scratch)@.subrange(0, product_len as int),
            layout.neg_one@ == old(scratch)@.subrange(product_len as int, 2 * product_len as int),
            layout.two@ == old(scratch)@.subrange(2 * product_len as int, 3 * product_len as int),
            layout.eval_a@ == old(scratch)@.subrange(
                3 * product_len as int,
                3 * product_len + eval_len as int,
            ),
            layout.eval_b@ == old(scratch)@.subrange(
                3 * product_len + eval_len as int,
                3 * product_len + 2 * eval_len as int,
            ),
            layout.inner@ == old(scratch)@.subrange(
                3 * product_len + 2 * eval_len as int,
                old(scratch)@.len() as int,
            ),
            final(scratch)@ == final(layout.one)@ + final(layout.neg_one)@ + final(layout.two)@
                + final(layout.eval_a)@ + final(layout.eval_b)@ + final(layout.inner)@,
    {
        let (one, after_one) = scratch.split_at_mut(product_len);
        let (neg_one, after_neg_one) = after_one.split_at_mut(product_len);
        let (two, after_two) = after_neg_one.split_at_mut(product_len);
        let (eval_a, after_eval_a) = after_two.split_at_mut(eval_len);
        let (eval_b, inner) = after_eval_a.split_at_mut(eval_len);
        ScratchLayout { one, neg_one, two, eval_a, eval_b, inner }
    }

    /// Scratch one level of the split partitions, in word arithmetic.
    pub fn local_scratch_len(split_len: usize, inner_space: usize) -> (len: usize)
        ensures
            spec_local_scratch_len(split_len as nat, inner_space as nat) <= usize::MAX ==> len
                == spec_local_scratch_len(split_len as nat, inner_space as nat),
    {
        let product_len = split_len.wrapping_mul(2).wrapping_add(1);
        let eval_len = split_len.wrapping_add(1);
        proof {
            if spec_local_scratch_len(split_len as nat, inner_space as nat) <= usize::MAX {
                vstd::arithmetic::div_mod::lemma_small_mod(
                    (split_len * 2) as nat,
                    (usize::MAX + 1) as nat,
                );
            }
        }
        let three = product_len.wrapping_mul(3);
        let two = eval_len.wrapping_mul(2);
        proof {
            if spec_local_scratch_len(split_len as nat, inner_space as nat) <= usize::MAX {
                vstd::arithmetic::div_mod::lemma_small_mod(
                    (product_len * 3) as nat,
                    (usize::MAX + 1) as nat,
                );
                vstd::arithmetic::div_mod::lemma_small_mod(
                    (eval_len * 2) as nat,
                    (usize::MAX + 1) as nat,
                );
            }
        }
        three.wrapping_add(two).wrapping_add(inner_space)
    }
}

/// `|x|`.
pub open spec fn abs(x: int) -> int {
    if x < 0 {
        -x
    } else {
        x
    }
}

impl Toom3 {
    /// Writes `part0 + part2` over the whole of `dst`.
    fn evaluate_even_at_one(dst: &mut [Limb], part0: &[Limb], part2: &[Limb])
        requires
            part0@.len() < old(dst)@.len(),
            part2@.len() < old(dst)@.len(),
        ensures
            final(dst)@.len() == old(dst)@.len(),
            val(final(dst)@) == val(part0@) + val(part2@),
    {
        let n = dst.len();
        Addition::fill_zero(dst);
        Addition::copy_prefix(dst, part0);
        let ghost d0 = dst@;
        proof {
            let rest = d0.subrange(part0@.len() as int, n as int);
            assert(d0 =~= part0@ + rest);
            lemma_val_concat(part0@, rest);
            lemma_val_zero(rest);
            lemma_mul_basics(pow_b(part0@.len()) as int);
            lemma_val_bound(part0@);
            lemma_val_bound(part2@);
            lemma_pow_b_monotone(part0@.len(), (n - 1) as nat);
            lemma_pow_b_monotone(part2@.len(), (n - 1) as nat);
            crate::limbs::lemma_pow_b_strict((n - 1) as nat, n as nat);
        }
        let carry = SsaCarry::add_full_in_place(dst, part2);
        proof {
            lemma_val_bound(dst@);
            lemma_exact_add(
                val(dst@) as int,
                carry as int,
                val(part0@) as int,
                val(part2@) as int,
                pow_b(n as nat) as int,
            );
        }
    }

    /// Evaluates a three-part operand at `1` and `-1`: `positive` receives
    /// `part0 + part1 + part2`, `negative_magnitude` receives
    /// `|part0 - part1 + part2|`, and the result says whether the value at
    /// `-1` is negative.
    pub fn evaluate_one_and_negative_one(
        positive: &mut [Limb],
        negative_magnitude: &mut [Limb],
        part0: &[Limb],
        part1: &[Limb],
        part2: &[Limb],
    ) -> (negative: bool)
        requires
            old(positive)@.len() == old(negative_magnitude)@.len(),
            part0@.len() < old(positive)@.len(),
            part1@.len() < old(positive)@.len(),
            part2@.len() < old(positive)@.len(),
        ensures
            final(positive)@.len() == old(positive)@.len(),
            final(negative_magnitude)@.len() == old(negative_magnitude)@.len(),
            val(final(positive)@) == val(part0@) + val(part1@) + val(part2@),
            val(final(negative_magnitude)@) == abs(val(part0@) - val(part1@) + val(part2@)),
            negative == (val(part0@) - val(part1@) + val(part2@) < 0),
    {
        let n = positive.len();
        let ghost range = pow_b(n as nat) as int;
        proof {
            lemma_val_bound(part0@);
            lemma_val_bound(part1@);
            lemma_val_bound(part2@);
            lemma_pow_b_monotone(part0@.len(), (n - 1) as nat);
            lemma_pow_b_monotone(part1@.len(), (n - 1) as nat);
            lemma_pow_b_monotone(part2@.len(), (n - 1) as nat);
            assert(pow_b(n as nat) == radix() * pow_b((n - 1) as nat));
        }
        Self::evaluate_even_at_one(negative_magnitude, part0, part2);
        let ghost even = val(negative_magnitude@) as int;
        Addition::copy_prefix(positive, negative_magnitude);
        proof {
            assert(positive@ =~= negative_magnitude@);
        }
        let carry = SsaCarry::add_full_in_place(positive, part1);
        proof {
            lemma_val_bound(positive@);
            lemma_exact_add(val(positive@) as int, carry as int, even, val(part1@) as int, range);
        }
        let borrow = SsaCarry::sub_full_in_place(negative_magnitude, part1);
        proof {
            lemma_val_bound(negative_magnitude@);
        }
        if borrow != 0 {
            let ghost wrapped = val(negative_magnitude@) as int;
            SharedEval::negate_in_place(negative_magnitude);
            proof {
                assert(wrapped == even - val(part1@) + range);
                assert(wrapped > 0);
            }
            true
        } else {
            false
        }
    }

    /// Turns the evaluation at `1` into the evaluation at `2` by adding
    /// `part1 + 3 * part2`.
    pub fn evaluate_two_from_one(dst: &mut [Limb], part1: &[Limb], part2: &[Limb])
        requires
            part1@.len() <= old(dst)@.len(),
            part2@.len() <= old(dst)@.len(),
            val(old(dst)@) + val(part1@) + 3 * val(part2@) < pow_b(old(dst)@.len()),
        ensures
            final(dst)@.len() == old(dst)@.len(),
            val(final(dst)@) == val(old(dst)@) + val(part1@) + 3 * val(part2@),
    {
        let n = dst.len();
        let ghost range = pow_b(n as nat) as int;
        let ghost v0 = val(dst@) as int;
        let c1 = SsaCarry::add_full_in_place(dst, part1);
        proof {
            lemma_val_bound(dst@);
            lemma_exact_add(val(dst@) as int, c1 as int, v0, val(part1@) as int, range);
        }
        let ghost v1 = val(dst@) as int;
        let c2 = SsaCarry::add_full_in_place(dst, part2);
        proof {
            lemma_val_bound(dst@);
            lemma_exact_add(val(dst@) as int, c2 as int, v1, val(part2@) as int, range);
        }
        let ghost v2 = val(dst@) as int;
        let c3 = SsaCarry::add_full_in_place(dst, part2);
        proof {
            lemma_val_bound(dst@);
            lemma_exact_add(val(dst@) as int, c3 as int, v2, val(part2@) as int, range);
        }
        let ghost v3 = val(dst@) as int;
        let c4 = SsaCarry::add_full_in_place(dst, part2);
        proof {
            lemma_val_bound(dst@);
            lemma_exact_add(val(dst@) as int, c4 as int, v3, val(part2@) as int, range);
        }
    }

    /// Adds the three interpolated middle coefficients into the product at
    /// one, two and three part widths.
    pub fn reconstruct_middle(
        dst: &mut [Limb],
        split_len: usize,
        first: &[Limb],
        second: &[Limb],
        third: &[Limb],
    )
        requires
            3 * split_len <= old(dst)@.len(),
            val(old(dst)@) + val(first@) * pow_b(split_len as nat) + val(second@) * pow_b(
                2 * split_len as nat,
            ) + val(third@) * pow_b(3 * split_len as nat) < pow_b(old(dst)@.len()),
        ensures
            final(dst)@.len() == old(dst)@.len(),
            val(final(dst)@) == val(old(dst)@) + val(first@) * pow_b(split_len as nat) + val(
                second@,
            ) * pow_b(2 * split_len as nat) + val(third@) * pow_b(3 * split_len as nat),
    {
        let n = dst.len();
        proof {
            lemma_pow_b_pos(split_len as nat);
            lemma_pow_b_pos(2 * split_len as nat);
            lemma_pow_b_pos(3 * split_len as nat);
            assert(val(second@) * pow_b(2 * split_len as nat) >= 0) by (nonlinear_arith);
            assert(val(third@) * pow_b(3 * split_len as nat) >= 0) by (nonlinear_arith);
            assert(val(first@) * pow_b(split_len as nat) >= 0) by (nonlinear_arith);
        }
        SharedEval::add_coefficient_in_place(dst, first, split_len);
        SharedEval::add_coefficient_in_place(dst, second, 2 * split_len);
        SharedEval::add_coefficient_in_place(dst, third, 3 * split_len);
    }
}

impl Toom3 {
    /// Interpolates in place, reading the endpoint products `c0` at the bottom
    /// of `dst` and `c4` at `high_offset` (absent when `high_product_len` is
    /// zero). When the middle values are those of a product polynomial with
    /// coefficients `c1..c3`, afterwards they hold `c1`, `c2` and `c3`.
    pub fn interpolate_endpoints(
        dst: &[Limb],
        low_product_len: usize,
        high_offset: usize,
        high_product_len: usize,
        middle: MiddleValues,
    )
        requires
            low_product_len <= dst@.len(),
            high_product_len > 0 ==> low_product_len <= high_offset && high_offset
                + high_product_len <= dst@.len(),
            middle.one@.len() >= 1,
            middle.neg_one@.len() == middle.one@.len(),
            middle.two@.len() == middle.one@.len(),
            low_product_len <= middle.one@.len(),
            high_product_len <= middle.one@.len(),
            val(middle.two@) + val(middle.neg_one@) < pow_b(middle.one@.len()),
            val(middle.one@) + val(middle.neg_one@) < pow_b(middle.one@.len()),
            exists|c1: int, c2: int, c3: int|
                c1 >= 0 && c2 >= 0 && c3 >= 0 && #[trigger] five_points(
                    endpoint_value(dst@, 0, low_product_len as int),
                    c1,
                    c2,
                    c3,
                    endpoint_value(dst@, high_offset as int, high_product_len as int),
                ) == (
                    val(middle.one@) as int,
                    if middle.neg_one_negative {
                        -val(middle.neg_one@)
                    } else {
                        val(middle.neg_one@) as int
                    },
                    val(middle.two@) as int,
                ),
        ensures
            final(middle.one)@.len() == old(middle.one)@.len(),
            final(middle.neg_one)@.len() == old(middle.neg_one)@.len(),
            final(middle.two)@.len() == old(middle.two)@.len(),
            forall|c1: int, c2: int, c3: int|
                #[trigger] five_points(
                    endpoint_value(dst@, 0, low_product_len as int),
                    c1,
                    c2,
                    c3,
                    endpoint_value(dst@, high_offset as int, high_product_len as int),
                ) == (
                    val(old(middle.one)@) as int,
                    if middle.neg_one_negative {
                        -val(old(middle.neg_one)@)
                    } else {
                        val(old(middle.neg_one)@) as int
                    },
                    val(old(middle.two)@) as int,
                ) ==> val(final(middle.neg_one)@) == c1 && val(final(middle.one)@) == c2 && val(
                    final(middle.two)@,
                ) == c3,
    {
        let ghost c0 = endpoint_value(dst@, 0, low_product_len as int);
        let ghost c4 = endpoint_value(dst@, high_offset as int, high_product_len as int);
        let ghost observed = (
            val(middle.one@) as int,
            if middle.neg_one_negative {
                -val(middle.neg_one@)
            } else {
                val(middle.neg_one@) as int
            },
            val(middle.two@) as int,
        );
        let ghost (c1, c2, c3) = choose|c1: int, c2: int, c3: int|
            c1 >= 0 && c2 >= 0 && c3 >= 0 && #[trigger] five_points(c0, c1, c2, c3, c4) == observed;
        let MiddleValues { one, neg_one, two, neg_one_negative } = middle;
        let dst_len = dst.len();
        let zero = &dst[0..low_product_len];
        let infinity = if high_product_len > 0 {
            &dst[high_offset..high_offset + high_product_len]
        } else {
            &dst[0..0]
        };
        proof {
            assert(zero@ =~= dst@.subrange(0, low_product_len as int));
            if high_product_len == 0 {
                assert(infinity@ =~= Seq::<Limb>::empty());
            } else {
                assert(infinity@ =~= dst@.subrange(
                    high_offset as int,
                    high_offset + high_product_len,
                ));
            }
            lemma_val_bound(zero@);
            lemma_val_bound(infinity@);
        }
        Self::interpolate(
            zero,
            one,
            neg_one,
            two,
            infinity,
            neg_one_negative,
            Ghost(c0),
            Ghost(c1),
            Ghost(c2),
            Ghost(c3),
            Ghost(c4),
        );
    }

    /// Interpolates the three middle coefficients from the five point values:
    /// `zero = c(0)`, `one = c(1)`, `neg_one = |c(-1)|` with its sign,
    /// `two = c(2)` and `infinity = c(∞)`. Afterwards `neg_one`, `one` and
    /// `two` hold `c1`, `c2` and `c3`.
    fn interpolate(
        zero: &[Limb],
        one: &mut [Limb],
        neg_one: &mut [Limb],
        two: &mut [Limb],
        infinity: &[Limb],
        neg_one_negative: bool,
        Ghost(c0): Ghost<int>,
        Ghost(c1): Ghost<int>,
        Ghost(c2): Ghost<int>,
        Ghost(c3): Ghost<int>,
        Ghost(c4): Ghost<int>,
    )
        requires
            old(one)@.len() >= 1,
            old(neg_one)@.len() == old(one)@.len(),
            old(two)@.len() == old(one)@.len(),
            zero@.len() <= old(one)@.len(),
            infinity@.len() <= old(one)@.len(),
            c0 >= 0,
            c1 >= 0,
            c2 >= 0,
            c3 >= 0,
            c4 >= 0,
            val(zero@) == c0,
            val(infinity@) == c4,
            val(old(one)@) == c0 + c1 + c2 + c3 + c4,
            val(old(two)@) == c0 + 2 * c1 + 4 * c2 + 8 * c3 + 16 * c4,
            (if neg_one_negative {
                -val(old(neg_one)@)
            } else {
                val(old(neg_one)@) as int
            }) == c0 - c1 + c2 - c3 + c4,
            val(old(two)@) + val(old(neg_one)@) < pow_b(old(one)@.len()),
            val(old(one)@) + val(old(neg_one)@) < pow_b(old(one)@.len()),
        ensures
            final(one)@.len() == old(one)@.len(),
            final(neg_one)@.len() == old(neg_one)@.len(),
            final(two)@.len() == old(two)@.len(),
            val(final(neg_one)@) == c1,
            val(final(one)@) == c2,
            val(final(two)@) == c3,
    {
        let w = one.len();
        let ghost range = pow_b(w as nat) as int;
        let ghost v1 = val(one@) as int;
        let ghost v2 = val(two@) as int;
        let ghost nm = val(neg_one@) as int;
        // two = c(2) - c(-1)
        if neg_one_negative {
            let c = SsaCarry::add_full_in_place(two, neg_one);
            proof {
                lemma_val_bound(two@);
                lemma_exact_add(val(two@) as int, c as int, v2, nm, range);
            }
        } else {
            let b = SsaCarry::sub_full_in_place(two, neg_one);
            proof {
                lemma_val_bound(two@);
                lemma_exact_sub(val(two@) as int, b as int, v2, nm, range);
            }
        }
        // neg_one = c(1) - c(-1) = 2 (c1 + c3)
        if neg_one_negative {
            let c = SsaCarry::add_full_in_place(neg_one, one);
            proof {
                lemma_val_bound(neg_one@);
                lemma_exact_add(val(neg_one@) as int, c as int, nm, v1, range);
            }
        } else {
            let b = SsaCarry::sub_full_in_place(neg_one, one);
            proof {
                lemma_val_bound(neg_one@);
            }
            let ghost wrapped = val(neg_one@) as int;
            SharedEval::negate_in_place(neg_one);
            proof {
                if nm == v1 {
                    assert(b == 0);
                } else {
                    assert(b == 1);
                    assert(wrapped == nm - v1 + range);
                }
            }
        }
        proof {
            assert(val(neg_one@) == 2 * (c1 + c3));
            assert(val(two@) == 3 * (c1 + c2 + 3 * c3 + 5 * c4));
        }
        let r1 = SharedEval::div_word_in_place(neg_one, 2);
        let r2 = SharedEval::div_word_in_place(two, 3);
        proof {
            assert(val(neg_one@) == c1 + c3);
            assert(val(two@) == c1 + c2 + 3 * c3 + 5 * c4);
            lemma_val_bound(one@);
        }
        // one = c(1) - c(0)
        let b3 = SsaCarry::sub_full_in_place(one, zero);
        proof {
            lemma_val_bound(one@);
            lemma_exact_sub(val(one@) as int, b3 as int, v1, c0, range);
        }
        // two = (two - one) / 2 = c3 + 2 c4
        let ghost t1 = val(two@) as int;
        let ghost o1 = val(one@) as int;
        let b4 = SsaCarry::sub_full_in_place(two, one);
        proof {
            lemma_val_bound(two@);
            lemma_exact_sub(val(two@) as int, b4 as int, t1, o1, range);
        }
        let r3 = SharedEval::div_word_in_place(two, 2);
        proof {
            assert(val(two@) == c3 + 2 * c4);
        }
        // one = one - neg_one - infinity = c2
        let ghost n1 = val(neg_one@) as int;
        let b5 = SsaCarry::sub_full_in_place(one, neg_one);
        proof {
            lemma_val_bound(one@);
            lemma_exact_sub(val(one@) as int, b5 as int, o1, n1, range);
        }
        let ghost o2 = val(one@) as int;
        let b6 = SsaCarry::sub_full_in_place(one, infinity);
        proof {
            lemma_val_bound(one@);
            lemma_exact_sub(val(one@) as int, b6 as int, o2, c4, range);
        }
        // two = two - 2 infinity = c3
        let ghost t2 = val(two@) as int;
        let b7 = SsaCarry::sub_full_in_place(two, infinity);
        proof {
            lemma_val_bound(two@);
            lemma_exact_sub(val(two@) as int, b7 as int, t2, c4, range);
        }
        let ghost t3 = val(two@) as int;
        let b8 = SsaCarry::sub_full_in_place(two, infinity);
        proof {
            lemma_val_bound(two@);
            lemma_exact_sub(val(two@) as int, b8 as int, t3, c4, range);
        }
        // neg_one = neg_one - two = c1
        let ghost t4 = val(two@) as int;
        let b9 = SsaCarry::sub_full_in_place(neg_one, two);
        proof {
            lemma_val_bound(neg_one@);
            lemma_exact_sub(val(neg_one@) as int, b9 as int, n1, t4, range);
        }
    }
}

/// The product of two magnitudes is the magnitude of the product, and its
/// sign is the parity of the two signs.
pub proof fn lemma_signed_product(x: int, y: int)
    ensures
        abs(x) * abs(y) == abs(x * y),
        (if (x < 0) != (y < 0) {
            -(abs(x) * abs(y))
        } else {
            abs(x) * abs(y)
        }) == x * y,
{
    assert(abs(x) * abs(y) == abs(x * y)) by (nonlinear_arith);
    assert((if (x < 0) != (y < 0) {
        -(abs(x) * abs(y))
    } else {
        abs(x) * abs(y)
    }) == x * y) by (nonlinear_arith);
}

/// The point values of two three-part operands fit the `2s + 1`-limb
/// buffers, with room for the interpolation's sums.
proof fn lemma_point_bounds(a0: int, a1: int, a2: int, b0: int, b1: int, b2: int, p: int)
    requires
        0 <= a0 < p,
        0 <= a1 < p,
        0 <= a2 < p,
        0 <= b0 < p,
        0 <= b1 < p,
        0 <= b2 < p,
    ensures
        (a0 + a1 + a2) * (b0 + b1 + b2) < 9 * (p * p),
        abs(a0 - a1 + a2) * abs(b0 - b1 + b2) < 4 * (p * p),
        (a0 + 2 * a1 + 4 * a2) * (b0 + 2 * b1 + 4 * b2) < 49 * (p * p),
        abs(a0 - a1 + a2) < 2 * p,
        abs(b0 - b1 + b2) < 2 * p,
{
    assert((a0 + a1 + a2) * (b0 + b1 + b2) < 9 * (p * p)) by (nonlinear_arith)
        requires
            0 <= a0 + a1 + a2 < 3 * p,
            0 <= b0 + b1 + b2 < 3 * p,
    ;
    assert(abs(a0 - a1 + a2) * abs(b0 - b1 + b2) < 4 * (p * p)) by (nonlinear_arith)
        requires
            0 <= abs(a0 - a1 + a2) < 2 * p,
            0 <= abs(b0 - b1 + b2) < 2 * p,
    ;
    assert((a0 + 2 * a1 + 4 * a2) * (b0 + 2 * b1 + 4 * b2) < 49 * (p * p)) by (nonlinear_arith)
        requires
            0 <= a0 + 2 * a1 + 4 * a2 < 7 * p,
            0 <= b0 + 2 * b1 + 4 * b2 < 7 * p,
    ;
}

impl Toom3 {
    /// Multiplies two evaluations of `s + 1` limbs into `2s + 1` limbs: the
    /// low `s` limbs recursively, the top limbs as word corrections.
    fn guarded_product(
        dst: &mut [Limb],
        x: &[Limb],
        y: &[Limb],
        inner: &mut [Limb],
        square: bool,
    )
        requires
            x@.len() >= 1,
            y@.len() == x@.len(),
            old(dst)@.len() == 2 * x@.len() - 1,
            val(x@) * val(y@) < pow_b((2 * x@.len() - 1) as nat),
            old(inner)@.len() >= spec_toom3_scratch((x@.len() - 1) as nat),
            square ==> x@ == y@,
        ensures
            final(dst)@.len() == old(dst)@.len(),
            final(inner)@.len() == old(inner)@.len(),
            val(final(dst)@) == val(x@) * val(y@),
        decreases x@.len(), 0nat,
    {
        let s = x.len() - 1;
        let dl = dst.len();
        let xl = &x[0..s];
        let yl = &y[0..s];
        let gx = x[s];
        let gy = y[s];
        let ghost p = pow_b(s as nat) as int;
        proof {
            lemma_val_prefix_step_full(x@, s as int);
            lemma_val_prefix_step_full(y@, s as int);
            assert(xl@ =~= x@.subrange(0, s as int));
            assert(yl@ =~= y@.subrange(0, s as int));
            lemma_pow_b_pos(s as nat);
            lemma_pow_b_add(s as nat, s as nat);
            lemma_pow_b_add((2 * s) as nat, 1);
            crate::limbs::lemma_pow_b_one();
            assert(2 * s + 1 == 2 * x@.len() - 1);
        }
        let ghost low_final: Seq<Limb>;
        let ghost top_final: Seq<Limb>;
        {
            let (low, top) = dst.split_at_mut(dl - 1);
            if square {
                Self::sqr_exact(low, xl, inner);
            } else {
                Self::mul_exact(low, xl, yl, inner);
            }
            top[0] = 0;
            proof {
                low_final = low@;
                top_final = top@;
            }
        }
        proof {
            assert(dst@ =~= low_final + top_final);
            assert(top_final =~= seq![0u64]);
            lemma_val_concat(low_final, top_final);
            crate::limbs::lemma_val_single(0);
            lemma_mul_basics(pow_b(low_final.len()) as int);
            assert(val(dst@) == val(xl@) * val(yl@));
        }
        let ghost xv = val(xl@) as int;
        let ghost yv = val(yl@) as int;
        proof {
            let big = pow_b((2 * s + 1) as nat) as int;
            let q = p * p;
            assert(val(x@) == xv + gx * p);
            assert(val(y@) == yv + gy * p);
            lemma_expand2(xv, gx as int, yv, gy as int, p);
            lemma_mul_nonnegative(xv, yv);
            lemma_mul_nonnegative(yv * gx, p);
            lemma_mul_nonnegative(yv, gx as int);
            lemma_mul_nonnegative(xv, gy as int);
            lemma_mul_nonnegative(xv * gy, p);
            lemma_mul_nonnegative(gx as int, gy as int);
            lemma_mul_nonnegative(p, p);
            lemma_mul_nonnegative(gx * gy, q);
            assert(big == q * radix());
            lemma_mul_is_commutative(q, radix() as int);
            lemma_mul_strict_inequality_converse(gx * gy, radix() as int, q);
        }
        SharedEval::add_mul_word_at(dst, yl, gx, s);
        SharedEval::add_mul_word_at(dst, xl, gy, s);
        let corner: [Limb; 1] = [gx * gy];
        proof {
            assert(corner@ =~= seq![(gx * gy) as u64]);
            crate::limbs::lemma_val_single((gx * gy) as u64);
        }
        SharedEval::add_coefficient_in_place(dst, &corner, 2 * s);
    }

    /// One level of the three-way split for operands of at least three limbs
    /// each; `square` reuses the left operand's evaluations for the right.
    #[verifier::rlimit(100)]
    #[verifier::spinoff_prover]
    fn toom3_core(dst: &mut [Limb], a: &[Limb], b: &[Limb], scratch: &mut [Limb], square: bool)
        requires
            a@.len() >= 3,
            b@.len() >= 3,
            old(dst)@.len() == a@.len() + b@.len(),
            old(scratch)@.len() >= spec_toom3_scratch(
                if a@.len() >= b@.len() {
                    a@.len()
                } else {
                    b@.len()
                },
            ),
            square ==> a@ == b@,
        ensures
            final(dst)@.len() == old(dst)@.len(),
            final(scratch)@.len() == old(scratch)@.len(),
            val(final(dst)@) == val(a@) * val(b@),
        decreases (if a@.len() >= b@.len() {
            a@.len()
        } else {
            b@.len()
        }), 1nat,
    {
        let total = dst.len();
        let n = if a.len() >= b.len() {
            a.len()
        } else {
            b.len()
        };
        let s = (n + 2) / 3;
        let (a0, a1, a2) = Self::split_three(a, s);
        let (b0, b1, b2) = Self::split_three(b, s);
        let w = 2 * s + 1;
        let e = s + 1;
        let ghost av = (val(a0@) as int, val(a1@) as int, val(a2@) as int);
        let ghost bv = (val(b0@) as int, val(b1@) as int, val(b2@) as int);
        let ghost c0 = av.0 * bv.0;
        let ghost c1 = av.0 * bv.1 + av.1 * bv.0;
        let ghost c2 = av.0 * bv.2 + av.1 * bv.1 + av.2 * bv.0;
        let ghost c3 = av.1 * bv.2 + av.2 * bv.1;
        let ghost c4 = av.2 * bv.2;
        proof {
            if square {
                assert(b0@ =~= a0@);
                assert(b1@ =~= a1@);
                assert(b2@ =~= a2@);
            }
            lemma_toom3_scratch_monotone(a0@.len(), s as nat);
            lemma_toom3_scratch_monotone(b0@.len(), s as nat);
            lemma_toom3_scratch_monotone(a2@.len(), s as nat);
            lemma_toom3_scratch_monotone(b2@.len(), s as nat);
        }
        let ScratchLayout { one, neg_one, two, eval_a, eval_b, inner } = Self::split_scratch(
            scratch,
            w,
            e,
        );
        let neg_one_negative = Self::evaluate_points(
            one,
            neg_one,
            two,
            eval_a,
            eval_b,
            inner,
            a0,
            a1,
            a2,
            b0,
            b1,
            b2,
            s,
            square,
        );
        proof {
            Self::lemma_core_algebra(a0@, a1@, a2@, b0@, b1@, b2@, s as nat);
            lemma_signed_product(av.0 - av.1 + av.2, bv.0 - bv.1 + bv.2);
            Self::lemma_core_result(a@, b@, a0@, a1@, a2@, b0@, b1@, b2@, s as nat);
        }
        Self::finish(
            dst,
            one,
            neg_one,
            two,
            inner,
            a0,
            b0,
            a2,
            b2,
            s,
            neg_one_negative,
            square,
            Ghost(c0),
            Ghost(c1),
            Ghost(c2),
            Ghost(c3),
            Ghost(c4),
        );
    }

    /// The algebra behind one level: the point values in terms of the
    /// product's coefficients, their nonnegativity, and the room the
    /// interpolation needs.
    proof fn lemma_core_algebra(
        a0: Seq<Limb>,
        a1: Seq<Limb>,
        a2: Seq<Limb>,
        b0: Seq<Limb>,
        b1: Seq<Limb>,
        b2: Seq<Limb>,
        s: nat,
    )
        requires
            s >= 1,
            a0.len() <= s,
            a1.len() <= s,
            a2.len() <= s,
            b0.len() <= s,
            b1.len() <= s,
            b2.len() <= s,
        ensures
            ({
                let (x0, x1, x2) = (val(a0) as int, val(a1) as int, val(a2) as int);
                let (y0, y1, y2) = (val(b0) as int, val(b1) as int, val(b2) as int);
                let c0 = x0 * y0;
                let c1 = x0 * y1 + x1 * y0;
                let c2 = x0 * y2 + x1 * y1 + x2 * y0;
                let c3 = x1 * y2 + x2 * y1;
                let c4 = x2 * y2;
                &&& c0 >= 0 && c1 >= 0 && c2 >= 0 && c3 >= 0 && c4 >= 0
                &&& (x0 + x1 + x2) * (y0 + y1 + y2) == c0 + c1 + c2 + c3 + c4
                &&& (x0 - x1 + x2) * (y0 - y1 + y2) == c0 - c1 + c2 - c3 + c4
                &&& (x0 + 2 * x1 + 4 * x2) * (y0 + 2 * y1 + 4 * y2) == c0 + 2 * c1 + 4 * c2 + 8
                    * c3 + 16 * c4
                &&& (x0 + 2 * x1 + 4 * x2) * (y0 + 2 * y1 + 4 * y2) + abs(x0 - x1 + x2) * abs(
                    y0 - y1 + y2,
                ) < pow_b(2 * s + 1)
                &&& (x0 + x1 + x2) * (y0 + y1 + y2) + abs(x0 - x1 + x2) * abs(y0 - y1 + y2)
                    < pow_b(2 * s + 1)
            }),
    {
        let p = pow_b(s) as int;
        let (x0, x1, x2) = (val(a0) as int, val(a1) as int, val(a2) as int);
        let (y0, y1, y2) = (val(b0) as int, val(b1) as int, val(b2) as int);
        let c0 = x0 * y0;
        let c1 = x0 * y1 + x1 * y0;
        let c2 = x0 * y2 + x1 * y1 + x2 * y0;
        let c3 = x1 * y2 + x2 * y1;
        let c4 = x2 * y2;
        lemma_pow_b_pos(s);
        lemma_val_bound(a0);
        lemma_val_bound(a1);
        lemma_val_bound(a2);
        lemma_val_bound(b0);
        lemma_val_bound(b1);
        lemma_val_bound(b2);
        lemma_pow_b_monotone(a0.len(), s);
        lemma_pow_b_monotone(a1.len(), s);
        lemma_pow_b_monotone(a2.len(), s);
        lemma_pow_b_monotone(b0.len(), s);
        lemma_pow_b_monotone(b1.len(), s);
        lemma_pow_b_monotone(b2.len(), s);
        lemma_point_bounds(x0, x1, x2, y0, y1, y2, p);
        lemma_toom3_points(x0, x1, x2, y0, y1, y2, p, c0, c1, c2, c3, c4);
        lemma_pow_b_add(s, s);
        lemma_pow_b_add(2 * s, 1);
        crate::limbs::lemma_pow_b_one();
        assert(pow_b(2 * s + 1) == (p * p) * radix());
        assert(53 * (p * p) < (p * p) * radix()) by (nonlinear_arith)
            requires
                p >= 1,
        ;
        assert(c0 >= 0 && c1 >= 0 && c2 >= 0 && c3 >= 0 && c4 >= 0) by (nonlinear_arith)
            requires
                x0 >= 0,
                x1 >= 0,
                x2 >= 0,
                y0 >= 0,
                y1 >= 0,
                y2 >= 0,
                c0 == x0 * y0,
                c1 == x0 * y1 + x1 * y0,
                c2 == x0 * y2 + x1 * y1 + x2 * y0,
                c3 == x1 * y2 + x2 * y1,
                c4 == x2 * y2,
        ;
    }

    /// The product is the five coefficients placed at their part widths.
    proof fn lemma_core_result(
        a: Seq<Limb>,
        b: Seq<Limb>,
        a0: Seq<Limb>,
        a1: Seq<Limb>,
        a2: Seq<Limb>,
        b0: Seq<Limb>,
        b1: Seq<Limb>,
        b2: Seq<Limb>,
        s: nat,
    )
        requires
            val(a) == val(a0) + pow_b(s) * val(a1) + pow_b(2 * s) * val(a2),
            val(b) == val(b0) + pow_b(s) * val(b1) + pow_b(2 * s) * val(b2),
        ensures
            ({
                let (x0, x1, x2) = (val(a0) as int, val(a1) as int, val(a2) as int);
                let (y0, y1, y2) = (val(b0) as int, val(b1) as int, val(b2) as int);
                let x = pow_b(s) as int;
                val(a) * val(b) == x0 * y0 + (x0 * y1 + x1 * y0) * x + (x0 * y2 + x1 * y1 + x2
                    * y0) * (x * x) + (x1 * y2 + x2 * y1) * (x * x * x) + (x2 * y2) * (x * x * x
                    * x)
            }),
            val(a) * val(b) < pow_b(a.len() + b.len()),
    {
        lemma_val_bound(a);
        lemma_val_bound(b);
        lemma_pow_b_add(a.len(), b.len());
        assert(val(a) * val(b) < pow_b(a.len()) * pow_b(b.len())) by (nonlinear_arith)
            requires
                val(a) < pow_b(a.len()),
                val(b) < pow_b(b.len()),
        ;
        let (x0, x1, x2) = (val(a0) as int, val(a1) as int, val(a2) as int);
        let (y0, y1, y2) = (val(b0) as int, val(b1) as int, val(b2) as int);
        let x = pow_b(s) as int;
        lemma_pow_b_add(s, s);
        assert(2 * s == s + s);
        lemma_poly_product(
            x0,
            x1,
            x2,
            y0,
            y1,
            y2,
            x,
            x0 * y0,
            x0 * y1 + x1 * y0,
            x0 * y2 + x1 * y1 + x2 * y0,
            x1 * y2 + x2 * y1,
            x2 * y2,
        );
        lemma_mul_is_commutative(x, x1);
        lemma_mul_is_commutative(x, y1);
        lemma_mul_is_commutative(x * x, x2);
        lemma_mul_is_commutative(x * x, y2);
    }

    /// Places the two endpoint products, interpolates the middle three
    /// coefficients from the point values, and adds them in: afterwards `dst`
    /// holds `c0 + c1 X + c2 X^2 + c3 X^3 + c4 X^4` with `X = B^s`.
    #[verifier::rlimit(40)]
    #[verifier::spinoff_prover]
    fn finish(
        dst: &mut [Limb],
        one: &mut [Limb],
        neg_one: &mut [Limb],
        two: &mut [Limb],
        inner: &mut [Limb],
        a0: &[Limb],
        b0: &[Limb],
        a2: &[Limb],
        b2: &[Limb],
        s: usize,
        neg_one_negative: bool,
        square: bool,
        Ghost(c0): Ghost<int>,
        Ghost(c1): Ghost<int>,
        Ghost(c2): Ghost<int>,
        Ghost(c3): Ghost<int>,
        Ghost(c4): Ghost<int>,
    )
        requires
            s >= 1,
            old(one)@.len() == 2 * s + 1,
            old(neg_one)@.len() == 2 * s + 1,
            old(two)@.len() == 2 * s + 1,
            a0@.len() <= s,
            b0@.len() <= s,
            a2@.len() <= s,
            b2@.len() <= s,
            a2@.len() > 0 && b2@.len() > 0 ==> 4 * s + a2@.len() + b2@.len() == old(dst)@.len(),
            3 * s < old(dst)@.len(),
            a0@.len() + b0@.len() <= old(dst)@.len(),
            old(inner)@.len() >= spec_toom3_scratch(s as nat),
            square ==> a0@ == b0@ && a2@ == b2@,
            c0 == val(a0@) * val(b0@),
            c4 == val(a2@) * val(b2@),
            c0 >= 0 && c1 >= 0 && c2 >= 0 && c3 >= 0 && c4 >= 0,
            val(old(one)@) == c0 + c1 + c2 + c3 + c4,
            val(old(two)@) == c0 + 2 * c1 + 4 * c2 + 8 * c3 + 16 * c4,
            (if neg_one_negative {
                -val(old(neg_one)@)
            } else {
                val(old(neg_one)@) as int
            }) == c0 - c1 + c2 - c3 + c4,
            val(old(two)@) + val(old(neg_one)@) < pow_b(2 * s as nat + 1),
            val(old(one)@) + val(old(neg_one)@) < pow_b(2 * s as nat + 1),
            ({
                let x = pow_b(s as nat) as int;
                c0 + c1 * x + c2 * (x * x) + c3 * (x * x * x) + c4 * (x * x * x * x) < pow_b(
                    old(dst)@.len(),
                )
            }),
        ensures
            final(dst)@.len() == old(dst)@.len(),
            final(one)@.len() == old(one)@.len(),
            final(neg_one)@.len() == old(neg_one)@.len(),
            final(two)@.len() == old(two)@.len(),
            final(inner)@.len() == old(inner)@.len(),
            ({
                let x = pow_b(s as nat) as int;
                val(final(dst)@) == c0 + c1 * x + c2 * (x * x) + c3 * (x * x * x) + c4 * (x * x * x
                    * x)
            }),
        decreases s + 2, 0nat,
    {
        let dl = dst.len();
        let ghost x = pow_b(s as nat) as int;
        let low_len = a0.len() + b0.len();
        let high_len = if a2.len() == 0 || b2.len() == 0 {
            0
        } else {
            a2.len() + b2.len()
        };
        let high_offset = if high_len > 0 {
            4 * s
        } else {
            low_len
        };
        proof {
            lemma_toom3_scratch_monotone(
                if a0@.len() >= b0@.len() {
                    a0@.len()
                } else {
                    b0@.len()
                },
                s as nat,
            );
            lemma_toom3_scratch_monotone(
                if a2@.len() >= b2@.len() {
                    a2@.len()
                } else {
                    b2@.len()
                },
                s as nat,
            );
            if high_len == 0 {
                assert(c4 == 0) by (nonlinear_arith)
                    requires
                        c4 == val(a2@) * val(b2@),
                        val(a2@) == 0 || val(b2@) == 0,
                ;
            }
            if a2@.len() == 0 {
                assert(a2@ =~= Seq::<Limb>::empty());
            }
            if b2@.len() == 0 {
                assert(b2@ =~= Seq::<Limb>::empty());
            }
        }
        Self::write_endpoints(dst, a0, b0, a2, b2, low_len, high_offset, high_len, inner, square);
        proof {
            if high_len > 0 {
                assert(dst@.subrange(high_offset as int, high_offset + high_len) =~= dst@.subrange(
                    high_offset as int,
                    (high_offset + high_len) as int,
                ));
            }
        }
        proof {
            assert(five_points(
                endpoint_value(dst@, 0, low_len as int),
                c1,
                c2,
                c3,
                endpoint_value(dst@, high_offset as int, high_len as int),
            ) == (
                val(one@) as int,
                if neg_one_negative {
                    -val(neg_one@)
                } else {
                    val(neg_one@) as int
                },
                val(two@) as int,
            ));
        }
        Self::interpolate_endpoints(
            dst,
            low_len,
            high_offset,
            high_len,
            MiddleValues { one: &mut *one, neg_one: &mut *neg_one, two: &mut *two, neg_one_negative },
        );
        proof {
            lemma_pow_b_add(s as nat, s as nat);
            lemma_pow_b_add((2 * s) as nat, s as nat);
            lemma_pow_b_add((2 * s) as nat, (2 * s) as nat);
            assert(pow_b((2 * s) as nat) == x * x);
            assert(pow_b((3 * s) as nat) == x * x * x) by (nonlinear_arith)
                requires
                    pow_b((3 * s) as nat) == pow_b((2 * s) as nat) * pow_b(s as nat),
                    pow_b((2 * s) as nat) == x * x,
                    pow_b(s as nat) == x,
            ;
            assert(pow_b((4 * s) as nat) == x * x * x * x) by (nonlinear_arith)
                requires
                    pow_b((4 * s) as nat) == pow_b((2 * s) as nat) * pow_b((2 * s) as nat),
                    pow_b((2 * s) as nat) == x * x,
            ;
            if high_len > 0 {
                assert(val(dst@) == c0 + c4 * (x * x * x * x));
            } else {
                lemma_mul_basics(pow_b(high_offset as nat) as int);
                lemma_mul_basics(x * x * x * x);
                assert(val(dst@) == c0 + c4 * (x * x * x * x));
            }
            lemma_mul_is_commutative(val(neg_one@) as int, x);
            lemma_mul_is_commutative(val(one@) as int, x * x);
            lemma_mul_is_commutative(val(two@) as int, x * x * x);
        }
        Self::reconstruct_middle(dst, s, neg_one, one, two);
    }

    /// Writes the value of a three-part operand at `1` over the low `s + 1`
    /// limbs of `point` and the magnitude of its value at `-1` over
    /// `magnitude`, returning the sign of the latter.
    fn evaluate_into_prefix(
        point: &mut [Limb],
        magnitude: &mut [Limb],
        part0: &[Limb],
        part1: &[Limb],
        part2: &[Limb],
        s: usize,
    ) -> (negative: bool)
        requires
            old(point)@.len() == 2 * s + 1,
            old(magnitude)@.len() == s + 1,
            part0@.len() <= s,
            part1@.len() <= s,
            part2@.len() <= s,
        ensures
            final(point)@.len() == 2 * s + 1,
            final(magnitude)@.len() == s + 1,
            val(final(point)@.subrange(0, s + 1)) == val(part0@) + val(part1@) + val(part2@),
            val(final(magnitude)@) == abs(val(part0@) - val(part1@) + val(part2@)),
            negative == (val(part0@) - val(part1@) + val(part2@) < 0),
    {
        let ghost positive_final: Seq<Limb>;
        let negative;
        {
            let e = magnitude.len();
            let (positive, _) = point.split_at_mut(e);
            negative = Self::evaluate_one_and_negative_one(positive, magnitude, part0, part1, part2);
            proof {
                positive_final = positive@;
            }
        }
        proof {
            assert(point@.subrange(0, s + 1) =~= positive_final);
        }
        negative
    }

    /// Evaluates both operands at `1`, `-1` and `2` and multiplies the
    /// evaluations pointwise into `one`, `neg_one` (as a magnitude) and
    /// `two`; the result is the sign of the value at `-1`.
    fn evaluate_points(
        one: &mut [Limb],
        neg_one: &mut [Limb],
        two: &mut [Limb],
        eval_a: &mut [Limb],
        eval_b: &mut [Limb],
        inner: &mut [Limb],
        a0: &[Limb],
        a1: &[Limb],
        a2: &[Limb],
        b0: &[Limb],
        b1: &[Limb],
        b2: &[Limb],
        s: usize,
        square: bool,
    ) -> (negative: bool)
        requires
            s >= 1,
            old(one)@.len() == 2 * s + 1,
            old(neg_one)@.len() == 2 * s + 1,
            old(two)@.len() == 2 * s + 1,
            old(eval_a)@.len() == s + 1,
            old(eval_b)@.len() == s + 1,
            old(inner)@.len() >= spec_toom3_scratch(s as nat),
            a0@.len() <= s,
            a1@.len() <= s,
            a2@.len() <= s,
            b0@.len() <= s,
            b1@.len() <= s,
            b2@.len() <= s,
            square ==> a0@ == b0@ && a1@ == b1@ && a2@ == b2@,
        ensures
            final(one)@.len() == 2 * s + 1,
            final(neg_one)@.len() == 2 * s + 1,
            final(two)@.len() == 2 * s + 1,
            final(eval_a)@.len() == s + 1,
            final(eval_b)@.len() == s + 1,
            final(inner)@.len() == old(inner)@.len(),
            val(final(one)@) == (val(a0@) + val(a1@) + val(a2@)) * (val(b0@) + val(b1@) + val(
                b2@,
            )),
            val(final(two)@) == (val(a0@) + 2 * val(a1@) + 4 * val(a2@)) * (val(b0@) + 2 * val(
                b1@,
            ) + 4 * val(b2@)),
            val(final(neg_one)@) == abs(val(a0@) - val(a1@) + val(a2@)) * abs(
                val(b0@) - val(b1@) + val(b2@),
            ),
            negative == ((val(a0@) - val(a1@) + val(a2@) < 0) != (val(b0@) - val(b1@) + val(b2@)
                < 0)),
        decreases s + 2, 0nat,
    {
        let e = eval_a.len();
        let ghost p = pow_b(s as nat) as int;
        let ghost big = pow_b((2 * s + 1) as nat) as int;
        proof {
            Self::lemma_point_ranges(a0@, a1@, a2@, b0@, b1@, b2@, s as nat);
        }
        let neg_a = Self::evaluate_into_prefix(one, eval_a, a0, a1, a2, s);
        let mut neg_b = neg_a;
        if !square {
            neg_b = Self::evaluate_into_prefix(two, eval_b, b0, b1, b2, s);
        }
        let ghost pos_a = one@.subrange(0, e as int);
        let ghost pos_b = if square {
            pos_a
        } else {
            two@.subrange(0, e as int)
        };
        if square {
            Self::guarded_product(neg_one, eval_a, eval_a, inner, true);
        } else {
            Self::guarded_product(neg_one, eval_a, eval_b, inner, false);
        }
        Addition::copy_prefix(eval_a, &one[0..e]);
        proof {
            assert(eval_a@ =~= pos_a);
        }
        if !square {
            Addition::copy_prefix(eval_b, &two[0..e]);
            proof {
                assert(eval_b@ =~= pos_b);
            }
        }
        if square {
            Self::guarded_product(one, eval_a, eval_a, inner, true);
        } else {
            Self::guarded_product(one, eval_a, eval_b, inner, false);
        }
        Self::evaluate_two_from_one(eval_a, a1, a2);
        if !square {
            Self::evaluate_two_from_one(eval_b, b1, b2);
        }
        if square {
            Self::guarded_product(two, eval_a, eval_a, inner, true);
        } else {
            Self::guarded_product(two, eval_a, eval_b, inner, false);
        }
        neg_a != neg_b
    }

    /// The evaluations of two three-part operands of parts below `B^s` fit
    /// their buffers, and so do their products.
    proof fn lemma_point_ranges(
        a0: Seq<Limb>,
        a1: Seq<Limb>,
        a2: Seq<Limb>,
        b0: Seq<Limb>,
        b1: Seq<Limb>,
        b2: Seq<Limb>,
        s: nat,
    )
        requires
            s >= 1,
            a0.len() <= s,
            a1.len() <= s,
            a2.len() <= s,
            b0.len() <= s,
            b1.len() <= s,
            b2.len() <= s,
        ensures
            (val(a0) + val(a1) + val(a2)) * (val(b0) + val(b1) + val(b2)) < pow_b(2 * s + 1),
            abs(val(a0) - val(a1) + val(a2)) * abs(val(b0) - val(b1) + val(b2)) < pow_b(
                2 * s + 1,
            ),
            (val(a0) + 2 * val(a1) + 4 * val(a2)) * (val(b0) + 2 * val(b1) + 4 * val(b2)) < pow_b(
                2 * s + 1,
            ),
            val(a0) + val(a1) + val(a2) + val(a1) + 3 * val(a2) < pow_b(s + 1),
            val(b0) + val(b1) + val(b2) + val(b1) + 3 * val(b2) < pow_b(s + 1),
    {
        let p = pow_b(s) as int;
        lemma_pow_b_pos(s);
        lemma_val_bound(a0);
        lemma_val_bound(a1);
        lemma_val_bound(a2);
        lemma_val_bound(b0);
        lemma_val_bound(b1);
        lemma_val_bound(b2);
        lemma_pow_b_monotone(a0.len(), s);
        lemma_pow_b_monotone(a1.len(), s);
        lemma_pow_b_monotone(a2.len(), s);
        lemma_pow_b_monotone(b0.len(), s);
        lemma_pow_b_monotone(b1.len(), s);
        lemma_pow_b_monotone(b2.len(), s);
        lemma_point_bounds(
            val(a0) as int,
            val(a1) as int,
            val(a2) as int,
            val(b0) as int,
            val(b1) as int,
            val(b2) as int,
            p,
        );
        lemma_pow_b_add(s, s);
        lemma_pow_b_add(2 * s, 1);
        lemma_pow_b_add(s, 1);
        crate::limbs::lemma_pow_b_one();
        assert(49 * (p * p) < (p * p) * radix()) by (nonlinear_arith)
            requires
                p >= 1,
        ;
        assert(7 * p < p * radix()) by (nonlinear_arith)
            requires
                p >= 1,
        ;
    }

    /// Writes `a0 * b0` at the bottom of `dst` and, when `high_len` is
    /// nonzero, `a2 * b2` at `high_offset`, zeroing every other limb.
    fn write_endpoints(
        dst: &mut [Limb],
        a0: &[Limb],
        b0: &[Limb],
        a2: &[Limb],
        b2: &[Limb],
        low_len: usize,
        high_offset: usize,
        high_len: usize,
        inner: &mut [Limb],
        square: bool,
    )
        requires
            low_len == a0@.len() + b0@.len(),
            low_len <= high_offset,
            low_len <= old(dst)@.len(),
            high_len == 0 || (high_len == a2@.len() + b2@.len() && high_offset + high_len
                == old(dst)@.len()),
            old(inner)@.len() >= spec_toom3_scratch(
                if a0@.len() >= b0@.len() {
                    a0@.len()
                } else {
                    b0@.len()
                },
            ),
            old(inner)@.len() >= spec_toom3_scratch(
                if a2@.len() >= b2@.len() {
                    a2@.len()
                } else {
                    b2@.len()
                },
            ),
            square ==> a0@ == b0@ && a2@ == b2@,
        ensures
            final(dst)@.len() == old(dst)@.len(),
            final(inner)@.len() == old(inner)@.len(),
            val(final(dst)@.subrange(0, low_len as int)) == val(a0@) * val(b0@),
            high_len > 0 ==> val(
                final(dst)@.subrange(high_offset as int, (high_offset + high_len) as int),
            ) == val(a2@) * val(b2@),
            val(final(dst)@) == val(a0@) * val(b0@) + (if high_len > 0 {
                val(a2@) * val(b2@)
            } else {
                0
            }) * pow_b(high_offset as nat),
        decreases 1 + spec_max4(a0@.len(), b0@.len(), a2@.len(), b2@.len()), 0nat,
    {
        let ghost n = dst@.len();
        let ghost zero_final: Seq<Limb>;
        let ghost rest_final: Seq<Limb>;
        let ghost gap_final: Seq<Limb> = Seq::empty();
        let ghost inf_final: Seq<Limb> = Seq::empty();
        {
            let (zero, rest) = dst.split_at_mut(low_len);
            if square {
                Self::sqr_exact(zero, a0, inner);
            } else {
                Self::mul_exact(zero, a0, b0, inner);
            }
            if high_len == 0 {
                Addition::fill_zero(rest);
                proof {
                    lemma_val_zero(rest@);
                }
            } else {
                {
                    let (gap, high) = rest.split_at_mut(high_offset - low_len);
                    Addition::fill_zero(gap);
                    if square {
                        Self::sqr_exact(high, a2, inner);
                    } else {
                        Self::mul_exact(high, a2, b2, inner);
                    }
                    proof {
                        gap_final = gap@;
                        inf_final = high@;
                    }
                }
                proof {
                    assert(rest@ =~= gap_final + inf_final);
                }
            }
            proof {
                zero_final = zero@;
                rest_final = rest@;
            }
        }
        proof {
            assert(dst@ =~= zero_final + rest_final);
            assert(dst@.subrange(0, low_len as int) =~= zero_final);
            Self::lemma_endpoint_values(
                dst@,
                zero_final,
                rest_final,
                gap_final,
                inf_final,
                low_len as nat,
                high_offset as nat,
                high_len as nat,
                (val(a0@) * val(b0@)) as int,
                (val(a2@) * val(b2@)) as int,
            );
        }
    }

    /// The destination's value from its three regions.
    proof fn lemma_endpoint_values(
        d: Seq<Limb>,
        zero: Seq<Limb>,
        rest: Seq<Limb>,
        gap: Seq<Limb>,
        inf: Seq<Limb>,
        low_len: nat,
        high_offset: nat,
        high_len: nat,
        c0: int,
        c4: int,
    )
        requires
            d == zero + rest,
            zero.len() == low_len,
            val(zero) == c0,
            high_len == 0 ==> crate::limbs::all_zero(rest),
            high_len > 0 ==> {
                &&& rest == gap + inf
                &&& gap.len() == high_offset - low_len
                &&& crate::limbs::all_zero(gap)
                &&& inf.len() == high_len
                &&& val(inf) == c4
            },
            low_len <= high_offset,
        ensures
            high_len > 0 ==> val(d.subrange(high_offset as int, (high_offset + high_len) as int))
                == c4,
            val(d) == c0 + (if high_len > 0 {
                c4
            } else {
                0
            }) * pow_b(high_offset),
    {
        lemma_val_concat(zero, rest);
        if high_len > 0 {
            assert(d.subrange(high_offset as int, (high_offset + high_len) as int) =~= inf);
            lemma_val_concat(gap, inf);
            lemma_val_zero(gap);
            lemma_pow_b_add(low_len, (high_offset - low_len) as nat);
            lemma_mul_is_associative(
                pow_b(low_len) as int,
                pow_b((high_offset - low_len) as nat) as int,
                c4,
            );
            lemma_mul_is_commutative(pow_b(high_offset) as int, c4);
        } else {
            lemma_val_zero(rest);
            lemma_mul_basics(pow_b(low_len) as int);
            lemma_mul_basics(pow_b(high_offset) as int);
        }
    }
}

/// The largest of four lengths.
pub open spec fn spec_max4(a: nat, b: nat, c: nat, d: nat) -> nat {
    let ab = if a >= b { a } else { b };
    let cd = if c >= d { c } else { d };
    if ab >= cd { ab } else { cd }
}

impl Toom3 {
    /// Multiplies `a` by `b` into `dst`, which holds at least
    /// `a.len() + b.len()` limbs and receives the product zero-extended.
    pub fn mul(dst: &mut [Limb], a: &[Limb], b: &[Limb], scratch: &mut [Limb])
        requires
            old(dst)@.len() >= a@.len() + b@.len(),
            old(scratch)@.len() >= spec_toom3_scratch(
                if a@.len() >= b@.len() {
                    a@.len()
                } else {
                    b@.len()
                },
            ),
        ensures
            final(dst)@.len() == old(dst)@.len(),
            final(scratch)@.len() == old(scratch)@.len(),
            val(final(dst)@) == val(a@) * val(b@),
    {
        let dl = dst.len();
        let n = a.len() + b.len();
        if dl == n {
            Self::mul_exact(dst, a, b, scratch);
        } else {
            let mut full: Vec<Limb> = vec![0; n];
            Self::mul_exact(full.as_mut_slice(), a, b, scratch);
            Addition::copy_zero_extended(dst, full.as_slice());
        }
    }

    /// Squares `a` into `dst`, which holds at least `2 * a.len()` limbs and
    /// receives the square zero-extended.
    pub fn sqr(dst: &mut [Limb], a: &[Limb], scratch: &mut [Limb])
        requires
            old(dst)@.len() >= 2 * a@.len(),
            old(scratch)@.len() >= spec_toom3_scratch(a@.len()),
        ensures
            final(dst)@.len() == old(dst)@.len(),
            final(scratch)@.len() == old(scratch)@.len(),
            val(final(dst)@) == val(a@) * val(a@),
    {
        let dl = dst.len();
        let n = 2 * a.len();
        if dl == n {
            Self::sqr_exact(dst, a, scratch);
        } else {
            let mut full: Vec<Limb> = vec![0; n];
            Self::sqr_exact(full.as_mut_slice(), a, scratch);
            Addition::copy_zero_extended(dst, full.as_slice());
        }
    }

    /// Multiplies `a` by `b` into `dst`, which holds exactly
    /// `a.len() + b.len()` limbs: through the three-way split once both
    /// operands reach the tier's threshold, by the basecase below it.
    pub(crate) fn mul_exact(dst: &mut [Limb], a: &[Limb], b: &[Limb], scratch: &mut [Limb])
        requires
            old(dst)@.len() == a@.len() + b@.len(),
            old(scratch)@.len() >= spec_toom3_scratch(
                if a@.len() >= b@.len() {
                    a@.len()
                } else {
                    b@.len()
                },
            ),
        ensures
            final(dst)@.len() == old(dst)@.len(),
            final(scratch)@.len() == old(scratch)@.len(),
            val(final(dst)@) == val(a@) * val(b@),
        decreases (if a@.len() >= b@.len() {
            a@.len()
        } else {
            b@.len()
        }), 3nat,
    {
        if a.len() < TOOM_COOK_THRESHOLD || b.len() < TOOM_COOK_THRESHOLD || a.len() < 3
            || b.len() < 3 {
            Multiplication::mul_limbs(dst, a, b);
            return;
        }
        Self::mul_forced_exact(dst, a, b, scratch);
    }

    /// The three-way product regardless of the threshold, into a `dst` of at
    /// least `a.len() + b.len()` limbs that receives it zero-extended.
    pub fn mul_forced(dst: &mut [Limb], a: &[Limb], b: &[Limb], scratch: &mut [Limb])
        requires
            old(dst)@.len() >= a@.len() + b@.len(),
            old(scratch)@.len() >= spec_toom3_scratch(
                if a@.len() >= b@.len() {
                    a@.len()
                } else {
                    b@.len()
                },
            ),
        ensures
            final(dst)@.len() == old(dst)@.len(),
            final(scratch)@.len() == old(scratch)@.len(),
            val(final(dst)@) == val(a@) * val(b@),
    {
        let dl = dst.len();
        let n = a.len() + b.len();
        if dl == n {
            Self::mul_forced_exact(dst, a, b, scratch);
        } else {
            let mut full: Vec<Limb> = vec![0; n];
            Self::mul_forced_exact(full.as_mut_slice(), a, b, scratch);
            Addition::copy_zero_extended(dst, full.as_slice());
        }
    }

    /// The three-way square regardless of the threshold, into a `dst` of at
    /// least `2 * a.len()` limbs that receives it zero-extended.
    pub fn sqr_forced(dst: &mut [Limb], a: &[Limb], scratch: &mut [Limb])
        requires
            old(dst)@.len() >= 2 * a@.len(),
            old(scratch)@.len() >= spec_toom3_scratch(a@.len()),
        ensures
            final(dst)@.len() == old(dst)@.len(),
            final(scratch)@.len() == old(scratch)@.len(),
            val(final(dst)@) == val(a@) * val(a@),
    {
        let dl = dst.len();
        let n = 2 * a.len();
        if dl == n {
            Self::sqr_forced_exact(dst, a, scratch);
        } else {
            let mut full: Vec<Limb> = vec![0; n];
            Self::sqr_forced_exact(full.as_mut_slice(), a, scratch);
            Addition::copy_zero_extended(dst, full.as_slice());
        }
    }

    /// The three-way product regardless of the threshold, for operands of at
    /// least three limbs each; shorter ones take the basecase.
    fn mul_forced_exact(dst: &mut [Limb], a: &[Limb], b: &[Limb], scratch: &mut [Limb])
        requires
            old(dst)@.len() == a@.len() + b@.len(),
            old(scratch)@.len() >= spec_toom3_scratch(
                if a@.len() >= b@.len() {
                    a@.len()
                } else {
                    b@.len()
                },
            ),
        ensures
            final(dst)@.len() == old(dst)@.len(),
            final(scratch)@.len() == old(scratch)@.len(),
            val(final(dst)@) == val(a@) * val(b@),
        decreases (if a@.len() >= b@.len() {
            a@.len()
        } else {
            b@.len()
        }), 2nat,
    {
        if a.len() < 3 || b.len() < 3 {
            Multiplication::mul_limbs(dst, a, b);
            return;
        }
        Self::toom3_core(dst, a, b, scratch, false);
    }

    /// Squares `a` into `dst`, which holds exactly `2 * a.len()` limbs.
    pub(crate) fn sqr_exact(dst: &mut [Limb], a: &[Limb], scratch: &mut [Limb])
        requires
            old(dst)@.len() == 2 * a@.len(),
            old(scratch)@.len() >= spec_toom3_scratch(a@.len()),
        ensures
            final(dst)@.len() == old(dst)@.len(),
            final(scratch)@.len() == old(scratch)@.len(),
            val(final(dst)@) == val(a@) * val(a@),
        decreases a@.len(), 3nat,
    {
        if a.len() < SQR_TOOM_COOK_THRESHOLD || a.len() < 3 {
            Multiplication::sqr_limbs(dst, a);
            return;
        }
        Self::sqr_forced_exact(dst, a, scratch);
    }

    /// The three-way square regardless of the threshold, for operands of at
    /// least three limbs; shorter ones take the basecase.
    fn sqr_forced_exact(dst: &mut [Limb], a: &[Limb], scratch: &mut [Limb])
        requires
            old(dst)@.len() == 2 * a@.len(),
            old(scratch)@.len() >= spec_toom3_scratch(a@.len()),
        ensures
            final(dst)@.len() == old(dst)@.len(),
            final(scratch)@.len() == old(scratch)@.len(),
            val(final(dst)@) == val(a@) * val(a@),
        decreases a@.len(), 2nat,
    {
        if a.len() < 3 {
            Multiplication::sqr_limbs(dst, a);
            return;
        }
        Self::toom3_core(dst, a, a, scratch, true);
    }
}

/// `(x + g p)(y + h p) = x y + (y g) p + (x h) p + (g h)(p p)`.
pub(crate) proof fn lemma_expand2(x: int, g: int, y: int, h: int, p: int)
    ensures
        (x + g * p) * (y + h * p) == x * y + (y * g) * p + (x * h) * p + (g * h) * (p * p),
{
    lemma_mul_is_distributive_add(x + g * p, y, h * p);
    lemma_mul_is_distributive_add_other_way(y, x, g * p);
    lemma_mul_is_distributive_add_other_way(h * p, x, g * p);
    lemma_mul_is_associative(y, g, p);
    lemma_mul_is_commutative(y, g * p);
    lemma_mul_is_commutative(y * g, p);
    lemma_swap_pairs(x, 1, h, p);
    lemma_mul_basics(x);
    lemma_mul_basics(h * p);
    lemma_mul_is_associative(x, h, p);
    lemma_mul_is_commutative(h * p, x);
    lemma_swap_pairs(h, p, g, p);
    lemma_mul_is_commutative(h * g, p * p);
    lemma_mul_is_commutative(h, g);
    lemma_mul_is_commutative(h * p, g * p);
}

/// A prefix of one more limb adds that limb at its radix position.
pub(crate) proof fn lemma_val_prefix_step_full(s: Seq<Limb>, i: int)
    requires
        0 <= i,
        i + 1 == s.len(),
    ensures
        val(s) == val(s.subrange(0, i)) + s[i] * pow_b(i as nat),
{
    crate::limbs::lemma_val_prefix_step(s, i);
    assert(s.subrange(0, i + 1) =~= s);
}

impl Toom3 {
    /// Scratch a three-way product of operands of `len_a` and `len_b` limbs
    /// needs, recursion included, saturating at `usize::MAX`.
    pub fn mul_forced_scratch_len(len_a: usize, len_b: usize) -> (len: usize)
        ensures
            len == crate::num::sat(
                spec_toom3_scratch(
                    if len_a >= len_b {
                        len_a as nat
                    } else {
                        len_b as nat
                    },
                ) as int,
            ),
    {
        let n = if len_a >= len_b {
            len_a
        } else {
            len_b
        };
        Self::scratch_for_width(n)
    }

    /// Scratch a three-way square of an `len`-limb operand needs, saturating.
    pub fn sqr_forced_scratch_len(len: usize) -> (scratch: usize)
        ensures
            scratch == crate::num::sat(spec_toom3_scratch(len as nat) as int),
    {
        Self::scratch_for_width(len)
    }

    fn scratch_for_width(n: usize) -> (len: usize)
        ensures
            len == crate::num::sat(spec_toom3_scratch(n as nat) as int),
        decreases n,
    {
        if n < 3 {
            return 0;
        }
        let s = n / 3 + if n % 3 == 0 {
            0
        } else {
            1
        };
        proof {
            assert(s == spec_split_len(n as nat));
        }
        let inner = Self::scratch_for_width(s);
        if s > (usize::MAX - 5) / 8 {
            return usize::MAX;
        }
        let product = 2 * s + 1;
        let evaluation = s + 1;
        let local = 3 * product + 2 * evaluation;
        match local.checked_add(inner) {
            Some(total) => total,
            None => usize::MAX,
        }
    }
}

} // verus!
