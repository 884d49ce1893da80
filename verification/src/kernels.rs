//! Word-level add, subtract and multiply kernels over limb slices.
//!
//! Every multi-precision routine of the crate reduces to these loops: a
//! carry or borrow rippled through a prefix, a three-operand sum or
//! difference, and a row of word products accumulated into a destination.

use crate::limbs::{Limb, lemma_val_prefix_step, pow_b, radix, val};
use vstd::arithmetic::mul::*;
use vstd::prelude::*;

verus! {

/// Adds two words and an incoming carry, returning the low word and the carry out.
pub fn add_with_carry(a: Limb, b: Limb, carry: Limb) -> (r: (Limb, Limb))
    requires
        carry <= 1,
    ensures
        r.0 + r.1 * radix() == a + b + carry,
        r.1 <= 1,
{
    let t: u128 = a as u128 + b as u128 + carry as u128;
    let lo = (t % 0x1_0000_0000_0000_0000u128) as u64;
    let hi = (t / 0x1_0000_0000_0000_0000u128) as u64;
    (lo, hi)
}

/// Subtracts a word and an incoming borrow, returning the low word and the borrow out.
pub fn sub_with_borrow(a: Limb, b: Limb, borrow: Limb) -> (r: (Limb, Limb))
    requires
        borrow <= 1,
    ensures
        r.0 == a - b - borrow + r.1 * radix(),
        r.1 <= 1,
        r.1 == 1 <==> a < b + borrow,
{
    if (a as u128) >= (b as u128) + (borrow as u128) {
        (a - b - borrow, 0)
    } else {
        let t: u128 = a as u128 + 0x1_0000_0000_0000_0000u128 - b as u128 - borrow as u128;
        (t as u64, 1)
    }
}

/// Multiplies two words and adds two more, returning the low word and the high word.
pub fn mul_add_add(a: Limb, b: Limb, c: Limb, d: Limb) -> (r: (Limb, Limb))
    ensures
        r.0 + r.1 * radix() == a * b + c + d,
{
    proof {
        lemma_mul_upper_bound(a as int, u64::MAX as int, b as int, u64::MAX as int);
    }
    let t: u128 = (a as u128) * (b as u128) + c as u128 + d as u128;
    let lo = (t % 0x1_0000_0000_0000_0000u128) as u64;
    let hi = (t / 0x1_0000_0000_0000_0000u128) as u64;
    (lo, hi)
}

/// One digit step of a ripple: `value + carry * B^i` absorbs one more digit.
pub proof fn lemma_ripple_step(
    new_prefix: int,
    old_prefix: int,
    addend_prefix: int,
    carry: int,
    carry_out: int,
    digit: int,
    old_digit: int,
    addend_digit: int,
    p: int,
)
    requires
        new_prefix + carry * p == old_prefix + addend_prefix,
        digit + carry_out * radix() == old_digit + addend_digit + carry,
    ensures
        (new_prefix + digit * p) + carry_out * (radix() * p) == (old_prefix + old_digit * p) + (
        addend_prefix + addend_digit * p),
{
    assert((new_prefix + digit * p) + carry_out * (radix() * p) == new_prefix + (digit + carry_out
        * radix()) * p) by (nonlinear_arith);
    assert((old_digit + addend_digit + carry) * p == old_digit * p + addend_digit * p + carry * p)
        by (nonlinear_arith);
}

/// One digit step of a borrow ripple.
pub proof fn lemma_borrow_step(
    new_prefix: int,
    old_prefix: int,
    sub_prefix: int,
    borrow: int,
    borrow_out: int,
    digit: int,
    old_digit: int,
    sub_digit: int,
    p: int,
)
    requires
        new_prefix - borrow * p == old_prefix - sub_prefix,
        digit == old_digit - sub_digit - borrow + borrow_out * radix(),
    ensures
        (new_prefix + digit * p) - borrow_out * (radix() * p) == (old_prefix + old_digit * p) - (
        sub_prefix + sub_digit * p),
{
    assert(digit * p == old_digit * p - sub_digit * p - borrow * p + borrow_out * (radix() * p))
        by (nonlinear_arith)
        requires
            digit == old_digit - sub_digit - borrow + borrow_out * radix(),
    ;
}

/// Namespace for the fixed-width addition and subtraction kernels.
pub struct Addition;

impl Addition {
    /// Adds `src` into the prefix of `dst` of the same length and returns the
    /// carry out of that prefix; the rest of `dst` is untouched.
    pub fn add_slice_in_place(dst: &mut [Limb], src: &[Limb]) -> (carry: Limb)
        requires
            src@.len() <= old(dst)@.len(),
        ensures
            final(dst)@.len() == old(dst)@.len(),
            carry <= 1,
            val(final(dst)@.subrange(0, src@.len() as int)) + carry * pow_b(src@.len()) == val(
                old(dst)@.subrange(0, src@.len() as int),
            ) + val(src@),
            final(dst)@.subrange(src@.len() as int, old(dst)@.len() as int) == old(
                dst,
            )@.subrange(src@.len() as int, old(dst)@.len() as int),
    {
        let n = src.len();
        let ghost d0 = dst@;
        let mut carry: Limb = 0;
        let mut i: usize = 0;
        while i < n
            invariant
                n == src@.len(),
                n <= dst@.len(),
                dst@.len() == d0.len(),
                0 <= i <= n,
                carry <= 1,
                val(dst@.subrange(0, i as int)) + carry * pow_b(i as nat) == val(
                    d0.subrange(0, i as int),
                ) + val(src@.subrange(0, i as int)),
                forall|j: int| i <= j < dst@.len() ==> dst@[j] == d0[j],
            decreases n - i,
        {
            let (digit, carry_out) = add_with_carry(dst[i], src[i], carry);
            proof {
                lemma_val_prefix_step(dst@.update(i as int, digit), i as int);
                lemma_val_prefix_step(d0, i as int);
                lemma_val_prefix_step(src@, i as int);
                assert(dst@.update(i as int, digit).subrange(0, i as int) =~= dst@.subrange(
                    0,
                    i as int,
                ));
                lemma_ripple_step(
                    val(dst@.subrange(0, i as int)) as int,
                    val(d0.subrange(0, i as int)) as int,
                    val(src@.subrange(0, i as int)) as int,
                    carry as int,
                    carry_out as int,
                    digit as int,
                    d0[i as int] as int,
                    src@[i as int] as int,
                    pow_b(i as nat) as int,
                );
                assert(pow_b((i + 1) as nat) == radix() * pow_b(i as nat));
            }
            dst[i] = digit;
            carry = carry_out;
            i = i + 1;
        }
        proof {
            assert(src@.subrange(0, n as int) =~= src@);
            assert(dst@.subrange(n as int, dst@.len() as int) =~= d0.subrange(
                n as int,
                d0.len() as int,
            ));
        }
        carry
    }

    /// Subtracts `src` from the prefix of `dst` of the same length and returns
    /// the borrow out of that prefix; the rest of `dst` is untouched.
    pub fn sub_slice_in_place(dst: &mut [Limb], src: &[Limb]) -> (borrow: Limb)
        requires
            src@.len() <= old(dst)@.len(),
        ensures
            final(dst)@.len() == old(dst)@.len(),
            borrow <= 1,
            val(final(dst)@.subrange(0, src@.len() as int)) - borrow * pow_b(src@.len()) == val(
                old(dst)@.subrange(0, src@.len() as int),
            ) - val(src@),
            final(dst)@.subrange(src@.len() as int, old(dst)@.len() as int) == old(
                dst,
            )@.subrange(src@.len() as int, old(dst)@.len() as int),
    {
        let n = src.len();
        let ghost d0 = dst@;
        let mut borrow: Limb = 0;
        let mut i: usize = 0;
        while i < n
            invariant
                n == src@.len(),
                n <= dst@.len(),
                dst@.len() == d0.len(),
                0 <= i <= n,
                borrow <= 1,
                val(dst@.subrange(0, i as int)) - borrow * pow_b(i as nat) == val(
                    d0.subrange(0, i as int),
                ) - val(src@.subrange(0, i as int)),
                forall|j: int| i <= j < dst@.len() ==> dst@[j] == d0[j],
            decreases n - i,
        {
            let (digit, borrow_out) = sub_with_borrow(dst[i], src[i], borrow);
            proof {
                lemma_val_prefix_step(dst@.update(i as int, digit), i as int);
                lemma_val_prefix_step(d0, i as int);
                lemma_val_prefix_step(src@, i as int);
                assert(dst@.update(i as int, digit).subrange(0, i as int) =~= dst@.subrange(
                    0,
                    i as int,
                ));
                lemma_borrow_step(
                    val(dst@.subrange(0, i as int)) as int,
                    val(d0.subrange(0, i as int)) as int,
                    val(src@.subrange(0, i as int)) as int,
                    borrow as int,
                    borrow_out as int,
                    digit as int,
                    d0[i as int] as int,
                    src@[i as int] as int,
                    pow_b(i as nat) as int,
                );
                assert(pow_b((i + 1) as nat) == radix() * pow_b(i as nat));
            }
            dst[i] = digit;
            borrow = borrow_out;
            i = i + 1;
        }
        proof {
            assert(src@.subrange(0, n as int) =~= src@);
            assert(dst@.subrange(n as int, dst@.len() as int) =~= d0.subrange(
                n as int,
                d0.len() as int,
            ));
        }
        borrow
    }
    /// Writes `a + b` over the first `a.len()` limbs of `dst` and returns the
    /// carry out; the rest of `dst` is untouched.
    pub fn add_limbs_3(dst: &mut [Limb], a: &[Limb], b: &[Limb]) -> (carry: Limb)
        requires
            a@.len() == b@.len(),
            a@.len() <= old(dst)@.len(),
        ensures
            final(dst)@.len() == old(dst)@.len(),
            carry <= 1,
            val(final(dst)@.subrange(0, a@.len() as int)) + carry * pow_b(a@.len()) == val(a@)
                + val(b@),
            final(dst)@.subrange(a@.len() as int, old(dst)@.len() as int) == old(
                dst,
            )@.subrange(a@.len() as int, old(dst)@.len() as int),
    {
        let n = a.len();
        let ghost d0 = dst@;
        let mut carry: Limb = 0;
        let mut i: usize = 0;
        while i < n
            invariant
                n == a@.len(),
                n == b@.len(),
                n <= dst@.len(),
                dst@.len() == d0.len(),
                0 <= i <= n,
                carry <= 1,
                val(dst@.subrange(0, i as int)) + carry * pow_b(i as nat) == val(
                    a@.subrange(0, i as int),
                ) + val(b@.subrange(0, i as int)),
                forall|j: int| i <= j < dst@.len() ==> dst@[j] == d0[j],
            decreases n - i,
        {
            let (digit, carry_out) = add_with_carry(a[i], b[i], carry);
            proof {
                lemma_val_prefix_step(dst@.update(i as int, digit), i as int);
                lemma_val_prefix_step(a@, i as int);
                lemma_val_prefix_step(b@, i as int);
                assert(dst@.update(i as int, digit).subrange(0, i as int) =~= dst@.subrange(
                    0,
                    i as int,
                ));
                lemma_ripple_step(
                    val(dst@.subrange(0, i as int)) as int,
                    val(a@.subrange(0, i as int)) as int,
                    val(b@.subrange(0, i as int)) as int,
                    carry as int,
                    carry_out as int,
                    digit as int,
                    a@[i as int] as int,
                    b@[i as int] as int,
                    pow_b(i as nat) as int,
                );
                assert(pow_b((i + 1) as nat) == radix() * pow_b(i as nat));
            }
            dst[i] = digit;
            carry = carry_out;
            i = i + 1;
        }
        proof {
            assert(a@.subrange(0, n as int) =~= a@);
            assert(b@.subrange(0, n as int) =~= b@);
            assert(dst@.subrange(n as int, dst@.len() as int) =~= d0.subrange(
                n as int,
                d0.len() as int,
            ));
        }
        carry
    }

    /// Writes `a - b` over the first `a.len()` limbs of `dst` and returns the
    /// borrow out; the rest of `dst` is untouched.
    pub fn sub_limbs_3(dst: &mut [Limb], a: &[Limb], b: &[Limb]) -> (borrow: Limb)
        requires
            a@.len() == b@.len(),
            a@.len() <= old(dst)@.len(),
        ensures
            final(dst)@.len() == old(dst)@.len(),
            borrow <= 1,
            val(final(dst)@.subrange(0, a@.len() as int)) - borrow * pow_b(a@.len()) == val(a@)
                - val(b@),
            final(dst)@.subrange(a@.len() as int, old(dst)@.len() as int) == old(
                dst,
            )@.subrange(a@.len() as int, old(dst)@.len() as int),
    {
        let n = a.len();
        let ghost d0 = dst@;
        let mut borrow: Limb = 0;
        let mut i: usize = 0;
        while i < n
            invariant
                n == a@.len(),
                n == b@.len(),
                n <= dst@.len(),
                dst@.len() == d0.len(),
                0 <= i <= n,
                borrow <= 1,
                val(dst@.subrange(0, i as int)) - borrow * pow_b(i as nat) == val(
                    a@.subrange(0, i as int),
                ) - val(b@.subrange(0, i as int)),
                forall|j: int| i <= j < dst@.len() ==> dst@[j] == d0[j],
            decreases n - i,
        {
            let (digit, borrow_out) = sub_with_borrow(a[i], b[i], borrow);
            proof {
                lemma_val_prefix_step(dst@.update(i as int, digit), i as int);
                lemma_val_prefix_step(a@, i as int);
                lemma_val_prefix_step(b@, i as int);
                assert(dst@.update(i as int, digit).subrange(0, i as int) =~= dst@.subrange(
                    0,
                    i as int,
                ));
                lemma_borrow_step(
                    val(dst@.subrange(0, i as int)) as int,
                    val(a@.subrange(0, i as int)) as int,
                    val(b@.subrange(0, i as int)) as int,
                    borrow as int,
                    borrow_out as int,
                    digit as int,
                    a@[i as int] as int,
                    b@[i as int] as int,
                    pow_b(i as nat) as int,
                );
                assert(pow_b((i + 1) as nat) == radix() * pow_b(i as nat));
            }
            dst[i] = digit;
            borrow = borrow_out;
            i = i + 1;
        }
        proof {
            assert(a@.subrange(0, n as int) =~= a@);
            assert(b@.subrange(0, n as int) =~= b@);
            assert(dst@.subrange(n as int, dst@.len() as int) =~= d0.subrange(
                n as int,
                d0.len() as int,
            ));
        }
        borrow
    }

    /// Copies `src` over the first `src.len()` limbs of `dst`.
    pub fn copy_prefix(dst: &mut [Limb], src: &[Limb])
        requires
            src@.len() <= old(dst)@.len(),
        ensures
            final(dst)@ == src@ + old(dst)@.subrange(src@.len() as int, old(dst)@.len() as int),
    {
        let n = src.len();
        let ghost d0 = dst@;
        let mut i: usize = 0;
        while i < n
            invariant
                n == src@.len(),
                n <= dst@.len(),
                dst@.len() == d0.len(),
                0 <= i <= n,
                forall|j: int| 0 <= j < i ==> dst@[j] == src@[j],
                forall|j: int| i <= j < dst@.len() ==> dst@[j] == d0[j],
            decreases n - i,
        {
            dst[i] = src[i];
            i = i + 1;
        }
        assert(dst@ =~= src@ + d0.subrange(n as int, d0.len() as int));
    }

    /// Writes zero over every limb of `dst`.
    pub fn fill_zero(dst: &mut [Limb])
        ensures
            final(dst)@.len() == old(dst)@.len(),
            crate::limbs::all_zero(final(dst)@),
    {
        let n = dst.len();
        let mut i: usize = 0;
        while i < n
            invariant
                n == dst@.len(),
                0 <= i <= n,
                forall|j: int| 0 <= j < i ==> dst@[j] == 0,
            decreases n - i,
        {
            dst[i] = 0;
            i = i + 1;
        }
    }

    /// Writes `src` into the low limbs of a wider `dst` and zero above it,
    /// so that `dst` holds the same value.
    pub fn copy_zero_extended(dst: &mut [Limb], src: &[Limb])
        requires
            src@.len() <= old(dst)@.len(),
        ensures
            final(dst)@.len() == old(dst)@.len(),
            final(dst)@.subrange(0, src@.len() as int) == src@,
            crate::limbs::all_zero(final(dst)@.subrange(src@.len() as int, old(dst)@.len() as int)),
            val(final(dst)@) == val(src@),
    {
        let n = dst.len();
        let m = src.len();
        let mut i: usize = 0;
        while i < n
            invariant
                n == dst@.len(),
                m == src@.len(),
                m <= n,
                0 <= i <= n,
                forall|j: int| 0 <= j < i && j < m ==> dst@[j] == src@[j],
                forall|j: int| m <= j < i ==> dst@[j] == 0,
            decreases n - i,
        {
            if i < m {
                dst[i] = src[i];
            } else {
                dst[i] = 0;
            }
            i = i + 1;
        }
        proof {
            let zeros = dst@.subrange(m as int, n as int);
            assert(dst@ =~= src@ + zeros);
            crate::limbs::lemma_val_concat(src@, zeros);
            crate::limbs::lemma_val_zero(zeros);
            assert(dst@.subrange(0, m as int) =~= src@);
            lemma_mul_basics(pow_b(m as nat) as int);
        }
    }
}

} // verus!
