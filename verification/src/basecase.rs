//! The schoolbook multiplication every higher tier bottoms out in.

use crate::kernels::{Addition, mul_add_add};
use crate::limbs::{
    Limb, all_zero, lemma_pow_b_add, lemma_val_concat, lemma_val_prefix_step, lemma_val_split,
    lemma_val_zero, pow_b, radix, val,
};
use vstd::arithmetic::mul::*;
use vstd::prelude::*;

verus! {

/// One digit step of a multiply-accumulate row.
proof fn lemma_addmul_step(
    new_prefix: int,
    old_prefix: int,
    a_prefix: int,
    w: int,
    carry: int,
    carry_out: int,
    digit: int,
    old_digit: int,
    a_digit: int,
    p: int,
)
    requires
        new_prefix + carry * p == old_prefix + a_prefix * w,
        digit + carry_out * radix() == a_digit * w + old_digit + carry,
    ensures
        (new_prefix + digit * p) + carry_out * (radix() * p) == (old_prefix + old_digit * p) + (
        a_prefix + a_digit * p) * w,
{
    assert((new_prefix + digit * p) + carry_out * (radix() * p) == new_prefix + (digit + carry_out
        * radix()) * p) by (nonlinear_arith);
    assert((a_digit * w + old_digit + carry) * p == old_digit * p + carry * p + (a_digit * p) * w)
        by (nonlinear_arith);
    assert((a_prefix + a_digit * p) * w == a_prefix * w + (a_digit * p) * w) by (nonlinear_arith);
}

/// Namespace for the multiplication tower's basecase.
pub struct Multiplication;

impl Multiplication {
    /// Adds `a * w` into the first `a.len()` limbs of `dst` and returns the
    /// word that carries out of them.
    pub fn add_mul_word(dst: &mut [Limb], a: &[Limb], w: Limb) -> (carry: Limb)
        requires
            a@.len() <= old(dst)@.len(),
        ensures
            final(dst)@.len() == old(dst)@.len(),
            val(final(dst)@.subrange(0, a@.len() as int)) + carry * pow_b(a@.len()) == val(
                old(dst)@.subrange(0, a@.len() as int),
            ) + val(a@) * w,
            final(dst)@.subrange(a@.len() as int, old(dst)@.len() as int) == old(
                dst,
            )@.subrange(a@.len() as int, old(dst)@.len() as int),
    {
        let n = a.len();
        let ghost d0 = dst@;
        let mut carry: Limb = 0;
        let mut i: usize = 0;
        proof {
            assert(a@.subrange(0, 0) =~= Seq::<Limb>::empty());
            assert(d0.subrange(0, 0) =~= Seq::<Limb>::empty());
            assert(dst@.subrange(0, 0) =~= Seq::<Limb>::empty());
            assert(val(Seq::<Limb>::empty()) == 0);
            lemma_mul_basics(w as int);
        }
        while i < n
            invariant
                n == a@.len(),
                n <= dst@.len(),
                dst@.len() == d0.len(),
                0 <= i <= n,
                val(dst@.subrange(0, i as int)) + carry * pow_b(i as nat) == val(
                    d0.subrange(0, i as int),
                ) + val(a@.subrange(0, i as int)) * w,
                forall|j: int| i <= j < dst@.len() ==> dst@[j] == d0[j],
            decreases n - i,
        {
            let (digit, carry_out) = mul_add_add(a[i], w, dst[i], carry);
            proof {
                lemma_val_prefix_step(dst@.update(i as int, digit), i as int);
                lemma_val_prefix_step(d0, i as int);
                lemma_val_prefix_step(a@, i as int);
                assert(dst@.update(i as int, digit).subrange(0, i as int) =~= dst@.subrange(
                    0,
                    i as int,
                ));
                lemma_addmul_step(
                    val(dst@.subrange(0, i as int)) as int,
                    val(d0.subrange(0, i as int)) as int,
                    val(a@.subrange(0, i as int)) as int,
                    w as int,
                    carry as int,
                    carry_out as int,
                    digit as int,
                    d0[i as int] as int,
                    a@[i as int] as int,
                    pow_b(i as nat) as int,
                );
                assert(pow_b((i + 1) as nat) == radix() * pow_b(i as nat));
            }
            dst[i] = digit;
            carry = carry_out;
            i = i + 1;
        }
        proof {
            assert(a@.subrange(0, n as int) =~= a@);
            assert(dst@.subrange(n as int, dst@.len() as int) =~= d0.subrange(
                n as int,
                d0.len() as int,
            ));
        }
        carry
    }

    /// Writes the full product `a * b` into `dst`, which holds exactly
    /// `a.len() + b.len()` limbs.
    pub fn mul_limbs(dst: &mut [Limb], a: &[Limb], b: &[Limb])
        requires
            old(dst)@.len() == a@.len() + b@.len(),
        ensures
            final(dst)@.len() == old(dst)@.len(),
            val(final(dst)@) == val(a@) * val(b@),
    {
        let n = a.len();
        let m = b.len();
        Addition::fill_zero(dst);
        proof {
            lemma_val_zero(dst@);
            assert(b@.subrange(0, 0) =~= Seq::<Limb>::empty());
            assert(val(Seq::<Limb>::empty()) == 0);
            lemma_mul_basics(val(a@) as int);
        }
        let mut j: usize = 0;
        while j < m
            invariant
                n == a@.len(),
                m == b@.len(),
                dst@.len() == n + m,
                0 <= j <= m,
                val(dst@) == val(a@) * val(b@.subrange(0, j as int)),
                all_zero(dst@.subrange(j + n, (n + m) as int)),
            decreases m - j,
        {
            let ghost before = dst@;
            let (low, rest) = dst.split_at_mut(j);
            let (mid, high) = rest.split_at_mut(n);
            let ghost mid0 = mid@;
            let ghost high0 = high@;
            let carry = Self::add_mul_word(mid, a, b[j]);
            let ghost mid1 = mid@;
            high[0] = carry;
            proof {
                let hn = high@;
                let lo = before.subrange(0, j as int);
                assert(mid1.subrange(0, n as int) =~= mid1);
                assert(mid0.subrange(0, n as int) =~= mid0);
                assert(before =~= lo + mid0 + high0);
                assert(dst@ =~= lo + mid1 + hn);
                assert(high0 =~= before.subrange(j + n, (n + m) as int));
                assert(hn =~= high0.update(0, carry));
                crate::limbs::lemma_val_update(high0, 0, carry);
                lemma_val_zero(high0);
                assert(all_zero(hn.subrange(1, hn.len() as int)));
                lemma_val_split(hn, 1);
                lemma_val_zero(hn.subrange(1, hn.len() as int));
                assert(pow_b(0) == 1);
                lemma_val_concat(lo + mid0, high0);
                lemma_val_concat(lo, mid0);
                lemma_val_concat(lo + mid1, hn);
                lemma_val_concat(lo, mid1);
                lemma_pow_b_add(j as nat, n as nat);
                lemma_val_prefix_step(b@, j as int);
                let pj = pow_b(j as nat) as int;
                let pn = pow_b(n as nat) as int;
                let va = val(a@) as int;
                let bj = b@[j as int] as int;
                // The row adds a * b_j at radix position j.
                assert(val(hn) == carry) by {
                    assert(val(hn.subrange(0, 1)) == hn[0]) by {
                        crate::limbs::lemma_val_single(hn[0]);
                        assert(hn.subrange(0, 1) =~= seq![hn[0]]);
                    }
                    lemma_mul_basics(pow_b(1) as int);
                }
                assert(pj * (val(mid1) + carry * pn) == pj * val(mid1) + (pj * pn) * carry)
                    by (nonlinear_arith);
                assert(pj * (val(mid0) + va * bj) == pj * val(mid0) + va * (bj * pj))
                    by (nonlinear_arith);
                assert(va * (val(b@.subrange(0, j as int)) + bj * pj) == va * val(
                    b@.subrange(0, j as int),
                ) + va * (bj * pj)) by (nonlinear_arith);
                assert(all_zero(dst@.subrange(j + 1 + n, (n + m) as int))) by {
                    let tail = dst@.subrange(j + 1 + n, (n + m) as int);
                    assert forall|k: int| 0 <= k < tail.len() implies #[trigger] tail[k] == 0 by {
                        assert(dst@[j + 1 + n + k] == hn[k + 1]);
                    }
                }
            }
            j = j + 1;
        }
        proof {
            assert(b@.subrange(0, m as int) =~= b@);
        }
    }

    /// Writes the full square `a * a` into `dst`, which holds exactly
    /// `2 * a.len()` limbs.
    pub fn sqr_limbs(dst: &mut [Limb], a: &[Limb])
        requires
            old(dst)@.len() == 2 * a@.len(),
        ensures
            final(dst)@.len() == old(dst)@.len(),
            val(final(dst)@) == val(a@) * val(a@),
    {
        Self::mul_limbs(dst, a, a);
    }

    /// Scratch the basecase product of an `n`-by-`m` limb pair needs: none.
    pub fn required_scratch(n: usize, m: usize) -> (len: usize)
        ensures
            len == 0,
    {
        0
    }

    /// Scratch the basecase square of an `n`-limb operand needs: none.
    pub fn required_sqr_scratch(n: usize) -> (len: usize)
        ensures
            len == 0,
    {
        0
    }
}

} // verus!
