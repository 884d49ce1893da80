//! Carry and borrow propagation shared across the whole SSA tier.
//!
//! Every stage of the tier — ring arithmetic, the pointwise basecase, and the
//! CRT merge — pushes a single carry or borrow through a limb slice and needs
//! to know whether it escaped off the end. Nothing here is Fermat-specific.

use crate::kernels::Addition;
use crate::limbs::{
    Limb, all_max, all_zero, lemma_pow_b_pos, lemma_val_all_max, lemma_val_split, lemma_val_update,
    lemma_val_zero, pow_b, val,
};
use vstd::arithmetic::mul::*;
use vstd::prelude::*;

verus! {

/// Namespace for carry and borrow propagation shared across the whole SSA tier.
pub struct SsaCarry;

/// Incrementing the first non-maximal limb after a run of maximal ones adds one.
proof fn lemma_increment_value(old: Seq<Limb>, new: Seq<Limb>, i: int)
    requires
        0 <= i < old.len(),
        new.len() == old.len(),
        all_max(old.subrange(0, i)),
        all_zero(new.subrange(0, i)),
        old[i] < u64::MAX,
        new[i] == old[i] + 1,
        forall|j: int| i < j < old.len() ==> new[j] == old[j],
    ensures
        val(new) == val(old) + 1,
{
    lemma_val_split(old, i);
    lemma_val_split(new, i);
    lemma_val_all_max(old.subrange(0, i));
    lemma_val_zero(new.subrange(0, i));
    let ho = old.subrange(i, old.len() as int);
    let hn = new.subrange(i, new.len() as int);
    assert(hn =~= ho.update(0, (old[i] + 1) as u64));
    lemma_val_update(ho, 0, (old[i] + 1) as u64);
    assert(pow_b(0) == 1);
    assert(ho[0] * pow_b(0) == ho[0]);
    assert((old[i] + 1) * pow_b(0) == old[i] + 1);
    assert(val(hn) == val(ho) + 1);
    assert(val(old.subrange(0, i)) + 1 == pow_b(i as nat));
    assert(val(new.subrange(0, i)) == 0);
    lemma_mul_is_distributive_add(pow_b(i as nat) as int, val(ho) as int, 1);
}

/// Decrementing the first nonzero limb after a run of zero ones subtracts one.
proof fn lemma_decrement_value(old: Seq<Limb>, new: Seq<Limb>, i: int)
    requires
        0 <= i < old.len(),
        new.len() == old.len(),
        all_zero(old.subrange(0, i)),
        all_max(new.subrange(0, i)),
        old[i] > 0,
        new[i] == old[i] - 1,
        forall|j: int| i < j < old.len() ==> new[j] == old[j],
    ensures
        val(new) + 1 == val(old),
{
    lemma_increment_value(new, old, i);
}

impl SsaCarry {
    /// Adds one to `limbs`, returning `true` when the carry escapes the slice.
    ///
    /// An empty slice cannot absorb the carry, so it reports `true`.
    pub fn propagate_carry(limbs: &mut [Limb]) -> (escaped: bool)
        ensures
            final(limbs)@.len() == old(limbs)@.len(),
            val(final(limbs)@) + (if escaped { pow_b(old(limbs)@.len()) } else { 0 }) == val(
                old(limbs)@,
            ) + 1,
    {
        let ghost l0 = limbs@;
        let n = limbs.len();
        let mut i: usize = 0;
        while i < n
            invariant
                n == limbs@.len(),
                l0 == old(limbs)@,
                limbs@.len() == l0.len(),
                0 <= i <= n,
                all_max(l0.subrange(0, i as int)),
                all_zero(limbs@.subrange(0, i as int)),
                forall|j: int| i <= j < n ==> limbs@[j] == l0[j],
            decreases n - i,
        {
            if limbs[i] < u64::MAX {
                let ghost before = limbs@;
                limbs[i] = limbs[i] + 1;
                proof {
                    assert(limbs@.subrange(0, i as int) =~= before.subrange(0, i as int));
                    lemma_increment_value(l0, limbs@, i as int);
                }
                return false;
            }
            let ghost before = limbs@;
            limbs[i] = 0;
            i = i + 1;
            proof {
                assert forall|j: int| 0 <= j < i implies l0.subrange(0, i as int)[j] == u64::MAX by {
                    if j < i - 1 {
                        assert(l0.subrange(0, i - 1)[j] == u64::MAX);
                    }
                }
                assert forall|j: int| 0 <= j < i implies limbs@.subrange(0, i as int)[j] == 0 by {
                    if j < i - 1 {
                        assert(before.subrange(0, i - 1)[j] == 0);
                    }
                }
            }
        }
        proof {
            assert(l0.subrange(0, n as int) =~= l0);
            assert(limbs@.subrange(0, n as int) =~= limbs@);
            lemma_val_all_max(l0);
            lemma_val_zero(limbs@);
        }
        true
    }

    /// Subtracts one from `limbs`, returning `true` when the borrow escapes.
    ///
    /// An empty slice cannot absorb the borrow, so it reports `true`.
    pub fn propagate_borrow(limbs: &mut [Limb]) -> (escaped: bool)
        ensures
            final(limbs)@.len() == old(limbs)@.len(),
            val(final(limbs)@) + 1 == val(old(limbs)@) + (if escaped {
                pow_b(old(limbs)@.len())
            } else {
                0
            }),
    {
        let ghost l0 = limbs@;
        let n = limbs.len();
        let mut i: usize = 0;
        while i < n
            invariant
                n == limbs@.len(),
                l0 == old(limbs)@,
                limbs@.len() == l0.len(),
                0 <= i <= n,
                all_zero(l0.subrange(0, i as int)),
                all_max(limbs@.subrange(0, i as int)),
                forall|j: int| i <= j < n ==> limbs@[j] == l0[j],
            decreases n - i,
        {
            if limbs[i] > 0 {
                let ghost before = limbs@;
                limbs[i] = limbs[i] - 1;
                proof {
                    assert(limbs@.subrange(0, i as int) =~= before.subrange(0, i as int));
                    lemma_decrement_value(l0, limbs@, i as int);
                }
                return false;
            }
            let ghost before = limbs@;
            limbs[i] = u64::MAX;
            i = i + 1;
            proof {
                assert forall|j: int| 0 <= j < i implies l0.subrange(0, i as int)[j] == 0 by {
                    if j < i - 1 {
                        assert(l0.subrange(0, i - 1)[j] == 0);
                    }
                }
                assert forall|j: int| 0 <= j < i implies limbs@.subrange(0, i as int)[j]
                    == u64::MAX by {
                    if j < i - 1 {
                        assert(before.subrange(0, i - 1)[j] == u64::MAX);
                    }
                }
            }
        }
        proof {
            assert(l0.subrange(0, n as int) =~= l0);
            assert(limbs@.subrange(0, n as int) =~= limbs@);
            lemma_val_zero(l0);
            lemma_val_all_max(limbs@);
        }
        true
    }

    /// Adds `src` into the prefix of `dst` and propagates the carry through the
    /// remainder, returning the carry that escapes `dst` entirely.
    pub fn add_full_in_place(dst: &mut [Limb], src: &[Limb]) -> (carry: Limb)
        requires
            src@.len() <= old(dst)@.len(),
        ensures
            final(dst)@.len() == old(dst)@.len(),
            carry <= 1,
            val(final(dst)@) + carry * pow_b(old(dst)@.len()) == val(old(dst)@) + val(src@),
    {
        let ghost d0 = dst@;
        let m = src.len();
        let carry = Addition::add_slice_in_place(dst, src);
        let ghost d1 = dst@;
        proof {
            lemma_val_split(d0, m as int);
            lemma_val_split(d1, m as int);
        }
        if carry == 0 {
            return 0;
        }
        let (_, tail) = dst.split_at_mut(m);
        let ghost t0 = tail@;
        let escaped = Self::propagate_carry(tail);
        let ghost t1 = tail@;
        proof {
            let n = d0.len();
            assert(dst@ =~= d1.subrange(0, m as int) + t1);
            lemma_val_split(dst@, m as int);
            assert(dst@.subrange(0, m as int) =~= d1.subrange(0, m as int));
            assert(dst@.subrange(m as int, n as int) =~= t1);
            let p = pow_b(m as nat) as int;
            let e: int = if escaped { pow_b((n - m) as nat) as int } else { 0 };
            crate::limbs::lemma_pow_b_add(m as nat, (n - m) as nat);
            assert(p * (val(t1) + e) == p * val(t1) + p * e) by (nonlinear_arith);
            assert(p * (val(t0) + 1) == p * val(t0) + p) by (nonlinear_arith);
            assert(escaped ==> p * e == pow_b(n)) ;
        }
        if escaped {
            1
        } else {
            0
        }
    }

    /// Subtracts `src` from the prefix of `dst` and propagates the borrow through
    /// the remainder, returning the borrow that escapes `dst` entirely.
    pub fn sub_full_in_place(dst: &mut [Limb], src: &[Limb]) -> (borrow: Limb)
        requires
            src@.len() <= old(dst)@.len(),
        ensures
            final(dst)@.len() == old(dst)@.len(),
            borrow <= 1,
            val(final(dst)@) - borrow * pow_b(old(dst)@.len()) == val(old(dst)@) - val(src@),
    {
        let ghost d0 = dst@;
        let m = src.len();
        let borrow = Addition::sub_slice_in_place(dst, src);
        let ghost d1 = dst@;
        proof {
            lemma_val_split(d0, m as int);
            lemma_val_split(d1, m as int);
        }
        if borrow == 0 {
            return 0;
        }
        let (_, tail) = dst.split_at_mut(m);
        let ghost t0 = tail@;
        let escaped = Self::propagate_borrow(tail);
        let ghost t1 = tail@;
        proof {
            let n = d0.len();
            assert(dst@ =~= d1.subrange(0, m as int) + t1);
            lemma_val_split(dst@, m as int);
            assert(dst@.subrange(0, m as int) =~= d1.subrange(0, m as int));
            assert(dst@.subrange(m as int, n as int) =~= t1);
            let p = pow_b(m as nat) as int;
            let e: int = if escaped { pow_b((n - m) as nat) as int } else { 0 };
            crate::limbs::lemma_pow_b_add(m as nat, (n - m) as nat);
            assert(p * (val(t1) + 1) == p * val(t1) + p) by (nonlinear_arith);
            assert(p * (val(t0) + e) == p * val(t0) + p * e) by (nonlinear_arith);
            assert(escaped ==> p * e == pow_b(n));
        }
        if escaped {
            1
        } else {
            0
        }
    }

    /// Canonicalizes a wrapped negative `ml`-limb difference modulo `2^n + 1`.
    ///
    /// The wrapped subtraction already contributes `2^n`; adding the remaining
    /// `+1` from the modulus either stays in the data limbs or carries into the
    /// guard, which then holds the canonical representation of `2^n = -1`.
    pub fn correct_wrapped_shift_difference(dst: &mut [Limb], ml: usize)
        requires
            ml < old(dst)@.len(),
        ensures
            final(dst)@.len() == old(dst)@.len(),
            val(final(dst)@.subrange(0, ml + 1)) == val(old(dst)@.subrange(0, ml as int)) + 1,
            final(dst)@[ml as int] <= 1,
            final(dst)@.subrange(ml + 1, old(dst)@.len() as int) == old(dst)@.subrange(
                ml + 1,
                old(dst)@.len() as int,
            ),
    {
        let ghost d0 = dst@;
        let (data, rest) = dst.split_at_mut(ml);
        let escaped = Self::propagate_carry(data);
        let ghost data1 = data@;
        rest[0] = if escaped {
            1
        } else {
            0
        };
        proof {
            assert(dst@ =~= data1 + rest@);
            assert(dst@.subrange(0, ml as int) =~= data1);
            assert(dst@.subrange(0, ml + 1) =~= data1.push(dst@[ml as int]));
            crate::limbs::lemma_val_push(data1, dst@[ml as int]);
            assert(d0.subrange(0, ml as int) =~= old(dst)@.subrange(0, ml as int));
            assert(dst@.subrange(ml + 1, d0.len() as int) =~= d0.subrange(ml + 1, d0.len() as int));
        }
    }
}

} // verus!
