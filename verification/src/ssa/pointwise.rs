//! Fermat-ring point products: the special residues, the basecase product
//! and its reduction, and the scratch a point product needs.

use crate::basecase::Multiplication;
use crate::kernels::Addition;
use crate::limbs::{Limb, all_zero, lemma_pow_b_add, lemma_val_bound, lemma_val_split, lemma_val_zero, pow_b, val};
use crate::ssa::carry::SsaCarry;
use crate::ssa::negacyclic::{NegacyclicPlan, spec_negacyclic_plan};
use crate::ssa::tuning::SSA_BASE_MODULUS_BITS;
use crate::ssa::ring::{
    Residue, SsaRing, canonical, fermat_modulus, lemma_canonical_residue, lemma_canonical_shape,
    lemma_slot_split, lemma_slot_zero_guard, residue, same_tail, slot_value, valid_mod_bits,
};
use vstd::arithmetic::div_mod::*;
use vstd::arithmetic::mul::*;
use vstd::prelude::*;

verus! {

/// Scratch one non-recursive Fermat-ring point product needs.
pub open spec fn spec_fermat_basecase_scratch_len(mod_bits: nat) -> nat {
    let ml = mod_bits / 64;
    if ml == 0 {
        0
    } else {
        let base = ml * 2;
        match spec_negacyclic_plan(ml) {
            Some(plan) => if plan.scratch_len > base {
                plan.scratch_len as nat
            } else {
                base
            },
            None => base,
        }
    }
}

/// Multiplying by `2^n`, which is `-1`, negates a canonical residue.
proof fn lemma_times_neg_one(r: nat, ml: nat)
    requires
        r <= pow_b(ml),
    ensures
        ((pow_b(ml) * r) as int) % (fermat_modulus(ml) as int) == if r == 0 {
            0
        } else {
            fermat_modulus(ml) - r
        },
{
    let p = pow_b(ml) as int;
    let m = p + 1;
    if r == 0 {
        lemma_mul_basics(p);
        lemma_small_mod(0, m as nat);
    } else {
        assert(p * r == (r - 1) * m + (m - r)) by (nonlinear_arith)
            requires
                m == p + 1,
        ;
        lemma_fundamental_div_mod_converse(p * r, m, r - 1, m - r);
    }
}

/// Namespace for pointwise multiplication and basecase product reduction.
pub struct SsaPointwise;

impl SsaPointwise {
    /// Reduces a fixed-width `2 * ml` product modulo `2^(ml * LIMB_BITS) + 1`
    /// into a canonical coefficient: the low half minus the high half.
    pub fn reduce_full_product(dst: &mut [Limb], product: &[Limb], ml: usize)
        requires
            old(dst)@.len() >= ml + 1,
            product@.len() == 2 * ml,
        ensures
            canonical(final(dst)@, ml as nat),
            residue(final(dst)@, ml as nat) == (val(product@) as int) % (fermat_modulus(
                ml as nat,
            ) as int),
            same_tail(final(dst)@, old(dst)@, ml + 1),
    {
        let ghost d0 = dst@;
        let ghost p = pow_b(ml as nat) as int;
        let ghost m = fermat_modulus(ml as nat) as int;
        dst[ml] = 0;
        let ghost dz = dst@;
        let low = &product[0..ml];
        let high = &product[ml..product.len()];
        let borrow = Addition::sub_limbs_3(dst, low, high);
        let ghost d1 = dst@;
        proof {
            lemma_val_split(product@, ml as int);
            assert(product@.subrange(0, ml as int) =~= low@);
            assert(product@.subrange(ml as int, 2 * ml) =~= high@);
            lemma_val_bound(low@);
            lemma_val_bound(high@);
            lemma_val_bound(d1.subrange(0, ml as int));
            crate::limbs::lemma_pow_b_pos(ml as nat);
            assert(d1[ml as int] == 0) by {
                assert(d1.subrange(ml as int, d1.len() as int)[0] == 0);
            }
        }
        if borrow != 0 {
            SsaCarry::correct_wrapped_shift_difference(dst, ml);
        }
        proof {
            let d = dst@;
            let lo = val(low@) as int;
            let hi = val(high@) as int;
            let exact = val(product@) as int;
            assert(exact == lo + p * hi);
            if borrow == 0 {
                lemma_slot_zero_guard(d, ml as nat);
                assert(slot_value(d, ml as nat) == lo - hi);
                assert(m * hi + (lo - hi) == exact) by (nonlinear_arith)
                    requires
                        m == p + 1,
                        exact == lo + p * hi,
                ;
                lemma_mod_multiples_vanish(hi, lo - hi, m);
            } else {
                assert(slot_value(d, ml as nat) == lo - hi + p + 1);
                assert(m * (hi - 1) + (lo - hi + p + 1) == exact) by (nonlinear_arith)
                    requires
                        m == p + 1,
                        exact == lo + p * hi,
                ;
                lemma_mod_multiples_vanish(hi - 1, lo - hi + p + 1, m);
            }
            assert(d1.subrange(ml as int, d1.len() as int) =~= dz.subrange(ml as int, dz.len() as int));
            assert forall|k: int| ml + 1 <= k < d.len() implies d[k] == d0[k] by {
                assert(d1.subrange(ml as int, d1.len() as int)[k - ml] == dz.subrange(ml as int, dz.len() as int)[k - ml]);
                if borrow != 0 {
                    assert(d.subrange(ml + 1, d.len() as int)[k - ml - 1] == d1.subrange(ml + 1, d1.len() as int)[k - ml - 1]);
                }
            }
            assert(d.subrange(ml + 1, d.len() as int) =~= d0.subrange(ml + 1, d0.len() as int));
        }
    }

    /// Writes the product when either operand is a special residue, and
    /// reports whether it did: zero absorbs, and `-1 == 2^n` negates.
    pub fn write_special_residue_product(
        dst: &mut [Limb],
        left: &[Limb],
        right: &[Limb],
        mod_bits: usize,
    ) -> (written: bool)
        requires
            valid_mod_bits(mod_bits),
            old(dst)@.len() >= mod_bits / 64 + 1,
            canonical(left@, (mod_bits / 64) as nat),
            canonical(right@, (mod_bits / 64) as nat),
        ensures
            written ==> canonical(final(dst)@, (mod_bits / 64) as nat),
            written ==> residue(final(dst)@, (mod_bits / 64) as nat) == ((slot_value(
                left@,
                (mod_bits / 64) as nat,
            ) * slot_value(right@, (mod_bits / 64) as nat)) as int) % (fermat_modulus(
                (mod_bits / 64) as nat,
            ) as int),
            !written ==> final(dst)@ == old(dst)@,
            !written ==> left@[(mod_bits / 64) as int] == 0 && right@[(mod_bits / 64) as int]
                == 0,
            written ==> same_tail(final(dst)@, old(dst)@, mod_bits / 64 + 1),
    {
        let ml = SsaRing::mod_limbs(mod_bits);
        let cl = ml + 1;
        let ghost nl = ml as nat;
        let ghost d0 = dst@;
        let ghost l = slot_value(left@, nl);
        let ghost r = slot_value(right@, nl);
        let ghost m = fermat_modulus(nl) as int;
        proof {
            lemma_canonical_shape(left@, nl);
            lemma_canonical_shape(right@, nl);
            lemma_slot_split(left@, nl);
            lemma_slot_split(right@, nl);
        }
        let left_class = SsaRing::classify_residue(left, ml);
        let right_class = SsaRing::classify_residue(right, ml);
        if left_class == Residue::Zero || right_class == Residue::Zero {
            let (slot, _) = dst.split_at_mut(cl);
            Addition::fill_zero(slot);
            proof {
                let d = dst@;
                assert(d.subrange(0, cl as int) =~= slot@);
                lemma_val_zero(slot@);
                if left_class == Residue::Zero {
                    lemma_val_zero(left@.subrange(0, ml as int));
                    lemma_mul_basics(r as int);
                } else {
                    lemma_val_zero(right@.subrange(0, ml as int));
                    lemma_mul_basics(l as int);
                }
                lemma_small_mod(0, m as nat);
                assert(d.subrange(cl as int, d.len() as int) =~= d0.subrange(cl as int, d0.len() as int));
            }
            return true;
        }
        if left_class == Residue::NegOne || right_class == Residue::NegOne {
            let source = if left_class == Residue::NegOne {
                right
            } else {
                left
            };
            Addition::copy_prefix(dst, &source[0..cl]);
            proof {
                assert(dst@.subrange(0, cl as int) =~= source@.subrange(0, cl as int));
                assert(slot_value(dst@, nl) == slot_value(source@, nl));
                assert(canonical(dst@, nl));
            }
            SsaRing::negate(dst, mod_bits);
            proof {
                let d = dst@;
                lemma_mul_basics(pow_b(nl) as int);
                if left_class == Residue::NegOne {
                    lemma_val_zero(left@.subrange(0, ml as int));
                    assert(l == pow_b(nl));
                    lemma_times_neg_one(r, nl);
                } else {
                    lemma_val_zero(right@.subrange(0, ml as int));
                    assert(r == pow_b(nl));
                    lemma_times_neg_one(l, nl);
                    lemma_mul_is_commutative(l as int, r as int);
                }
                lemma_canonical_residue(d, nl);
                assert(d.subrange(cl as int, d.len() as int) =~= d0.subrange(cl as int, d0.len() as int));
            }
            return true;
        }
        false
    }

    /// Multiplies two canonical residues below `2^n` with the basecase
    /// multiplication and reduces the full product using `2^n == -1`.
    ///
    /// The first `2 * ml` limbs of `product_scratch` hold the full product.
    pub fn fermat_basecase_mul_into(
        dst: &mut [Limb],
        left: &[Limb],
        right: &[Limb],
        mod_bits: usize,
        product_scratch: &mut [Limb],
    )
        requires
            valid_mod_bits(mod_bits),
            old(dst)@.len() >= mod_bits / 64 + 1,
            left@.len() >= mod_bits / 64 + 1,
            right@.len() >= mod_bits / 64 + 1,
            left@[(mod_bits / 64) as int] == 0,
            right@[(mod_bits / 64) as int] == 0,
            old(product_scratch)@.len() >= 2 * (mod_bits / 64),
        ensures
            canonical(final(dst)@, (mod_bits / 64) as nat),
            residue(final(dst)@, (mod_bits / 64) as nat) == ((slot_value(
                left@,
                (mod_bits / 64) as nat,
            ) * slot_value(right@, (mod_bits / 64) as nat)) as int) % (fermat_modulus(
                (mod_bits / 64) as nat,
            ) as int),
            same_tail(final(dst)@, old(dst)@, mod_bits / 64 + 1),
            final(product_scratch)@.len() == old(product_scratch)@.len(),
    {
        let ml = SsaRing::mod_limbs(mod_bits);
        let (product, _) = product_scratch.split_at_mut(2 * ml);
        Multiplication::mul_limbs(product, &left[0..ml], &right[0..ml]);
        proof {
            lemma_slot_zero_guard(left@, ml as nat);
            lemma_slot_zero_guard(right@, ml as nat);
        }
        Self::reduce_full_product(dst, product, ml);
    }

    /// Squares a canonical residue below `2^n` with the basecase square and
    /// reduces it: `dst = value^2 mod (2^n + 1)`.
    pub fn fermat_basecase_sqr_into(
        dst: &mut [Limb],
        value: &[Limb],
        mod_bits: usize,
        product_scratch: &mut [Limb],
    )
        requires
            valid_mod_bits(mod_bits),
            old(dst)@.len() >= mod_bits / 64 + 1,
            value@.len() >= mod_bits / 64 + 1,
            value@[(mod_bits / 64) as int] == 0,
            old(product_scratch)@.len() >= 2 * (mod_bits / 64),
        ensures
            canonical(final(dst)@, (mod_bits / 64) as nat),
            residue(final(dst)@, (mod_bits / 64) as nat) == ((slot_value(
                value@,
                (mod_bits / 64) as nat,
            ) * slot_value(value@, (mod_bits / 64) as nat)) as int) % (fermat_modulus(
                (mod_bits / 64) as nat,
            ) as int),
            same_tail(final(dst)@, old(dst)@, mod_bits / 64 + 1),
            final(product_scratch)@.len() == old(product_scratch)@.len(),
    {
        let ml = SsaRing::mod_limbs(mod_bits);
        let (product, _) = product_scratch.split_at_mut(2 * ml);
        Multiplication::sqr_limbs(product, &value[0..ml]);
        proof {
            lemma_slot_zero_guard(value@, ml as nat);
        }
        Self::reduce_full_product(dst, product, ml);
    }

    /// Multiplies two canonical residues modulo `2^n + 1`: the special
    /// residues directly, everything else through the basecase product.
    pub fn fermat_mul_into(
        dst: &mut [Limb],
        left: &[Limb],
        right: &[Limb],
        mod_bits: usize,
        product_scratch: &mut [Limb],
    )
        requires
            valid_mod_bits(mod_bits),
            old(dst)@.len() >= mod_bits / 64 + 1,
            canonical(left@, (mod_bits / 64) as nat),
            canonical(right@, (mod_bits / 64) as nat),
            old(product_scratch)@.len() >= 2 * (mod_bits / 64),
        ensures
            canonical(final(dst)@, (mod_bits / 64) as nat),
            residue(final(dst)@, (mod_bits / 64) as nat) == ((slot_value(
                left@,
                (mod_bits / 64) as nat,
            ) * slot_value(right@, (mod_bits / 64) as nat)) as int) % (fermat_modulus(
                (mod_bits / 64) as nat,
            ) as int),
            same_tail(final(dst)@, old(dst)@, mod_bits / 64 + 1),
            final(product_scratch)@.len() == old(product_scratch)@.len(),
    {
        if Self::write_special_residue_product(dst, left, right, mod_bits) {
            return;
        }
        Self::fermat_basecase_mul_into(dst, left, right, mod_bits, product_scratch);
    }

    /// Scratch required for one non-recursive Fermat-ring point product.
    pub fn fermat_basecase_scratch_len(mod_bits: usize) -> (len: usize)
        ensures
            len == spec_fermat_basecase_scratch_len(mod_bits as nat),
    {
        let ml = SsaRing::mod_limbs(mod_bits);
        if ml == 0 {
            return 0;
        }
        let product_len = ml * 2;
        let tower_scratch = Multiplication::required_scratch(ml, ml);
        let base_scratch = product_len + tower_scratch;
        match NegacyclicPlan::new(ml) {
            Some(plan) => if plan.scratch_len() > base_scratch {
                plan.scratch_len()
            } else {
                base_scratch
            },
            None => base_scratch,
        }
    }
}

/// The slot of `cl` limbs at index `i` of a coefficient matrix.
pub open spec fn slot_at(m: Seq<Limb>, i: int, cl: int) -> Seq<Limb> {
    m.subrange(i * cl, i * cl + cl)
}

/// Slot `i + 1` starts where slot `i` ends, and both lie inside `k` slots.
pub(crate) proof fn lemma_slot_offsets(i: int, k: int, cl: int)
    requires
        0 <= i < k,
        cl >= 0,
    ensures
        (i + 1) * cl == i * cl + cl,
        i * cl + cl <= k * cl,
        0 <= i * cl,
{
    lemma_mul_is_distributive_add_other_way(cl, i, 1);
    lemma_mul_inequality(i + 1, k, cl);
    lemma_mul_nonnegative(i, cl);
}

impl SsaPointwise {
    /// Writes the square of a special residue: `0^2 = 0` and `(-1)^2 = 1`;
    /// an ordinary residue is left for the caller and reported as `false`.
    pub fn write_special_residue_square(dst: &mut [Limb], cl: usize, class: Residue) -> (written:
        bool)
        requires
            1 <= cl <= old(dst)@.len(),
        ensures
            final(dst)@.len() == old(dst)@.len(),
            written == (class != Residue::Ordinary),
            !written ==> final(dst)@ == old(dst)@,
            written ==> val(final(dst)@.subrange(0, cl as int)) == (if class == Residue::NegOne {
                1int
            } else {
                0int
            }),
            written ==> final(dst)@.subrange(cl as int, final(dst)@.len() as int) == old(
                dst,
            )@.subrange(cl as int, old(dst)@.len() as int),
    {
        if class == Residue::Ordinary {
            return false;
        }
        let ghost d0 = dst@;
        let ghost slot_f: Seq<Limb>;
        let ghost rest_f: Seq<Limb>;
        {
            let (slot, rest) = dst.split_at_mut(cl);
            Addition::fill_zero(slot);
            if class == Residue::NegOne {
                slot[0] = 1;
            }
            proof {
                slot_f = slot@;
                rest_f = rest@;
            }
        }
        proof {
            assert(dst@ =~= slot_f + rest_f);
            assert(dst@.subrange(0, cl as int) =~= slot_f);
            assert(dst@.subrange(cl as int, dst@.len() as int) =~= rest_f);
            lemma_val_split(slot_f, 1);
            let tail = slot_f.subrange(1, cl as int);
            assert(all_zero(tail));
            lemma_val_zero(tail);
            assert(slot_f.subrange(0, 1) =~= seq![slot_f[0]]);
            crate::limbs::lemma_val_single(slot_f[0]);
            lemma_mul_basics(pow_b(1) as int);
        }
        true
    }

    /// Squares a canonical `-1` in place, which gives `1`, and reports
    /// whether the slot was that special residue.
    pub fn write_pointwise_special_square(value: &mut [Limb], mod_bits: usize) -> (written: bool)
        requires
            valid_mod_bits(mod_bits),
            old(value)@.len() >= mod_bits / 64 + 1,
            canonical(old(value)@, (mod_bits / 64) as nat),
        ensures
            final(value)@.len() == old(value)@.len(),
            written == (old(value)@[(mod_bits / 64) as int] != 0),
            !written ==> final(value)@ == old(value)@,
            written ==> canonical(final(value)@, (mod_bits / 64) as nat),
            written ==> residue(final(value)@, (mod_bits / 64) as nat) == ((slot_value(
                old(value)@,
                (mod_bits / 64) as nat,
            ) * slot_value(old(value)@, (mod_bits / 64) as nat)) as int) % (fermat_modulus(
                (mod_bits / 64) as nat,
            ) as int),
            written ==> same_tail(final(value)@, old(value)@, mod_bits / 64 + 1),
    {
        let ml = SsaRing::mod_limbs(mod_bits);
        let ghost nl = ml as nat;
        let ghost v0 = value@;
        let guard = value[ml];
        if guard == 0 {
            return false;
        }
        proof {
            lemma_canonical_shape(v0, nl);
            lemma_slot_split(v0, nl);
            lemma_val_zero(v0.subrange(0, ml as int));
            lemma_mul_basics(pow_b(nl) as int);
            // (-1)^2 = 1: 2^n * 2^n = (2^n - 1)(2^n + 1) + 1.
            let p = pow_b(nl) as int;
            let m = p + 1;
            crate::limbs::lemma_pow_b_pos(nl);
            assert(p * p == m * (p - 1) + 1) by (nonlinear_arith)
                requires
                    m == p + 1,
            ;
            lemma_mod_multiples_vanish(p - 1, 1, m);
            lemma_small_mod(1, m as nat);
        }
        let written = Self::write_special_residue_square(value, ml + 1, Residue::NegOne);
        proof {
            let v = value@;
            lemma_small_mod(1, fermat_modulus(nl));
            assert(v.subrange(0, ml + 1int) =~= v.subrange(0, ml + 1int));
        }
        written
    }

    /// Multiplies `left` in place by `right` when either is a canonical
    /// special residue (a guard of one means `-1`), reporting whether it did.
    fn write_pointwise_special_product(left: &mut [Limb], right: &[Limb], mod_bits: usize) -> (written:
        bool)
        requires
            valid_mod_bits(mod_bits),
            old(left)@.len() >= mod_bits / 64 + 1,
            right@.len() >= mod_bits / 64 + 1,
            canonical(old(left)@, (mod_bits / 64) as nat),
            canonical(right@, (mod_bits / 64) as nat),
        ensures
            final(left)@.len() == old(left)@.len(),
            written == (old(left)@[(mod_bits / 64) as int] != 0 || right@[(mod_bits / 64) as int]
                != 0),
            !written ==> final(left)@ == old(left)@,
            written ==> canonical(final(left)@, (mod_bits / 64) as nat),
            written ==> residue(final(left)@, (mod_bits / 64) as nat) == ((slot_value(
                old(left)@,
                (mod_bits / 64) as nat,
            ) * slot_value(right@, (mod_bits / 64) as nat)) as int) % (fermat_modulus(
                (mod_bits / 64) as nat,
            ) as int),
            written ==> same_tail(final(left)@, old(left)@, mod_bits / 64 + 1),
    {
        let ml = SsaRing::mod_limbs(mod_bits);
        let cl = ml + 1;
        let ghost nl = ml as nat;
        let ghost l0 = left@;
        let ghost l = slot_value(l0, nl);
        let ghost r = slot_value(right@, nl);
        proof {
            lemma_canonical_shape(l0, nl);
            lemma_canonical_shape(right@, nl);
            lemma_slot_split(l0, nl);
            lemma_slot_split(right@, nl);
        }
        if left[ml] != 0 {
            Addition::copy_prefix(left, &right[0..cl]);
            proof {
                assert(left@.subrange(0, cl as int) =~= right@.subrange(0, cl as int));
                assert(slot_value(left@, nl) == r);
            }
            SsaRing::negate(left, mod_bits);
            proof {
                lemma_val_zero(l0.subrange(0, ml as int));
                lemma_mul_basics(pow_b(nl) as int);
                assert(l == pow_b(nl));
                lemma_times_neg_one(r, nl);
                lemma_canonical_residue(left@, nl);
                assert(left@.subrange(cl as int, left@.len() as int) =~= l0.subrange(
                    cl as int,
                    l0.len() as int,
                ));
            }
            return true;
        }
        if right[ml] != 0 {
            SsaRing::negate(left, mod_bits);
            proof {
                lemma_val_zero(right@.subrange(0, ml as int));
                lemma_mul_basics(pow_b(nl) as int);
                assert(r == pow_b(nl));
                lemma_times_neg_one(l, nl);
                lemma_mul_is_commutative(l as int, r as int);
                lemma_canonical_residue(left@, nl);
            }
            return true;
        }
        false
    }

    /// Multiplies `left` in place by `right`, both canonical residues below
    /// `2^n`, with the basecase product and its reduction.
    pub fn fermat_basecase_mul_assign_left(
        left: &mut [Limb],
        right: &[Limb],
        mod_bits: usize,
        product_scratch: &mut [Limb],
    )
        requires
            valid_mod_bits(mod_bits),
            old(left)@.len() >= mod_bits / 64 + 1,
            right@.len() >= mod_bits / 64 + 1,
            old(left)@[(mod_bits / 64) as int] == 0,
            right@[(mod_bits / 64) as int] == 0,
            old(product_scratch)@.len() >= 2 * (mod_bits / 64),
        ensures
            final(left)@.len() == old(left)@.len(),
            canonical(final(left)@, (mod_bits / 64) as nat),
            residue(final(left)@, (mod_bits / 64) as nat) == ((slot_value(
                old(left)@,
                (mod_bits / 64) as nat,
            ) * slot_value(right@, (mod_bits / 64) as nat)) as int) % (fermat_modulus(
                (mod_bits / 64) as nat,
            ) as int),
            same_tail(final(left)@, old(left)@, mod_bits / 64 + 1),
            final(product_scratch)@.len() == old(product_scratch)@.len(),
    {
        let ml = SsaRing::mod_limbs(mod_bits);
        let ghost l0 = left@;
        let (product, _) = product_scratch.split_at_mut(2 * ml);
        Multiplication::mul_limbs(product, &left[0..ml], &right[0..ml]);
        proof {
            lemma_slot_zero_guard(l0, ml as nat);
            lemma_slot_zero_guard(right@, ml as nat);
        }
        Self::reduce_full_product(left, product, ml);
    }

    /// Squares a canonical residue below `2^n` in place with the basecase
    /// square and its reduction.
    pub fn fermat_basecase_sqr_assign(value: &mut [Limb], mod_bits: usize, product_scratch: &mut [Limb])
        requires
            valid_mod_bits(mod_bits),
            old(value)@.len() >= mod_bits / 64 + 1,
            old(value)@[(mod_bits / 64) as int] == 0,
            old(product_scratch)@.len() >= 2 * (mod_bits / 64),
        ensures
            final(value)@.len() == old(value)@.len(),
            canonical(final(value)@, (mod_bits / 64) as nat),
            residue(final(value)@, (mod_bits / 64) as nat) == ((slot_value(
                old(value)@,
                (mod_bits / 64) as nat,
            ) * slot_value(old(value)@, (mod_bits / 64) as nat)) as int) % (fermat_modulus(
                (mod_bits / 64) as nat,
            ) as int),
            same_tail(final(value)@, old(value)@, mod_bits / 64 + 1),
            final(product_scratch)@.len() == old(product_scratch)@.len(),
    {
        let ml = SsaRing::mod_limbs(mod_bits);
        let ghost v0 = value@;
        let (product, _) = product_scratch.split_at_mut(2 * ml);
        Multiplication::sqr_limbs(product, &value[0..ml]);
        proof {
            lemma_slot_zero_guard(v0, ml as nat);
        }
        Self::reduce_full_product(value, product, ml);
    }
}

/// Products of congruent factors are congruent.
proof fn lemma_product_congruent(a: int, a2: int, b: int, b2: int, m: int)
    requires
        m > 0,
        a % m == a2 % m,
        b % m == b2 % m,
    ensures
        (a * b) % m == (a2 * b2) % m,
{
    lemma_mul_mod_noop_general(a, b, m);
    lemma_mul_mod_noop_general(a2, b2, m);
}

/// Two slices that agree below `lo` and from `hi` on agree on every slot
/// that lies wholly below `lo` or wholly above `hi`.
pub(crate) proof fn lemma_slot_untouched(a: Seq<Limb>, b: Seq<Limb>, j: int, cl: int, lo: int, hi: int)
    requires
        a.len() == b.len(),
        0 <= lo <= hi <= a.len(),
        a.subrange(0, lo) == b.subrange(0, lo),
        a.subrange(hi, a.len() as int) == b.subrange(hi, b.len() as int),
        0 <= j * cl,
        j * cl + cl <= lo || (hi <= j * cl && j * cl + cl <= a.len()),
        cl >= 0,
    ensures
        slot_at(a, j, cl) == slot_at(b, j, cl),
{
    if j * cl + cl <= lo {
        assert(slot_at(a, j, cl) =~= a.subrange(0, lo).subrange(j * cl, j * cl + cl));
        assert(slot_at(b, j, cl) =~= b.subrange(0, lo).subrange(j * cl, j * cl + cl));
    } else {
        assert(slot_at(a, j, cl) =~= a.subrange(hi, a.len() as int).subrange(j * cl - hi, j * cl + cl - hi));
        assert(slot_at(b, j, cl) =~= b.subrange(hi, b.len() as int).subrange(j * cl - hi, j * cl + cl - hi));
    }
}

impl SsaPointwise {
    /// Multiplies the slot at `offset` of `left_matrix` in place by the slot
    /// at the same offset of `right_matrix`, canonicalizing both first; an
    /// odd-factor plan, where given, computes ordinary products and then
    /// leaves the right slot as workspace.
    fn multiply_slot(
        left_matrix: &mut [Limb],
        right_matrix: &mut [Limb],
        offset: usize,
        mod_bits: usize,
        negacyclic: Option<NegacyclicPlan>,
        mul_scratch: &mut [Limb],
    )
        requires
            valid_mod_bits(mod_bits),
            offset + mod_bits / 64 + 1 <= old(left_matrix)@.len(),
            offset + mod_bits / 64 + 1 <= old(right_matrix)@.len(),
            old(mul_scratch)@.len() >= 2 * (mod_bits / 64),
            negacyclic matches Some(plan) ==> spec_negacyclic_plan((mod_bits / 64) as nat) == Some(plan)
                && old(mul_scratch)@.len() >= plan.scratch_len,
        ensures
            final(left_matrix)@.len() == old(left_matrix)@.len(),
            final(right_matrix)@.len() == old(right_matrix)@.len(),
            final(mul_scratch)@.len() == old(mul_scratch)@.len(),
            ({
                let cl = mod_bits / 64 + 1;
                let ml = (mod_bits / 64) as nat;
                let lo = offset as int;
                let hi = offset + cl;
                let l = old(left_matrix)@.subrange(lo, hi);
                let r = old(right_matrix)@.subrange(lo, hi);
                let l2 = final(left_matrix)@.subrange(lo, hi);
                &&& final(left_matrix)@.subrange(0, lo) == old(left_matrix)@.subrange(0, lo)
                &&& final(left_matrix)@.subrange(hi, final(left_matrix)@.len() as int) == old(
                    left_matrix,
                )@.subrange(hi, old(left_matrix)@.len() as int)
                &&& final(right_matrix)@.subrange(0, lo) == old(right_matrix)@.subrange(0, lo)
                &&& final(right_matrix)@.subrange(hi, final(right_matrix)@.len() as int) == old(
                    right_matrix,
                )@.subrange(hi, old(right_matrix)@.len() as int)
                &&& canonical(l2, ml)
                &&& residue(l2, ml) == ((slot_value(l, ml) * slot_value(r, ml)) as int) % (
                fermat_modulus(ml) as int)
            }),
    {
        let ml = SsaRing::mod_limbs(mod_bits);
        let cl = ml + 1;
        let ghost nl = ml as nat;
        let ghost l0 = left_matrix@;
        let ghost r0 = right_matrix@;
        let ghost lpre: Seq<Limb>;
        let ghost lslot_f: Seq<Limb>;
        let ghost lpost: Seq<Limb>;
        let ghost rpre: Seq<Limb>;
        let ghost rslot_f: Seq<Limb>;
        let ghost rpost: Seq<Limb>;
        let ghost lnorm: Seq<Limb>;
        let ghost rnorm: Seq<Limb>;
        {
            let (lbefore, lrest) = left_matrix.split_at_mut(offset);
            let (lslot, lafter) = lrest.split_at_mut(cl);
            let (rbefore, rrest) = right_matrix.split_at_mut(offset);
            let (rslot, rafter) = rrest.split_at_mut(cl);
            proof {
                assert(lslot@ =~= l0.subrange(offset as int, offset + cl));
                assert(rslot@ =~= r0.subrange(offset as int, offset + cl));
            }
            SsaRing::normalize(lslot, mod_bits);
            SsaRing::normalize(rslot, mod_bits);
            proof {
                lnorm = lslot@;
                rnorm = rslot@;
            }
            if !Self::write_pointwise_special_product(lslot, rslot, mod_bits) {
                match negacyclic {
                    Some(plan) => {
                        proof {
                            assert(lslot@.subrange(0, ml + 1int) =~= lslot@);
                            assert(rslot@.subrange(0, ml + 1int) =~= rslot@);
                        }
                        plan.mul_assign_left(lslot, rslot, mul_scratch);
                        proof {
                            assert(lslot@.subrange(lslot@.len() as int, lslot@.len() as int) =~= lnorm.subrange(
                                cl as int,
                                cl as int,
                            ));
                        }
                    },
                    None => {
                        Self::fermat_basecase_mul_assign_left(lslot, rslot, mod_bits, mul_scratch);
                    },
                }
            }
            proof {
                lpre = lbefore@;
                lslot_f = lslot@;
                lpost = lafter@;
                rpre = rbefore@;
                rslot_f = rslot@;
                rpost = rafter@;
            }
        }
        proof {
            let m = fermat_modulus(nl) as int;
            assert(left_matrix@ =~= lpre + lslot_f + lpost);
            assert(right_matrix@ =~= rpre + rslot_f + rpost);
            assert(left_matrix@.subrange(offset as int, offset + cl) =~= lslot_f);
            assert(right_matrix@.subrange(offset as int, offset + cl) =~= rslot_f);
            assert(left_matrix@.subrange(0, offset as int) =~= lpre);
            assert(right_matrix@.subrange(0, offset as int) =~= rpre);
            assert(lpre =~= l0.subrange(0, offset as int));
            assert(rpre =~= r0.subrange(0, offset as int));
            assert(left_matrix@.subrange(offset + cl, left_matrix@.len() as int) =~= lpost);
            assert(right_matrix@.subrange(offset + cl, right_matrix@.len() as int) =~= rpost);
            assert(lpost =~= l0.subrange(offset + cl, l0.len() as int));
            assert(rpost =~= r0.subrange(offset + cl, r0.len() as int));
            let l = l0.subrange(offset as int, offset + cl);
            let r = r0.subrange(offset as int, offset + cl);
            crate::limbs::lemma_pow_b_pos(nl);
            lemma_product_congruent(
                slot_value(lnorm, nl) as int,
                slot_value(l, nl) as int,
                slot_value(rnorm, nl) as int,
                slot_value(r, nl) as int,
                m,
            );
        }
    }

    /// Multiplies every slot of `left_matrix` in place by the matching slot
    /// of `right_matrix`, canonicalizing both matrices' slots on the way.
    pub fn pointwise_multiply_with_executor(
        left_matrix: &mut [Limb],
        right_matrix: &mut [Limb],
        transform_len: usize,
        mod_bits: usize,
        product_scratch: &mut [Limb],
    )
        requires
            valid_mod_bits(mod_bits),
            transform_len * (mod_bits / 64 + 1) <= old(left_matrix)@.len(),
            transform_len * (mod_bits / 64 + 1) <= old(right_matrix)@.len(),
            old(product_scratch)@.len() >= (mod_bits / 64 + 1) + spec_fermat_basecase_scratch_len(
                mod_bits as nat,
            ),
        ensures
            final(left_matrix)@.len() == old(left_matrix)@.len(),
            final(right_matrix)@.len() == old(right_matrix)@.len(),
            final(product_scratch)@.len() == old(product_scratch)@.len(),
            forall|i: int|
                #![trigger slot_at(final(left_matrix)@, i, mod_bits / 64 + 1)]
                0 <= i < transform_len ==> {
                    &&& canonical(
                        slot_at(final(left_matrix)@, i, mod_bits / 64 + 1),
                        (mod_bits / 64) as nat,
                    )
                    &&& residue(
                        slot_at(final(left_matrix)@, i, mod_bits / 64 + 1),
                        (mod_bits / 64) as nat,
                    ) == ((slot_value(
                        slot_at(old(left_matrix)@, i, mod_bits / 64 + 1),
                        (mod_bits / 64) as nat,
                    ) * slot_value(
                        slot_at(old(right_matrix)@, i, mod_bits / 64 + 1),
                        (mod_bits / 64) as nat,
                    )) as int) % (fermat_modulus((mod_bits / 64) as nat) as int)
                },
            final(left_matrix)@.subrange(
                transform_len * (mod_bits / 64 + 1),
                final(left_matrix)@.len() as int,
            ) == old(left_matrix)@.subrange(
                transform_len * (mod_bits / 64 + 1),
                old(left_matrix)@.len() as int,
            ),
            final(right_matrix)@.subrange(
                transform_len * (mod_bits / 64 + 1),
                final(right_matrix)@.len() as int,
            ) == old(right_matrix)@.subrange(
                transform_len * (mod_bits / 64 + 1),
                old(right_matrix)@.len() as int,
            ),
    {
        let ml = SsaRing::mod_limbs(mod_bits);
        let cl = ml + 1;
        let ghost nl = ml as nat;
        let ghost l0 = left_matrix@;
        let ghost r0 = right_matrix@;
        let ghost total = transform_len * cl;
        let left_len = left_matrix.len();
        let (_, mul_scratch) = product_scratch.split_at_mut(cl);
        let ghost mul_len = mul_scratch@.len();
        let negacyclic = if mod_bits <= SSA_BASE_MODULUS_BITS {
            NegacyclicPlan::new(ml)
        } else {
            None
        };
        proof {
            assert(mul_len >= spec_fermat_basecase_scratch_len(mod_bits as nat));
        }
        let mut i: usize = 0;
        while i < transform_len
            invariant
                valid_mod_bits(mod_bits),
                ml == mod_bits / 64,
                cl == ml + 1,
                nl == ml,
                total == transform_len * cl,
                total <= l0.len(),
                total <= r0.len(),
                left_len == l0.len(),
                0 <= i <= transform_len,
                left_matrix@.len() == l0.len(),
                right_matrix@.len() == r0.len(),
                mul_scratch@.len() == mul_len,
                mul_len >= 2 * ml,
                negacyclic matches Some(plan) ==> spec_negacyclic_plan(ml as nat) == Some(plan)
                    && mul_len >= plan.scratch_len,
                forall|j: int|
                    0 <= j < i ==> {
                        &&& canonical(#[trigger] slot_at(left_matrix@, j, cl as int), nl)
                        &&& residue(slot_at(left_matrix@, j, cl as int), nl) == ((slot_value(
                            slot_at(l0, j, cl as int),
                            nl,
                        ) * slot_value(slot_at(r0, j, cl as int), nl)) as int) % (fermat_modulus(
                            nl,
                        ) as int)
                    },
                left_matrix@.subrange(i * cl, left_matrix@.len() as int) == l0.subrange(
                    i * cl,
                    l0.len() as int,
                ),
                right_matrix@.subrange(i * cl, right_matrix@.len() as int) == r0.subrange(
                    i * cl,
                    r0.len() as int,
                ),
            decreases transform_len - i,
        {
            proof {
                lemma_slot_offsets(i as int, transform_len as int, cl as int);
            }
            let offset = i * cl;
            let ghost lb = left_matrix@;
            let ghost rb = right_matrix@;
            Self::multiply_slot(left_matrix, right_matrix, offset, mod_bits, negacyclic, mul_scratch);
            proof {
                let la = left_matrix@;
                let ra = right_matrix@;
                let lo = offset as int;
                let hi = lo + cl;
                assert(slot_at(lb, i as int, cl as int) == slot_at(l0, i as int, cl as int)) by {
                    assert(slot_at(lb, i as int, cl as int) =~= lb.subrange(lo, lb.len() as int).subrange(0, cl as int));
                    assert(slot_at(l0, i as int, cl as int) =~= l0.subrange(lo, l0.len() as int).subrange(0, cl as int));
                }
                assert(slot_at(rb, i as int, cl as int) == slot_at(r0, i as int, cl as int)) by {
                    assert(slot_at(rb, i as int, cl as int) =~= rb.subrange(lo, rb.len() as int).subrange(0, cl as int));
                    assert(slot_at(r0, i as int, cl as int) =~= r0.subrange(lo, r0.len() as int).subrange(0, cl as int));
                }
                assert forall|j: int| 0 <= j < i + 1 implies {
                    &&& canonical(#[trigger] slot_at(la, j, cl as int), nl)
                    &&& residue(slot_at(la, j, cl as int), nl) == ((slot_value(
                        slot_at(l0, j, cl as int),
                        nl,
                    ) * slot_value(slot_at(r0, j, cl as int), nl)) as int) % (fermat_modulus(
                        nl,
                    ) as int)
                } by {
                    if j < i {
                        lemma_slot_offsets(j, i as int, cl as int);
                        lemma_mul_nonnegative(j, cl as int);
                        lemma_slot_untouched(la, lb, j, cl as int, lo, hi);
                        lemma_slot_untouched(ra, rb, j, cl as int, lo, hi);
                    } else {
                        assert(j == i);
                        assert(slot_at(la, j, cl as int) =~= la.subrange(lo, hi));
                        assert(slot_at(ra, j, cl as int) =~= ra.subrange(lo, hi));
                        assert(slot_at(lb, j, cl as int) =~= lb.subrange(lo, hi));
                        assert(slot_at(rb, j, cl as int) =~= rb.subrange(lo, hi));
                    }
                }
                assert((i + 1) * cl == hi);
                assert(la.subrange(hi, la.len() as int) =~= l0.subrange(hi, l0.len() as int)) by {
                    assert(la.subrange(hi, la.len() as int) == lb.subrange(hi, lb.len() as int));
                    assert(lb.subrange(hi, lb.len() as int) =~= lb.subrange(lo, lb.len() as int).subrange(cl as int, lb.len() - lo));
                    assert(l0.subrange(hi, l0.len() as int) =~= l0.subrange(lo, l0.len() as int).subrange(cl as int, l0.len() - lo));
                }
                assert(ra.subrange(hi, ra.len() as int) =~= r0.subrange(hi, r0.len() as int)) by {
                    assert(ra.subrange(hi, ra.len() as int) == rb.subrange(hi, rb.len() as int));
                    assert(rb.subrange(hi, rb.len() as int) =~= rb.subrange(lo, rb.len() as int).subrange(cl as int, rb.len() - lo));
                    assert(r0.subrange(hi, r0.len() as int) =~= r0.subrange(lo, r0.len() as int).subrange(cl as int, r0.len() - lo));
                }
            }
            i = i + 1;
        }
    }
}

impl SsaPointwise {
    /// Squares the slot at `offset` of `matrix` in place, canonicalizing it
    /// first.
    fn square_slot(matrix: &mut [Limb], offset: usize, mod_bits: usize, sqr_scratch: &mut [Limb])
        requires
            valid_mod_bits(mod_bits),
            offset + mod_bits / 64 + 1 <= old(matrix)@.len(),
            old(sqr_scratch)@.len() >= 2 * (mod_bits / 64),
        ensures
            final(matrix)@.len() == old(matrix)@.len(),
            final(sqr_scratch)@.len() == old(sqr_scratch)@.len(),
            ({
                let cl = mod_bits / 64 + 1;
                let ml = (mod_bits / 64) as nat;
                let lo = offset as int;
                let hi = offset + cl;
                let v = old(matrix)@.subrange(lo, hi);
                let v2 = final(matrix)@.subrange(lo, hi);
                &&& final(matrix)@.subrange(0, lo) == old(matrix)@.subrange(0, lo)
                &&& final(matrix)@.subrange(hi, final(matrix)@.len() as int) == old(
                    matrix,
                )@.subrange(hi, old(matrix)@.len() as int)
                &&& canonical(v2, ml)
                &&& residue(v2, ml) == ((slot_value(v, ml) * slot_value(v, ml)) as int) % (
                fermat_modulus(ml) as int)
            }),
    {
        let ml = SsaRing::mod_limbs(mod_bits);
        let cl = ml + 1;
        let ghost nl = ml as nat;
        let ghost m0 = matrix@;
        let ghost pre: Seq<Limb>;
        let ghost slot_f: Seq<Limb>;
        let ghost post: Seq<Limb>;
        let ghost norm: Seq<Limb>;
        {
            let (before, rest) = matrix.split_at_mut(offset);
            let (slot, after) = rest.split_at_mut(cl);
            proof {
                assert(slot@ =~= m0.subrange(offset as int, offset + cl));
            }
            SsaRing::normalize(slot, mod_bits);
            proof {
                norm = slot@;
            }
            if !Self::write_pointwise_special_square(slot, mod_bits) {
                Self::fermat_basecase_sqr_assign(slot, mod_bits, sqr_scratch);
            }
            proof {
                pre = before@;
                slot_f = slot@;
                post = after@;
            }
        }
        proof {
            let m = fermat_modulus(nl) as int;
            assert(matrix@ =~= pre + slot_f + post);
            assert(matrix@.subrange(offset as int, offset + cl) =~= slot_f);
            assert(matrix@.subrange(0, offset as int) =~= pre);
            assert(pre =~= m0.subrange(0, offset as int));
            assert(matrix@.subrange(offset + cl, matrix@.len() as int) =~= post);
            assert(post =~= m0.subrange(offset + cl, m0.len() as int));
            let v = m0.subrange(offset as int, offset + cl);
            crate::limbs::lemma_pow_b_pos(nl);
            lemma_product_congruent(
                slot_value(norm, nl) as int,
                slot_value(v, nl) as int,
                slot_value(norm, nl) as int,
                slot_value(v, nl) as int,
                m,
            );
        }
    }

    /// Squares every slot of `matrix` in place, canonicalizing it first.
    pub fn pointwise_square_with_executor(
        matrix: &mut [Limb],
        transform_len: usize,
        mod_bits: usize,
        sqr_scratch: &mut [Limb],
    )
        requires
            valid_mod_bits(mod_bits),
            transform_len * (mod_bits / 64 + 1) <= old(matrix)@.len(),
            old(sqr_scratch)@.len() >= 2 * (mod_bits / 64),
        ensures
            final(matrix)@.len() == old(matrix)@.len(),
            final(sqr_scratch)@.len() == old(sqr_scratch)@.len(),
            forall|i: int|
                #![trigger slot_at(final(matrix)@, i, mod_bits / 64 + 1)]
                0 <= i < transform_len ==> {
                    &&& canonical(
                        slot_at(final(matrix)@, i, mod_bits / 64 + 1),
                        (mod_bits / 64) as nat,
                    )
                    &&& residue(
                        slot_at(final(matrix)@, i, mod_bits / 64 + 1),
                        (mod_bits / 64) as nat,
                    ) == ((slot_value(
                        slot_at(old(matrix)@, i, mod_bits / 64 + 1),
                        (mod_bits / 64) as nat,
                    ) * slot_value(
                        slot_at(old(matrix)@, i, mod_bits / 64 + 1),
                        (mod_bits / 64) as nat,
                    )) as int) % (fermat_modulus((mod_bits / 64) as nat) as int)
                },
            final(matrix)@.subrange(transform_len * (mod_bits / 64 + 1), final(matrix)@.len() as int)
                == old(matrix)@.subrange(
                transform_len * (mod_bits / 64 + 1),
                old(matrix)@.len() as int,
            ),
    {
        let ml = SsaRing::mod_limbs(mod_bits);
        let cl = ml + 1;
        let ghost nl = ml as nat;
        let ghost m0 = matrix@;
        let ghost total = transform_len * cl;
        let ghost scratch_len = sqr_scratch@.len();
        let matrix_len = matrix.len();
        let mut i: usize = 0;
        while i < transform_len
            invariant
                matrix_len == m0.len(),
                valid_mod_bits(mod_bits),
                ml == mod_bits / 64,
                cl == ml + 1,
                nl == ml,
                total == transform_len * cl,
                total <= m0.len(),
                0 <= i <= transform_len,
                matrix@.len() == m0.len(),
                sqr_scratch@.len() == scratch_len,
                scratch_len >= 2 * ml,
                forall|j: int|
                    0 <= j < i ==> {
                        &&& canonical(#[trigger] slot_at(matrix@, j, cl as int), nl)
                        &&& residue(slot_at(matrix@, j, cl as int), nl) == ((slot_value(
                            slot_at(m0, j, cl as int),
                            nl,
                        ) * slot_value(slot_at(m0, j, cl as int), nl)) as int) % (fermat_modulus(
                            nl,
                        ) as int)
                    },
                matrix@.subrange(i * cl, matrix@.len() as int) == m0.subrange(
                    i * cl,
                    m0.len() as int,
                ),
            decreases transform_len - i,
        {
            proof {
                lemma_slot_offsets(i as int, transform_len as int, cl as int);
            }
            let offset = i * cl;
            let ghost mb = matrix@;
            Self::square_slot(matrix, offset, mod_bits, sqr_scratch);
            proof {
                let ma = matrix@;
                let lo = offset as int;
                let hi = lo + cl;
                assert(slot_at(mb, i as int, cl as int) == slot_at(m0, i as int, cl as int)) by {
                    assert(slot_at(mb, i as int, cl as int) =~= mb.subrange(lo, mb.len() as int).subrange(0, cl as int));
                    assert(slot_at(m0, i as int, cl as int) =~= m0.subrange(lo, m0.len() as int).subrange(0, cl as int));
                }
                assert forall|j: int| 0 <= j < i + 1 implies {
                    &&& canonical(#[trigger] slot_at(ma, j, cl as int), nl)
                    &&& residue(slot_at(ma, j, cl as int), nl) == ((slot_value(
                        slot_at(m0, j, cl as int),
                        nl,
                    ) * slot_value(slot_at(m0, j, cl as int), nl)) as int) % (fermat_modulus(
                        nl,
                    ) as int)
                } by {
                    if j < i {
                        lemma_slot_offsets(j, i as int, cl as int);
                        lemma_mul_nonnegative(j, cl as int);
                        lemma_slot_untouched(ma, mb, j, cl as int, lo, hi);
                    } else {
                        assert(slot_at(ma, j, cl as int) =~= ma.subrange(lo, hi));
                        assert(slot_at(mb, j, cl as int) =~= mb.subrange(lo, hi));
                    }
                }
                assert((i + 1) * cl == hi);
                assert(ma.subrange(hi, ma.len() as int) =~= m0.subrange(hi, m0.len() as int)) by {
                    assert(ma.subrange(hi, ma.len() as int) == mb.subrange(hi, mb.len() as int));
                    assert(mb.subrange(hi, mb.len() as int) =~= mb.subrange(lo, mb.len() as int).subrange(cl as int, mb.len() - lo));
                    assert(m0.subrange(hi, m0.len() as int) =~= m0.subrange(lo, m0.len() as int).subrange(cl as int, m0.len() - lo));
                }
            }
            i = i + 1;
        }
    }
}

} // verus!
