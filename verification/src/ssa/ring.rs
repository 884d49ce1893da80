//! Fermat ring arithmetic on fixed-width limb slices.
//!
//! All operations work in `Z/(2^n + 1)` where `n = mod_bits` is a positive
//! multiple of `LIMB_BITS`. A coefficient occupies a slot of
//! `coeff_limbs = mod_bits / LIMB_BITS + 1` limbs: `ml = mod_bits / LIMB_BITS`
//! data limbs and one guard limb. The slot's integer `S` (data plus
//! `guard * 2^n`) stands for the residue `S mod (2^n + 1)`. A slot is
//! *semi-normalized* when its guard is at most one and *canonical* when
//! `S <= 2^n`, the unique representative in `[0, 2^n]`.

use crate::limbs::{
    LIMB_BITS, Limb, all_zero, lemma_pow_b_pos, lemma_val_bound, lemma_val_push, lemma_val_single, lemma_val_split,
    lemma_val_zero, lemma_val_zero_converse, pow_b, val,
};
use crate::ssa::carry::SsaCarry;
use vstd::arithmetic::div_mod::*;
use vstd::arithmetic::mul::*;
use vstd::prelude::*;

verus! {

/// The Fermat modulus `2^n + 1` for a ring of `ml` data limbs.
pub open spec fn fermat_modulus(ml: nat) -> nat {
    pow_b(ml) + 1
}

/// The integer a slot of `ml` data limbs stores: data plus guard times `2^n`.
pub open spec fn slot_value(s: Seq<Limb>, ml: nat) -> nat {
    val(s.subrange(0, ml + 1int))
}

/// The residue a slot denotes.
pub open spec fn residue(s: Seq<Limb>, ml: nat) -> int {
    (slot_value(s, ml) as int) % (fermat_modulus(ml) as int)
}

/// The slot's guard limb is at most one.
pub open spec fn semi_normalized(s: Seq<Limb>, ml: nat) -> bool {
    ml < s.len() && s[ml as int] <= 1
}

/// The slot holds the representative in `[0, 2^n]`.
pub open spec fn canonical(s: Seq<Limb>, ml: nat) -> bool {
    ml < s.len() && slot_value(s, ml) <= pow_b(ml)
}

/// A well-formed ring width: a positive whole number of limbs.
pub open spec fn valid_mod_bits(mod_bits: usize) -> bool {
    mod_bits > 0 && mod_bits % 64 == 0
}

/// Two slices agree outside their first `cl` limbs.
pub open spec fn same_tail(a: Seq<Limb>, b: Seq<Limb>, cl: int) -> bool {
    a.len() == b.len() && a.subrange(cl, a.len() as int) == b.subrange(cl, b.len() as int)
}

/// The slot value splits into data and guard.
pub proof fn lemma_slot_split(s: Seq<Limb>, ml: nat)
    requires
        ml < s.len(),
    ensures
        slot_value(s, ml) == val(s.subrange(0, ml as int)) + s[ml as int] * pow_b(ml),
{
    assert(s.subrange(0, ml + 1int) =~= s.subrange(0, ml as int).push(s[ml as int]));
    lemma_val_push(s.subrange(0, ml as int), s[ml as int]);
}

/// A zero guard leaves the slot value to the data limbs.
pub proof fn lemma_slot_zero_guard(s: Seq<Limb>, ml: nat)
    requires
        ml < s.len(),
        s[ml as int] == 0,
    ensures
        slot_value(s, ml) == val(s.subrange(0, ml as int)),
{
    lemma_slot_split(s, ml);
    lemma_mul_basics(pow_b(ml) as int);
}

/// A canonical slot has a guard of zero, or of one over all-zero data.
pub proof fn lemma_canonical_shape(s: Seq<Limb>, ml: nat)
    requires
        canonical(s, ml),
    ensures
        s[ml as int] <= 1,
        s[ml as int] == 1 ==> all_zero(s.subrange(0, ml as int)),
{
    lemma_slot_split(s, ml);
    lemma_pow_b_pos(ml);
    if s[ml as int] >= 1 {
        lemma_mul_increases(s[ml as int] as int, pow_b(ml) as int);
        lemma_mul_is_commutative(s[ml as int] as int, pow_b(ml) as int);
        if s[ml as int] >= 2 {
            lemma_mul_inequality(2, s[ml as int] as int, pow_b(ml) as int);
        }
        if s[ml as int] == 1 {
            lemma_val_zero_converse(s.subrange(0, ml as int));
        }
    }
}

/// A canonical slot's residue is its value.
pub proof fn lemma_canonical_residue(s: Seq<Limb>, ml: nat)
    requires
        canonical(s, ml),
    ensures
        residue(s, ml) == slot_value(s, ml),
{
    lemma_small_mod(slot_value(s, ml), fermat_modulus(ml));
}

/// A semi-normalized slot stores less than `2^(n+1)`.
pub proof fn lemma_semi_bound(s: Seq<Limb>, ml: nat)
    requires
        semi_normalized(s, ml),
    ensures
        slot_value(s, ml) < 2 * pow_b(ml),
{
    lemma_slot_split(s, ml);
    lemma_val_bound(s.subrange(0, ml as int));
    lemma_mul_inequality(s[ml as int] as int, 1, pow_b(ml) as int);
}

/// How a canonical residue relates to the two multiplicative special cases.
#[derive(Clone, Copy, PartialEq, Eq, Structural, Debug)]
pub enum Residue {
    /// The additive identity: every data limb and the guard limb are zero.
    Zero,
    /// The residue `-1 == 2^n`: every data limb is zero and the guard is one.
    NegOne,
    /// Anything else, including a non-canonical guard above one.
    Ordinary,
}

/// Namespace for arithmetic in the Fermat ring `Z/(2^mod_bits + 1)`.
pub struct SsaRing;

impl SsaRing {
    /// Number of data limbs in a Fermat ring element, excluding the guard limb.
    pub fn mod_limbs(mod_bits: usize) -> (ml: usize)
        ensures
            ml == mod_bits / 64,
    {
        mod_bits / LIMB_BITS
    }

    /// Total slot width for a ring element: the data limbs plus the guard limb
    /// that accommodates the value `2^n`.
    pub fn coeff_limbs(mod_bits: usize) -> (cl: usize)
        ensures
            cl == mod_bits / 64 + 1,
    {
        mod_bits / LIMB_BITS + 1
    }

    /// Reduces a shift amount modulo the ring's full period `2 * mod_bits`.
    ///
    /// A zero period, which no positive ring width produces, reduces to zero.
    pub fn reduce_mod_period(x: usize, period: usize) -> (r: usize)
        ensures
            r == if period == 0 {
                0
            } else {
                x % period
            },
    {
        if period == 0 {
            0
        } else {
            x % period
        }
    }

    /// Classifies a slot with a single pass over its data limbs.
    pub fn classify_residue(coeff: &[Limb], ml: usize) -> (class: Residue)
        requires
            ml < coeff@.len(),
        ensures
            class == Residue::Zero <==> (all_zero(coeff@.subrange(0, ml as int)) && coeff@[ml as int]
                == 0),
            class == Residue::NegOne <==> (all_zero(coeff@.subrange(0, ml as int))
                && coeff@[ml as int] == 1),
    {
        let mut i: usize = 0;
        while i < ml
            invariant
                ml < coeff@.len(),
                0 <= i <= ml,
                all_zero(coeff@.subrange(0, i as int)),
            decreases ml - i,
        {
            if coeff[i] != 0 {
                assert(coeff@.subrange(0, ml as int)[i as int] != 0);
                return Residue::Ordinary;
            }
            i = i + 1;
            assert forall|j: int| 0 <= j < i implies coeff@.subrange(0, i as int)[j] == 0 by {
                if j < i - 1 {
                    assert(coeff@.subrange(0, i - 1)[j] == 0);
                }
            }
        }
        if coeff[ml] == 0 {
            Residue::Zero
        } else if coeff[ml] == 1 {
            Residue::NegOne
        } else {
            Residue::Ordinary
        }
    }

    /// Ensures `dst` is a canonical residue in `[0, 2^n]` without changing it
    /// modulo `2^n + 1`.
    pub fn normalize(dst: &mut [Limb], mod_bits: usize)
        requires
            valid_mod_bits(mod_bits),
            old(dst)@.len() >= mod_bits / 64 + 1,
        ensures
            canonical(final(dst)@, (mod_bits / 64) as nat),
            residue(final(dst)@, (mod_bits / 64) as nat) == residue(
                old(dst)@,
                (mod_bits / 64) as nat,
            ),
            same_tail(final(dst)@, old(dst)@, mod_bits / 64 + 1),
    {
        let ml = Self::mod_limbs(mod_bits);
        let ghost d0 = dst@;
        let ghost m = fermat_modulus(ml as nat) as int;
        let guard = dst[ml];
        proof {
            lemma_slot_split(d0, ml as nat);
            lemma_pow_b_pos(ml as nat);
            lemma_val_bound(d0.subrange(0, ml as int));
        }
        if guard == 0 {
            return;
        }
        dst[ml] = 0;
        let (data, rest) = dst.split_at_mut(ml);
        let ghost data0 = data@;
        let guard_limb: [Limb; 1] = [guard];
        proof {
            assert(guard_limb@ =~= seq![guard]);
        }
        let borrow = SsaCarry::sub_full_in_place(data, &guard_limb);
        let ghost data1 = data@;
        proof {
            assert(data0 =~= d0.subrange(0, ml as int));
            lemma_val_single(guard);
            lemma_val_bound(data1);
            assert(dst@ =~= data1 + rest@);
            assert(dst@.subrange(0, ml as int) =~= data1);
        }
        if borrow != 0 {
            SsaCarry::correct_wrapped_shift_difference(dst, ml);
        }
        proof {
            let d = dst@;
            lemma_slot_split(d, ml as nat);
            let low = val(d0.subrange(0, ml as int)) as int;
            let g = guard as int;
            let p = pow_b(ml as nat) as int;
            // S = low + g * p, and low + g * p == (low - g) + g * m.
            assert(g * p + g == g * m) by (nonlinear_arith)
                requires
                    m == p + 1,
            ;
            assert(slot_value(d0, ml as nat) == low + g * p);
            assert(residue(d0, ml as nat) == (low + g * p) % m);
            if borrow == 0 {
                assert(d.subrange(0, ml as int) =~= data1);
                assert(slot_value(d, ml as nat) == low - g);
                lemma_mod_multiples_vanish(g, low - g, m);
                assert(residue(d, ml as nat) == (low - g) % m);
                assert((g * m + (low - g)) == low + g * p);
                assert(residue(d, ml as nat) == residue(d0, ml as nat));
            } else {
                assert(slot_value(d, ml as nat) == low - g + p + 1);
                lemma_mod_multiples_vanish(g - 1, low - g + p + 1, m);
                assert(m * (g - 1) + (low - g + p + 1) == low + g * p) by (nonlinear_arith)
                    requires
                        m == p + 1,
                ;
                assert(residue(d, ml as nat) == (low - g + p + 1) % m);
                assert(residue(d, ml as nat) == residue(d0, ml as nat));
            }
            assert(d.subrange(ml + 1, d.len() as int) =~= d0.subrange(ml + 1, d0.len() as int));
        }
    }
    /// Computes `dst = -dst mod (2^n + 1)` in place on a canonical residue.
    ///
    /// Zero stays zero; any other `v` becomes `2^n + 1 - v`.
    pub fn negate(dst: &mut [Limb], mod_bits: usize)
        requires
            valid_mod_bits(mod_bits),
            old(dst)@.len() >= mod_bits / 64 + 1,
            canonical(old(dst)@, (mod_bits / 64) as nat),
        ensures
            canonical(final(dst)@, (mod_bits / 64) as nat),
            slot_value(final(dst)@, (mod_bits / 64) as nat) == if slot_value(
                old(dst)@,
                (mod_bits / 64) as nat,
            ) == 0 {
                0
            } else {
                fermat_modulus((mod_bits / 64) as nat) - slot_value(old(dst)@, (mod_bits / 64) as nat)
            },
            same_tail(final(dst)@, old(dst)@, mod_bits / 64 + 1),
    {
        let ml = Self::mod_limbs(mod_bits);
        let ghost d0 = dst@;
        let ghost p = pow_b(ml as nat);
        proof {
            lemma_slot_split(d0, ml as nat);
            lemma_canonical_shape(d0, ml as nat);
            lemma_pow_b_pos(ml as nat);
            crate::limbs::lemma_pow_b_monotone(1, ml as nat);
            crate::limbs::lemma_pow_b_one();
        }
        let class = Self::classify_residue(dst, ml);
        if class == Residue::Zero {
            proof {
                lemma_val_zero(d0.subrange(0, ml as int));
            }
            return;
        }
        if class == Residue::NegOne {
            // -2^n == 1.
            dst[ml] = 0;
            dst[0] = 1;
            proof {
                let d = dst@;
                lemma_slot_split(d, ml as nat);
                let z = d0.subrange(0, ml as int);
                assert(d.subrange(0, ml as int) =~= z.update(0, 1));
                lemma_val_zero(z);
                crate::limbs::lemma_val_update(z, 0, 1);
                assert(pow_b(0) == 1);
                assert(z[0] == 0);
                assert(z[0] * pow_b(0) == 0);
                assert(1 * pow_b(0) == 1);
                assert(val(d.subrange(0, ml as int)) == 1);
                assert(d[ml as int] == 0);
                lemma_slot_zero_guard(d, ml as nat);
                assert(slot_value(d, ml as nat) == 1);
                assert(slot_value(d0, ml as nat) == p);
                assert(d.subrange(ml + 1, d.len() as int) =~= d0.subrange(ml + 1, d0.len() as int));
            }
            return;
        }
        // Here the guard is zero and 0 < v < 2^n: write (2^n - 1 - v) + 2.
        let mut i: usize = 0;
        while i < ml
            invariant
                ml == mod_bits / 64,
                ml < dst@.len(),
                dst@.len() == d0.len(),
                0 <= i <= ml,
                forall|j: int| 0 <= j < i ==> dst@[j] == u64::MAX - d0[j],
                forall|j: int| i <= j < dst@.len() ==> dst@[j] == d0[j],
            decreases ml - i,
        {
            dst[i] = u64::MAX - dst[i];
            i = i + 1;
        }
        let ghost d1 = dst@;
        proof {
            crate::limbs::lemma_val_complement(d0.subrange(0, ml as int), d1.subrange(0, ml as int));
        }
        let (data, rest) = dst.split_at_mut(ml);
        let two: [Limb; 1] = [2];
        proof {
            assert(two@ =~= seq![2u64]);
            lemma_val_single(2);
            assert(data@ =~= d1.subrange(0, ml as int));
        }
        let carry = SsaCarry::add_full_in_place(data, &two);
        rest[0] = carry;
        proof {
            let d = dst@;
            assert(d.subrange(0, ml as int) =~= data@);
            lemma_slot_split(d, ml as nat);
            assert(d.subrange(ml + 1, d.len() as int) =~= d0.subrange(ml + 1, d0.len() as int));
            // slot = (p - 1 - v) + 2 = p + 1 - v, and v >= 1 keeps it at most p.
            if val(d0.subrange(0, ml as int)) == 0 {
                lemma_val_zero_converse(d0.subrange(0, ml as int));
                assert(false);
            }
        }
    }

    /// Computes `dst = dst - source` modulo `2^n + 1` in place.
    ///
    /// Inputs and output are semi-normalized; the result's guard is at most one.
    pub fn sub_in_place(dst: &mut [Limb], source: &[Limb], mod_bits: usize)
        requires
            valid_mod_bits(mod_bits),
            old(dst)@.len() >= mod_bits / 64 + 1,
            source@.len() >= mod_bits / 64 + 1,
            semi_normalized(old(dst)@, (mod_bits / 64) as nat),
            semi_normalized(source@, (mod_bits / 64) as nat),
        ensures
            semi_normalized(final(dst)@, (mod_bits / 64) as nat),
            residue(final(dst)@, (mod_bits / 64) as nat) == (slot_value(
                old(dst)@,
                (mod_bits / 64) as nat,
            ) - slot_value(source@, (mod_bits / 64) as nat)) % (fermat_modulus(
                (mod_bits / 64) as nat,
            ) as int),
            same_tail(final(dst)@, old(dst)@, mod_bits / 64 + 1),
    {
        let ml = Self::mod_limbs(mod_bits);
        let cl = ml + 1;
        let ghost d0 = dst@;
        let ghost p = pow_b(ml as nat) as int;
        let ghost m = fermat_modulus(ml as nat) as int;
        let dst_guard = dst[ml];
        let source_guard = source[ml];
        let source_data = &source[0..ml];
        proof {
            lemma_slot_split(d0, ml as nat);
            lemma_slot_split(source@, ml as nat);
            lemma_pow_b_pos(ml as nat);
            crate::limbs::lemma_pow_b_monotone(1, ml as nat);
            crate::limbs::lemma_pow_b_one();
        }
        let borrow;
        {
            let (data, rest) = dst.split_at_mut(ml);
            borrow = SsaCarry::sub_full_in_place(data, source_data);
            proof {
                lemma_val_bound(data@);
                assert(dst@.subrange(0, ml as int) =~= data@);
            }
        }
        let ghost d1 = dst@;
        let ghost low1 = val(d1.subrange(0, ml as int)) as int;
        // low1 - borrow * p == low_dst - low_src, so the exact difference of the
        // two stored integers is low1 + c * p with c = dst_guard - source_guard - borrow.
        if dst_guard >= source_guard + borrow {
            dst[ml] = dst_guard - source_guard - borrow;
            proof {
                let d = dst@;
                assert(d.subrange(0, ml as int) =~= d1.subrange(0, ml as int));
                lemma_slot_split(d, ml as nat);
                let c = dst[ml as int] as int;
                assert(c * p == dst_guard * p - source_guard * p - borrow * p) by (nonlinear_arith)
                    requires
                        c == dst_guard - source_guard - borrow,
                ;
                assert(slot_value(d, ml as nat) == slot_value(d0, ml as nat) - slot_value(
                    source@,
                    ml as nat,
                ));
                assert(d.subrange(ml + 1, d.len() as int) =~= d0.subrange(ml + 1, d0.len() as int));
            }
        } else {
            let adjustment = source_guard + borrow - dst_guard;
            dst[ml] = 0;
            let ghost d2 = dst@;
            let adjustment_limb: [Limb; 1] = [adjustment];
            let (slot, _) = dst.split_at_mut(cl);
            let ghost slot0 = slot@;
            proof {
                assert(adjustment_limb@ =~= seq![adjustment]);
                lemma_val_single(adjustment);
                assert(slot0 =~= d2.subrange(0, cl as int));
                lemma_slot_zero_guard(d2, ml as nat);
                assert(d2.subrange(0, ml as int) =~= d1.subrange(0, ml as int));
            }
            let escaped = SsaCarry::add_full_in_place(slot, &adjustment_limb);
            proof {
                let d = dst@;
                assert(d.subrange(0, cl as int) =~= slot@);
                assert(slot_value(d, ml as nat) == val(slot@));
                assert(val(slot0) == low1);
                lemma_pow_b_pos(cl as nat);
                assert(pow_b(cl as nat) == crate::limbs::radix() * pow_b(ml as nat));
                lemma_val_bound(slot@);
                // low1 + adjustment < 2p <= B^cl, so nothing escapes.
                assert(escaped * pow_b(cl as nat) < pow_b(cl as nat) + pow_b(cl as nat));
                assert(escaped == 0);
                let s = low1 + adjustment;
                assert(slot_value(d, ml as nat) == s);
                let exact = slot_value(d0, ml as nat) - slot_value(source@, ml as nat);
                let c = dst_guard - source_guard - borrow;
                assert(c * p == dst_guard * p - source_guard * p - borrow * p) by (nonlinear_arith)
                    requires
                        c == dst_guard - source_guard - borrow,
                ;
                assert(exact == low1 + c * p);
                assert(s == exact + (-c) * m) by (nonlinear_arith)
                    requires
                        s == low1 - c,
                        exact == low1 + c * p,
                        m == p + 1,
                ;
                lemma_mod_multiples_vanish(-c, exact, m);
                lemma_slot_split(d, ml as nat);
                if d[ml as int] > 1 {
                    lemma_mul_inequality(2, d[ml as int] as int, p);
                }
                assert(d.subrange(ml + 1, d.len() as int) =~= d0.subrange(ml + 1, d0.len() as int));
            }
        }
    }
    /// Computes `dst = dst + source` modulo `2^n + 1` in place, keeping the
    /// result semi-normalized.
    fn add_in_place(dst: &mut [Limb], source: &[Limb], mod_bits: usize)
        requires
            valid_mod_bits(mod_bits),
            old(dst)@.len() >= mod_bits / 64 + 1,
            source@.len() >= mod_bits / 64 + 1,
            semi_normalized(old(dst)@, (mod_bits / 64) as nat),
            semi_normalized(source@, (mod_bits / 64) as nat),
        ensures
            semi_normalized(final(dst)@, (mod_bits / 64) as nat),
            residue(final(dst)@, (mod_bits / 64) as nat) == ((slot_value(
                old(dst)@,
                (mod_bits / 64) as nat,
            ) + slot_value(source@, (mod_bits / 64) as nat)) as int) % (fermat_modulus(
                (mod_bits / 64) as nat,
            ) as int),
            same_tail(final(dst)@, old(dst)@, mod_bits / 64 + 1),
    {
        let ml = Self::mod_limbs(mod_bits);
        let cl = ml + 1;
        let ghost d0 = dst@;
        let ghost p = pow_b(ml as nat) as int;
        let ghost m = fermat_modulus(ml as nat) as int;
        let dst_guard = dst[ml];
        let source_guard = source[ml];
        let source_data = &source[0..ml];
        proof {
            lemma_slot_split(d0, ml as nat);
            lemma_slot_split(source@, ml as nat);
            lemma_pow_b_pos(ml as nat);
            crate::limbs::lemma_pow_b_monotone(1, ml as nat);
            crate::limbs::lemma_pow_b_one();
        }
        let carry;
        {
            let (data, _) = dst.split_at_mut(ml);
            carry = SsaCarry::add_full_in_place(data, source_data);
            proof {
                lemma_val_bound(data@);
                assert(dst@.subrange(0, ml as int) =~= data@);
            }
        }
        let ghost d1 = dst@;
        let ghost low1 = val(d1.subrange(0, ml as int)) as int;
        let coefficient = dst_guard + source_guard + carry;
        proof {
            let exact = slot_value(d0, ml as nat) + slot_value(source@, ml as nat);
            assert(coefficient * p == dst_guard * p + source_guard * p + carry * p)
                by (nonlinear_arith)
                requires
                    coefficient == dst_guard + source_guard + carry,
            ;
            assert(exact == low1 + coefficient * p);
        }
        if coefficient <= 1 {
            dst[ml] = coefficient;
            proof {
                let d = dst@;
                assert(d.subrange(0, ml as int) =~= d1.subrange(0, ml as int));
                lemma_slot_split(d, ml as nat);
                assert(d.subrange(ml + 1, d.len() as int) =~= d0.subrange(ml + 1, d0.len() as int));
            }
        } else {
            // The stored integer low1 + c * p equals low1 + p - (c - 1) plus
            // (c - 1) multiples of the modulus.
            let adjustment = coefficient - 1;
            dst[ml] = 1;
            let ghost d2 = dst@;
            let adjustment_limb: [Limb; 1] = [adjustment];
            let (slot, _) = dst.split_at_mut(cl);
            let ghost slot0 = slot@;
            proof {
                assert(adjustment_limb@ =~= seq![adjustment]);
                lemma_val_single(adjustment);
                assert(slot0 =~= d2.subrange(0, cl as int));
                lemma_slot_split(d2, ml as nat);
                assert(d2.subrange(0, ml as int) =~= d1.subrange(0, ml as int));
                lemma_mul_basics(p);
                assert(val(slot0) == low1 + p);
            }
            let escaped = SsaCarry::sub_full_in_place(slot, &adjustment_limb);
            proof {
                let d = dst@;
                assert(d.subrange(0, cl as int) =~= slot@);
                lemma_val_bound(slot@);
                lemma_pow_b_pos(cl as nat);
                assert(escaped == 0);
                let s = low1 + p - adjustment;
                assert(slot_value(d, ml as nat) == s);
                let exact = slot_value(d0, ml as nat) + slot_value(source@, ml as nat);
                assert(m * adjustment + s == exact) by (nonlinear_arith)
                    requires
                        s == low1 + p - adjustment,
                        exact == low1 + (adjustment + 1) * p,
                        m == p + 1,
                ;
                lemma_mod_multiples_vanish(adjustment as int, s, m);
                lemma_slot_split(d, ml as nat);
                lemma_val_bound(d.subrange(0, ml as int));
                if d[ml as int] > 1 {
                    lemma_mul_inequality(2, d[ml as int] as int, p);
                }
                assert(d.subrange(ml + 1, d.len() as int) =~= d0.subrange(ml + 1, d0.len() as int));
            }
        }
    }

    /// Replaces `sum` and `difference` with `(sum + source, sum - source)`
    /// modulo `2^n + 1`; the prior contents of `difference` are overwritten.
    ///
    /// Inputs and outputs are semi-normalized.
    pub fn add_sub(sum: &mut [Limb], difference: &mut [Limb], source: &[Limb], mod_bits: usize)
        requires
            valid_mod_bits(mod_bits),
            old(sum)@.len() >= mod_bits / 64 + 1,
            old(difference)@.len() >= mod_bits / 64 + 1,
            source@.len() >= mod_bits / 64 + 1,
            semi_normalized(old(sum)@, (mod_bits / 64) as nat),
            semi_normalized(source@, (mod_bits / 64) as nat),
        ensures
            semi_normalized(final(sum)@, (mod_bits / 64) as nat),
            semi_normalized(final(difference)@, (mod_bits / 64) as nat),
            residue(final(sum)@, (mod_bits / 64) as nat) == ((slot_value(
                old(sum)@,
                (mod_bits / 64) as nat,
            ) + slot_value(source@, (mod_bits / 64) as nat)) as int) % (fermat_modulus(
                (mod_bits / 64) as nat,
            ) as int),
            residue(final(difference)@, (mod_bits / 64) as nat) == (slot_value(
                old(sum)@,
                (mod_bits / 64) as nat,
            ) - slot_value(source@, (mod_bits / 64) as nat)) % (fermat_modulus(
                (mod_bits / 64) as nat,
            ) as int),
            same_tail(final(sum)@, old(sum)@, mod_bits / 64 + 1),
            same_tail(final(difference)@, old(difference)@, mod_bits / 64 + 1),
    {
        let cl = Self::coeff_limbs(mod_bits);
        let ghost s0 = sum@;
        let ghost f0 = difference@;
        crate::kernels::Addition::copy_prefix(difference, &sum[0..cl]);
        proof {
            let ml = (mod_bits / 64) as nat;
            assert(difference@.subrange(0, ml + 1int) =~= s0.subrange(0, ml + 1int));
            assert(difference@[ml as int] == s0[ml as int]);
        }
        Self::sub_in_place(difference, source, mod_bits);
        proof {
            assert(same_tail(difference@, f0, cl as int)) by {
                assert(difference@.subrange(cl as int, difference@.len() as int) =~= f0.subrange(
                    cl as int,
                    f0.len() as int,
                ));
            }
        }
        Self::add_in_place(sum, source, mod_bits);
    }
}

} // verus!
