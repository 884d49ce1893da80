//! Multiplication by powers of two in the Fermat coefficient ring.
//!
//! A shift by `s` in `[0, n)` splits `S * 2^s` into the `n` low bits `L` and
//! the part `H` above them; because `2^n = -1`, the residue is `L - H`, which
//! lies in `(-2^n, 2^n)` and needs at most one added modulus. Shifts in
//! `[n, 2n)` negate that difference, and every shift reduces modulo the
//! period `2n` of the powers of two.

use crate::basecase::Multiplication;
use crate::eval::SharedEval;
use crate::kernels::Addition;
use crate::limbs::{
    Limb, all_zero, lemma_pow_b_add, lemma_pow_b_pos, lemma_val_bound, lemma_val_split,
    lemma_val_zero, lemma_val_zero_converse, pow_b, val,
};
use crate::num::{lemma_two_pow_64, lemma_two_pow_monotone, lemma_two_pow_pos, two_pow};
use crate::ssa::carry::SsaCarry;
use crate::ssa::entry::{lemma_two_pow_add, lemma_two_pow_limbs};
use crate::ssa::ring::{
    SsaRing, canonical, fermat_modulus, lemma_canonical_residue, lemma_canonical_shape, lemma_semi_bound, lemma_slot_split, lemma_slot_zero_guard, residue, same_tail,
    semi_normalized, slot_value, valid_mod_bits,
};
use vstd::arithmetic::div_mod::*;
use vstd::arithmetic::mul::*;
use vstd::prelude::*;

verus! {

/// The residue of `S * 2^shift` in the ring of `ml` data limbs.
pub open spec fn shifted_residue(s: nat, shift: nat, ml: nat) -> int {
    ((s * two_pow(shift)) as int) % (fermat_modulus(ml) as int)
}

/// `x = l + h * 2^n` leaves the residue `l - h` modulo `2^n + 1`.
pub(crate) proof fn lemma_fold_high(x: int, l: int, h: int, p: int)
    requires
        p >= 1,
        x == l + h * p,
    ensures
        x % (p + 1) == (l - h) % (p + 1),
{
    assert(x == (p + 1) * h + (l - h)) by (nonlinear_arith)
        requires
            x == l + h * p,
    ;
    lemma_mod_multiples_vanish(h, l - h, p + 1);
}

/// Reading a residue through a congruent factor leaves it unchanged.
proof fn lemma_mul_congruent(s: int, x: int, y: int, m: int)
    requires
        m > 0,
        x % m == y % m,
    ensures
        (s * x) % m == (s * y) % m,
{
    lemma_mul_mod_noop_right(s, x, m);
    lemma_mul_mod_noop_right(s, y, m);
}

/// `2^(2n) = 1` modulo `2^n + 1`, so the powers of two repeat with period `2n`.
pub proof fn lemma_pow2_period(ml: nat, r: nat, q: nat)
    requires
        ml >= 1,
    ensures
        (two_pow(r + 2 * (64 * ml) * q) as int) % (fermat_modulus(ml) as int) == (two_pow(
            r,
        ) as int) % (fermat_modulus(ml) as int),
    decreases q,
{
    let m = fermat_modulus(ml) as int;
    let p = pow_b(ml) as int;
    lemma_pow_b_pos(ml);
    if q > 0 {
        lemma_pow2_period(ml, r, (q - 1) as nat);
        let e = r + 2 * (64 * ml) * (q - 1);
        assert(r + 2 * (64 * ml) * q == e + (64 * ml + 64 * ml)) by (nonlinear_arith)
            requires
                e == r + 2 * (64 * ml) * (q - 1),
                q >= 1,
        ;
        lemma_two_pow_add(e as nat, (64 * ml + 64 * ml) as nat);
        lemma_two_pow_add(64 * ml, 64 * ml);
        lemma_two_pow_limbs(ml);
        let a = two_pow(e as nat) as int;
        // p * p = (p + 1) * (p - 1) + 1.
        assert(p * p == m * (p - 1) + 1) by (nonlinear_arith)
            requires
                m == p + 1,
        ;
        lemma_mod_multiples_vanish(p - 1, 1, m);
        assert((p * p) % m == 1int % m);
        lemma_mul_congruent(a, p * p, 1, m);
        assert(two_pow((r + 2 * (64 * ml) * q) as nat) as int == a * (p * p));
    } else {
        assert(r + 2 * (64 * ml) * q == r);
    }
}

/// Half a period negates: `2^(n + k) = -2^k` modulo `2^n + 1`.
proof fn lemma_pow2_half_period(s: nat, ml: nat, k: nat)
    requires
        ml >= 1,
    ensures
        ((s * two_pow(64 * ml + k)) as int) % (fermat_modulus(ml) as int) == (-((s * two_pow(
            k,
        )) as int)) % (fermat_modulus(ml) as int),
{
    let m = fermat_modulus(ml) as int;
    let p = pow_b(ml) as int;
    let t = (s * two_pow(k)) as int;
    lemma_pow_b_pos(ml);
    lemma_two_pow_add(64 * ml, k);
    lemma_two_pow_limbs(ml);
    assert((s * two_pow(64 * ml + k)) as int == m * t + (-t)) by (nonlinear_arith)
        requires
            two_pow(64 * ml + k) == p * two_pow(k),
            t == s * two_pow(k),
            m == p + 1,
    ;
    lemma_mod_multiples_vanish(t, -t, m);
}

/// The two halves of a shifted slot: `S * 2^b * B^w = L + H * B^ml`.
proof fn lemma_shift_identity(
    vlo: int,
    vhi: int,
    g: int,
    lhi: int,
    c_lo: int,
    hlow: int,
    c_hi: int,
    t: int,
    pl: int,
    pw: int,
    pm: int,
)
    requires
        pm == pl * pw,
        lhi + c_lo * pl == vlo * t,
        hlow + c_hi * pw == c_lo + vhi * t,
    ensures
        (vlo + vhi * pl + g * pm) * (t * pw) == lhi * pw + (hlow + (c_hi + g * t) * pw) * pm,
{
    assert(vlo * t * pw == lhi * pw + c_lo * pm) by (nonlinear_arith)
        requires
            lhi + c_lo * pl == vlo * t,
            pm == pl * pw,
    ;
    assert(vhi * pl * (t * pw) == vhi * t * pm) by (nonlinear_arith)
        requires
            pm == pl * pw,
    ;
    assert(g * pm * (t * pw) == g * t * pw * pm) by (nonlinear_arith);
    assert((c_lo + vhi * t) * pm == (hlow + c_hi * pw) * pm);
    assert((vlo + vhi * pl + g * pm) * (t * pw) == vlo * t * pw + vhi * pl * (t * pw) + g * pm
        * (t * pw)) by (nonlinear_arith);
    assert((hlow + (c_hi + g * t) * pw) * pm == (hlow + c_hi * pw) * pm + g * t * pw * pm)
        by (nonlinear_arith);
    assert(c_lo * pm + vhi * t * pm == (c_lo + vhi * t) * pm) by (nonlinear_arith);
}

/// The part above the `n` low bits is below `2^(s + 1)`, one limb above `B^w`.
proof fn lemma_high_bound(sv: int, t: int, pw: int, pm: int, l: int, h: int, hlow: int, h_top: int)
    requires
        0 <= sv < 2 * pm,
        1 <= t,
        1 <= pw,
        1 <= pm,
        0 <= l,
        0 <= hlow,
        0 <= h_top,
        sv * (t * pw) == l + h * pm,
        h == hlow + h_top * pw,
    ensures
        h < 2 * t * pw,
        h_top < 2 * t,
{
    assert(h * pm <= sv * (t * pw));
    assert(sv * (t * pw) < 2 * pm * (t * pw)) by (nonlinear_arith)
        requires
            0 <= sv < 2 * pm,
            1 <= t,
            1 <= pw,
    ;
    assert(h * pm < (2 * t * pw) * pm) by (nonlinear_arith)
        requires
            h * pm < 2 * pm * (t * pw),
    ;
    lemma_mul_strict_inequality_converse(h, 2 * t * pw, pm);
    assert(h_top * pw <= h);
    assert(h_top * pw < (2 * t) * pw);
    lemma_mul_strict_inequality_converse(h_top, 2 * t, pw);
}

/// `2^b` as a limb, for `b` below the limb width.
pub(crate) fn limb_pow2(b: usize) -> (r: Limb)
    requires
        b < 64,
    ensures
        r == two_pow(b as nat),
{
    let mut r: Limb = 1;
    let mut i: usize = 0;
    while i < b
        invariant
            i <= b,
            b < 64,
            r == two_pow(i as nat),
        decreases b - i,
    {
        proof {
            lemma_two_pow_monotone(i as nat, 62);
            lemma_two_pow_64();
            assert(two_pow(63) == 2 * two_pow(62));
        }
        r = r * 2;
        i = i + 1;
    }
    r
}

/// Whether any limb of `s` is nonzero.
fn is_nonzero(s: &[Limb]) -> (r: bool)
    ensures
        r == (val(s@) > 0),
{
    let mut i: usize = 0;
    while i < s.len()
        invariant
            i <= s@.len(),
            all_zero(s@.subrange(0, i as int)),
        decreases s@.len() - i,
    {
        if s[i] != 0 {
            proof {
                if val(s@) == 0 {
                    lemma_val_zero_converse(s@);
                    assert(s@[i as int] == 0);
                }
            }
            return true;
        }
        i = i + 1;
        assert forall|j: int| 0 <= j < i implies s@.subrange(0, i as int)[j] == 0 by {
            if j < i - 1 {
                assert(s@.subrange(0, i - 1)[j] == 0);
            }
        }
    }
    proof {
        assert(s@.subrange(0, s@.len() as int) =~= s@);
        lemma_val_zero(s@);
    }
    false
}

impl SsaRing {
    /// The shift by `s = 64 * whole_limbs + bit_shift` in `(0, n)`: writes the
    /// low part `L`, subtracts the high part `H` and adds the modulus back when
    /// the difference wrapped, leaving the canonical residue of `S * 2^s`.
    #[verifier::rlimit(60)]
    #[verifier::spinoff_prover]
    fn shift_nonnegated(
        dst: &mut [Limb],
        src: &[Limb],
        ml: usize,
        whole_limbs: usize,
        bit_shift: usize,
    )
        requires
            whole_limbs < ml,
            bit_shift < 64,
            whole_limbs > 0 || bit_shift > 0,
            ml < old(dst)@.len(),
            ml < src@.len(),
            semi_normalized(src@, ml as nat),
        ensures
            final(dst)@.len() == old(dst)@.len(),
            canonical(final(dst)@, ml as nat),
            residue(final(dst)@, ml as nat) == shifted_residue(
                slot_value(src@, ml as nat),
                (64 * whole_limbs + bit_shift) as nat,
                ml as nat,
            ),
            same_tail(final(dst)@, old(dst)@, ml + 1),
    {
        let ghost d0 = dst@;
        let low_len = ml - whole_limbs;
        let pw = limb_pow2(bit_shift);
        let dst_len = dst.len();
        {
            let (coefficient, _) = dst.split_at_mut(ml + 1);
            Addition::fill_zero(coefficient);
        }
        let ghost z = dst@;
        proof {
            assert(z.subrange(ml + 1, z.len() as int) =~= d0.subrange(ml + 1, d0.len() as int));
            assert forall|j: int| 0 <= j <= ml implies z[j] == 0 by {
                assert(z.subrange(0, ml + 1)[j] == 0);
            }
        }
        let src_low = &src[0..low_len];
        let src_high = &src[low_len..ml];
        let guard = src[ml];
        let ghost vlo = val(src_low@) as int;
        let ghost vhi = val(src_high@) as int;
        let (lo_region, hi_region) = dst.split_at_mut(whole_limbs);
        let ghost hi0 = hi_region@;
        proof {
            assert(hi0.subrange(0, low_len as int) =~= z.subrange(
                whole_limbs as int,
                ml as int,
            ));
            assert(all_zero(hi0.subrange(0, low_len as int)));
            lemma_val_zero(hi0.subrange(0, low_len as int));
        }
        let c_lo = Multiplication::add_mul_word(hi_region, src_low, pw);
        let ghost lhi = val(hi_region@.subrange(0, low_len as int)) as int;
        let c_hi = if whole_limbs == 0 {
            c_lo
        } else {
            lo_region[0] = c_lo;
            proof {
                let r = lo_region@;
                assert(r.subrange(0, 1) =~= seq![c_lo]);
                assert(all_zero(r.subrange(1, r.len() as int))) by {
                    assert forall|j: int| 0 <= j < r.len() - 1 implies r.subrange(
                        1,
                        r.len() as int,
                    )[j] == 0 by {
                        assert(z[j + 1] == 0);
                    }
                }
                lemma_val_split(r, 1);
                lemma_val_zero(r.subrange(1, r.len() as int));
                crate::limbs::lemma_val_single(c_lo);
                assert(r.subrange(0, whole_limbs as int) =~= r);
                assert(val(r) == c_lo);
            }
            let c = Multiplication::add_mul_word(lo_region, src_high, pw);
            proof {
                assert(lo_region@.subrange(0, whole_limbs as int) =~= lo_region@);
                assert(val(lo_region@) + c * pow_b(whole_limbs as nat) == c_lo + vhi * pw);
            }
            c
        };
        let ghost hlow = val(lo_region@) as int;
        proof {
            if whole_limbs == 0 {
                assert(lo_region@ =~= Seq::<Limb>::empty());
                assert(src_high@ =~= Seq::<Limb>::empty());
            } else {
                assert(lo_region@.subrange(0, whole_limbs as int) =~= lo_region@);
            }
            // The slot splits into its low part, high part and guard.
            lemma_slot_split(src@, ml as nat);
            lemma_val_split(src@.subrange(0, ml as int), low_len as int);
            assert(src@.subrange(0, ml as int).subrange(0, low_len as int) =~= src_low@);
            assert(src@.subrange(0, ml as int).subrange(low_len as int, ml as int) =~= src_high@);
            lemma_pow_b_add(low_len as nat, whole_limbs as nat);
            lemma_two_pow_add(64 * whole_limbs as nat, bit_shift as nat);
            lemma_two_pow_limbs(whole_limbs as nat);
            lemma_pow_b_pos(whole_limbs as nat);
            lemma_pow_b_pos(low_len as nat);
            lemma_two_pow_pos(bit_shift as nat);
            lemma_shift_identity(
                vlo,
                vhi,
                guard as int,
                lhi,
                c_lo as int,
                hlow,
                c_hi as int,
                pw as int,
                pow_b(low_len as nat) as int,
                pow_b(whole_limbs as nat) as int,
                pow_b(ml as nat) as int,
            );
            lemma_semi_bound(src@, ml as nat);
            lemma_val_bound(hi_region@.subrange(0, low_len as int));
            lemma_mul_is_commutative(pow_b(low_len as nat) as int, vhi);
            if whole_limbs == 0 {
                assert(hlow == 0);
                assert(vhi == 0);
                assert(pow_b(0) == 1);
                assert(hlow + c_hi * pow_b(whole_limbs as nat) == c_lo + vhi * pw);
            }
            assert(slot_value(src@, ml as nat) == vlo + vhi * pow_b(low_len as nat) + guard * pow_b(
                ml as nat,
            ));
            lemma_high_bound(
                slot_value(src@, ml as nat) as int,
                pw as int,
                pow_b(whole_limbs as nat) as int,
                pow_b(ml as nat) as int,
                lhi * pow_b(whole_limbs as nat),
                hlow + (c_hi + guard * pw) * pow_b(whole_limbs as nat),
                hlow,
                c_hi + guard * pw,
            );
            lemma_two_pow_monotone(bit_shift as nat + 1, 64);
            lemma_two_pow_64();
            let s1 = (64 * whole_limbs + bit_shift + 1) as nat;
            assert(two_pow(s1) == 2 * two_pow((64 * whole_limbs + bit_shift) as nat));
            lemma_two_pow_monotone(s1, 64 * ml as nat);
            lemma_two_pow_limbs(ml as nat);
            assert(2 * pw * pow_b(whole_limbs as nat) <= pow_b(ml as nat)) by (nonlinear_arith)
                requires
                    two_pow(s1) == 2 * (pow_b(whole_limbs as nat) * pw),
                    two_pow(s1) <= pow_b(ml as nat),
            ;
            assert(two_pow(bit_shift as nat + 1) == 2 * two_pow(bit_shift as nat));
        }
        let h_top = c_hi + guard * pw;
        let nonzero = is_nonzero(lo_region);
        if nonzero {
            SharedEval::negate_in_place(lo_region);
        }
        let top: [Limb; 1] = [h_top];
        proof {
            assert(top@ =~= seq![h_top]);
            crate::limbs::lemma_val_single(h_top);
        }
        let ghost hi1 = hi_region@;
        proof {
            assert(hi1.subrange(low_len as int, hi1.len() as int) =~= hi0.subrange(
                low_len as int,
                hi0.len() as int,
            ));
        }
        let (hi_data, hi_rest) = hi_region.split_at_mut(low_len);
        let ghost data0 = hi_data@;
        let borrow = SsaCarry::sub_full_in_place(hi_data, &top);
        let ghost data1 = hi_data@;
        let escaped = if nonzero {
            SsaCarry::propagate_borrow(hi_data)
        } else {
            false
        };
        proof {
            assert(data0 =~= hi1.subrange(0, low_len as int));
            assert(val(data0) == lhi);
            assert(data0.len() == low_len);
            let pl = pow_b(low_len as nat) as int;
            assert(val(data1) - borrow * pl == lhi - h_top);
            if nonzero {
                assert(val(hi_data@) + 1 == val(data1) + (if escaped { pl } else { 0 }));
            } else {
                assert(hi_data@ == data1);
            }
            let nz: int = if nonzero { 1 } else { 0 };
            let wraps: int = borrow as int + if escaped { 1int } else { 0int };
            let e: int = if escaped { 1int } else { 0int };
            assert(wraps * pl == borrow * pl + e * pl) by (nonlinear_arith)
                requires
                    wraps == borrow + e,
            ;
            assert(val(hi_data@) == lhi - h_top - nz + wraps * pl);
            lemma_val_bound(hi_data@);
            lemma_val_bound(lo_region@);
            assert(hi_rest@ =~= hi0.subrange(low_len as int, hi0.len() as int));
            assert(hi_rest@[0] == z[ml as int]);
            Self::lemma_assemble(
                val(lo_region@) as int,
                hlow,
                lhi,
                h_top as int,
                val(hi_data@) as int,
                nz,
                wraps,
                pl,
                pow_b(whole_limbs as nat) as int,
                pow_b(ml as nat) as int,
            );
        }
        let wrapped = borrow != 0 || escaped;
        let ghost lo_f = lo_region@;
        let ghost data_f = hi_data@;
        let ghost rest_f = hi_rest@;
        let ghost big_l = lhi * pow_b(whole_limbs as nat);
        let ghost big_h = hlow + (h_top as int) * pow_b(whole_limbs as nat);
        proof {
            let sv = slot_value(src@, ml as nat) as int;
            assert(sv * (pw * pow_b(whole_limbs as nat)) == big_l + big_h * pow_b(ml as nat));
            lemma_mul_is_commutative(pw as int, pow_b(whole_limbs as nat) as int);
            assert(two_pow((64 * whole_limbs + bit_shift) as nat) == pow_b(whole_limbs as nat) * pw);
            lemma_fold_high(
                sv * (pw * pow_b(whole_limbs as nat)),
                big_l,
                big_h,
                pow_b(ml as nat) as int,
            );
        }
        dst[ml] = 0;
        proof {
            assert(dst@.subrange(0, ml as int) =~= lo_f + data_f);
            crate::limbs::lemma_val_concat(lo_f, data_f);
            assert(dst@.subrange(ml + 1, dst@.len() as int) =~= z.subrange(
                ml + 1,
                z.len() as int,
            ));
        }
        let ghost v = val(dst@.subrange(0, ml as int)) as int;
        let ghost m = fermat_modulus(ml as nat) as int;
        if wrapped {
            SsaCarry::correct_wrapped_shift_difference(dst, ml);
            proof {
                assert(v == big_l - big_h + pow_b(ml as nat));
                assert(slot_value(dst@, ml as nat) == big_l - big_h + m);
                lemma_mod_multiples_vanish(1, big_l - big_h, m);
            }
        } else {
            proof {
                lemma_slot_zero_guard(dst@, ml as nat);
                assert(v == big_l - big_h);
            }
        }
        proof {
            assert(dst@.subrange(ml + 1, dst@.len() as int) =~= d0.subrange(
                ml + 1,
                d0.len() as int,
            ));
        }
    }

    /// The difference assembled from the negated low limbs and the reduced
    /// high limbs is `L - H` plus at most one wrap of `B^ml`.
    proof fn lemma_assemble(
        neg_low: int,
        hlow: int,
        lhi: int,
        h_top: int,
        data: int,
        nz: int,
        wraps: int,
        pl: int,
        pw: int,
        pm: int,
    )
        requires
            pm == pl * pw,
            pl >= 1,
            pw >= 1,
            nz == 0 || nz == 1,
            0 <= wraps <= 2,
            nz == 1 ==> neg_low + hlow == pw,
            nz == 0 ==> neg_low == 0 && hlow == 0,
            0 <= neg_low < pw,
            0 <= data < pl,
            0 <= lhi < pl,
            0 <= hlow,
            0 <= h_top,
            data == lhi - h_top - nz + wraps * pl,
            hlow + h_top * pw < pm,
        ensures
            wraps <= 1,
            neg_low + pw * data == lhi * pw - (hlow + h_top * pw) + wraps * pm,
            0 <= neg_low + pw * data < pm,
    {
        assert(pw * data == pw * lhi - pw * h_top - pw * nz + wraps * (pw * pl)) by (nonlinear_arith)
            requires
                data == lhi - h_top - nz + wraps * pl,
        ;
        assert(pw * pl == pm) by (nonlinear_arith)
            requires
                pm == pl * pw,
        ;
        assert(pw * data <= pw * (pl - 1)) by (nonlinear_arith)
            requires
                data <= pl - 1,
                pw >= 1,
        ;
        assert(pw * data >= 0) by (nonlinear_arith)
            requires
                data >= 0,
                pw >= 1,
        ;
        assert(lhi * pw >= 0) by (nonlinear_arith)
            requires
                lhi >= 0,
                pw >= 1,
        ;
        assert(pw * lhi == lhi * pw && pw * h_top == h_top * pw) by (nonlinear_arith);
        assert(lhi * pw <= (pl - 1) * pw) by (nonlinear_arith)
            requires
                lhi <= pl - 1,
                pw >= 1,
        ;
        assert((pl - 1) * pw == pm - pw) by (nonlinear_arith)
            requires
                pm == pl * pw,
        ;
        if nz == 1 {
            assert(pw * nz == pw);
        } else {
            assert(pw * nz == 0);
        }
        assert(neg_low + pw * data == lhi * pw - (hlow + h_top * pw) + wraps * pm);
        assert(0 <= neg_low + pw * data < pm);
    }
}

/// `2^(3n/4) - 2^(n/4)`, a square root of two modulo `2^n + 1`.
pub open spec fn sqrt2_factor(ml: nat) -> int {
    two_pow(48 * ml) - two_pow(16 * ml)
}

/// Equal residues stay equal under a common factor.
proof fn lemma_residue_scale(x: int, y: int, k: int, m: int)
    requires
        m > 0,
        x % m == y % m,
    ensures
        (x * k) % m == (y * k) % m,
{
    lemma_mul_congruent(k, x, y, m);
    lemma_mul_is_commutative(k, x);
    lemma_mul_is_commutative(k, y);
}

/// Reducing the shift modulo the period `2n` keeps the shifted residue.
proof fn lemma_reduced_shift(sv: nat, shift: nat, ml: nat)
    requires
        ml >= 1,
    ensures
        shifted_residue(sv, shift, ml) == shifted_residue(sv, shift % (128 * ml), ml),
{
    let period = 128 * ml;
    let r = shift % period;
    let q = shift / period;
    lemma_fundamental_div_mod(shift as int, period as int);
    assert(shift == r + 2 * (64 * ml) * q) by (nonlinear_arith)
        requires
            shift == period * q + r,
            period == 128 * ml,
    ;
    lemma_pow2_period(ml, r, q);
    lemma_mul_congruent(
        sv as int,
        two_pow(shift) as int,
        two_pow(r) as int,
        fermat_modulus(ml) as int,
    );
}

/// Negation respects residues.
proof fn lemma_negate_residue(x: int, y: int, m: int)
    requires
        m > 0,
        x % m == y % m,
    ensures
        (-x) % m == (-y) % m,
{
    lemma_mul_congruent(-1, x, y, m);
    assert(-1 * x == -x);
    assert(-1 * y == -y);
}

/// The canonical negation of a slot has the negated residue.
proof fn lemma_negated_slot(before: int, after: int, m: int)
    requires
        m > 0,
        0 <= before,
        after == (if before == 0 {
            0
        } else {
            m - before
        }),
    ensures
        after % m == (-before) % m,
{
    if before != 0 {
        lemma_mod_multiples_vanish(1, -before, m);
    }
}

impl SsaRing {
    /// The shift by `n + s` for `s` in `(0, n)`: the nonnegated difference for
    /// `s`, negated.
    fn shift_negated(
        dst: &mut [Limb],
        src: &[Limb],
        mod_bits: usize,
        whole_limbs: usize,
        bit_shift: usize,
    )
        requires
            valid_mod_bits(mod_bits),
            whole_limbs < mod_bits / 64,
            bit_shift < 64,
            whole_limbs > 0 || bit_shift > 0,
            mod_bits / 64 < old(dst)@.len(),
            mod_bits / 64 < src@.len(),
            semi_normalized(src@, (mod_bits / 64) as nat),
        ensures
            final(dst)@.len() == old(dst)@.len(),
            canonical(final(dst)@, (mod_bits / 64) as nat),
            residue(final(dst)@, (mod_bits / 64) as nat) == shifted_residue(
                slot_value(src@, (mod_bits / 64) as nat),
                (mod_bits + 64 * whole_limbs + bit_shift) as nat,
                (mod_bits / 64) as nat,
            ),
            same_tail(final(dst)@, old(dst)@, mod_bits / 64 + 1),
    {
        let ml = Self::mod_limbs(mod_bits);
        let ghost d0 = dst@;
        Self::shift_nonnegated(dst, src, ml, whole_limbs, bit_shift);
        let ghost d1 = dst@;
        Self::negate(dst, mod_bits);
        proof {
            let m = fermat_modulus(ml as nat) as int;
            let sv = slot_value(src@, ml as nat);
            let k = (64 * whole_limbs + bit_shift) as nat;
            let t = (sv * two_pow(k)) as int;
            lemma_pow_b_pos(ml as nat);
            lemma_canonical_residue(d1, ml as nat);
            lemma_negated_slot(slot_value(d1, ml as nat) as int, slot_value(dst@, ml as nat) as int, m);
            lemma_negate_residue(slot_value(d1, ml as nat) as int, t, m);
            assert(mod_bits == 64 * ml);
            lemma_pow2_half_period(sv, ml as nat, k);
            assert(dst@.subrange(ml + 1, dst@.len() as int) =~= d0.subrange(
                ml + 1,
                d0.len() as int,
            ));
        }
    }

    /// Computes `dst = src * 2^shift mod (2^n + 1)` out of place.
    ///
    /// The shift reduces modulo the period `2n`; a reduced shift of zero copies
    /// the slot, and any other leaves the canonical residue.
    pub fn shift_from(dst: &mut [Limb], src: &[Limb], shift: usize, mod_bits: usize)
        requires
            valid_mod_bits(mod_bits),
            mod_bits <= usize::MAX / 2,
            old(dst)@.len() >= mod_bits / 64 + 1,
            src@.len() >= mod_bits / 64 + 1,
            semi_normalized(src@, (mod_bits / 64) as nat),
        ensures
            final(dst)@.len() == old(dst)@.len(),
            semi_normalized(final(dst)@, (mod_bits / 64) as nat),
            (shift as int) % (2 * mod_bits as int) != 0 ==> canonical(final(dst)@, (mod_bits / 64) as nat),
            (shift as int) % (2 * mod_bits as int) == 0 ==> final(dst)@.subrange(0, mod_bits / 64 + 1) == src@.subrange(
                0,
                mod_bits / 64 + 1,
            ),
            residue(final(dst)@, (mod_bits / 64) as nat) == shifted_residue(
                slot_value(src@, (mod_bits / 64) as nat),
                shift as nat,
                (mod_bits / 64) as nat,
            ),
            same_tail(final(dst)@, old(dst)@, mod_bits / 64 + 1),
    {
        let ml = Self::mod_limbs(mod_bits);
        let cl = ml + 1;
        let ghost d0 = dst@;
        let ghost sv = slot_value(src@, ml as nat);
        let ghost m = fermat_modulus(ml as nat) as int;
        let reduced = Self::reduce_mod_period(shift, mod_bits * 2);
        proof {
            assert(mod_bits == 64 * ml);
            assert(2 * mod_bits == 128 * ml);
            lemma_reduced_shift(sv, shift as nat, ml as nat);
            lemma_pow_b_pos(ml as nat);
        }
        if reduced == 0 {
            Addition::copy_prefix(dst, &src[0..cl]);
            proof {
                assert(dst@.subrange(0, cl as int) =~= src@.subrange(0, cl as int));
                assert(slot_value(dst@, ml as nat) == sv);
                assert(two_pow(0) == 1);
                lemma_mul_basics(sv as int);
                assert(sv * two_pow(0) == sv);
                assert(dst@.subrange(cl as int, dst@.len() as int) =~= d0.subrange(
                    cl as int,
                    d0.len() as int,
                ));
            }
            return;
        }
        let negate_result = reduced >= mod_bits;
        let positive = if negate_result {
            reduced - mod_bits
        } else {
            reduced
        };
        if positive == 0 {
            Addition::copy_prefix(dst, &src[0..cl]);
            let ghost d1 = dst@;
            proof {
                assert(dst@.subrange(0, cl as int) =~= src@.subrange(0, cl as int));
                assert(slot_value(dst@, ml as nat) == sv);
            }
            Self::normalize(dst, mod_bits);
            let ghost d2 = dst@;
            Self::negate(dst, mod_bits);
            proof {
                lemma_canonical_residue(d2, ml as nat);
                lemma_negated_slot(slot_value(d2, ml as nat) as int, slot_value(dst@, ml as nat) as int, m);
                lemma_negate_residue(slot_value(d2, ml as nat) as int, sv as int, m);
                lemma_pow2_half_period(sv, ml as nat, 0);
                lemma_canonical_shape(dst@, ml as nat);
                assert(two_pow(0) == 1);
                lemma_mul_basics(sv as int);
                assert(sv * two_pow(0) == sv);
                assert(64 * ml + 0 == reduced);
                assert(dst@.subrange(cl as int, dst@.len() as int) =~= d0.subrange(
                    cl as int,
                    d0.len() as int,
                ));
            }
            return;
        }
        let whole_limbs = positive / 64;
        let bit_shift = positive % 64;
        proof {
            assert(positive == 64 * whole_limbs + bit_shift);
        }
        if negate_result {
            Self::shift_negated(dst, src, mod_bits, whole_limbs, bit_shift);
        } else {
            Self::shift_nonnegated(dst, src, ml, whole_limbs, bit_shift);
        }
        proof {
            lemma_canonical_shape(dst@, ml as nat);
        }
    }

    /// Computes `dst = dst * 2^shift mod (2^n + 1)` in place, staging the
    /// shifted slot in `scratch`.
    pub fn shift_in_place(dst: &mut [Limb], shift: usize, mod_bits: usize, scratch: &mut [Limb])
        requires
            valid_mod_bits(mod_bits),
            mod_bits <= usize::MAX / 2,
            old(dst)@.len() >= mod_bits / 64 + 1,
            old(scratch)@.len() >= mod_bits / 64 + 1,
            semi_normalized(old(dst)@, (mod_bits / 64) as nat),
        ensures
            final(dst)@.len() == old(dst)@.len(),
            final(scratch)@.len() == old(scratch)@.len(),
            semi_normalized(final(dst)@, (mod_bits / 64) as nat),
            (shift as int) % (2 * mod_bits as int) != 0 ==> canonical(final(dst)@, (mod_bits / 64) as nat),
            (shift as int) % (2 * mod_bits as int) == 0 ==> final(dst)@ == old(dst)@,
            residue(final(dst)@, (mod_bits / 64) as nat) == shifted_residue(
                slot_value(old(dst)@, (mod_bits / 64) as nat),
                shift as nat,
                (mod_bits / 64) as nat,
            ),
            same_tail(final(dst)@, old(dst)@, mod_bits / 64 + 1),
    {
        let ml = Self::mod_limbs(mod_bits);
        let cl = ml + 1;
        let ghost d0 = dst@;
        let reduced = Self::reduce_mod_period(shift, mod_bits * 2);
        if reduced == 0 {
            proof {
                assert(mod_bits == 64 * ml);
                lemma_reduced_shift(slot_value(d0, ml as nat), shift as nat, ml as nat);
                lemma_pow_b_pos(ml as nat);
                assert(two_pow(0) == 1);
                assert(slot_value(d0, ml as nat) * two_pow(0) == slot_value(d0, ml as nat));
                assert(d0.subrange(ml + 1, d0.len() as int) =~= d0.subrange(
                    ml + 1,
                    d0.len() as int,
                ));
            }
            return;
        }
        Self::shift_from(scratch, dst, shift, mod_bits);
        Addition::copy_prefix(dst, &scratch[0..cl]);
        proof {
            let staged = scratch@.subrange(0, cl as int);
            assert(dst@.subrange(0, cl as int) =~= staged);
            assert(scratch@.subrange(0, ml + 1int) =~= staged.subrange(0, ml + 1int));
            assert(dst@.subrange(0, ml + 1int) =~= staged.subrange(0, ml + 1int));
            assert(dst@[ml as int] == scratch@[ml as int]);
            assert(dst@.subrange(cl as int, dst@.len() as int) =~= d0.subrange(
                cl as int,
                d0.len() as int,
            ));
        }
    }

    /// Computes `dst = dst * 2^shift mod (2^n + 1)` in place, leaving a zero
    /// slot and a whole number of periods untouched.
    pub fn shift(dst: &mut [Limb], shift: usize, mod_bits: usize, scratch: &mut [Limb])
        requires
            valid_mod_bits(mod_bits),
            mod_bits <= usize::MAX / 2,
            old(dst)@.len() >= mod_bits / 64 + 1,
            old(scratch)@.len() >= mod_bits / 64 + 1,
            semi_normalized(old(dst)@, (mod_bits / 64) as nat),
        ensures
            final(dst)@.len() == old(dst)@.len(),
            final(scratch)@.len() == old(scratch)@.len(),
            semi_normalized(final(dst)@, (mod_bits / 64) as nat),
            (shift as int) % (2 * mod_bits as int) == 0 || slot_value(old(dst)@, (mod_bits / 64) as nat) == 0
                ==> final(dst)@ == old(dst)@,
            canonical(old(dst)@, (mod_bits / 64) as nat) ==> canonical(final(dst)@, (mod_bits / 64) as nat),
            (shift as int) % (2 * mod_bits as int) != 0 ==> canonical(final(dst)@, (mod_bits / 64) as nat)
                || slot_value(old(dst)@, (mod_bits / 64) as nat) == 0,
            residue(final(dst)@, (mod_bits / 64) as nat) == shifted_residue(
                slot_value(old(dst)@, (mod_bits / 64) as nat),
                shift as nat,
                (mod_bits / 64) as nat,
            ),
            same_tail(final(dst)@, old(dst)@, mod_bits / 64 + 1),
    {
        let ml = Self::mod_limbs(mod_bits);
        let cl = ml + 1;
        let ghost d0 = dst@;
        let reduced = Self::reduce_mod_period(shift, mod_bits * 2);
        let nonzero = is_nonzero(&dst[0..cl]);
        if reduced == 0 || !nonzero {
            proof {
                assert(dst@.subrange(0, cl as int) =~= d0.subrange(0, ml + 1int));
                assert(mod_bits == 64 * ml);
                lemma_reduced_shift(slot_value(d0, ml as nat), shift as nat, ml as nat);
                lemma_pow_b_pos(ml as nat);
                assert(two_pow(0) == 1);
                assert(slot_value(d0, ml as nat) * two_pow(0) == slot_value(d0, ml as nat));
                assert(0 * two_pow(shift as nat) == 0);
                assert(d0.subrange(ml + 1, d0.len() as int) =~= d0.subrange(
                    ml + 1,
                    d0.len() as int,
                ));
            }
            return;
        }
        proof {
            assert(dst@.subrange(0, cl as int) =~= d0.subrange(0, ml + 1int));
        }
        Self::shift_in_place(dst, shift, mod_bits, scratch);
    }

    /// Computes `dst = dst * sqrt(2) mod (2^n + 1)` with `sqrt(2)` written as
    /// `2^(3n/4) - 2^(n/4)`.
    pub fn mul_sqrt2(dst: &mut [Limb], mod_bits: usize, scratch: &mut [Limb])
        requires
            valid_mod_bits(mod_bits),
            mod_bits <= usize::MAX / 2,
            old(dst)@.len() >= mod_bits / 64 + 1,
            old(scratch)@.len() >= 2 * (mod_bits / 64 + 1),
            semi_normalized(old(dst)@, (mod_bits / 64) as nat),
        ensures
            final(dst)@.len() == old(dst)@.len(),
            final(scratch)@.len() == old(scratch)@.len(),
            semi_normalized(final(dst)@, (mod_bits / 64) as nat),
            residue(final(dst)@, (mod_bits / 64) as nat) == (slot_value(
                old(dst)@,
                (mod_bits / 64) as nat,
            ) * sqrt2_factor((mod_bits / 64) as nat)) % (fermat_modulus(
                (mod_bits / 64) as nat,
            ) as int),
            same_tail(final(dst)@, old(dst)@, mod_bits / 64 + 1),
    {
        let ml = Self::mod_limbs(mod_bits);
        let cl = ml + 1;
        let ghost d0 = dst@;
        let ghost sv = slot_value(d0, ml as nat);
        let quarter = mod_bits / 4;
        let (staged, shift_scratch) = scratch.split_at_mut(cl);
        Self::shift_from(staged, dst, quarter, mod_bits);
        let ghost st = staged@;
        Self::shift(dst, quarter * 3, mod_bits, shift_scratch);
        let ghost d1 = dst@;
        Self::sub_in_place(dst, staged, mod_bits);
        proof {
            let m = fermat_modulus(ml as nat) as int;
            let lo = two_pow(16 * ml as nat) as int;
            let hi = two_pow(48 * ml as nat) as int;
            assert(mod_bits == 64 * ml);
            assert(quarter == 16 * ml);
            assert(quarter * 3 == 48 * ml);
            lemma_pow_b_pos(ml as nat);
            // slot(d1) = sv * hi and slot(st) = sv * lo, modulo m.
            lemma_sub_mod_congruent(
                slot_value(d1, ml as nat) as int,
                slot_value(st, ml as nat) as int,
                (sv * two_pow(48 * ml as nat)) as int,
                (sv * two_pow(16 * ml as nat)) as int,
                m,
            );
            assert((sv * two_pow(48 * ml as nat)) as int - (sv * two_pow(16 * ml as nat)) as int == sv
                * (hi - lo)) by (nonlinear_arith)
                requires
                    hi == two_pow(48 * ml as nat),
                    lo == two_pow(16 * ml as nat),
            ;
            assert(dst@.subrange(ml + 1, dst@.len() as int) =~= d0.subrange(
                ml + 1,
                d0.len() as int,
            ));
        }
    }
}

/// Differences of congruent terms are congruent.
pub(crate) proof fn lemma_sub_mod_congruent(a: int, b: int, x: int, y: int, m: int)
    requires
        m > 0,
        a % m == x % m,
        b % m == y % m,
    ensures
        (a - b) % m == (x - y) % m,
{
    lemma_sub_mod_noop(a, b, m);
    lemma_sub_mod_noop(x, y, m);
}

/// `sqrt2_factor` squares to two modulo `2^n + 1`.
pub proof fn lemma_sqrt2_squared(ml: nat)
    requires
        ml >= 1,
    ensures
        (sqrt2_factor(ml) * sqrt2_factor(ml)) % (fermat_modulus(ml) as int) == 2int % (
        fermat_modulus(ml) as int),
{
    let x = two_pow(16 * ml) as int;
    let p = pow_b(ml) as int;
    let m = fermat_modulus(ml) as int;
    lemma_two_pow_add(16 * ml, 16 * ml);
    lemma_two_pow_add(32 * ml, 16 * ml);
    lemma_two_pow_add(48 * ml, 16 * ml);
    lemma_two_pow_limbs(ml);
    assert(16 * ml + 16 * ml == 32 * ml);
    assert(32 * ml + 16 * ml == 48 * ml);
    assert(48 * ml + 16 * ml == 64 * ml);
    let f = sqrt2_factor(ml);
    assert(f == x * x * x - x) by (nonlinear_arith)
        requires
            f == two_pow(48 * ml) - x,
            two_pow(48 * ml) == two_pow(32 * ml) * x,
            two_pow(32 * ml) == x * x,
    ;
    assert(x * x * x * x == p) by (nonlinear_arith)
        requires
            two_pow(64 * ml) == two_pow(48 * ml) * x,
            two_pow(48 * ml) == two_pow(32 * ml) * x,
            two_pow(32 * ml) == x * x,
            two_pow(64 * ml) == p,
    ;
    assert(f * f == m * (x * x - 2) + 2) by (nonlinear_arith)
        requires
            f == x * x * x - x,
            x * x * x * x == p,
            m == p + 1,
    ;
    lemma_pow_b_pos(ml);
    lemma_mod_multiples_vanish(x * x - 2, 2, m);
}

} // verus!
