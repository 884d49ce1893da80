//! The radix-2 decimation-in-frequency transform over a coefficient matrix.

use crate::limbs::{Limb, lemma_pow_b_pos};
use crate::num::two_pow;
use crate::limbs::{all_zero, lemma_val_zero};
use crate::ssa::coefficients::{agree_outside, lemma_agree_disjoint, shift_into_slot};
use crate::ssa::dft::{
    bit_reverse, is_power_of_two, lemma_dif_step, lemma_dit_step, lemma_power_sum_root, lemma_reversed_root,
    lemma_two_pow_congruent, power_sum, reversed_sum,
};
use crate::ssa::pointwise::{lemma_slot_offsets, slot_at};
use crate::ssa::ring::{SsaRing, fermat_modulus, residue, semi_normalized, slot_value, valid_mod_bits};
use crate::ssa::transform::SsaTransform;
use vstd::arithmetic::div_mod::*;
use vstd::arithmetic::mul::*;
use vstd::prelude::*;

verus! {

/// The values the first `count` slots of a matrix hold.
pub open spec fn slot_values(m: Seq<Limb>, count: nat, cl: nat, ml: nat) -> Seq<int> {
    Seq::new(count, |i: int| slot_value(slot_at(m, i, cl as int), ml) as int)
}

/// One butterfly on the slots at `offset` of the two halves: the low slot
/// takes the sum, the high slot the difference times `2^twiddle`.
fn butterfly(
    low: &mut [Limb],
    high: &mut [Limb],
    offset: usize,
    scratch: &mut [Limb],
    twiddle: usize,
    mod_bits: usize,
)
    requires
        valid_mod_bits(mod_bits),
        mod_bits <= usize::MAX / 2,
        offset + mod_bits / 64 + 1 <= old(low)@.len(),
        offset + mod_bits / 64 + 1 <= old(high)@.len(),
        old(scratch)@.len() >= mod_bits / 64 + 1,
        semi_normalized(old(low)@.subrange(offset as int, offset + mod_bits / 64 + 1), (mod_bits / 64) as nat),
        semi_normalized(old(high)@.subrange(offset as int, offset + mod_bits / 64 + 1), (mod_bits / 64) as nat),
    ensures
        agree_outside(final(low)@, old(low)@, offset as int, offset + mod_bits / 64 + 1),
        agree_outside(final(high)@, old(high)@, offset as int, offset + mod_bits / 64 + 1),
        final(scratch)@.len() == old(scratch)@.len(),
        ({
            let ml = (mod_bits / 64) as nat;
            let m = fermat_modulus(ml) as int;
            let lo = offset as int;
            let hi = offset + mod_bits / 64 + 1;
            let a = slot_value(old(low)@.subrange(lo, hi), ml) as int;
            let b = slot_value(old(high)@.subrange(lo, hi), ml) as int;
            &&& semi_normalized(final(low)@.subrange(lo, hi), ml)
            &&& semi_normalized(final(high)@.subrange(lo, hi), ml)
            &&& residue(final(low)@.subrange(lo, hi), ml) == (a + b) % m
            &&& residue(final(high)@.subrange(lo, hi), ml) == ((a - b) * two_pow(twiddle as nat)) % m
        }),
{
    let ml = SsaRing::mod_limbs(mod_bits);
    let cl = ml + 1;
    let ghost nl = ml as nat;
    let ghost l0 = low@;
    let ghost h0 = high@;
    let ghost lpre: Seq<Limb>;
    let ghost lslot: Seq<Limb>;
    let ghost lpost: Seq<Limb>;
    let ghost hpre: Seq<Limb>;
    let ghost hslot: Seq<Limb>;
    let ghost hpost: Seq<Limb>;
    let ghost diff: Seq<Limb>;
    {
        let (lb, lr) = low.split_at_mut(offset);
        let (ls, la) = lr.split_at_mut(cl);
        let (hb, hr) = high.split_at_mut(offset);
        let (hs, ha) = hr.split_at_mut(cl);
        proof {
            assert(ls@ =~= l0.subrange(offset as int, offset + cl));
            assert(hs@ =~= h0.subrange(offset as int, offset + cl));
        }
        SsaRing::add_sub(ls, scratch, hs, mod_bits);
        proof {
            diff = scratch@;
        }
        SsaRing::shift_from(hs, scratch, twiddle, mod_bits);
        proof {
            lpre = lb@;
            lslot = ls@;
            lpost = la@;
            hpre = hb@;
            hslot = hs@;
            hpost = ha@;
        }
    }
    proof {
        let m = fermat_modulus(nl) as int;
        lemma_pow_b_pos(nl);
        assert(low@ =~= lpre + lslot + lpost);
        assert(high@ =~= hpre + hslot + hpost);
        assert(low@.subrange(0, offset as int) =~= lpre);
        assert(lpre =~= l0.subrange(0, offset as int));
        assert(low@.subrange(offset + cl, low@.len() as int) =~= lpost);
        assert(lpost =~= l0.subrange(offset + cl, l0.len() as int));
        assert(high@.subrange(0, offset as int) =~= hpre);
        assert(hpre =~= h0.subrange(0, offset as int));
        assert(high@.subrange(offset + cl, high@.len() as int) =~= hpost);
        assert(hpost =~= h0.subrange(offset + cl, h0.len() as int));
        assert(low@.subrange(offset as int, offset + cl) =~= lslot);
        assert(high@.subrange(offset as int, offset + cl) =~= hslot);
        assert(lslot.subrange(0, nl + 1int) =~= lslot);
        assert(hslot.subrange(0, nl + 1int) =~= hslot);
        let a = slot_value(l0.subrange(offset as int, offset + cl), nl) as int;
        let b = slot_value(h0.subrange(offset as int, offset + cl), nl) as int;
        let t = two_pow(twiddle as nat) as int;
        lemma_mul_mod_noop(slot_value(diff, nl) as int, t, m);
        lemma_mul_mod_noop(a - b, t, m);
    }
}

/// The last step of a decimation-in-frequency transform: when the first
/// stage left sums and twisted differences of `v` in the halves and each half
/// was transformed with root `2r`, the whole matrix holds the bit-reversed
/// frequencies of `v`.
pub(crate) proof fn lemma_dif_halves(
    v: Seq<int>,
    low_mid: Seq<Limb>,
    high_mid: Seq<Limb>,
    low_final: Seq<Limb>,
    high_final: Seq<Limb>,
    mf: Seq<Limb>,
    h: nat,
    r: nat,
    nl: nat,
)
    requires
        nl >= 1,
        h >= 1,
        is_power_of_two(2 * h),
        v.len() == 2 * h,
        r < 128 * nl,
        (r * h) % (128 * nl) == 64 * nl,
        low_mid.len() == h * (nl + 1),
        high_mid.len() == h * (nl + 1),
        mf == low_final + high_final,
        low_final.len() == h * (nl + 1),
        high_final.len() == h * (nl + 1),
        forall|i: int|
            #![trigger slot_at(low_mid, i, nl + 1int)]
            0 <= i < h ==> {
                &&& semi_normalized(slot_at(low_mid, i, nl + 1int), nl)
                &&& residue(slot_at(low_mid, i, nl + 1int), nl) == (v[i] + v[h + i]) % (fermat_modulus(nl) as int)
            },
        forall|i: int|
            #![trigger slot_at(high_mid, i, nl + 1int)]
            0 <= i < h ==> {
                &&& semi_normalized(slot_at(high_mid, i, nl + 1int), nl)
                &&& residue(slot_at(high_mid, i, nl + 1int), nl) == ((v[i] - v[h + i]) * two_pow(r * (i as nat))) % (
                fermat_modulus(nl) as int)
            },
        forall|p: int|
            #![trigger slot_at(low_final, p, nl + 1int)]
            0 <= p < h ==> {
                &&& semi_normalized(slot_at(low_final, p, nl + 1int), nl)
                &&& residue(slot_at(low_final, p, nl + 1int), nl) == power_sum(
                    slot_values(low_mid, h, (nl + 1) as nat, nl),
                    ((r * 2) % (128 * nl)) * bit_reverse(p as nat, h),
                    h,
                ) % (fermat_modulus(nl) as int)
            },
        forall|p: int|
            #![trigger slot_at(high_final, p, nl + 1int)]
            0 <= p < h ==> {
                &&& semi_normalized(slot_at(high_final, p, nl + 1int), nl)
                &&& residue(slot_at(high_final, p, nl + 1int), nl) == power_sum(
                    slot_values(high_mid, h, (nl + 1) as nat, nl),
                    ((r * 2) % (128 * nl)) * bit_reverse(p as nat, h),
                    h,
                ) % (fermat_modulus(nl) as int)
            },
    ensures
        forall|p: int|
            #![trigger slot_at(mf, p, nl + 1int)]
            0 <= p < 2 * h ==> {
                &&& semi_normalized(slot_at(mf, p, nl + 1int), nl)
                &&& residue(slot_at(mf, p, nl + 1int), nl) == power_sum(v, r * bit_reverse(p as nat, 2 * h), 2 * h) % (
                fermat_modulus(nl) as int)
            },
{
    let cl = nl + 1;
    let k = 2 * h;
    let fm = fermat_modulus(nl) as int;
    lemma_pow_b_pos(nl);
    let vl = slot_values(low_mid, h, cl as nat, nl);
    let vh = slot_values(high_mid, h, cl as nat, nl);
    assert forall|i: int| 0 <= i < h implies #[trigger] vl[i] % fm == (v[i] + v[h + i]) % fm by {
        lemma_slot_offsets(i, h as int, cl as int);
        assert(slot_at(low_mid, i, cl as int).subrange(0, nl + 1int) =~= slot_at(low_mid, i, cl as int));
    }
    assert forall|i: int| 0 <= i < h implies #[trigger] vh[i] % fm == ((v[i] - v[h + i]) * two_pow(
        r * (i as nat),
    )) % fm by {
        lemma_slot_offsets(i, h as int, cl as int);
        assert(slot_at(high_mid, i, cl as int).subrange(0, nl + 1int) =~= slot_at(high_mid, i, cl as int));
    }
    let next = (r * 2) % (128 * nl);
    assert forall|p: int|
        #![trigger slot_at(mf, p, cl as int)]
        0 <= p < k implies {
        &&& semi_normalized(slot_at(mf, p, cl as int), nl)
        &&& residue(slot_at(mf, p, cl as int), nl) == power_sum(v, r * bit_reverse(p as nat, k), k) % fm
    } by {
        if p < h {
            let b = bit_reverse(p as nat, h);
            assert(bit_reverse(p as nat, k) == 2 * b);
            lemma_slot_offsets(p, h as int, cl as int);
            assert(slot_at(mf, p, cl as int) =~= slot_at(low_final, p, cl as int));
            lemma_mod_mod((r * 2) as int, (128 * nl) as int, 1);
            lemma_mul_mod_noop((r * 2) as int, b as int, (128 * nl) as int);
            lemma_mul_mod_noop(next as int, b as int, (128 * nl) as int);
            lemma_power_sum_root(vl, next * b, 2 * r * b, h, nl);
            assert((r * 2) * b == 2 * r * b) by (nonlinear_arith);
            lemma_dif_step(v, vl, vh, h, r, b, nl);
            assert(r * (2 * b) == r * bit_reverse(p as nat, k));
        } else {
            let q = (p - h) as nat;
            let b = bit_reverse(q, h);
            assert(bit_reverse(p as nat, k) == 2 * b + 1);
            lemma_slot_offsets(q as int, h as int, cl as int);
            lemma_mul_is_distributive_add_other_way(cl as int, h as int, q as int);
            assert(slot_at(mf, p, cl as int) =~= slot_at(high_final, q as int, cl as int));
            lemma_mod_mod((r * 2) as int, (128 * nl) as int, 1);
            lemma_mul_mod_noop((r * 2) as int, b as int, (128 * nl) as int);
            lemma_mul_mod_noop(next as int, b as int, (128 * nl) as int);
            lemma_power_sum_root(vh, next * b, 2 * r * b, h, nl);
            assert((r * 2) * b == 2 * r * b) by (nonlinear_arith);
            lemma_dif_step(v, vl, vh, h, r, b, nl);
        }
    }
}

impl SsaTransform {
    /// Recursive radix-2 decimation-in-frequency transform of `transform_len`
    /// slots over `Z/(2^mod_bits + 1)` with root `w = 2^root_shift`: the
    /// butterflies pair slot `j` with slot `j + transform_len / 2`, the halves
    /// recurse with root `w^2`, and the frequencies come out bit-reversed:
    /// slot `p` holds `sum_j v[j] * w^(j * bit_reverse(p))`.
    #[verifier::rlimit(60)]
    #[verifier::spinoff_prover]
    pub fn fft_recursive_dif(
        matrix: &mut [Limb],
        transform_len: usize,
        root_shift: usize,
        mod_bits: usize,
        scratch: &mut [Limb],
    )
        requires
            valid_mod_bits(mod_bits),
            mod_bits <= usize::MAX / 4,
            is_power_of_two(transform_len as nat),
            old(matrix)@.len() == transform_len * (mod_bits / 64 + 1),
            old(scratch)@.len() >= mod_bits / 64 + 1,
            root_shift < 2 * mod_bits,
            transform_len >= 2 ==> (root_shift * (transform_len / 2)) % (2 * mod_bits) == mod_bits,
            forall|i: int|
                0 <= i < transform_len ==> semi_normalized(
                    #[trigger] slot_at(old(matrix)@, i, mod_bits / 64 + 1),
                    (mod_bits / 64) as nat,
                ),
        ensures
            final(matrix)@.len() == old(matrix)@.len(),
            final(scratch)@.len() == old(scratch)@.len(),
            forall|p: int|
                #![trigger slot_at(final(matrix)@, p, mod_bits / 64 + 1)]
                0 <= p < transform_len ==> {
                    &&& semi_normalized(slot_at(final(matrix)@, p, mod_bits / 64 + 1), (mod_bits / 64) as nat)
                    &&& residue(slot_at(final(matrix)@, p, mod_bits / 64 + 1), (mod_bits / 64) as nat)
                        == power_sum(
                        slot_values(
                            old(matrix)@,
                            transform_len as nat,
                            (mod_bits / 64 + 1) as nat,
                            (mod_bits / 64) as nat,
                        ),
                        (root_shift as nat) * bit_reverse(p as nat, transform_len as nat),
                        transform_len as nat,
                    ) % (fermat_modulus((mod_bits / 64) as nat) as int)
                },
        decreases transform_len,
    {
        let ml = SsaRing::mod_limbs(mod_bits);
        let cl = ml + 1;
        let ghost nl = ml as nat;
        let ghost m0 = matrix@;
        let ghost k = transform_len as nat;
        let ghost fm = fermat_modulus(nl) as int;
        let ghost v = slot_values(m0, k, cl as nat, nl);
        proof {
            lemma_pow_b_pos(nl);
        }
        if transform_len < 2 {
            proof {
                assert(transform_len == 1);
                assert forall|p: int| 0 <= p < 1 implies {
                    &&& semi_normalized(#[trigger] slot_at(m0, p, cl as int), nl)
                    &&& residue(slot_at(m0, p, cl as int), nl) == power_sum(
                        v,
                        (root_shift as nat) * bit_reverse(p as nat, 1),
                        1,
                    ) % fm
                } by {
                    assert(p == 0);
                    assert(bit_reverse(0, 1) == 0);
                    lemma_mul_basics(root_shift as int);
                    assert((root_shift as nat) * bit_reverse(p as nat, 1) == 0);
                    assert(0nat * 0nat == 0);
                    assert(slot_at(m0, 0, cl as int).len() == cl) by {
                        lemma_mul_basics(cl as int);
                    }
                    assert(power_sum(v, 0, 0) == 0);
                    assert(two_pow(0) == 1);
                    lemma_mul_basics(v[0]);
                    assert(slot_at(m0, 0, cl as int).subrange(0, nl + 1int) =~= slot_at(m0, 0, cl as int));
                }
            }
            return;
        }
        let period = mod_bits * 2;
        let half = transform_len / 2;
        let total = matrix.len();
        let ghost h = half as nat;
        proof {
            lemma_mul_inequality(half as int, transform_len as int, cl as int);
            assert(transform_len == 2 * half);
            assert(transform_len * cl == 2 * (half * cl)) by {
                lemma_mul_is_associative(2, half as int, cl as int);
            }
        }
        let ghost low_mid: Seq<Limb>;
        let ghost high_mid: Seq<Limb>;
        let ghost low_final: Seq<Limb>;
        let ghost high_final: Seq<Limb>;
        {
            let (low_half, high_half) = matrix.split_at_mut(half * cl);
            let ghost l0 = low_half@;
            let ghost hh0 = high_half@;
            proof {
                assert(l0 =~= m0.subrange(0, (half * cl) as int));
                assert(hh0 =~= m0.subrange((half * cl) as int, m0.len() as int));
                assert(m0.len() == 2 * (half * cl));
                assert(hh0.len() == half * cl);
            }
            let mut twiddle: usize = 0;
            let mut j: usize = 0;
            let scratch_len = scratch.len();
            let low_len = low_half.len();
            proof {
                lemma_mul_basics(root_shift as int);
                lemma_small_mod(0, period as nat);
            }
            while j < half
                invariant
                    valid_mod_bits(mod_bits),
                    mod_bits <= usize::MAX / 4,
                    ml == mod_bits / 64,
                    cl == ml + 1,
                    nl == ml,
                    period == 2 * mod_bits,
                    period == 128 * ml,
                    root_shift < period,
                    fm == fermat_modulus(nl),
                    fm > 1,
                    h == half,
                    transform_len == 2 * half,
                    m0.len() == transform_len * cl,
                    m0.len() == 2 * (half * cl),
                    low_len == half * cl,
                    v == slot_values(m0, k, cl as nat, nl),
                    k == transform_len,
                    l0 == m0.subrange(0, (half * cl) as int),
                    hh0 == m0.subrange((half * cl) as int, m0.len() as int),
                    low_half@.len() == half * cl,
                    high_half@.len() == half * cl,
                    scratch@.len() == scratch_len,
                    scratch_len >= cl,
                    forall|i: int|
                        0 <= i < transform_len ==> semi_normalized(#[trigger] slot_at(m0, i, cl as int), nl),
                    0 <= j <= half,
                    twiddle == ((root_shift * j) as int) % (period as int),
                    forall|i: int|
                        #![trigger slot_at(low_half@, i, cl as int)]
                        0 <= i < j ==> {
                            &&& semi_normalized(slot_at(low_half@, i, cl as int), nl)
                            &&& residue(slot_at(low_half@, i, cl as int), nl) == (v[i] + v[h + i]) % fm
                        },
                    forall|i: int|
                        #![trigger slot_at(high_half@, i, cl as int)]
                        0 <= i < j ==> {
                            &&& semi_normalized(slot_at(high_half@, i, cl as int), nl)
                            &&& residue(slot_at(high_half@, i, cl as int), nl) == ((v[i] - v[h + i]) * two_pow(
                                (root_shift as nat) * (i as nat),
                            )) % fm
                        },
                    low_half@.subrange(j * cl, low_half@.len() as int) == l0.subrange(j * cl, l0.len() as int),
                    high_half@.subrange(j * cl, high_half@.len() as int) == hh0.subrange(
                        j * cl,
                        hh0.len() as int,
                    ),
                decreases half - j,
            {
                proof {
                    lemma_slot_offsets(j as int, half as int, cl as int);
                }
                let offset = j * cl;
                let ghost lb = low_half@;
                let ghost hb = high_half@;
                proof {
                    // The slots at j are still the inputs j and h + j.
                    assert(lb.subrange(offset as int, offset + cl) =~= slot_at(m0, j as int, cl as int)) by {
                        assert(lb.subrange(offset as int, offset + cl) =~= lb.subrange(
                            offset as int,
                            lb.len() as int,
                        ).subrange(0, cl as int));
                        assert(l0.subrange(offset as int, l0.len() as int).subrange(0, cl as int) =~= slot_at(
                            m0,
                            j as int,
                            cl as int,
                        ));
                    }
                    lemma_mul_is_distributive_add_other_way(cl as int, half as int, j as int);
                    assert(hb.subrange(offset as int, offset + cl) =~= slot_at(m0, h + j, cl as int)) by {
                        assert(hb.subrange(offset as int, offset + cl) =~= hb.subrange(
                            offset as int,
                            hb.len() as int,
                        ).subrange(0, cl as int));
                        assert(hh0.subrange(offset as int, hh0.len() as int).subrange(0, cl as int) =~= slot_at(
                            m0,
                            h + j,
                            cl as int,
                        ));
                    }
                    assert(v[j as int] == slot_value(slot_at(m0, j as int, cl as int), nl));
                    assert(v[h + j] == slot_value(slot_at(m0, h + j, cl as int), nl));
                }
                butterfly(low_half, high_half, offset, scratch, twiddle, mod_bits);
                proof {
                    let la = low_half@;
                    let ha = high_half@;
                    let lo = offset as int;
                    let hi = lo + cl;
                    lemma_mod_bound((root_shift * j) as int, period as int);
                    lemma_mod_mod((root_shift * j) as int, period as int, 1);
                    lemma_two_pow_congruent(nl, twiddle as nat, (root_shift * j) as nat);
                    lemma_mul_mod_noop(v[j as int] - v[h + j], two_pow(twiddle as nat) as int, fm);
                    lemma_mul_mod_noop(v[j as int] - v[h + j], two_pow((root_shift * j) as nat) as int, fm);
                    assert forall|i: int|
                        #![trigger slot_at(la, i, cl as int)]
                        0 <= i < j + 1 implies {
                        &&& semi_normalized(slot_at(la, i, cl as int), nl)
                        &&& residue(slot_at(la, i, cl as int), nl) == (v[i] + v[h + i]) % fm
                    } by {
                        if i < j {
                            lemma_slot_offsets(i, j as int, cl as int);
                            lemma_agree_disjoint(la, lb, lo, hi, i * cl, i * cl + cl);
                            assert(slot_at(la, i, cl as int) == slot_at(lb, i, cl as int));
                        } else {
                            assert(slot_at(la, i, cl as int) =~= la.subrange(lo, hi));
                        }
                    }
                    assert forall|i: int|
                        #![trigger slot_at(ha, i, cl as int)]
                        0 <= i < j + 1 implies {
                        &&& semi_normalized(slot_at(ha, i, cl as int), nl)
                        &&& residue(slot_at(ha, i, cl as int), nl) == ((v[i] - v[h + i]) * two_pow(
                            (root_shift as nat) * (i as nat),
                        )) % fm
                    } by {
                        if i < j {
                            lemma_slot_offsets(i, j as int, cl as int);
                            lemma_agree_disjoint(ha, hb, lo, hi, i * cl, i * cl + cl);
                            assert(slot_at(ha, i, cl as int) == slot_at(hb, i, cl as int));
                        } else {
                            assert(slot_at(ha, i, cl as int) =~= ha.subrange(lo, hi));
                        }
                    }
                    assert((j + 1) * cl == hi);
                    assert(la.subrange(hi, la.len() as int) =~= l0.subrange(hi, l0.len() as int)) by {
                        assert(la.subrange(hi, la.len() as int) == lb.subrange(hi, lb.len() as int));
                        assert(lb.subrange(hi, lb.len() as int) =~= lb.subrange(lo, lb.len() as int).subrange(
                            cl as int,
                            lb.len() - lo,
                        ));
                        assert(l0.subrange(hi, l0.len() as int) =~= l0.subrange(lo, l0.len() as int).subrange(
                            cl as int,
                            l0.len() - lo,
                        ));
                    }
                    assert(ha.subrange(hi, ha.len() as int) =~= hh0.subrange(hi, hh0.len() as int)) by {
                        assert(ha.subrange(hi, ha.len() as int) == hb.subrange(hi, hb.len() as int));
                        assert(hb.subrange(hi, hb.len() as int) =~= hb.subrange(lo, hb.len() as int).subrange(
                            cl as int,
                            hb.len() - lo,
                        ));
                        assert(hh0.subrange(hi, hh0.len() as int) =~= hh0.subrange(lo, hh0.len() as int).subrange(
                            cl as int,
                            hh0.len() - lo,
                        ));
                    }
                    // The next twiddle is (root_shift * (j + 1)) mod 2n.
                    lemma_mul_is_distributive_add(root_shift as int, j as int, 1);
                    lemma_add_mod_noop((root_shift * j) as int, root_shift as int, period as int);
                    lemma_small_mod(root_shift as nat, period as nat);
                }
                twiddle = if twiddle >= period - root_shift {
                    twiddle - (period - root_shift)
                } else {
                    twiddle + root_shift
                };
                proof {
                    let t0 = ((root_shift * j) as int) % (period as int);
                    if t0 >= period - root_shift {
                        lemma_fundamental_div_mod_converse(t0 + root_shift, period as int, 1, t0 + root_shift - period);
                    } else {
                        lemma_fundamental_div_mod_converse(t0 + root_shift, period as int, 0, t0 + root_shift);
                    }
                }
                j = j + 1;
            }
            proof {
                low_mid = low_half@;
                high_mid = high_half@;
                assert(low_mid.len() == half * cl);
            }
            let next_root = (root_shift * 2) % period;
            proof {
                assert(is_power_of_two(half as nat));
                if half >= 2 {
                    // (2r mod 2n) * (h / 2) = r * h modulo 2n.
                    assert(half % 2 == 0);
                    lemma_mul_mod_noop((root_shift * 2) as int, (half / 2) as int, period as int);
                    lemma_mod_mod((root_shift * 2) as int, period as int, 1);
                    lemma_mul_mod_noop(((root_shift * 2) as int) % (period as int), (half / 2) as int, period as int);
                    assert((root_shift * 2) * (half / 2) == root_shift * transform_len / 2 * 1) by (
                    nonlinear_arith)
                        requires
                            transform_len == 2 * half,
                            half % 2 == 0,
                    ;
                    assert((root_shift * 2) * (half / 2) == root_shift * (transform_len / 2)) by (nonlinear_arith)
                        requires
                            transform_len == 2 * half,
                            half % 2 == 0,
                    ;
                }
                assert(is_power_of_two(half as nat));
                lemma_mul_is_commutative(2, half as int);
            }
            Self::fft_recursive_dif(low_half, half, next_root, mod_bits, scratch);
            Self::fft_recursive_dif(high_half, half, next_root, mod_bits, scratch);
            proof {
                low_final = low_half@;
                high_final = high_half@;
            }
        }
        proof {
            assert(matrix@ =~= low_final + high_final);
            lemma_dif_halves(v, low_mid, high_mid, low_final, high_final, matrix@, h, root_shift as nat, nl);
        }
    }
}

/// One inverse butterfly on the slots at `offset` of the two halves: with
/// `t` the high slot times `2^twiddle`, the low slot takes `low + t` and the
/// high slot `low - t`.
fn inverse_butterfly(
    low: &mut [Limb],
    high: &mut [Limb],
    offset: usize,
    scratch: &mut [Limb],
    twiddle: usize,
    mod_bits: usize,
)
    requires
        valid_mod_bits(mod_bits),
        mod_bits <= usize::MAX / 2,
        offset + mod_bits / 64 + 1 <= old(low)@.len(),
        offset + mod_bits / 64 + 1 <= old(high)@.len(),
        old(scratch)@.len() >= mod_bits / 64 + 1,
        semi_normalized(old(low)@.subrange(offset as int, offset + mod_bits / 64 + 1), (mod_bits / 64) as nat),
        semi_normalized(old(high)@.subrange(offset as int, offset + mod_bits / 64 + 1), (mod_bits / 64) as nat),
    ensures
        agree_outside(final(low)@, old(low)@, offset as int, offset + mod_bits / 64 + 1),
        agree_outside(final(high)@, old(high)@, offset as int, offset + mod_bits / 64 + 1),
        final(scratch)@.len() == old(scratch)@.len(),
        ({
            let ml = (mod_bits / 64) as nat;
            let m = fermat_modulus(ml) as int;
            let lo = offset as int;
            let hi = offset + mod_bits / 64 + 1;
            let a = slot_value(old(low)@.subrange(lo, hi), ml) as int;
            let b = slot_value(old(high)@.subrange(lo, hi), ml) as int;
            &&& semi_normalized(final(low)@.subrange(lo, hi), ml)
            &&& semi_normalized(final(high)@.subrange(lo, hi), ml)
            &&& residue(final(low)@.subrange(lo, hi), ml) == (a + b * two_pow(twiddle as nat)) % m
            &&& residue(final(high)@.subrange(lo, hi), ml) == (a - b * two_pow(twiddle as nat)) % m
        }),
{
    let ml = SsaRing::mod_limbs(mod_bits);
    let cl = ml + 1;
    let ghost nl = ml as nat;
    let ghost l0 = low@;
    let ghost h0 = high@;
    let ghost lpre: Seq<Limb>;
    let ghost lslot: Seq<Limb>;
    let ghost lpost: Seq<Limb>;
    let ghost hpre: Seq<Limb>;
    let ghost hslot: Seq<Limb>;
    let ghost hpost: Seq<Limb>;
    let ghost shifted: Seq<Limb>;
    {
        let (lb, lr) = low.split_at_mut(offset);
        let (ls, la) = lr.split_at_mut(cl);
        let (hb, hr) = high.split_at_mut(offset);
        let (hs, ha) = hr.split_at_mut(cl);
        proof {
            assert(ls@ =~= l0.subrange(offset as int, offset + cl));
            assert(hs@ =~= h0.subrange(offset as int, offset + cl));
        }
        SsaRing::shift_from(scratch, hs, twiddle, mod_bits);
        proof {
            shifted = scratch@;
        }
        SsaRing::add_sub(ls, hs, scratch, mod_bits);
        proof {
            lpre = lb@;
            lslot = ls@;
            lpost = la@;
            hpre = hb@;
            hslot = hs@;
            hpost = ha@;
        }
    }
    proof {
        let m = fermat_modulus(nl) as int;
        lemma_pow_b_pos(nl);
        assert(low@ =~= lpre + lslot + lpost);
        assert(high@ =~= hpre + hslot + hpost);
        assert(low@.subrange(0, offset as int) =~= lpre);
        assert(lpre =~= l0.subrange(0, offset as int));
        assert(low@.subrange(offset + cl, low@.len() as int) =~= lpost);
        assert(lpost =~= l0.subrange(offset + cl, l0.len() as int));
        assert(high@.subrange(0, offset as int) =~= hpre);
        assert(hpre =~= h0.subrange(0, offset as int));
        assert(high@.subrange(offset + cl, high@.len() as int) =~= hpost);
        assert(hpost =~= h0.subrange(offset + cl, h0.len() as int));
        assert(low@.subrange(offset as int, offset + cl) =~= lslot);
        assert(high@.subrange(offset as int, offset + cl) =~= hslot);
        assert(lslot.subrange(0, nl + 1int) =~= lslot);
        assert(hslot.subrange(0, nl + 1int) =~= hslot);
        let a = slot_value(l0.subrange(offset as int, offset + cl), nl) as int;
        let b = slot_value(h0.subrange(offset as int, offset + cl), nl) as int;
        let t = two_pow(twiddle as nat) as int;
        let sv = slot_value(shifted, nl) as int;
        assert(sv % m == (b * t) % m);
        lemma_add_mod_noop(a, sv, m);
        lemma_add_mod_noop(a, b * t, m);
        lemma_sub_mod_noop(a, sv, m);
        lemma_sub_mod_noop(a, b * t, m);
    }
}

impl SsaTransform {
    /// Recursive radix-2 decimation-in-time transform, the inverse of
    /// [`Self::fft_recursive_dif`]: it reads bit-reversed input, transforms
    /// the halves with root `w^2`, and combines them with the inverse
    /// twiddles, so slot `j` holds `sum_p x[p] * w^(-j * bit_reverse(p))`.
    #[verifier::rlimit(60)]
    #[verifier::spinoff_prover]
    pub fn fft_recursive_dit(
        matrix: &mut [Limb],
        transform_len: usize,
        root_shift: usize,
        mod_bits: usize,
        scratch: &mut [Limb],
    )
        requires
            valid_mod_bits(mod_bits),
            mod_bits <= usize::MAX / 4,
            is_power_of_two(transform_len as nat),
            old(matrix)@.len() == transform_len * (mod_bits / 64 + 1),
            old(scratch)@.len() >= mod_bits / 64 + 1,
            root_shift < 2 * mod_bits,
            transform_len >= 2 ==> (root_shift * (transform_len / 2)) % (2 * mod_bits) == mod_bits,
            forall|i: int|
                0 <= i < transform_len ==> semi_normalized(
                    #[trigger] slot_at(old(matrix)@, i, mod_bits / 64 + 1),
                    (mod_bits / 64) as nat,
                ),
        ensures
            final(matrix)@.len() == old(matrix)@.len(),
            final(scratch)@.len() == old(scratch)@.len(),
            forall|j: int|
                #![trigger slot_at(final(matrix)@, j, mod_bits / 64 + 1)]
                0 <= j < transform_len ==> {
                    &&& semi_normalized(slot_at(final(matrix)@, j, mod_bits / 64 + 1), (mod_bits / 64) as nat)
                    &&& residue(slot_at(final(matrix)@, j, mod_bits / 64 + 1), (mod_bits / 64) as nat)
                        == reversed_sum(
                        slot_values(
                            old(matrix)@,
                            transform_len as nat,
                            (mod_bits / 64 + 1) as nat,
                            (mod_bits / 64) as nat,
                        ),
                        ((2 * mod_bits - root_shift) as nat) * (j as nat),
                        transform_len as nat,
                        transform_len as nat,
                    ) % (fermat_modulus((mod_bits / 64) as nat) as int)
                },
        decreases transform_len,
    {
        let ml = SsaRing::mod_limbs(mod_bits);
        let cl = ml + 1;
        let ghost nl = ml as nat;
        let ghost m0 = matrix@;
        let ghost k = transform_len as nat;
        let ghost fm = fermat_modulus(nl) as int;
        let ghost v = slot_values(m0, k, cl as nat, nl);
        let ghost u = (2 * mod_bits - root_shift) as nat;
        proof {
            lemma_pow_b_pos(nl);
        }
        if transform_len < 2 {
            proof {
                assert(transform_len == 1);
                assert forall|j: int| 0 <= j < 1 implies {
                    &&& semi_normalized(#[trigger] slot_at(m0, j, cl as int), nl)
                    &&& residue(slot_at(m0, j, cl as int), nl) == reversed_sum(v, u * (j as nat), 1, 1) % fm
                } by {
                    assert(j == 0);
                    assert(bit_reverse(0, 1) == 0);
                    lemma_mul_basics(u as int);
                    assert(u * (j as nat) * 0 == 0) by (nonlinear_arith);
                    assert(reversed_sum(v, u * (j as nat), 1, 0) == 0);
                    assert(two_pow(0) == 1);
                    lemma_mul_basics(v[0]);
                    assert(slot_at(m0, 0, cl as int).len() == cl) by {
                        lemma_mul_basics(cl as int);
                    }
                    assert(slot_at(m0, 0, cl as int).subrange(0, nl + 1int) =~= slot_at(m0, 0, cl as int));
                }
            }
            return;
        }
        let period = mod_bits * 2;
        let half = transform_len / 2;
        let total = matrix.len();
        let ghost h = half as nat;
        proof {
            lemma_mul_inequality(half as int, transform_len as int, cl as int);
            assert(transform_len == 2 * half);
            assert(transform_len * cl == 2 * (half * cl)) by {
                lemma_mul_is_associative(2, half as int, cl as int);
            }
            assert(is_power_of_two(half as nat));
        }
        let next_root = (root_shift * 2) % period;
        proof {
            if half >= 2 {
                assert(half % 2 == 0);
                lemma_mul_mod_noop((root_shift * 2) as int, (half / 2) as int, period as int);
                lemma_mod_mod((root_shift * 2) as int, period as int, 1);
                lemma_mul_mod_noop(((root_shift * 2) as int) % (period as int), (half / 2) as int, period as int);
                assert((root_shift * 2) * (half / 2) == root_shift * (transform_len / 2)) by (nonlinear_arith)
                    requires
                        transform_len == 2 * half,
                        half % 2 == 0,
                ;
            }
        }
        let ghost low_mid: Seq<Limb>;
        let ghost high_mid: Seq<Limb>;
        let ghost low_final: Seq<Limb>;
        let ghost high_final: Seq<Limb>;
        let ghost l0: Seq<Limb>;
        let ghost hh0: Seq<Limb>;
        {
            let (low_half, high_half) = matrix.split_at_mut(half * cl);
            proof {
                l0 = low_half@;
                hh0 = high_half@;
                assert(l0 =~= m0.subrange(0, (half * cl) as int));
                assert(hh0 =~= m0.subrange((half * cl) as int, m0.len() as int));
                assert(m0.len() == 2 * (half * cl));
                assert(hh0.len() == half * cl);
                assert forall|i: int| 0 <= i < half implies semi_normalized(
                    #[trigger] slot_at(l0, i, cl as int),
                    nl,
                ) by {
                    lemma_slot_offsets(i, half as int, cl as int);
                    assert(slot_at(l0, i, cl as int) =~= slot_at(m0, i, cl as int));
                }
                assert forall|i: int| 0 <= i < half implies semi_normalized(
                    #[trigger] slot_at(hh0, i, cl as int),
                    nl,
                ) by {
                    lemma_slot_offsets(i, half as int, cl as int);
                    lemma_mul_is_distributive_add_other_way(cl as int, half as int, i);
                    assert(slot_at(hh0, i, cl as int) =~= slot_at(m0, h + i, cl as int));
                }
            }
            Self::fft_recursive_dit(low_half, half, next_root, mod_bits, scratch);
            Self::fft_recursive_dit(high_half, half, next_root, mod_bits, scratch);
            proof {
                low_mid = low_half@;
                high_mid = high_half@;
            }
            let step = (period - root_shift) % period;
            let mut twiddle: usize = 0;
            let mut j: usize = 0;
            let scratch_len = scratch.len();
            let low_len = low_half.len();
            proof {
                lemma_mul_basics(step as int);
                lemma_small_mod(0, period as nat);
            }
            while j < half
                invariant
                    valid_mod_bits(mod_bits),
                    mod_bits <= usize::MAX / 4,
                    ml == mod_bits / 64,
                    cl == ml + 1,
                    nl == ml,
                    period == 2 * mod_bits,
                    period == 128 * ml,
                    step < period,
                    step == (period - root_shift) % (period as int),
                    fm == fermat_modulus(nl),
                    fm > 1,
                    h == half,
                    low_len == half * cl,
                    low_mid.len() == half * cl,
                    high_mid.len() == half * cl,
                    low_half@.len() == half * cl,
                    high_half@.len() == half * cl,
                    scratch@.len() == scratch_len,
                    scratch_len >= cl,
                    forall|i: int|
                        0 <= i < half ==> semi_normalized(#[trigger] slot_at(low_mid, i, cl as int), nl),
                    forall|i: int|
                        0 <= i < half ==> semi_normalized(#[trigger] slot_at(high_mid, i, cl as int), nl),
                    0 <= j <= half,
                    twiddle == ((step * j) as int) % (period as int),
                    forall|i: int|
                        #![trigger slot_at(low_half@, i, cl as int)]
                        0 <= i < j ==> {
                            &&& semi_normalized(slot_at(low_half@, i, cl as int), nl)
                            &&& residue(slot_at(low_half@, i, cl as int), nl) == (slot_value(
                                slot_at(low_mid, i, cl as int),
                                nl,
                            ) as int + slot_value(slot_at(high_mid, i, cl as int), nl) * two_pow(
                                (step as nat) * (i as nat),
                            )) % fm
                        },
                    forall|i: int|
                        #![trigger slot_at(high_half@, i, cl as int)]
                        0 <= i < j ==> {
                            &&& semi_normalized(slot_at(high_half@, i, cl as int), nl)
                            &&& residue(slot_at(high_half@, i, cl as int), nl) == (slot_value(
                                slot_at(low_mid, i, cl as int),
                                nl,
                            ) - slot_value(slot_at(high_mid, i, cl as int), nl) * two_pow(
                                (step as nat) * (i as nat),
                            )) % fm
                        },
                    low_half@.subrange(j * cl, low_half@.len() as int) == low_mid.subrange(
                        j * cl,
                        low_mid.len() as int,
                    ),
                    high_half@.subrange(j * cl, high_half@.len() as int) == high_mid.subrange(
                        j * cl,
                        high_mid.len() as int,
                    ),
                decreases half - j,
            {
                proof {
                    lemma_slot_offsets(j as int, half as int, cl as int);
                }
                let offset = j * cl;
                let ghost lb = low_half@;
                let ghost hb = high_half@;
                proof {
                    assert(lb.subrange(offset as int, offset + cl) =~= slot_at(low_mid, j as int, cl as int)) by {
                        assert(lb.subrange(offset as int, offset + cl) =~= lb.subrange(
                            offset as int,
                            lb.len() as int,
                        ).subrange(0, cl as int));
                        assert(low_mid.subrange(offset as int, low_mid.len() as int).subrange(0, cl as int)
                            =~= slot_at(low_mid, j as int, cl as int));
                    }
                    assert(hb.subrange(offset as int, offset + cl) =~= slot_at(high_mid, j as int, cl as int)) by {
                        assert(hb.subrange(offset as int, offset + cl) =~= hb.subrange(
                            offset as int,
                            hb.len() as int,
                        ).subrange(0, cl as int));
                        assert(high_mid.subrange(offset as int, high_mid.len() as int).subrange(0, cl as int)
                            =~= slot_at(high_mid, j as int, cl as int));
                    }
                }
                inverse_butterfly(low_half, high_half, offset, scratch, twiddle, mod_bits);
                proof {
                    let la = low_half@;
                    let ha = high_half@;
                    let lo = offset as int;
                    let hi = lo + cl;
                    let a = slot_value(slot_at(low_mid, j as int, cl as int), nl) as int;
                    let b = slot_value(slot_at(high_mid, j as int, cl as int), nl) as int;
                    lemma_mod_bound((step * j) as int, period as int);
                    lemma_mod_mod((step * j) as int, period as int, 1);
                    lemma_two_pow_congruent(nl, twiddle as nat, (step * j) as nat);
                    lemma_mul_mod_noop(b, two_pow(twiddle as nat) as int, fm);
                    lemma_mul_mod_noop(b, two_pow((step * j) as nat) as int, fm);
                    lemma_add_mod_noop(a, b * two_pow(twiddle as nat), fm);
                    lemma_add_mod_noop(a, b * two_pow((step * j) as nat), fm);
                    lemma_sub_mod_noop(a, b * two_pow(twiddle as nat), fm);
                    lemma_sub_mod_noop(a, b * two_pow((step * j) as nat), fm);
                    assert forall|i: int|
                        #![trigger slot_at(la, i, cl as int)]
                        0 <= i < j + 1 implies {
                        &&& semi_normalized(slot_at(la, i, cl as int), nl)
                        &&& residue(slot_at(la, i, cl as int), nl) == (slot_value(
                            slot_at(low_mid, i, cl as int),
                            nl,
                        ) as int + slot_value(slot_at(high_mid, i, cl as int), nl) * two_pow((step as nat) * (i as nat)))
                            % fm
                    } by {
                        if i < j {
                            lemma_slot_offsets(i, j as int, cl as int);
                            lemma_agree_disjoint(la, lb, lo, hi, i * cl, i * cl + cl);
                            assert(slot_at(la, i, cl as int) == slot_at(lb, i, cl as int));
                        } else {
                            assert(slot_at(la, i, cl as int) =~= la.subrange(lo, hi));
                        }
                    }
                    assert forall|i: int|
                        #![trigger slot_at(ha, i, cl as int)]
                        0 <= i < j + 1 implies {
                        &&& semi_normalized(slot_at(ha, i, cl as int), nl)
                        &&& residue(slot_at(ha, i, cl as int), nl) == (slot_value(
                            slot_at(low_mid, i, cl as int),
                            nl,
                        ) - slot_value(slot_at(high_mid, i, cl as int), nl) * two_pow((step as nat) * (i as nat)))
                            % fm
                    } by {
                        if i < j {
                            lemma_slot_offsets(i, j as int, cl as int);
                            lemma_agree_disjoint(ha, hb, lo, hi, i * cl, i * cl + cl);
                            assert(slot_at(ha, i, cl as int) == slot_at(hb, i, cl as int));
                        } else {
                            assert(slot_at(ha, i, cl as int) =~= ha.subrange(lo, hi));
                        }
                    }
                    assert((j + 1) * cl == hi);
                    assert(la.subrange(hi, la.len() as int) =~= low_mid.subrange(hi, low_mid.len() as int)) by {
                        assert(la.subrange(hi, la.len() as int) == lb.subrange(hi, lb.len() as int));
                        assert(lb.subrange(hi, lb.len() as int) =~= lb.subrange(lo, lb.len() as int).subrange(
                            cl as int,
                            lb.len() - lo,
                        ));
                        assert(low_mid.subrange(hi, low_mid.len() as int) =~= low_mid.subrange(
                            lo,
                            low_mid.len() as int,
                        ).subrange(cl as int, low_mid.len() - lo));
                    }
                    assert(ha.subrange(hi, ha.len() as int) =~= high_mid.subrange(hi, high_mid.len() as int)) by {
                        assert(ha.subrange(hi, ha.len() as int) == hb.subrange(hi, hb.len() as int));
                        assert(hb.subrange(hi, hb.len() as int) =~= hb.subrange(lo, hb.len() as int).subrange(
                            cl as int,
                            hb.len() - lo,
                        ));
                        assert(high_mid.subrange(hi, high_mid.len() as int) =~= high_mid.subrange(
                            lo,
                            high_mid.len() as int,
                        ).subrange(cl as int, high_mid.len() - lo));
                    }
                    lemma_mul_is_distributive_add(step as int, j as int, 1);
                    lemma_add_mod_noop((step * j) as int, step as int, period as int);
                    lemma_small_mod(step as nat, period as nat);
                }
                twiddle = if twiddle >= period - step {
                    twiddle - (period - step)
                } else {
                    twiddle + step
                };
                proof {
                    let t0 = ((step * j) as int) % (period as int);
                    if t0 >= period - step {
                        lemma_fundamental_div_mod_converse(t0 + step, period as int, 1, t0 + step - period);
                    } else {
                        lemma_fundamental_div_mod_converse(t0 + step, period as int, 0, t0 + step);
                    }
                }
                j = j + 1;
            }
            proof {
                low_final = low_half@;
                high_final = high_half@;
            }
        }
        proof {
            let mf = matrix@;
            assert(mf =~= low_final + high_final);
            let r = root_shift as nat;
            let step = ((period - root_shift) as int) % (period as int);
            // The inverse root's shift, halved for the recursion: 2n - 2r = 2u modulo 2n.
            let xl = slot_values(l0, h, cl as nat, nl);
            let xh = slot_values(hh0, h, cl as nat, nl);
            assert(xl =~= v.subrange(0, h as int)) by {
                assert forall|i: int| 0 <= i < h implies xl[i] == v[i] by {
                    lemma_slot_offsets(i, h as int, cl as int);
                    assert(slot_at(l0, i, cl as int) =~= slot_at(m0, i, cl as int));
                }
            }
            assert(xh =~= v.subrange(h as int, 2 * h as int)) by {
                assert forall|i: int| 0 <= i < h implies xh[i] == v[h + i] by {
                    lemma_slot_offsets(i, h as int, cl as int);
                    lemma_mul_is_distributive_add_other_way(cl as int, h as int, i);
                    assert(slot_at(hh0, i, cl as int) =~= slot_at(m0, h + i, cl as int));
                }
            }
            let c = (r * h) / (128 * nl);
            lemma_fundamental_div_mod((r * h) as int, (128 * nl) as int);
            assert(r * h < (128 * nl) * h) by (nonlinear_arith)
                requires
                    r < 128 * nl,
                    h >= 1,
            ;
            assert(c < h) by (nonlinear_arith)
                requires
                    r * h == (128 * nl) * c + 64 * nl,
                    r * h < (128 * nl) * h,
                    nl >= 1,
            ;
            assert((u * h) % (128 * nl) == 64 * nl) by {
                assert(u * h == (128 * nl) * ((h - c - 1) as nat) + 64 * nl) by (nonlinear_arith)
                    requires
                        u == 128 * nl - r,
                        r * h == (128 * nl) * c + 64 * nl,
                        c < h,
                ;
                lemma_mod_multiples_vanish((h - c - 1) as int, (64 * nl) as int, (128 * nl) as int);
                lemma_small_mod(64 * nl, 128 * nl);
            }
            assert(v.len() == 2 * h);
            let u2 = (2 * mod_bits - next_root) as nat;
            assert forall|jj: int|
                #![trigger slot_at(mf, jj, cl as int)]
                0 <= jj < transform_len implies {
                &&& semi_normalized(slot_at(mf, jj, cl as int), nl)
                &&& residue(slot_at(mf, jj, cl as int), nl) == reversed_sum(v, u * (jj as nat), k, k) % fm
            } by {
                let j0 = if jj < h {
                    jj as nat
                } else {
                    (jj - h) as nat
                };
                lemma_slot_offsets(j0 as int, h as int, cl as int);
                let a = slot_value(slot_at(low_mid, j0 as int, cl as int), nl) as int;
                let b = slot_value(slot_at(high_mid, j0 as int, cl as int), nl) as int;
                assert(slot_at(low_mid, j0 as int, cl as int).subrange(0, nl + 1int) =~= slot_at(
                    low_mid,
                    j0 as int,
                    cl as int,
                ));
                assert(slot_at(high_mid, j0 as int, cl as int).subrange(0, nl + 1int) =~= slot_at(
                    high_mid,
                    j0 as int,
                    cl as int,
                ));
                // The halves' transforms, read with root shift 2u.
                assert((u2 * j0) % (128 * nl) == (2 * u * j0) % (128 * nl)) by {
                    assert(u2 + 2 * r == 128 * nl * (if 2 * r < 128 * nl { 1int } else { 2int })) by {
                        if 2 * r >= 128 * nl {
                            lemma_fundamental_div_mod_converse((root_shift * 2) as int, (128 * nl) as int, 1, 2 * r - 128 * nl);
                        } else {
                            lemma_small_mod((2 * r) as nat, (128 * nl) as nat);
                        }
                    }
                    assert(2 * u + 2 * r == 2 * (128 * nl));
                    let d = if 2 * r < 128 * nl { 1int } else { 0int };
                    assert(2 * u * j0 == u2 * j0 + (128 * nl) * (d * j0)) by (nonlinear_arith)
                        requires
                            u2 + 2 * r == 128 * nl * (if 2 * r < 128 * nl { 1int } else { 2int }),
                            2 * u + 2 * r == 2 * (128 * nl),
                            d == (if 2 * r < 128 * nl { 1int } else { 0int }),
                    ;
                    lemma_mod_multiples_vanish(d * j0, (u2 * j0) as int, (128 * nl) as int);
                }
                lemma_reversed_root(xl, u2 * j0, 2 * u * j0, h, h, nl);
                lemma_reversed_root(xh, u2 * j0, 2 * u * j0, h, h, nl);
                // The twiddle exponent step * j0 agrees with u * j0 modulo 2n.
                assert((((step as nat) * j0) as nat) % (128 * nl) == (u * j0) % (128 * nl)) by {
                    if r == 0 {
                        assert(step == 0) by {
                            lemma_mod_self_0(period as int);
                        }
                        assert(u == 128 * nl);
                        assert(u * j0 == (128 * nl) * j0) by (nonlinear_arith)
                            requires
                                u == 128 * nl,
                        ;
                        lemma_mod_multiples_vanish(j0 as int, 0, (128 * nl) as int);
                        lemma_mul_basics(j0 as int);
                        lemma_small_mod(0, 128 * nl);
                    } else {
                        lemma_small_mod(u, 128 * nl);
                        assert(step == u);
                    }
                }
                lemma_two_pow_congruent(nl, (step as nat) * j0, u * j0);
                lemma_mul_mod_noop(b, two_pow((step as nat) * j0) as int, fm);
                lemma_mul_mod_noop(b, two_pow(u * j0) as int, fm);
                lemma_add_mod_noop(a, b * two_pow((step as nat) * j0), fm);
                lemma_add_mod_noop(a, b * two_pow(u * j0), fm);
                lemma_sub_mod_noop(a, b * two_pow((step as nat) * j0), fm);
                lemma_sub_mod_noop(a, b * two_pow(u * j0), fm);
                lemma_dit_step(v, a, b, u, j0, h, nl);
                if jj < h {
                    assert(slot_at(mf, jj, cl as int) =~= slot_at(low_final, jj, cl as int));
                } else {
                    lemma_mul_is_distributive_add_other_way(cl as int, h as int, j0 as int);
                    assert(slot_at(mf, jj, cl as int) =~= slot_at(high_final, j0 as int, cl as int));
                    assert(jj as nat == j0 + h);
                }
            }
        }
    }
}

impl SsaTransform {
    /// In-place radix-2 transform of `transform_len` slots over
    /// `Z/(2^mod_bits + 1)` with root `w = 2^root_shift`. The forward
    /// direction runs decimation in frequency and leaves the frequencies
    /// bit-reversed, slot `p` holding `sum_j v[j] * w^(j * bit_reverse(p))`;
    /// the inverse runs decimation in time on that order with `w^-1`, slot `j`
    /// holding `sum_p x[p] * w^(-j * bit_reverse(p))`. With `upper_half_zero`
    /// the forward transform's first stage, whose butterflies see a zero high
    /// slot, only writes the low half twisted by `w^j` into the upper half.
    #[verifier::rlimit(80)]
    #[verifier::spinoff_prover]
    pub fn fft_in_place(
        matrix: &mut [Limb],
        transform_len: usize,
        root_shift: usize,
        mod_bits: usize,
        inverse: bool,
        upper_half_zero: bool,
        scratch: &mut [Limb],
    )
        requires
            valid_mod_bits(mod_bits),
            mod_bits <= usize::MAX / 4,
            is_power_of_two(transform_len as nat),
            old(matrix)@.len() == transform_len * (mod_bits / 64 + 1),
            old(scratch)@.len() >= mod_bits / 64 + 1,
            root_shift < 2 * mod_bits,
            transform_len >= 2 ==> (root_shift * (transform_len / 2)) % (2 * mod_bits) == mod_bits,
            forall|i: int|
                0 <= i < transform_len ==> semi_normalized(
                    #[trigger] slot_at(old(matrix)@, i, mod_bits / 64 + 1),
                    (mod_bits / 64) as nat,
                ),
            !inverse && upper_half_zero ==> forall|i: int|
                (transform_len / 2) * (mod_bits / 64 + 1) <= i < old(matrix)@.len() ==> #[trigger] old(matrix)@[i]
                    == 0,
        ensures
            final(matrix)@.len() == old(matrix)@.len(),
            final(scratch)@.len() == old(scratch)@.len(),
            forall|p: int|
                #![trigger slot_at(final(matrix)@, p, mod_bits / 64 + 1)]
                0 <= p < transform_len ==> {
                    &&& semi_normalized(slot_at(final(matrix)@, p, mod_bits / 64 + 1), (mod_bits / 64) as nat)
                    &&& residue(slot_at(final(matrix)@, p, mod_bits / 64 + 1), (mod_bits / 64) as nat) == (if inverse {
                        reversed_sum(
                            slot_values(
                                old(matrix)@,
                                transform_len as nat,
                                (mod_bits / 64 + 1) as nat,
                                (mod_bits / 64) as nat,
                            ),
                            ((2 * mod_bits - root_shift) as nat) * (p as nat),
                            transform_len as nat,
                            transform_len as nat,
                        )
                    } else {
                        power_sum(
                            slot_values(
                                old(matrix)@,
                                transform_len as nat,
                                (mod_bits / 64 + 1) as nat,
                                (mod_bits / 64) as nat,
                            ),
                            (root_shift as nat) * bit_reverse(p as nat, transform_len as nat),
                            transform_len as nat,
                        )
                    }) % (fermat_modulus((mod_bits / 64) as nat) as int)
                },
    {
        if inverse {
            Self::fft_recursive_dit(matrix, transform_len, root_shift, mod_bits, scratch);
            return;
        }
        if !upper_half_zero || transform_len < 2 {
            Self::fft_recursive_dif(matrix, transform_len, root_shift, mod_bits, scratch);
            return;
        }
        let ml = SsaRing::mod_limbs(mod_bits);
        let cl = ml + 1;
        let ghost nl = ml as nat;
        let ghost m0 = matrix@;
        let ghost k = transform_len as nat;
        let ghost fm = fermat_modulus(nl) as int;
        let ghost v = slot_values(m0, k, cl as nat, nl);
        let period = mod_bits * 2;
        let half = transform_len / 2;
        let total = matrix.len();
        let ghost h = half as nat;
        proof {
            lemma_pow_b_pos(nl);
            lemma_mul_inequality(half as int, transform_len as int, cl as int);
            assert(transform_len == 2 * half);
            assert(transform_len * cl == 2 * (half * cl)) by {
                lemma_mul_is_associative(2, half as int, cl as int);
            }
            assert(half * cl <= m0.len());
            // The upper inputs are zero.
            assert forall|i: int| 0 <= i < h implies #[trigger] v[h + i] == 0 by {
                lemma_slot_offsets(h + i, k as int, cl as int);
                lemma_mul_is_distributive_add_other_way(cl as int, h as int, i);
                lemma_mul_nonnegative(i, cl as int);
                let s = slot_at(m0, h + i, cl as int).subrange(0, nl + 1int);
                assert(all_zero(s));
                lemma_val_zero(s);
            }
        }
        let ghost l0: Seq<Limb>;
        let ghost high_mid: Seq<Limb>;
        let ghost low_final: Seq<Limb>;
        let ghost high_final: Seq<Limb>;
        {
            let (low_half, high_half) = matrix.split_at_mut(half * cl);
            let ghost hh0 = high_half@;
            proof {
                l0 = low_half@;
                assert(l0 =~= m0.subrange(0, (half * cl) as int));
                assert(hh0 =~= m0.subrange((half * cl) as int, m0.len() as int));
            }
            let mut twiddle: usize = 0;
            let mut j: usize = 0;
            proof {
                lemma_mul_basics(root_shift as int);
                lemma_small_mod(0, period as nat);
            }
            while j < half
                invariant
                    valid_mod_bits(mod_bits),
                    mod_bits <= usize::MAX / 4,
                    ml == mod_bits / 64,
                    cl == ml + 1,
                    nl == ml,
                    period == 2 * mod_bits,
                    period == 128 * ml,
                    root_shift < period,
                    fm == fermat_modulus(nl),
                    fm > 1,
                    h == half,
                    m0.len() == 2 * (half * cl),
                    v == slot_values(m0, k, cl as nat, nl),
                    k == transform_len,
                    k == 2 * h,
                    forall|i: int| 0 <= i < h ==> #[trigger] v[h + i] == 0,
                    forall|i: int|
                        0 <= i < transform_len ==> semi_normalized(#[trigger] slot_at(m0, i, cl as int), nl),
                    l0 == m0.subrange(0, (half * cl) as int),
                    l0.len() == half * cl,
                    half * cl <= usize::MAX,
                    low_half@ == l0,
                    high_half@.len() == half * cl,
                    0 <= j <= half,
                    twiddle == ((root_shift * j) as int) % (period as int),
                    forall|i: int|
                        #![trigger slot_at(high_half@, i, cl as int)]
                        0 <= i < j ==> {
                            &&& semi_normalized(slot_at(high_half@, i, cl as int), nl)
                            &&& residue(slot_at(high_half@, i, cl as int), nl) == ((v[i] - v[h + i]) * two_pow(
                                (root_shift as nat) * (i as nat),
                            )) % fm
                        },
                decreases half - j,
            {
                proof {
                    lemma_slot_offsets(j as int, half as int, cl as int);
                }
                let offset = j * cl;
                let ghost hb = high_half@;
                let stage = &low_half[offset..offset + cl];
                proof {
                    assert(stage@ =~= slot_at(m0, j as int, cl as int));
                }
                shift_into_slot(high_half, offset, stage, twiddle, mod_bits);
                proof {
                    let ha = high_half@;
                    let lo = offset as int;
                    let hi = lo + cl;
                    let a = v[j as int];
                    assert(slot_at(m0, j as int, cl as int).subrange(0, nl + 1int) =~= slot_at(
                        m0,
                        j as int,
                        cl as int,
                    ));
                    assert(slot_value(stage@, nl) == a);
                    lemma_mod_bound((root_shift * j) as int, period as int);
                    lemma_mod_mod((root_shift * j) as int, period as int, 1);
                    lemma_two_pow_congruent(nl, twiddle as nat, (root_shift * j) as nat);
                    lemma_mul_mod_noop(a, two_pow(twiddle as nat) as int, fm);
                    lemma_mul_mod_noop(a, two_pow((root_shift * j) as nat) as int, fm);
                    assert(v[h + j] == 0);
                    assert forall|i: int|
                        #![trigger slot_at(ha, i, cl as int)]
                        0 <= i < j + 1 implies {
                        &&& semi_normalized(slot_at(ha, i, cl as int), nl)
                        &&& residue(slot_at(ha, i, cl as int), nl) == ((v[i] - v[h + i]) * two_pow(
                            (root_shift as nat) * (i as nat),
                        )) % fm
                    } by {
                        if i < j {
                            lemma_slot_offsets(i, j as int, cl as int);
                            lemma_agree_disjoint(ha, hb, lo, hi, i * cl, i * cl + cl);
                            assert(slot_at(ha, i, cl as int) == slot_at(hb, i, cl as int));
                        } else {
                            assert(slot_at(ha, i, cl as int) =~= ha.subrange(lo, hi));
                        }
                    }
                    lemma_mul_is_distributive_add(root_shift as int, j as int, 1);
                    lemma_add_mod_noop((root_shift * j) as int, root_shift as int, period as int);
                    lemma_small_mod(root_shift as nat, period as nat);
                }
                twiddle = if twiddle >= period - root_shift {
                    twiddle - (period - root_shift)
                } else {
                    twiddle + root_shift
                };
                proof {
                    let t0 = ((root_shift * j) as int) % (period as int);
                    if t0 >= period - root_shift {
                        lemma_fundamental_div_mod_converse(t0 + root_shift, period as int, 1, t0 + root_shift - period);
                    } else {
                        lemma_fundamental_div_mod_converse(t0 + root_shift, period as int, 0, t0 + root_shift);
                    }
                }
                j = j + 1;
            }
            proof {
                high_mid = high_half@;
            }
            let next_root = (root_shift * 2) % period;
            proof {
                assert(is_power_of_two(half as nat));
                if half >= 2 {
                    assert(half % 2 == 0);
                    lemma_mul_mod_noop((root_shift * 2) as int, (half / 2) as int, period as int);
                    lemma_mod_mod((root_shift * 2) as int, period as int, 1);
                    lemma_mul_mod_noop(((root_shift * 2) as int) % (period as int), (half / 2) as int, period as int);
                    assert((root_shift * 2) * (half / 2) == root_shift * (transform_len / 2)) by (nonlinear_arith)
                        requires
                            transform_len == 2 * half,
                            half % 2 == 0,
                    ;
                }
                assert forall|i: int| 0 <= i < half implies semi_normalized(
                    #[trigger] slot_at(low_half@, i, cl as int),
                    nl,
                ) by {
                    lemma_slot_offsets(i, half as int, cl as int);
                    assert(slot_at(l0, i, cl as int) =~= slot_at(m0, i, cl as int));
                }
            }
            Self::fft_recursive_dif(low_half, half, next_root, mod_bits, scratch);
            Self::fft_recursive_dif(high_half, half, next_root, mod_bits, scratch);
            proof {
                low_final = low_half@;
                high_final = high_half@;
            }
        }
        proof {
            assert(matrix@ =~= low_final + high_final);
            assert forall|i: int|
                #![trigger slot_at(l0, i, nl + 1int)]
                0 <= i < h implies {
                &&& semi_normalized(slot_at(l0, i, nl + 1int), nl)
                &&& residue(slot_at(l0, i, nl + 1int), nl) == (v[i] + v[h + i]) % fm
            } by {
                lemma_slot_offsets(i, h as int, cl as int);
                assert(slot_at(l0, i, cl as int) =~= slot_at(m0, i, cl as int));
                assert(slot_at(m0, i, cl as int).subrange(0, nl + 1int) =~= slot_at(m0, i, cl as int));
                assert(v[h + i] == 0);
            }
            lemma_dif_halves(v, l0, high_mid, low_final, high_final, matrix@, h, root_shift as nat, nl);
        }
    }
}

impl SsaTransform {
    /// Finishes a forward transform whose first stage is already done: both
    /// halves of `matrix` are transformed on their own with the root
    /// `w^2 = 2^(2 root_shift)`, leaving low-half slot `p` with
    /// `sum_j lo[j] * w^(2 j * bit_reverse(p))` and high-half slot `p` with
    /// the same sum over the high half's values.
    pub fn fft_in_place_from_stage2(
        matrix: &mut [Limb],
        transform_len: usize,
        root_shift: usize,
        mod_bits: usize,
        scratch: &mut [Limb],
    )
        requires
            valid_mod_bits(mod_bits),
            mod_bits <= usize::MAX / 4,
            is_power_of_two(transform_len as nat),
            transform_len >= 2,
            old(matrix)@.len() == transform_len * (mod_bits / 64 + 1),
            old(scratch)@.len() >= mod_bits / 64 + 1,
            root_shift < 2 * mod_bits,
            (root_shift * (transform_len / 2)) % (2 * mod_bits) == mod_bits,
            forall|i: int|
                0 <= i < transform_len ==> semi_normalized(
                    #[trigger] slot_at(old(matrix)@, i, mod_bits / 64 + 1),
                    (mod_bits / 64) as nat,
                ),
        ensures
            final(matrix)@.len() == old(matrix)@.len(),
            final(scratch)@.len() == old(scratch)@.len(),
            final(matrix)@ == final(matrix)@.subrange(0, (transform_len / 2) * (mod_bits / 64 + 1))
                + final(matrix)@.subrange((transform_len / 2) * (mod_bits / 64 + 1), final(matrix)@.len() as int),
            forall|p: int|
                #![trigger slot_at(final(matrix)@.subrange(0, (transform_len / 2) * (mod_bits / 64 + 1)), p, mod_bits / 64 + 1)]
                0 <= p < transform_len / 2 ==> {
                    let low = final(matrix)@.subrange(0, (transform_len / 2) * (mod_bits / 64 + 1));
                    &&& semi_normalized(slot_at(low, p, mod_bits / 64 + 1), (mod_bits / 64) as nat)
                    &&& residue(slot_at(low, p, mod_bits / 64 + 1), (mod_bits / 64) as nat) == power_sum(
                        slot_values(
                            old(matrix)@.subrange(0, (transform_len / 2) * (mod_bits / 64 + 1)),
                            (transform_len / 2) as nat,
                            (mod_bits / 64 + 1) as nat,
                            (mod_bits / 64) as nat,
                        ),
                        (((root_shift * 2) % (2 * mod_bits)) as nat) * bit_reverse(p as nat, (transform_len / 2) as nat),
                        (transform_len / 2) as nat,
                    ) % (fermat_modulus((mod_bits / 64) as nat) as int)
                },
            forall|p: int|
                #![trigger slot_at(final(matrix)@.subrange((transform_len / 2) * (mod_bits / 64 + 1), final(matrix)@.len() as int), p, mod_bits / 64 + 1)]
                0 <= p < transform_len / 2 ==> {
                    let high = final(matrix)@.subrange(
                        (transform_len / 2) * (mod_bits / 64 + 1),
                        final(matrix)@.len() as int,
                    );
                    &&& semi_normalized(slot_at(high, p, mod_bits / 64 + 1), (mod_bits / 64) as nat)
                    &&& residue(slot_at(high, p, mod_bits / 64 + 1), (mod_bits / 64) as nat) == power_sum(
                        slot_values(
                            old(matrix)@.subrange((transform_len / 2) * (mod_bits / 64 + 1), old(matrix)@.len() as int),
                            (transform_len / 2) as nat,
                            (mod_bits / 64 + 1) as nat,
                            (mod_bits / 64) as nat,
                        ),
                        (((root_shift * 2) % (2 * mod_bits)) as nat) * bit_reverse(p as nat, (transform_len / 2) as nat),
                        (transform_len / 2) as nat,
                    ) % (fermat_modulus((mod_bits / 64) as nat) as int)
                },
    {
        let ml = SsaRing::mod_limbs(mod_bits);
        let cl = ml + 1;
        let ghost m0 = matrix@;
        let period = mod_bits * 2;
        let half = transform_len / 2;
        let total = matrix.len();
        proof {
            lemma_mul_inequality(half as int, transform_len as int, cl as int);
            assert(transform_len == 2 * half);
            assert(transform_len * cl == 2 * (half * cl)) by {
                lemma_mul_is_associative(2, half as int, cl as int);
            }
            assert(is_power_of_two(half as nat));
        }
        let next_root = (root_shift * 2) % period;
        proof {
            if half >= 2 {
                assert(half % 2 == 0);
                lemma_mul_mod_noop((root_shift * 2) as int, (half / 2) as int, period as int);
                lemma_mod_mod((root_shift * 2) as int, period as int, 1);
                lemma_mul_mod_noop(((root_shift * 2) as int) % (period as int), (half / 2) as int, period as int);
                let h2 = half / 2;
                let r = root_shift as int;
                assert((r * 2) * h2 == r * half) by (nonlinear_arith)
                    requires
                        half == 2 * h2,
                ;
                assert(transform_len / 2 == half);
            }
        }
        let ghost lf: Seq<Limb>;
        let ghost hf: Seq<Limb>;
        {
            let (low_half, high_half) = matrix.split_at_mut(half * cl);
            proof {
                assert(low_half@ =~= m0.subrange(0, (half * cl) as int));
                assert(high_half@ =~= m0.subrange((half * cl) as int, m0.len() as int));
                assert forall|i: int| 0 <= i < half implies semi_normalized(
                    #[trigger] slot_at(low_half@, i, cl as int),
                    ml as nat,
                ) by {
                    lemma_slot_offsets(i, half as int, cl as int);
                    assert(slot_at(low_half@, i, cl as int) =~= slot_at(m0, i, cl as int));
                }
                assert forall|i: int| 0 <= i < half implies semi_normalized(
                    #[trigger] slot_at(high_half@, i, cl as int),
                    ml as nat,
                ) by {
                    lemma_slot_offsets(i, half as int, cl as int);
                    lemma_mul_is_distributive_add_other_way(cl as int, half as int, i);
                    assert(slot_at(high_half@, i, cl as int) =~= slot_at(m0, half + i, cl as int));
                }
            }
            Self::fft_recursive_dif(low_half, half, next_root, mod_bits, scratch);
            Self::fft_recursive_dif(high_half, half, next_root, mod_bits, scratch);
            proof {
                lf = low_half@;
                hf = high_half@;
            }
        }
        proof {
            assert(matrix@ =~= lf + hf);
            assert(matrix@.subrange(0, (half * cl) as int) =~= lf);
            assert(matrix@.subrange((half * cl) as int, matrix@.len() as int) =~= hf);
        }
    }
}

} // verus!
