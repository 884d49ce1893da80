//! Accumulating the inverse-transformed coefficient matrix back into a
//! product modulo `2^mod_bits + 1`.
//!
//! Each coefficient, once untwisted and canonical, is read as a signed
//! value: residues with the guard or the top data bit set stand for
//! negative coefficients. Coefficient `i` contributes its signed value times
//! `2^(i * chunk_bits)`; the accumulator starts from one outer modulus so
//! the signed sum stays positive, and a final fold by `2^mod_bits = -1`
//! leaves the canonical residue.

use crate::basecase::Multiplication;
use crate::eval::SharedEval;
use crate::kernels::Addition;
use crate::limbs::{
    Limb, lemma_pow_b_add, lemma_pow_b_pos, lemma_val_bound, lemma_val_complement, lemma_val_split,
    lemma_val_zero, pow_b, radix, val,
};
use crate::num::{lemma_two_pow_64, lemma_two_pow_monotone, lemma_two_pow_pos, two_pow};
use crate::ssa::entry::{lemma_two_pow_add, lemma_two_pow_limbs};
use crate::ssa::pointwise::{lemma_slot_offsets, slot_at};
use crate::ssa::shift::lemma_fold_high;
use crate::ssa::coefficients::{
    SsaCoefficients, agree_outside, chunk_value, half_bit_residue, lemma_even_step, lemma_sqrt2_step,
};
use crate::ssa::cofactor::lemma_val_around;
use crate::ssa::crt::add_limb;
use crate::ssa::plan::InverseTwist;
use crate::ssa::shift::{limb_pow2, shifted_residue};
use crate::ssa::ring::{
    SsaRing, canonical, fermat_modulus, lemma_canonical_shape, residue, semi_normalized, slot_value,
    valid_mod_bits,
};
use crate::ssa::transform::spec_shift_for;
use vstd::arithmetic::div_mod::*;
use vstd::arithmetic::mul::*;
use vstd::prelude::*;

verus! {

/// `v` in `[0, L)` with `v = x + e * L` is `x` reduced modulo `L`.
proof fn lemma_mod_representative(v: int, x: int, e: int, l: int)
    requires
        l > 0,
        0 <= v < l,
        v == x + e * l,
    ensures
        v == x % l,
{
    assert(x == (-e) * l + v) by (nonlinear_arith)
        requires
            v == x + e * l,
    ;
    lemma_fundamental_div_mod_converse(x, l, -e, v);
}

/// Adds `src * w * B^offset` into `acc` modulo `B^len`.
fn add_scaled_mod(acc: &mut [Limb], src: &[Limb], w: Limb, offset: usize)
    requires
        offset + src@.len() < old(acc)@.len(),
    ensures
        final(acc)@.len() == old(acc)@.len(),
        val(final(acc)@) as int == (val(old(acc)@) + val(src@) * w * pow_b(offset as nat)) as int % (pow_b(
            old(acc)@.len(),
        ) as int),
{
    let ghost a0 = acc@;
    let m = src.len();
    let ghost lo_f: Seq<Limb>;
    let ghost h0: Seq<Limb>;
    let ghost h1: Seq<Limb>;
    let ghost h2: Seq<Limb>;
    let ghost carry_g: Limb;
    let ghost escaped_g: Limb;
    let ghost r1: Seq<Limb>;
    let ghost head: Seq<Limb>;
    let ghost r2: Seq<Limb>;
    {
        let (lo, hi) = acc.split_at_mut(offset);
        proof {
            h0 = hi@;
        }
        let carry = Multiplication::add_mul_word(hi, src, w);
        proof {
            h1 = hi@;
            carry_g = carry;
        }
        let escaped;
        {
            let (first, rest) = hi.split_at_mut(m);
            proof {
                r1 = rest@;
                head = first@;
            }
            escaped = add_limb(rest, carry);
            proof {
                r2 = rest@;
                assert(first@ == head);
            }
        }
        proof {
            h2 = hi@;
            lo_f = lo@;
            escaped_g = escaped;
            assert(h2 =~= head + r2);
            assert(h1 =~= head + r1);
        }
    }
    proof {
        let hl = h0.len();
        let bm = pow_b(m as nat) as int;
        let bh = pow_b(hl) as int;
        lemma_val_split(h0, m as int);
        lemma_val_split(h1, m as int);
        lemma_val_split(h2, m as int);
        assert(h2.subrange(0, m as int) =~= h1.subrange(0, m as int));
        assert(h1.subrange(m as int, hl as int) =~= h0.subrange(m as int, hl as int));
        assert(h1.subrange(m as int, hl as int) =~= r1);
        assert(h2.subrange(m as int, hl as int) =~= r2);
        lemma_pow_b_add(m as nat, (hl - m) as nat);
        let br = pow_b((hl - m) as nat) as int;
        let x = val(src@) * w;
        assert(val(h2) == val(h0) + x - escaped_g * bh) by (nonlinear_arith)
            requires
                val(h2) == val(h2.subrange(0, m as int)) + bm * val(r2),
                val(h1) == val(h2.subrange(0, m as int)) + bm * val(r1),
                val(h0) == val(h0.subrange(0, m as int)) + bm * val(h0.subrange(m as int, hl as int)),
                val(h2.subrange(0, m as int)) + carry_g * bm == val(h0.subrange(0, m as int)) + x,
                val(r2) + escaped_g * br == val(r1) + carry_g,
                r1 == h0.subrange(m as int, hl as int),
                bh == bm * br,
        ;
        assert(acc@ =~= lo_f + h2);
        assert(lo_f =~= a0.subrange(0, offset as int));
        assert(h0 =~= a0.subrange(offset as int, a0.len() as int));
        lemma_val_split(acc@, offset as int);
        lemma_val_split(a0, offset as int);
        assert(acc@.subrange(0, offset as int) =~= lo_f);
        assert(acc@.subrange(offset as int, acc@.len() as int) =~= h2);
        lemma_pow_b_add(offset as nat, hl);
        let bo = pow_b(offset as nat) as int;
        let bl = pow_b(a0.len()) as int;
        assert(val(acc@) == val(a0) + x * bo - escaped_g * bl) by (nonlinear_arith)
            requires
                val(acc@) == val(lo_f) + bo * val(h2),
                val(a0) == val(lo_f) + bo * val(h0),
                val(h2) == val(h0) + x - escaped_g * bh,
                bl == bo * bh,
        ;
        lemma_val_bound(acc@);
        lemma_pow_b_pos(a0.len());
        assert((-(escaped_g as int)) * bl == -(escaped_g * bl)) by (nonlinear_arith);
        lemma_mod_representative(val(acc@) as int, val(a0) + x * bo, -(escaped_g as int), bl);
    }
}

/// Subtracts `src * w * B^offset` from `acc` modulo `B^len`.
fn sub_scaled_mod(acc: &mut [Limb], src: &[Limb], w: Limb, offset: usize)
    requires
        offset + src@.len() <= old(acc)@.len(),
    ensures
        final(acc)@.len() == old(acc)@.len(),
        val(final(acc)@) as int == (val(old(acc)@) - val(src@) * w * pow_b(offset as nat)) % (pow_b(
            old(acc)@.len(),
        ) as int),
{
    let ghost a0 = acc@;
    let ghost lo_f: Seq<Limb>;
    let ghost h0: Seq<Limb>;
    let ghost h1: Seq<Limb>;
    let borrow;
    {
        let (lo, hi) = acc.split_at_mut(offset);
        proof {
            h0 = hi@;
        }
        borrow = SharedEval::sub_mul_word_in_place(hi, src, w);
        proof {
            h1 = hi@;
            lo_f = lo@;
        }
    }
    proof {
        let hl = h0.len();
        let bh = pow_b(hl) as int;
        let x = val(src@) * w;
        assert(acc@ =~= lo_f + h1);
        assert(lo_f =~= a0.subrange(0, offset as int));
        assert(h0 =~= a0.subrange(offset as int, a0.len() as int));
        lemma_val_split(acc@, offset as int);
        lemma_val_split(a0, offset as int);
        assert(acc@.subrange(0, offset as int) =~= lo_f);
        assert(acc@.subrange(offset as int, acc@.len() as int) =~= h1);
        lemma_pow_b_add(offset as nat, hl);
        let bo = pow_b(offset as nat) as int;
        let bl = pow_b(a0.len()) as int;
        assert(val(acc@) == val(a0) - x * bo + borrow * bl) by (nonlinear_arith)
            requires
                val(acc@) == val(lo_f) + bo * val(h1),
                val(a0) == val(lo_f) + bo * val(h0),
                val(h1) - borrow * bh == val(h0) - x,
                bl == bo * bh,
        ;
        lemma_val_bound(acc@);
        lemma_pow_b_pos(a0.len());
        lemma_mod_representative(val(acc@) as int, val(a0) - x * bo, borrow as int, bl);
    }
}

/// A canonical coefficient read as negative: the guard or the top data bit is set.
pub open spec fn reads_negative(c: Seq<Limb>, ml: nat) -> bool {
    c[ml as int] != 0 || c[ml - 1] >= 0x8000_0000_0000_0000
}

/// The signed value a canonical coefficient stands for.
pub open spec fn signed_coefficient(c: Seq<Limb>, ml: nat) -> int {
    if reads_negative(c, ml) {
        slot_value(c, ml) - fermat_modulus(ml)
    } else {
        slot_value(c, ml) as int
    }
}

/// Writes `2^n + 1 - c` for a negative-reading canonical coefficient `c`
/// into the `ml + 1` limbs of `mag`.
fn negative_magnitude(coeff: &[Limb], mag: &mut [Limb], ml: usize)
    requires
        ml >= 1,
        coeff@.len() == ml + 1,
        canonical(coeff@, ml as nat),
        reads_negative(coeff@, ml as nat),
        old(mag)@.len() == ml + 1,
    ensures
        final(mag)@.len() == ml + 1,
        val(final(mag)@) == fermat_modulus(ml as nat) - slot_value(coeff@, ml as nat),
        final(mag)@[ml as int] == 0,
{
    let ghost nl = ml as nat;
    let ghost big = pow_b(nl) as int;
    proof {
        lemma_canonical_shape(coeff@, nl);
        assert(coeff@.subrange(0, nl + 1int) =~= coeff@);
        lemma_val_around(coeff@, ml as int);
        lemma_val_bound(coeff@.subrange(0, ml as int));
        assert(coeff@.subrange(ml + 1int, coeff@.len() as int).len() == 0);
        lemma_val_zero(coeff@.subrange(ml + 1int, coeff@.len() as int));
        lemma_pow_b_pos(nl);
    }
    if coeff[ml] != 0 {
        Addition::fill_zero(mag);
        mag[0] = 1;
        proof {
            assert(coeff@[ml as int] == 1);
            assert(slot_value(coeff@, nl) == big) by {
                lemma_val_zero(coeff@.subrange(0, ml as int));
                lemma_mul_basics(big);
            }
            lemma_val_around(mag@, 0);
            assert(mag@.subrange(0, 0).len() == 0);
            lemma_val_zero(mag@.subrange(0, 0));
            assert(crate::limbs::all_zero(mag@.subrange(1, mag@.len() as int)));
            lemma_val_zero(mag@.subrange(1, mag@.len() as int));
            assert(pow_b(0) == 1);
        }
        return;
    }
    let mut i: usize = 0;
    while i < ml
        invariant
            ml >= 1,
            coeff@.len() == ml + 1,
            mag@.len() == ml + 1,
            0 <= i <= ml,
            forall|j: int| 0 <= j < i ==> mag@[j] == u64::MAX - coeff@[j],
        decreases ml - i,
    {
        mag[i] = u64::MAX - coeff[i];
        i = i + 1;
    }
    mag[ml] = 0;
    let ghost data0 = mag@.subrange(0, ml as int);
    let ghost c = val(coeff@.subrange(0, ml as int)) as int;
    proof {
        lemma_val_complement(coeff@.subrange(0, ml as int), data0);
        // The top data bit makes the value at least 2^63 * B^(ml-1) >= 2.
        let top = coeff@.subrange(0, ml as int);
        lemma_val_around(top, ml - 1);
        lemma_pow_b_pos((ml - 1) as nat);
        assert(top[ml - 1] == coeff@[ml - 1]);
        assert(c >= 2) by (nonlinear_arith)
            requires
                c == val(top.subrange(0, ml - 1)) + pow_b((ml - 1) as nat) * (top[ml - 1] + radix() * val(
                    top.subrange(ml as int, top.len() as int),
                )),
                top[ml - 1] >= 0x8000_0000_0000_0000,
                pow_b((ml - 1) as nat) >= 1,
                val(top.subrange(0, ml - 1)) >= 0,
                val(top.subrange(ml as int, top.len() as int)) >= 0,
        ;
    }
    let ghost data1: Seq<Limb>;
    let carry;
    {
        let (data, _) = mag.split_at_mut(ml);
        proof {
            assert(data@ =~= data0);
        }
        carry = add_limb(data, 2);
        proof {
            data1 = data@;
        }
    }
    proof {
        lemma_val_bound(data1);
        if carry != 0 {
            assert(val(data1) + carry * big >= big);
        }
        assert(carry == 0);
        lemma_val_split(mag@, ml as int);
        assert(mag@.subrange(0, ml as int) =~= data1);
        assert(mag@.subrange(ml as int, mag@.len() as int) =~= seq![0u64]);
        crate::limbs::lemma_val_single(0u64);
        assert(slot_value(coeff@, nl) == c) by {
            lemma_mul_basics(big);
        }
    }
}

/// Applies the inverse twiddle and scaling of coefficient `index` to the
/// slot at `offset` in place and canonicalizes it.
fn untwist_coefficient(
    matrix: &mut [Limb],
    offset: usize,
    index: usize,
    twist: InverseTwist,
    scratch: &mut [Limb],
)
    requires
        valid_mod_bits(twist.inner_bits),
        twist.inner_bits <= usize::MAX / 4,
        offset + twist.inner_bits / 64 + 1 <= old(matrix)@.len(),
        old(scratch)@.len() >= 2 * (twist.inner_bits / 64 + 1),
        semi_normalized(
            old(matrix)@.subrange(offset as int, offset + twist.inner_bits / 64 + 1),
            (twist.inner_bits / 64) as nat,
        ),
    ensures
        agree_outside(final(matrix)@, old(matrix)@, offset as int, offset + twist.inner_bits / 64 + 1),
        final(scratch)@.len() == old(scratch)@.len(),
        canonical(
            final(matrix)@.subrange(offset as int, offset + twist.inner_bits / 64 + 1),
            (twist.inner_bits / 64) as nat,
        ),
        residue(
            final(matrix)@.subrange(offset as int, offset + twist.inner_bits / 64 + 1),
            (twist.inner_bits / 64) as nat,
        ) == half_bit_residue(
            slot_value(
                old(matrix)@.subrange(offset as int, offset + twist.inner_bits / 64 + 1),
                (twist.inner_bits / 64) as nat,
            ),
            spec_shift_for(twist, index) as nat,
            (twist.inner_bits / 64) as nat,
        ),
{
    let bits = twist.inner_bits;
    let ml = SsaRing::mod_limbs(bits);
    let cl = ml + 1;
    let ghost nl = ml as nat;
    let ghost m0 = matrix@;
    let total = twist.shift_for(index);
    let ghost pre: Seq<Limb>;
    let ghost post: Seq<Limb>;
    let ghost s0: Seq<Limb>;
    let ghost s1: Seq<Limb>;
    let ghost s2: Seq<Limb>;
    let ghost s3: Seq<Limb>;
    {
        let (before, rest) = matrix.split_at_mut(offset);
        let (slot, after) = rest.split_at_mut(cl);
        proof {
            s0 = slot@;
            assert(s0 =~= m0.subrange(offset as int, offset + cl));
        }
        if total != 0 {
            SsaRing::shift_in_place(slot, total / 2, bits, scratch);
            proof {
                s1 = slot@;
            }
            if total % 2 == 1 {
                SsaRing::mul_sqrt2(slot, bits, scratch);
            }
        } else {
            proof {
                s1 = slot@;
            }
        }
        proof {
            s2 = slot@;
        }
        SsaRing::normalize(slot, bits);
        proof {
            s3 = slot@;
            pre = before@;
            post = after@;
        }
    }
    proof {
        assert(matrix@ =~= pre + s3 + post);
        assert(matrix@.subrange(0, offset as int) =~= pre);
        assert(pre =~= m0.subrange(0, offset as int));
        assert(matrix@.subrange(offset + cl, matrix@.len() as int) =~= post);
        assert(post =~= m0.subrange(offset + cl, m0.len() as int));
        assert(matrix@.subrange(offset as int, offset + cl) =~= s3);
        let sv = slot_value(s0, nl);
        let h = total as nat;
        if total == 0 {
            assert(two_pow(0) == 1);
            lemma_mul_basics(sv as int);
            assert(h / 2 == 0);
            assert(half_bit_residue(sv, h, nl) == (sv as int) % (fermat_modulus(nl) as int));
        } else if total % 2 == 1 {
            lemma_sqrt2_step(slot_value(s1, nl), sv, h, nl);
        } else {
            lemma_even_step(sv, h, nl);
        }
    }
}

/// Adds the signed value of the canonical coefficient `coeff`, times
/// `2^shift_bits * B^shift_limbs`, into `acc` modulo `B^len`; `mag` is
/// workspace for a negative coefficient's magnitude.
fn accumulate_coefficient(
    acc: &mut [Limb],
    coeff: &[Limb],
    ml: usize,
    shift_limbs: usize,
    shift_bits: usize,
    mag: &mut [Limb],
)
    requires
        ml >= 1,
        coeff@.len() == ml + 1,
        canonical(coeff@, ml as nat),
        shift_bits < 64,
        shift_limbs + ml < old(acc)@.len(),
        old(mag)@.len() == ml + 1,
    ensures
        final(acc)@.len() == old(acc)@.len(),
        final(mag)@.len() == ml + 1,
        val(final(acc)@) as int == (val(old(acc)@) + signed_coefficient(coeff@, ml as nat) * two_pow(
            shift_bits as nat,
        ) * pow_b(shift_limbs as nat)) % (pow_b(old(acc)@.len()) as int),
{
    let ghost nl = ml as nat;
    let pw = limb_pow2(shift_bits);
    let top_set = coeff[ml - 1] >= 0x8000_0000_0000_0000u64;
    if coeff[ml] != 0 || top_set {
        negative_magnitude(coeff, mag, ml);
        let magnitude = &mag[0..ml];
        proof {
            lemma_val_split(mag@, ml as int);
            assert(mag@.subrange(0, ml as int) =~= magnitude@);
            assert(mag@.subrange(ml as int, mag@.len() as int) =~= seq![0u64]);
            crate::limbs::lemma_val_single(0u64);
            lemma_mul_basics(pow_b(nl) as int);
            let x = val(magnitude@) as int;
            assert(x == fermat_modulus(nl) - slot_value(coeff@, nl));
            assert(signed_coefficient(coeff@, nl) == -x);
            let p = two_pow(shift_bits as nat) as int;
            let q = pow_b(shift_limbs as nat) as int;
            assert((-x) * p * q == -(x * pw * q)) by (nonlinear_arith)
                requires
                    p == pw,
            ;
        }
        sub_scaled_mod(acc, magnitude, pw, shift_limbs);
    } else {
        let data = &coeff[0..ml];
        proof {
            lemma_val_split(coeff@, ml as int);
            assert(coeff@.subrange(0, ml as int) =~= data@);
            assert(coeff@.subrange(ml as int, coeff@.len() as int) =~= seq![0u64]);
            crate::limbs::lemma_val_single(0u64);
            lemma_mul_basics(pow_b(nl) as int);
            assert(coeff@.subrange(0, nl + 1int) =~= coeff@);
            assert(signed_coefficient(coeff@, nl) == val(data@));
        }
        add_scaled_mod(acc, data, pw, shift_limbs);
    }
}

/// The signed coefficients below `count`, coefficient `i` weighted by
/// `2^(i * chunk_bits)`.
pub open spec fn coefficient_sum(m: Seq<Limb>, count: nat, cl: nat, ml: nat, chunk_bits: nat) -> int
    decreases count,
{
    if count == 0 {
        0
    } else {
        coefficient_sum(m, (count - 1) as nat, cl, ml, chunk_bits) + signed_coefficient(
            slot_at(m, count - 1, cl as int),
            ml,
        ) * two_pow(((count - 1) * chunk_bits) as nat)
    }
}

/// The accumulator's width: room for every shifted coefficient, and at
/// least one outer coefficient.
pub open spec fn accumulator_limbs(transform_len: nat, chunk_bits: nat, inner_bits: nat, mod_bits: nat) -> nat {
    let contributions = inner_bits / 64 + 1 + ((transform_len - 1) * chunk_bits) as nat / 64 + 1;
    if contributions >= mod_bits / 64 + 1 {
        contributions
    } else {
        mod_bits / 64 + 1
    }
}

/// Scratch a reconstruction needs: the accumulator, then a work area for one
/// shifted coefficient and for the closing fold.
pub open spec fn spec_reconstruct_scratch_len(transform_len: nat, chunk_bits: nat, inner_bits: nat, mod_bits: nat) -> nat {
    let acc = accumulator_limbs(transform_len, chunk_bits, inner_bits, mod_bits);
    let coefficient = inner_bits / 64 + 2;
    let fold = (acc - mod_bits / 64) as nat;
    acc + if coefficient >= fold {
        coefficient
    } else {
        fold
    }
}

/// What the closing fold by `2^n = -1` leaves of an accumulator of `len`
/// limbs holding `a`: an accumulator no wider than one outer coefficient is
/// kept; otherwise the low `min(len - ml, ml)` limbs above the data limbs
/// are subtracted from them and the difference made canonical.
pub open spec fn folded_value(a: nat, len: nat, ml: nat) -> int {
    if len <= ml + 1 {
        a as int
    } else {
        let low = (a % pow_b(ml)) as int;
        let count = if len - ml < ml {
            (len - ml) as nat
        } else {
            ml
        };
        let high = ((a / pow_b(ml)) % pow_b(count)) as int;
        if low >= high {
            low - high
        } else {
            low - high + fermat_modulus(ml)
        }
    }
}

/// The limbs `[k, k + c)` of `s` read `floor(val(s) / B^k) mod B^c`.
proof fn lemma_val_window(s: Seq<Limb>, k: nat, c: nat)
    requires
        k + c <= s.len(),
    ensures
        val(s.subrange(k as int, (k + c) as int)) == (val(s) / pow_b(k)) % pow_b(c),
        val(s.subrange(0, k as int)) == val(s) % pow_b(k),
{
    lemma_val_split(s, k as int);
    let low = s.subrange(0, k as int);
    let rest = s.subrange(k as int, s.len() as int);
    lemma_val_bound(low);
    lemma_pow_b_pos(k);
    lemma_pow_b_pos(c);
    lemma_mul_is_commutative(pow_b(k) as int, val(rest) as int);
    lemma_fundamental_div_mod_converse(val(s) as int, pow_b(k) as int, val(rest) as int, val(low) as int);
    lemma_val_split(rest, c as int);
    assert(rest.subrange(0, c as int) =~= s.subrange(k as int, (k + c) as int));
    let top = rest.subrange(c as int, rest.len() as int);
    lemma_val_bound(rest.subrange(0, c as int));
    lemma_mul_is_commutative(pow_b(c) as int, val(top) as int);
    lemma_fundamental_div_mod_converse(
        val(rest) as int,
        pow_b(c) as int,
        val(top) as int,
        val(rest.subrange(0, c as int)) as int,
    );
}

/// The weighted sum only reads the slots below `count`.
proof fn lemma_coefficient_sum_frame(m1: Seq<Limb>, m2: Seq<Limb>, count: nat, cl: nat, ml: nat, cb: nat)
    requires
        forall|j: int| 0 <= j < count ==> #[trigger] slot_at(m1, j, cl as int) == slot_at(m2, j, cl as int),
    ensures
        coefficient_sum(m1, count, cl, ml, cb) == coefficient_sum(m2, count, cl, ml, cb),
    decreases count,
{
    if count > 0 {
        lemma_coefficient_sum_frame(m1, m2, (count - 1) as nat, cl, ml, cb);
        assert(slot_at(m1, count - 1, cl as int) == slot_at(m2, count - 1, cl as int));
    }
}

/// A signed sum of magnitude below `2^n`, biased by `2^n + 1`, fits any
/// accumulator of at least `n / 64 + 1` limbs, and the fold leaves its
/// residue.
proof fn lemma_biased_fold(a: nat, sum: int, len: nat, no: nat)
    requires
        no >= 1,
        len >= no + 1,
        -pow_b(no) < sum < pow_b(no),
        a == (fermat_modulus(no) + sum) % (pow_b(len) as int),
    ensures
        folded_value(a, len, no) % (fermat_modulus(no) as int) == sum % (fermat_modulus(no) as int),
{
    let p = pow_b(no) as int;
    let f = fermat_modulus(no) as int;
    lemma_pow_b_pos(no);
    lemma_pow_b_add(no, 1);
    assert(pow_b(1) == radix() * pow_b(0));
    crate::limbs::lemma_pow_b_monotone(no + 1, len);
    crate::limbs::lemma_pow_b_monotone(1, no);
    assert(f + sum < pow_b(no + 1)) by (nonlinear_arith)
        requires
            f == p + 1,
            sum < p,
            pow_b(no + 1) == p * radix(),
            p >= 1,
    ;
    lemma_small_mod((f + sum) as nat, pow_b(len));
    assert(a == f + sum);
    if len <= no + 1 {
        lemma_mod_add_multiples_vanish(sum, f);
    } else {
        let low = (a % pow_b(no)) as int;
        let q = a / pow_b(no);
        lemma_fundamental_div_mod(a as int, p);
        lemma_mod_bound(a as int, p);
        assert(q <= 2) by (nonlinear_arith)
            requires
                a == p * q + low,
                0 <= low < p,
                a < 2 * p + 1,
                p >= 2,
                q >= 0,
        ;
        let count = if len - no < no {
            (len - no) as nat
        } else {
            no
        };
        crate::limbs::lemma_pow_b_monotone(1, count);
        lemma_small_mod(q, pow_b(count));
        lemma_mul_is_commutative(p, q as int);
        lemma_fold_high(a as int, low, q as int, p);
        let folded = folded_value(a, len, no);
        if folded != low - q {
            lemma_mod_add_multiples_vanish(low - q, f);
        }
        lemma_mod_add_multiples_vanish(sum, f);
    }
}

/// The chunks below `count`, chunk `i` weighted by `2^(i * chunk_bits)`.
pub open spec fn chunk_sum(src: Seq<Limb>, count: nat, chunk_bits: nat) -> nat
    decreases count,
{
    if count == 0 {
        0
    } else {
        chunk_sum(src, (count - 1) as nat, chunk_bits) + chunk_value(src, (count - 1) as nat, chunk_bits)
            * two_pow(((count - 1) * chunk_bits) as nat)
    }
}

/// The chunks of an operand recompose it: the first `count` chunks, each
/// weighted by `2^(i * chunk_bits)`, sum to the operand modulo
/// `2^(count * chunk_bits)`.
pub proof fn lemma_chunks_recompose(src: Seq<Limb>, count: nat, chunk_bits: nat)
    ensures
        chunk_sum(src, count, chunk_bits) == val(src) % two_pow(count * chunk_bits),
    decreases count,
{
    let v = val(src) as int;
    if count == 0 {
        lemma_mul_basics(chunk_bits as int);
        assert(count * chunk_bits == 0);
        assert(two_pow(0) == 1);
        lemma_fundamental_div_mod_converse(v, 1, v, 0);
    } else {
        let c = (count - 1) as nat;
        lemma_chunks_recompose(src, c, chunk_bits);
        let y = two_pow(c * chunk_bits) as int;
        let z = two_pow(chunk_bits) as int;
        lemma_two_pow_pos(c * chunk_bits);
        lemma_two_pow_pos(chunk_bits);
        assert(count * chunk_bits == c * chunk_bits + chunk_bits) by (nonlinear_arith)
            requires
                c == count - 1,
        ;
        lemma_two_pow_add(c * chunk_bits, chunk_bits);
        lemma_mod_breakdown(v, y, z);
        assert(((count - 1) * chunk_bits) as nat == c * chunk_bits);
        lemma_mul_is_commutative(y, (v / y) % z);
    }
}

/// A slot below `2^(64 ml - 1)` reads as nonnegative.
proof fn lemma_reads_nonnegative(c: Seq<Limb>, ml: nat)
    requires
        ml >= 1,
        c.len() >= ml + 1,
        slot_value(c, ml) < two_pow((64 * ml - 1) as nat),
    ensures
        !reads_negative(c, ml),
{
    let t = c.subrange(0, ml + 1int);
    lemma_val_around(t, ml - 1);
    let above = t.subrange(ml as int, t.len() as int);
    lemma_val_around(above, 0);
    assert(above.subrange(0, 0).len() == 0);
    lemma_val_zero(above.subrange(0, 0));
    assert(above.subrange(1, above.len() as int).len() == 0);
    lemma_val_zero(above.subrange(1, above.len() as int));
    assert(pow_b(0) == 1);
    assert(val(above) == c[ml as int]) by {
        lemma_mul_basics(c[ml as int] as int);
    }
    let p = pow_b((ml - 1) as nat) as int;
    lemma_pow_b_pos((ml - 1) as nat);
    lemma_val_bound(t.subrange(0, ml - 1));
    lemma_two_pow_limbs((ml - 1) as nat);
    lemma_two_pow_add((64 * (ml - 1)) as nat, 63);
    lemma_two_pow_64();
    assert(64 * (ml - 1) + 63 == 64 * ml - 1);
    let top = c[ml - 1] as int;
    let g = c[ml as int] as int;
    assert(slot_value(c, ml) >= p * (top + radix() * g)) by {
        assert(t.subrange(0, ml - 1) =~= t.subrange(0, ml - 1));
    }
    if g >= 1 {
        assert(p * (top + radix() * g) >= p * 0x8000_0000_0000_0000) by (nonlinear_arith)
            requires
                g >= 1,
                top >= 0,
                p >= 1,
        ;
    }
    if top >= 0x8000_0000_0000_0000 {
        assert(p * (top + radix() * g) >= p * 0x8000_0000_0000_0000) by (nonlinear_arith)
            requires
                top >= 0x8000_0000_0000_0000,
                g >= 0,
                p >= 1,
        ;
    }
}

/// A slot that does not read negative is below `2^(64 ml - 1)`.
proof fn lemma_reads_nonnegative_bound(c: Seq<Limb>, ml: nat)
    requires
        ml >= 1,
        c.len() >= ml + 1,
        !reads_negative(c, ml),
    ensures
        slot_value(c, ml) < two_pow((64 * ml - 1) as nat),
{
    let t = c.subrange(0, ml + 1int);
    lemma_val_around(t, ml - 1);
    let above = t.subrange(ml as int, t.len() as int);
    lemma_val_around(above, 0);
    lemma_val_zero(above.subrange(0, 0));
    lemma_val_zero(above.subrange(1, above.len() as int));
    assert(pow_b(0) == 1);
    assert(val(above) == 0) by {
        lemma_mul_basics(c[ml as int] as int);
        lemma_mul_basics(radix() as int);
    }
    let p = pow_b((ml - 1) as nat) as int;
    lemma_pow_b_pos((ml - 1) as nat);
    lemma_val_bound(t.subrange(0, ml - 1));
    lemma_two_pow_limbs((ml - 1) as nat);
    lemma_two_pow_add((64 * (ml - 1)) as nat, 63);
    lemma_two_pow_64();
    assert(64 * (ml - 1) + 63 == 64 * ml - 1);
    let top = c[ml - 1] as int;
    let low = val(t.subrange(0, ml - 1)) as int;
    assert(t.subrange(0, ml - 1).len() == ml - 1);
    assert(slot_value(c, ml) == low + p * (top + radix() * 0));
    lemma_mul_inequality(top, 0x7FFF_FFFF_FFFF_FFFF, p);
    lemma_mul_is_commutative(top, p);
    lemma_mul_is_distributive_add(p, 0x7FFF_FFFF_FFFF_FFFF, 1);
    assert(low + p * top < p * 0x8000_0000_0000_0000);
}

/// A canonical slot congruent to a value of magnitude below `2^(64 ml - 1)`
/// reads as exactly that value.
pub proof fn lemma_signed_reading(c: Seq<Limb>, ml: nat, v: int)
    requires
        ml >= 1,
        c.len() >= ml + 1,
        canonical(c, ml),
        residue(c, ml) == v % (fermat_modulus(ml) as int),
        -(two_pow((64 * ml - 1) as nat) as int) < v < two_pow((64 * ml - 1) as nat),
    ensures
        signed_coefficient(c, ml) == v,
{
    let f = fermat_modulus(ml) as int;
    let h = two_pow((64 * ml - 1) as nat) as int;
    lemma_pow_b_pos(ml);
    lemma_two_pow_limbs(ml);
    lemma_two_pow_add((64 * ml - 1) as nat, 1);
    assert(two_pow(1) == 2) by {
        assert(two_pow(0) == 1);
    }
    assert(pow_b(ml) == 2 * h);
    let x = slot_value(c, ml) as int;
    lemma_small_mod(x as nat, f as nat);
    if v >= 0 {
        lemma_small_mod(v as nat, f as nat);
        lemma_reads_nonnegative(c, ml);
    } else {
        lemma_fundamental_div_mod_converse(v, f, -1, v + f);
        if !reads_negative(c, ml) {
            lemma_reads_nonnegative_bound(c, ml);
        }
    }
}

/// Splitting and reconstructing are inverse: slots holding the chunks of an
/// operand, each narrower than the ring's sign bit, sum back to the operand
/// modulo `2^(count * chunk_bits)`.
pub proof fn lemma_split_reconstruct_inverse(src: Seq<Limb>, m: Seq<Limb>, count: nat, ml: nat, chunk_bits: nat)
    requires
        ml >= 1,
        0 < chunk_bits < 64 * ml,
        forall|i: int|
            0 <= i < count ==> #[trigger] slot_at(m, i, ml + 1int).len() >= ml + 1 && slot_value(
                slot_at(m, i, ml + 1int),
                ml,
            ) == chunk_value(src, i as nat, chunk_bits),
    ensures
        coefficient_sum(m, count, ml + 1, ml, chunk_bits) == val(src) % two_pow(count * chunk_bits),
    decreases count,
{
    if count == 0 {
        lemma_chunks_recompose(src, 0, chunk_bits);
    } else {
        let c = (count - 1) as nat;
        lemma_split_reconstruct_inverse(src, m, c, ml, chunk_bits);
        lemma_chunks_recompose(src, count, chunk_bits);
        lemma_chunks_recompose(src, c, chunk_bits);
        let slot = slot_at(m, c as int, ml + 1int);
        assert(slot_value(slot, ml) == chunk_value(src, c, chunk_bits));
        lemma_two_pow_pos(chunk_bits);
        lemma_two_pow_monotone(chunk_bits, (64 * ml - 1) as nat);
        lemma_reads_nonnegative(slot, ml);
    }
}

impl SsaCoefficients {
    /// Accumulates the inverse-transformed coefficients of `matrix` into the
    /// product modulo `2^mod_bits + 1` in `dst`.
    ///
    /// With a twist, each coefficient first gets its inverse twiddle and
    /// `1 / transform_len` scaling and is made canonical; without one, the
    /// coefficients must already be canonical. Each is read as a signed
    /// value, weighted by `2^(i * chunk_bits)` and added into an accumulator
    /// that starts at one outer modulus; the closing fold by `2^mod_bits = -1`
    /// leaves the result, of which the first `mod_bits / 64 + 1` limbs (or
    /// all of a shorter `dst`) are written.
    #[verifier::rlimit(100)]
    #[verifier::spinoff_prover]
    pub fn reconstruct(
        matrix: &mut [Limb],
        transform_len: usize,
        chunk_bits: usize,
        inner_bits: usize,
        mod_bits: usize,
        dst: &mut [Limb],
        scratch: &mut [Limb],
        twist: Option<InverseTwist>,
        twist_scratch: &mut [Limb],
    )
        requires
            valid_mod_bits(inner_bits),
            inner_bits <= usize::MAX / 4,
            valid_mod_bits(mod_bits),
            transform_len >= 1,
            transform_len * (inner_bits / 64 + 1) <= old(matrix)@.len(),
            (transform_len - 1) * chunk_bits <= usize::MAX,
            spec_reconstruct_scratch_len(
                transform_len as nat,
                chunk_bits as nat,
                inner_bits as nat,
                mod_bits as nat,
            ) <= old(scratch)@.len(),
            twist is None ==> forall|i: int|
                0 <= i < transform_len ==> canonical(
                    #[trigger] slot_at(old(matrix)@, i, inner_bits / 64 + 1),
                    (inner_bits / 64) as nat,
                ),
            twist matches Some(t) ==> t.inner_bits == inner_bits && old(twist_scratch)@.len() >= 2 * (
            inner_bits / 64 + 1) && forall|i: int|
                0 <= i < transform_len ==> semi_normalized(
                    #[trigger] slot_at(old(matrix)@, i, inner_bits / 64 + 1),
                    (inner_bits / 64) as nat,
                ),
        ensures
            final(matrix)@.len() == old(matrix)@.len(),
            final(dst)@.len() == old(dst)@.len(),
            final(scratch)@.len() == old(scratch)@.len(),
            final(twist_scratch)@.len() == old(twist_scratch)@.len(),
            forall|i: int|
                #![trigger slot_at(final(matrix)@, i, inner_bits / 64 + 1)]
                0 <= i < transform_len ==> {
                    &&& canonical(slot_at(final(matrix)@, i, inner_bits / 64 + 1), (inner_bits / 64) as nat)
                    &&& residue(slot_at(final(matrix)@, i, inner_bits / 64 + 1), (inner_bits / 64) as nat)
                        == match twist {
                        Some(t) => half_bit_residue(
                            slot_value(slot_at(old(matrix)@, i, inner_bits / 64 + 1), (inner_bits / 64) as nat),
                            spec_shift_for(t, i as usize) as nat,
                            (inner_bits / 64) as nat,
                        ),
                        None => residue(slot_at(old(matrix)@, i, inner_bits / 64 + 1), (inner_bits / 64) as nat),
                    }
                },
            twist is None ==> final(matrix)@ == old(matrix)@,
            ({
                let ml = (mod_bits / 64) as nat;
                let sum = coefficient_sum(
                    final(matrix)@,
                    transform_len as nat,
                    (inner_bits / 64 + 1) as nat,
                    (inner_bits / 64) as nat,
                    chunk_bits as nat,
                );
                let len = accumulator_limbs(
                    transform_len as nat,
                    chunk_bits as nat,
                    inner_bits as nat,
                    mod_bits as nat,
                );
                let a = ((fermat_modulus(ml) + sum) % (pow_b(len) as int)) as nat;
                &&& old(dst)@.len() >= ml + 1 ==> slot_value(final(dst)@, ml) == folded_value(a, len, ml)
                &&& old(dst)@.len() >= ml + 1 ==> final(dst)@.subrange(ml + 1int, final(dst)@.len() as int)
                    == old(dst)@.subrange(ml + 1int, old(dst)@.len() as int)
                &&& old(dst)@.len() < ml + 1 ==> val(final(dst)@) as int == folded_value(a, len, ml) % (pow_b(
                    old(dst)@.len(),
                ) as int)
                &&& old(dst)@.len() >= ml + 1 && -pow_b(ml) < sum < pow_b(ml) ==> residue(final(dst)@, ml)
                    == sum % (fermat_modulus(ml) as int)
            }),
    {
        let ml = SsaRing::mod_limbs(inner_bits);
        let cl = ml + 1;
        let ml_outer = SsaRing::mod_limbs(mod_bits);
        let outer_cl = ml_outer + 1;
        let ghost nl = ml as nat;
        let ghost no = ml_outer as nat;
        let ghost m0 = matrix@;
        let ghost cb = chunk_bits as nat;
        let contributions = cl + ((transform_len - 1) * chunk_bits) / 64 + 1;
        let acc_limbs = if contributions >= outer_cl {
            contributions
        } else {
            outer_cl
        };
        let ghost big_l = pow_b(acc_limbs as nat) as int;
        let ghost f_out = fermat_modulus(no) as int;
        proof {
            assert(acc_limbs == accumulator_limbs(
                transform_len as nat,
                chunk_bits as nat,
                inner_bits as nat,
                mod_bits as nat,
            ));
            lemma_pow_b_pos(acc_limbs as nat);
            lemma_pow_b_pos(no);
        }
        let (acc, work) = scratch.split_at_mut(acc_limbs);
        let ghost work_len = work@.len();
        let ghost twist_len = twist_scratch@.len();
        proof {
            assert(work_len >= cl + 1);
            assert(work_len >= acc_limbs - ml_outer);
        }
        Addition::fill_zero(acc);
        acc[0] = 1;
        acc[ml_outer] = 1;
        proof {
            // The bias is one outer modulus.
            let a = acc@;
            lemma_val_split(a, ml_outer as int);
            let low = a.subrange(0, ml_outer as int);
            lemma_val_around(low, 0);
            assert(low.subrange(0, 0).len() == 0);
            lemma_val_zero(low.subrange(0, 0));
            assert(crate::limbs::all_zero(low.subrange(1, low.len() as int)));
            lemma_val_zero(low.subrange(1, low.len() as int));
            assert(pow_b(0) == 1);
            let high = a.subrange(ml_outer as int, a.len() as int);
            lemma_val_around(high, 0);
            assert(high.subrange(0, 0).len() == 0);
            lemma_val_zero(high.subrange(0, 0));
            assert(crate::limbs::all_zero(high.subrange(1, high.len() as int)));
            lemma_val_zero(high.subrange(1, high.len() as int));
            lemma_mul_basics(radix() as int);
            lemma_mul_basics(pow_b(no) as int);
            assert(val(a) as int == f_out);
            lemma_val_bound(a);
            lemma_small_mod(val(a), big_l as nat);
            assert(coefficient_sum(matrix@, 0, cl as nat, nl, cb) == 0);
        }
        let matrix_len = matrix.len();
        let mut idx: usize = 0;
        while idx < transform_len
            invariant
                valid_mod_bits(inner_bits),
                inner_bits <= usize::MAX / 4,
                valid_mod_bits(mod_bits),
                ml == inner_bits / 64,
                cl == ml + 1,
                nl == ml,
                ml_outer == mod_bits / 64,
                no == ml_outer,
                cb == chunk_bits,
                matrix_len == m0.len(),
                transform_len >= 1,
                transform_len * cl <= m0.len(),
                (transform_len - 1) * chunk_bits <= usize::MAX,
                acc_limbs >= cl + ((transform_len - 1) * chunk_bits) / 64 + 1,
                acc@.len() == acc_limbs,
                big_l == pow_b(acc_limbs as nat),
                big_l > 0,
                f_out == fermat_modulus(no),
                work@.len() == work_len,
                work_len >= cl + 1,
                work_len >= acc_limbs - ml_outer,
                twist_scratch@.len() == twist_len,
                matrix@.len() == m0.len(),
                twist is None ==> forall|i: int|
                    0 <= i < transform_len ==> canonical(#[trigger] slot_at(m0, i, cl as int), nl),
                twist matches Some(t) ==> t.inner_bits == inner_bits && twist_scratch@.len() >= 2 * cl
                    && forall|i: int| 0 <= i < transform_len ==> semi_normalized(#[trigger] slot_at(m0, i, cl as int), nl),
                0 <= idx <= transform_len,
                forall|j: int|
                    #![trigger slot_at(matrix@, j, cl as int)]
                    0 <= j < idx ==> {
                        &&& canonical(slot_at(matrix@, j, cl as int), nl)
                        &&& residue(slot_at(matrix@, j, cl as int), nl) == match twist {
                            Some(t) => half_bit_residue(
                                slot_value(slot_at(m0, j, cl as int), nl),
                                spec_shift_for(t, j as usize) as nat,
                                nl,
                            ),
                            None => residue(slot_at(m0, j, cl as int), nl),
                        }
                    },
                matrix@.subrange(idx * cl, matrix@.len() as int) == m0.subrange(idx * cl, m0.len() as int),
                twist is None ==> matrix@ == m0,
                val(acc@) as int == (f_out + coefficient_sum(matrix@, idx as nat, cl as nat, nl, cb)) % big_l,
            decreases transform_len - idx,
        {
            proof {
                lemma_slot_offsets(idx as int, transform_len as int, cl as int);
            }
            let offset = idx * cl;
            let ghost mb = matrix@;
            proof {
                assert(slot_at(mb, idx as int, cl as int) == slot_at(m0, idx as int, cl as int)) by {
                    assert(slot_at(mb, idx as int, cl as int) =~= mb.subrange(offset as int, mb.len() as int).subrange(0, cl as int));
                    assert(slot_at(m0, idx as int, cl as int) =~= m0.subrange(offset as int, m0.len() as int).subrange(0, cl as int));
                }
            }
            if let Some(t) = twist {
                untwist_coefficient(matrix, offset, idx, t, twist_scratch);
            }
            let ghost ma = matrix@;
            proof {
                if twist is None {
                    assert(ma == mb);
                }
                assert(agree_outside(ma, mb, offset as int, offset + cl));
                assert(slot_at(ma, idx as int, cl as int) =~= ma.subrange(offset as int, offset + cl));
                assert(slot_at(mb, idx as int, cl as int) =~= mb.subrange(offset as int, offset + cl));
                assert forall|j: int| 0 <= j < idx implies #[trigger] slot_at(ma, j, cl as int) == slot_at(
                    mb,
                    j,
                    cl as int,
                ) by {
                    lemma_slot_offsets(j, idx as int, cl as int);
                    crate::ssa::pointwise::lemma_slot_untouched(ma, mb, j, cl as int, offset as int, offset + cl);
                }
                lemma_coefficient_sum_frame(ma, mb, idx as nat, cl as nat, nl, cb);
            }
            proof {
                lemma_mul_inequality(idx as int, transform_len - 1, chunk_bits as int);
                lemma_div_is_ordered((idx * chunk_bits) as int, ((transform_len - 1) * chunk_bits) as int, 64);
            }
            let bit = idx * chunk_bits;
            let shift_limbs = bit / 64;
            let shift_bits = bit % 64;
            let ghost acc0 = acc@;
            {
                let (mag, _) = work.split_at_mut(cl);
                accumulate_coefficient(acc, &matrix[offset..offset + cl], ml, shift_limbs, shift_bits, mag);
            }
            proof {
                let x = signed_coefficient(slot_at(ma, idx as int, cl as int), nl);
                assert(matrix@.subrange(offset as int, offset + cl) =~= slot_at(ma, idx as int, cl as int));
                lemma_two_pow_add(64 * shift_limbs as nat, shift_bits as nat);
                lemma_two_pow_limbs(shift_limbs as nat);
                assert(64 * shift_limbs + shift_bits == idx * chunk_bits);
                let w = two_pow((idx * cb) as nat) as int;
                assert(x * two_pow(shift_bits as nat) * pow_b(shift_limbs as nat) == x * w) by (nonlinear_arith)
                    requires
                        w == pow_b(shift_limbs as nat) * two_pow(shift_bits as nat),
                ;
                let before = f_out + coefficient_sum(ma, idx as nat, cl as nat, nl, cb);
                assert(coefficient_sum(ma, (idx + 1) as nat, cl as nat, nl, cb) == coefficient_sum(
                    ma,
                    idx as nat,
                    cl as nat,
                    nl,
                    cb,
                ) + x * w);
                lemma_add_mod_noop(before, x * w, big_l);
                lemma_mod_mod(before, big_l, 1);
                lemma_small_mod(val(acc0), big_l as nat);
                lemma_add_mod_noop(val(acc0) as int, x * w, big_l);
                assert forall|j: int|
                    #![trigger slot_at(ma, j, cl as int)]
                    0 <= j < idx + 1 implies {
                    &&& canonical(slot_at(ma, j, cl as int), nl)
                    &&& residue(slot_at(ma, j, cl as int), nl) == match twist {
                        Some(t) => half_bit_residue(
                            slot_value(slot_at(m0, j, cl as int), nl),
                            spec_shift_for(t, j as usize) as nat,
                            nl,
                        ),
                        None => residue(slot_at(m0, j, cl as int), nl),
                    }
                } by {
                    if j < idx {
                        assert(slot_at(ma, j, cl as int) == slot_at(mb, j, cl as int));
                    }
                }
                let hi = offset + cl;
                assert(ma.subrange(hi, ma.len() as int) =~= m0.subrange(hi, m0.len() as int)) by {
                    assert(ma.subrange(hi, ma.len() as int) == mb.subrange(hi, mb.len() as int));
                    assert(mb.subrange(hi, mb.len() as int) =~= mb.subrange(offset as int, mb.len() as int).subrange(cl as int, mb.len() - offset));
                    assert(m0.subrange(hi, m0.len() as int) =~= m0.subrange(offset as int, m0.len() as int).subrange(cl as int, m0.len() - offset));
                }
                assert((idx + 1) * cl == hi);
            }
            idx = idx + 1;
        }
        let ghost a_final = val(acc@);
        let ghost acc_before_fold = acc@;
        SsaCoefficients::fold_high_into_low(acc, ml_outer, outer_cl, work);
        let dst_len = dst.len();
        let copy_count = if outer_cl < dst_len {
            outer_cl
        } else {
            dst_len
        };
        let ghost d0 = dst@;
        Addition::copy_prefix(dst, &acc[0..copy_count]);
        proof {
            let sum = coefficient_sum(matrix@, transform_len as nat, cl as nat, nl, cb);
            let a = ((f_out + sum) % big_l) as nat;
            assert(a_final == a);
            let len = acc_limbs as nat;
            // The accumulator after the fold holds the folded value in its
            // first outer coefficient.
            assert(slot_value(acc@, no) == folded_value(a, len, no)) by {
                if len <= no + 1 {
                    assert(acc@ == acc_before_fold);
                    assert(acc@.subrange(0, no + 1int) =~= acc@);
                } else {
                    let count = if len - no < no {
                        (len - no) as nat
                    } else {
                        no
                    };
                    lemma_val_window(acc_before_fold, no, count);
                }
            }
            assert(dst@.subrange(0, copy_count as int) =~= acc@.subrange(0, copy_count as int));
            if dst_len >= outer_cl {
                assert(dst@.subrange(0, no + 1int) =~= acc@.subrange(0, no + 1int));
                assert(dst@.subrange(no + 1int, dst@.len() as int) =~= d0.subrange(no + 1int, d0.len() as int));
                if -pow_b(no) < sum < pow_b(no) {
                    lemma_biased_fold(a, sum, len, no);
                }
            } else {
                lemma_val_split(acc@.subrange(0, no + 1int), dst_len as int);
                assert(acc@.subrange(0, no + 1int).subrange(0, dst_len as int) =~= dst@);
                lemma_val_window(acc@.subrange(0, no + 1int), dst_len as nat, 0);
            }
        }
    }
}

} // verus!
