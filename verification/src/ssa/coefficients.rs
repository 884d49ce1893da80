//! Cutting an operand into the transform's coefficient matrix.
//!
//! Chunk `i` of an operand is the run of `chunk_bits` bits starting at bit
//! `i * chunk_bits`. Each chunk lands in its own slot of the matrix, already
//! multiplied by its pre-twist: the half-bit exponent `h_i = i * step`
//! reduced modulo `4n`, which stands for `2^(h_i / 2)` and, when `h_i` is odd,
//! one more factor `sqrt(2)`.

use crate::eval::SharedEval;
use crate::kernels::Addition;
use crate::limbs::{
    Limb, all_zero, lemma_pow_b_monotone, lemma_pow_b_pos, lemma_val_bound, lemma_val_single, lemma_val_split,
    lemma_val_zero, pow_b, radix, val,
};
use crate::num::{lemma_two_pow_64, lemma_two_pow_monotone, lemma_two_pow_pos, two_pow};
use crate::ssa::entry::{lemma_two_pow_add, lemma_two_pow_limbs};
use crate::num::{ceil_div, div_ceil};
use crate::ssa::pointwise::{lemma_slot_offsets, lemma_slot_untouched, slot_at};
use crate::ssa::ring::{SsaRing, canonical, fermat_modulus, residue, semi_normalized, slot_value, valid_mod_bits};
use crate::ssa::carry::SsaCarry;
use crate::ssa::shift::{lemma_fold_high, limb_pow2, shifted_residue, sqrt2_factor};
use vstd::arithmetic::div_mod::*;
use vstd::arithmetic::mul::*;
use vstd::prelude::*;

verus! {

/// Bits `[index * chunk_bits, (index + 1) * chunk_bits)` of the operand, as a number.
pub open spec fn chunk_value(src: Seq<Limb>, index: nat, chunk_bits: nat) -> nat {
    (val(src) / two_pow(index * chunk_bits)) % two_pow(chunk_bits)
}

/// Reads a sequence around one limb: the limbs below `k`, limb `k`, and the rest.
proof fn lemma_val_at(s: Seq<Limb>, k: int)
    requires
        0 <= k < s.len(),
    ensures
        val(s) == val(s.subrange(0, k)) + pow_b(k as nat) * (s[k] + radix() * val(
            s.subrange(k + 1, s.len() as int),
        )),
{
    lemma_val_split(s, k);
    let hi = s.subrange(k, s.len() as int);
    lemma_val_split(hi, 1);
    assert(hi.subrange(0, 1) =~= seq![s[k]]);
    lemma_val_single(s[k]);
    assert(hi.subrange(1, hi.len() as int) =~= s.subrange(k + 1, s.len() as int));
    assert(pow_b(1) == radix() * pow_b(0));
}

/// The chunk starting at bit `64 * s + b` depends only on a window of the
/// limbs from `s` on: the whole remainder, or enough limbs to cover `b + cb` bits.
proof fn lemma_chunk_window(src: Seq<Limb>, s: nat, b: nat, cb: nat, w: nat)
    requires
        s + w <= src.len(),
        s + w == src.len() || 64 * w >= b + cb,
    ensures
        (val(src) / two_pow(64 * s + b)) % two_pow(cb) == (val(src.subrange(s as int, (s + w) as int))
            / two_pow(b)) % two_pow(cb),
{
    let n = src.len() as int;
    let low = src.subrange(0, s as int);
    let rest = src.subrange(s as int, n);
    let win = src.subrange(s as int, (s + w) as int);
    let x = val(rest);
    let pb = two_pow(b) as int;
    lemma_val_split(src, s as int);
    lemma_val_bound(low);
    lemma_pow_b_pos(s);
    lemma_two_pow_pos(b);
    lemma_two_pow_pos(cb);
    lemma_div_multiples_vanish_fancy(x as int, val(low) as int, pow_b(s) as int);
    assert(pow_b(s) * x + val(low) == val(src));
    lemma_two_pow_add(64 * s, b);
    lemma_two_pow_limbs(s);
    lemma_div_denominator(val(src) as int, pow_b(s) as int, pb);
    assert(val(src) / two_pow(64 * s + b) == x / two_pow(b));
    lemma_val_split(rest, w as int);
    assert(rest.subrange(0, w as int) =~= win);
    let top = rest.subrange(w as int, rest.len() as int);
    if s + w == src.len() {
        assert(top.len() == 0);
        lemma_val_zero(top);
        assert(x == val(win));
    } else {
        let y = val(top);
        let e = (64 * w - b - cb) as nat;
        let up = two_pow((64 * w - b) as nat) as int;
        lemma_two_pow_limbs(w);
        lemma_two_pow_add(b, (64 * w - b) as nat);
        lemma_two_pow_add(cb, e);
        lemma_two_pow_pos(e);
        assert(b + (64 * w - b) == 64 * w);
        assert(cb + e == 64 * w - b);
        assert(x == val(win) + (y * up) * pb) by (nonlinear_arith)
            requires
                x == val(win) + pow_b(w) * y,
                pow_b(w) == pb * up,
        ;
        lemma_hoist_over_denominator(val(win) as int, y * up, two_pow(b));
        let q = y * (two_pow(e) as int);
        assert(y * up == two_pow(cb) * q) by (nonlinear_arith)
            requires
                up == two_pow(cb) * two_pow(e),
                q == y * two_pow(e),
        ;
        lemma_mod_multiples_vanish(q, val(win) as int / pb, two_pow(cb) as int);
    }
}

/// Zeroing limb `r` and keeping the low `cb - 64 * (r - 1)` bits of limb
/// `r - 1` reduces a value whose limbs above `r` are zero modulo `2^cb`.
proof fn lemma_chunk_truncate(st: Seq<Limb>, f: Seq<Limb>, r: nat, cb: nat)
    requires
        r >= 1,
        st.len() == f.len(),
        st.len() >= r + 1,
        64 * (r - 1) < cb <= 64 * r,
        all_zero(st.subrange(r + 1int, st.len() as int)),
        f.subrange(0, r - 1) == st.subrange(0, r - 1),
        f[r - 1] as nat == (st[r - 1] as nat) % two_pow((cb - 64 * (r - 1)) as nat),
        all_zero(f.subrange(r as int, f.len() as int)),
    ensures
        val(f) == val(st) % two_pow(cb),
{
    let k = (r - 1) as int;
    let rb = (cb - 64 * (r - 1)) as nat;
    let p = pow_b(k as nat) as int;
    let q = two_pow(rb) as int;
    let t = st[k] as int;
    let lo = val(st.subrange(0, k)) as int;
    lemma_pow_b_pos(k as nat);
    lemma_two_pow_pos(rb);
    lemma_two_pow_add(64 * (r - 1) as nat, rb);
    lemma_two_pow_limbs((r - 1) as nat);
    assert(64 * (r - 1) + rb == cb);
    assert(two_pow(cb) == p * q);
    // The source: lo + p * (t + B * u), with u the single limb above.
    lemma_val_at(st, k);
    let above = st.subrange(k + 1, st.len() as int);
    lemma_val_at(above, 0);
    assert(above.subrange(1, above.len() as int) =~= st.subrange(r + 1int, st.len() as int));
    lemma_val_zero(above.subrange(1, above.len() as int));
    lemma_val_zero(above.subrange(0, 0));
    let u = above[0] as int;
    assert(val(above) == u) by {
        assert(pow_b(0) == 1);
        assert(val(above.subrange(1, above.len() as int)) == 0);
        assert(val(above.subrange(0, 0)) == 0);
        assert(radix() * 0 == 0);
        assert(val(above) == 0 + 1 * (u + radix() * 0));
        assert(1 * (u + radix() * 0) == u) by (nonlinear_arith);
    }
    // The result: lo + p * (t % q).
    lemma_val_at(f, k);
    let fabove = f.subrange(k + 1, f.len() as int);
    assert(fabove =~= f.subrange(r as int, f.len() as int));
    lemma_val_zero(fabove);
    assert(val(f) == lo + p * (t % q)) by {
        assert(val(f.subrange(0, k)) == lo);
        assert(f[k] as int == t % q);
    }
    // Reduce the source modulo p * q.
    let v = val(st) as int;
    lemma_val_bound(st.subrange(0, k));
    assert(v == p * (t + radix() * u) + lo);
    lemma_div_multiples_vanish_fancy(t + radix() * u, lo, p);
    lemma_mul_is_commutative(p, t + radix() * u);
    lemma_fundamental_div_mod_converse(v, p, t + radix() * u, lo);
    lemma_mod_breakdown(v, p, q);
    // B is a multiple of q, so the limb above drops out modulo q.
    lemma_two_pow_add(rb, (64 - rb) as nat);
    lemma_two_pow_64();
    assert(rb + (64 - rb) == 64);
    let c = two_pow((64 - rb) as nat) as int;
    assert(radix() * u == q * (c * u)) by (nonlinear_arith)
        requires
            radix() == q * c,
    ;
    lemma_mod_multiples_vanish(c * u, t, q);
}

/// Namespace for the transform's coefficient matrix: cutting an operand into it.
pub struct SsaCoefficients;

/// Writes chunk `index` of `src` into `stage`, a complete coefficient of
/// `ml` data limbs, without relying on what `stage` held before.
#[verifier::rlimit(60)]
#[verifier::spinoff_prover]
fn extract_chunk(src: &[Limb], stage: &mut [Limb], index: usize, chunk_bits: usize, ml: usize)
    requires
        old(stage)@.len() == ml + 1,
        0 < chunk_bits <= 64 * ml,
        index * chunk_bits <= usize::MAX,
    ensures
        final(stage)@.len() == ml + 1,
        val(final(stage)@) == chunk_value(src@, index as nat, chunk_bits as nat),
        final(stage)@[ml as int] == 0,
{
    let cl = stage.len();
    Addition::fill_zero(stage);
    let bit_start = index * chunk_bits;
    let start_limb = bit_start / 64;
    let start_bit = bit_start % 64;
    let rem = chunk_bits % 64;
    let result_limbs = if rem == 0 {
        chunk_bits / 64
    } else {
        chunk_bits / 64 + 1
    };
    proof {
        assert(bit_start == 64 * start_limb + start_bit);
        assert(1 <= result_limbs <= ml);
        assert(64 * (result_limbs - 1) < chunk_bits <= 64 * result_limbs);
        lemma_two_pow_pos(chunk_bits as nat);
    }
    if start_limb >= src.len() {
        proof {
            let x = val(src@);
            lemma_val_bound(src@);
            lemma_pow_b_monotone(src@.len(), start_limb as nat);
            lemma_two_pow_limbs(start_limb as nat);
            lemma_two_pow_monotone(64 * start_limb as nat, bit_start as nat);
            lemma_fundamental_div_mod_converse(x as int, two_pow(bit_start as nat) as int, 0, x as int);
            lemma_val_zero(stage@);
            assert(0nat % two_pow(chunk_bits as nat) == 0);
        }
        return;
    }
    let src_len = src.len();
    let available = src_len - start_limb;
    let window = if available <= result_limbs {
        available
    } else {
        result_limbs + 1
    };
    let ghost win = src@.subrange(start_limb as int, (start_limb + window) as int);
    let mut k: usize = 0;
    while k < window
        invariant
            stage@.len() == cl,
            cl == ml + 1,
            window <= result_limbs + 1 <= cl,
            start_limb + window <= src@.len(),
            win == src@.subrange(start_limb as int, (start_limb + window) as int),
            0 <= k <= window,
            src_len == src@.len(),
            forall|j: int| 0 <= j < k ==> stage@[j] == win[j],
            forall|j: int| k <= j < cl ==> stage@[j] == 0,
        decreases window - k,
    {
        stage[k] = src[start_limb + k];
        k = k + 1;
    }
    proof {
        assert(stage@.subrange(0, window as int) =~= win);
        lemma_val_split(stage@, window as int);
        assert(all_zero(stage@.subrange(window as int, cl as int)));
        lemma_val_zero(stage@.subrange(window as int, cl as int));
        assert(val(stage@) == val(win));
        lemma_two_pow_pos(start_bit as nat);
    }
    if start_bit != 0 {
        let pw = limb_pow2(start_bit);
        let ghost before = stage@;
        let ghost head_f: Seq<Limb>;
        let ghost tail_f: Seq<Limb>;
        {
            let (head, tail) = stage.split_at_mut(window);
            proof {
                assert(head@ =~= win);
            }
            SharedEval::div_word_in_place(head, pw);
            proof {
                head_f = head@;
                tail_f = tail@;
            }
        }
        proof {
            assert(stage@ =~= head_f + tail_f);
            assert(tail_f =~= before.subrange(window as int, cl as int));
            lemma_val_split(stage@, window as int);
            assert(stage@.subrange(0, window as int) =~= head_f);
            assert(stage@.subrange(window as int, cl as int) =~= tail_f);
            lemma_val_zero(tail_f);
            let r = val(win) - val(head_f) * pw;
            lemma_fundamental_div_mod_converse(val(win) as int, pw as int, val(head_f) as int, r);
            assert(val(stage@) == val(win) / two_pow(start_bit as nat));
        }
    } else {
        proof {
            assert(two_pow(0) == 1);
            assert(val(win) / 1 == val(win));
        }
    }
    let ghost st = stage@;
    proof {
        assert forall|j: int| window <= j < cl implies st[j] == 0 by {}
        assert(all_zero(st.subrange(result_limbs + 1, cl as int)));
    }
    if result_limbs < window {
        stage[result_limbs] = 0;
    }
    if rem != 0 {
        let top = stage[result_limbs - 1];
        let low_bits = limb_pow2(rem);
        proof {
            lemma_two_pow_pos(rem as nat);
        }
        stage[result_limbs - 1] = top % low_bits;
    }
    proof {
        lemma_chunk_window(src@, start_limb as nat, start_bit as nat, chunk_bits as nat, window as nat);
        assert(64 * start_limb + start_bit == index * chunk_bits);
        let f = stage@;
        let rb = (chunk_bits - 64 * (result_limbs - 1)) as nat;
        assert(f.subrange(0, result_limbs - 1) =~= st.subrange(0, result_limbs - 1));
        if rem == 0 {
            assert(rb == 64);
            lemma_two_pow_64();
            lemma_small_mod(st[result_limbs - 1] as nat, two_pow(64));
        } else {
            assert(rb == rem);
        }
        assert(all_zero(f.subrange(result_limbs as int, cl as int)));
        lemma_chunk_truncate(st, f, result_limbs as nat, chunk_bits as nat);
    }
}

/// The pre-twist's half-bit exponent for chunk `index`: `index * step`
/// reduced modulo `4n`, the order of `sqrt(2)`.
pub open spec fn twist_half_exponent(index: nat, step: nat, ml: nat) -> nat {
    (index * step) % (256 * ml)
}

/// The residue of `s * 2^(h / 2)`, times one more `sqrt(2)` when `h` is odd.
pub open spec fn half_bit_residue(s: nat, h: nat, ml: nat) -> int {
    let f: int = if h % 2 == 1 {
        sqrt2_factor(ml)
    } else {
        1
    };
    (((s * two_pow(h / 2)) as int) * f) % (fermat_modulus(ml) as int)
}

/// The chunks a split writes: those that start inside the operand, at most
/// one per transform slot.
pub open spec fn active_chunks(src_len: nat, chunk_bits: nat, transform_len: nat) -> nat {
    if chunk_bits == 0 {
        0
    } else if ceil_div(64 * src_len, chunk_bits) < transform_len {
        ceil_div(64 * src_len, chunk_bits)
    } else {
        transform_len
    }
}

/// `a` and `b` have one length and agree outside `[lo, hi)`.
pub open spec fn agree_outside(a: Seq<Limb>, b: Seq<Limb>, lo: int, hi: int) -> bool {
    &&& a.len() == b.len()
    &&& a.subrange(0, lo) == b.subrange(0, lo)
    &&& a.subrange(hi, a.len() as int) == b.subrange(hi, b.len() as int)
}

/// Writes `stage * 2^shift` into the slot at `offset` of `matrix`.
pub(crate) fn shift_into_slot(matrix: &mut [Limb], offset: usize, stage: &[Limb], shift: usize, mod_bits: usize)
    requires
        valid_mod_bits(mod_bits),
        mod_bits <= usize::MAX / 2,
        stage@.len() >= mod_bits / 64 + 1,
        semi_normalized(stage@, (mod_bits / 64) as nat),
        offset + mod_bits / 64 + 1 <= old(matrix)@.len(),
    ensures
        agree_outside(final(matrix)@, old(matrix)@, offset as int, offset + mod_bits / 64 + 1),
        semi_normalized(
            final(matrix)@.subrange(offset as int, offset + mod_bits / 64 + 1),
            (mod_bits / 64) as nat,
        ),
        residue(final(matrix)@.subrange(offset as int, offset + mod_bits / 64 + 1), (mod_bits / 64) as nat)
            == shifted_residue(slot_value(stage@, (mod_bits / 64) as nat), shift as nat, (mod_bits / 64) as nat),
{
    let ml = SsaRing::mod_limbs(mod_bits);
    let cl = ml + 1;
    let ghost m0 = matrix@;
    let ghost pre: Seq<Limb>;
    let ghost slot_f: Seq<Limb>;
    let ghost post: Seq<Limb>;
    {
        let (before, rest) = matrix.split_at_mut(offset);
        let (slot, after) = rest.split_at_mut(cl);
        SsaRing::shift_from(slot, stage, shift, mod_bits);
        proof {
            pre = before@;
            slot_f = slot@;
            post = after@;
        }
    }
    proof {
        assert(matrix@ =~= pre + slot_f + post);
        assert(matrix@.subrange(0, offset as int) =~= pre);
        assert(pre =~= m0.subrange(0, offset as int));
        assert(matrix@.subrange(offset + cl, matrix@.len() as int) =~= post);
        assert(post =~= m0.subrange(offset + cl, m0.len() as int));
        assert(matrix@.subrange(offset as int, offset + cl) =~= slot_f);
        assert(slot_f.subrange(0, ml + 1int) =~= slot_f);
    }
}

/// Multiplies the slot at `offset` of `matrix` by `sqrt(2)` in place.
fn sqrt2_slot(matrix: &mut [Limb], offset: usize, mod_bits: usize, scratch: &mut [Limb])
    requires
        valid_mod_bits(mod_bits),
        mod_bits <= usize::MAX / 2,
        offset + mod_bits / 64 + 1 <= old(matrix)@.len(),
        old(scratch)@.len() >= 2 * (mod_bits / 64 + 1),
        semi_normalized(
            old(matrix)@.subrange(offset as int, offset + mod_bits / 64 + 1),
            (mod_bits / 64) as nat,
        ),
    ensures
        agree_outside(final(matrix)@, old(matrix)@, offset as int, offset + mod_bits / 64 + 1),
        final(scratch)@.len() == old(scratch)@.len(),
        semi_normalized(
            final(matrix)@.subrange(offset as int, offset + mod_bits / 64 + 1),
            (mod_bits / 64) as nat,
        ),
        residue(final(matrix)@.subrange(offset as int, offset + mod_bits / 64 + 1), (mod_bits / 64) as nat)
            == (slot_value(old(matrix)@.subrange(offset as int, offset + mod_bits / 64 + 1), (mod_bits / 64) as nat)
            * sqrt2_factor((mod_bits / 64) as nat)) % (fermat_modulus((mod_bits / 64) as nat) as int),
{
    let ml = SsaRing::mod_limbs(mod_bits);
    let cl = ml + 1;
    let ghost m0 = matrix@;
    let ghost pre: Seq<Limb>;
    let ghost slot_f: Seq<Limb>;
    let ghost post: Seq<Limb>;
    {
        let (before, rest) = matrix.split_at_mut(offset);
        let (slot, after) = rest.split_at_mut(cl);
        proof {
            assert(slot@ =~= m0.subrange(offset as int, offset + cl));
        }
        SsaRing::mul_sqrt2(slot, mod_bits, scratch);
        proof {
            pre = before@;
            slot_f = slot@;
            post = after@;
        }
    }
    proof {
        assert(matrix@ =~= pre + slot_f + post);
        assert(matrix@.subrange(0, offset as int) =~= pre);
        assert(pre =~= m0.subrange(0, offset as int));
        assert(matrix@.subrange(offset + cl, matrix@.len() as int) =~= post);
        assert(post =~= m0.subrange(offset + cl, m0.len() as int));
        assert(matrix@.subrange(offset as int, offset + cl) =~= slot_f);
    }
}

/// A slot congruent to `s * 2^(h / 2)` and then multiplied by `sqrt(2)`
/// holds the half-bit residue of an odd exponent `h`.
pub(crate) proof fn lemma_sqrt2_step(shifted: nat, s: nat, h: nat, ml: nat)
    requires
        h % 2 == 1,
        (shifted as int) % (fermat_modulus(ml) as int) == shifted_residue(s, h / 2, ml),
    ensures
        ((shifted as int) * sqrt2_factor(ml)) % (fermat_modulus(ml) as int) == half_bit_residue(s, h, ml),
{
    let m = fermat_modulus(ml) as int;
    lemma_pow_b_pos(ml);
    lemma_mul_mod_noop_left(shifted as int, sqrt2_factor(ml), m);
    lemma_mul_mod_noop_left((s * two_pow(h / 2)) as int, sqrt2_factor(ml), m);
}

/// An even exponent needs no `sqrt(2)`.
pub(crate) proof fn lemma_even_step(s: nat, h: nat, ml: nat)
    requires
        h % 2 == 0,
    ensures
        shifted_residue(s, h / 2, ml) == half_bit_residue(s, h, ml),
{
    lemma_mul_basics((s * two_pow(h / 2)) as int);
}

/// Writes `scratch[..cl] * 2^(h / 2)`, times `sqrt(2)` for odd `h`, into the
/// slot at `offset`; the staged coefficient in `scratch` is consumed.
fn twist_into_slot(matrix: &mut [Limb], offset: usize, scratch: &mut [Limb], h: usize, mod_bits: usize)
    requires
        valid_mod_bits(mod_bits),
        mod_bits <= usize::MAX / 2,
        offset + mod_bits / 64 + 1 <= old(matrix)@.len(),
        old(scratch)@.len() >= 2 * (mod_bits / 64 + 1),
        semi_normalized(old(scratch)@, (mod_bits / 64) as nat),
    ensures
        agree_outside(final(matrix)@, old(matrix)@, offset as int, offset + mod_bits / 64 + 1),
        final(scratch)@.len() == old(scratch)@.len(),
        semi_normalized(
            final(matrix)@.subrange(offset as int, offset + mod_bits / 64 + 1),
            (mod_bits / 64) as nat,
        ),
        residue(final(matrix)@.subrange(offset as int, offset + mod_bits / 64 + 1), (mod_bits / 64) as nat)
            == half_bit_residue(slot_value(old(scratch)@, (mod_bits / 64) as nat), h as nat, (mod_bits / 64) as nat),
{
    let ghost m0 = matrix@;
    let ghost nl = (mod_bits / 64) as nat;
    let ghost sv = slot_value(scratch@, nl);
    shift_into_slot(matrix, offset, scratch, h / 2, mod_bits);
    if h % 2 == 1 {
        let ghost m1 = matrix@;
        sqrt2_slot(matrix, offset, mod_bits, scratch);
        proof {
            let cl = mod_bits / 64 + 1;
            let slot1 = m1.subrange(offset as int, offset + cl);
            lemma_sqrt2_step(slot_value(slot1, nl), sv, h as nat, nl);
            assert(matrix@.subrange(0, offset as int) =~= m0.subrange(0, offset as int));
            assert(matrix@.subrange(offset + cl, matrix@.len() as int) =~= m0.subrange(offset + cl, m0.len() as int));
        }
    } else {
        proof {
            lemma_even_step(sv, h as nat, nl);
        }
    }
}

/// Advances a half-bit exponent by `step`, both below `period`, modulo `period`.
fn advance_exponent(h: usize, step: usize, period: usize) -> (r: usize)
    requires
        h < period,
        step < period,
    ensures
        r == (h + step) % (period as int),
{
    if h >= period - step {
        proof {
            lemma_fundamental_div_mod_converse(h + step, period as int, 1, h + step - period);
        }
        h - (period - step)
    } else {
        proof {
            lemma_fundamental_div_mod_converse(h + step, period as int, 0, h + step);
        }
        h + step
    }
}

/// Stepping chunk `i` to `i + 1` adds `step` to the half-bit exponent.
proof fn lemma_exponent_step(i: nat, step: nat, ml: nat, reduced: nat)
    requires
        ml > 0,
        reduced == step % (256 * ml),
    ensures
        ((twist_half_exponent(i, step, ml) + reduced) as int) % ((256 * ml) as int) == twist_half_exponent(i + 1, step, ml),
{
    let p = (256 * ml) as int;
    lemma_add_mod_noop((i * step) as int, step as int, p);
    lemma_mod_mod(step as int, p, 1);
    assert(step as int % p == reduced);
    lemma_mod_mod((i * step) as int, p, 1);
    lemma_mul_is_distributive_add_other_way(step as int, i as int, 1);
}

/// The first DIF stage's twiddle exponent for chunk `index`: `index * omega_shift`
/// reduced modulo `2n`, the order of `2`.
pub open spec fn twiddle_exponent(index: nat, omega_shift: nat, ml: nat) -> nat {
    (index * omega_shift) % (128 * ml)
}

/// The half-bit exponent of the upper-half slot: the pre-twist plus two
/// half-bit units per whole bit of twiddle, modulo `4n`.
pub open spec fn upper_half_exponent(index: nat, step: nat, omega_shift: nat, ml: nat) -> nat {
    (twist_half_exponent(index, step, ml) + 2 * twiddle_exponent(index, omega_shift, ml)) % (256 * ml)
}

/// Agreement outside `[lo, hi)` carries to any range disjoint from it.
pub(crate) proof fn lemma_agree_disjoint(a: Seq<Limb>, b: Seq<Limb>, lo: int, hi: int, lo2: int, hi2: int)
    requires
        agree_outside(a, b, lo, hi),
        0 <= lo <= hi <= a.len(),
        0 <= lo2 <= hi2 <= a.len(),
        hi2 <= lo || hi <= lo2,
    ensures
        a.subrange(lo2, hi2) == b.subrange(lo2, hi2),
{
    assert forall|k: int| lo2 <= k < hi2 implies a[k] == b[k] by {
        if k < lo {
            assert(a.subrange(0, lo)[k] == b.subrange(0, lo)[k]);
        } else {
            assert(a.subrange(hi, a.len() as int)[k - hi] == b.subrange(hi, b.len() as int)[k - hi]);
        }
    }
    assert(a.subrange(lo2, hi2) =~= b.subrange(lo2, hi2));
}

/// Agreement outside `[lo, hi)` read one limb at a time.
proof fn lemma_agree_at(a: Seq<Limb>, b: Seq<Limb>, lo: int, hi: int, k: int)
    requires
        agree_outside(a, b, lo, hi),
        0 <= lo <= hi <= a.len(),
        0 <= k < a.len(),
        k < lo || hi <= k,
    ensures
        a[k] == b[k],
{
    if k < lo {
        assert(a.subrange(0, lo)[k] == b.subrange(0, lo)[k]);
    } else {
        assert(a.subrange(hi, a.len() as int)[k - hi] == b.subrange(hi, b.len() as int)[k - hi]);
    }
}

/// Writes the staged coefficient of `scratch`, twisted by `h_low` and by
/// `h_high` half bits, into the slots at `low` and at `high`.
#[verifier::rlimit(40)]
#[verifier::spinoff_prover]
fn twist_pair(
    matrix: &mut [Limb],
    low: usize,
    high: usize,
    scratch: &mut [Limb],
    h_low: usize,
    h_high: usize,
    mod_bits: usize,
)
    requires
        valid_mod_bits(mod_bits),
        mod_bits <= usize::MAX / 2,
        low + mod_bits / 64 + 1 <= high,
        high + mod_bits / 64 + 1 <= old(matrix)@.len(),
        old(scratch)@.len() >= 2 * (mod_bits / 64 + 1),
        semi_normalized(old(scratch)@, (mod_bits / 64) as nat),
    ensures
        final(matrix)@.len() == old(matrix)@.len(),
        final(scratch)@.len() == old(scratch)@.len(),
        forall|k: int|
            0 <= k < final(matrix)@.len() && !(low <= k < low + mod_bits / 64 + 1) && !(high <= k < high
                + mod_bits / 64 + 1) ==> final(matrix)@[k] == old(matrix)@[k],
        semi_normalized(final(matrix)@.subrange(low as int, low + mod_bits / 64 + 1), (mod_bits / 64) as nat),
        residue(final(matrix)@.subrange(low as int, low + mod_bits / 64 + 1), (mod_bits / 64) as nat)
            == half_bit_residue(slot_value(old(scratch)@, (mod_bits / 64) as nat), h_low as nat, (mod_bits / 64) as nat),
        semi_normalized(final(matrix)@.subrange(high as int, high + mod_bits / 64 + 1), (mod_bits / 64) as nat),
        residue(final(matrix)@.subrange(high as int, high + mod_bits / 64 + 1), (mod_bits / 64) as nat)
            == half_bit_residue(slot_value(old(scratch)@, (mod_bits / 64) as nat), h_high as nat, (mod_bits / 64) as nat),
{
    let ghost nl = (mod_bits / 64) as nat;
    let ghost cl = mod_bits / 64 + 1;
    let ghost sv = slot_value(scratch@, nl);
    let ghost m0 = matrix@;
    let ghost lo = low as int;
    let ghost hi = high as int;
    shift_into_slot(matrix, low, scratch, h_low / 2, mod_bits);
    let ghost m1 = matrix@;
    shift_into_slot(matrix, high, scratch, h_high / 2, mod_bits);
    let ghost m2 = matrix@;
    proof {
        lemma_agree_disjoint(m2, m1, hi, hi + cl, lo, lo + cl);
    }
    if h_low % 2 == 1 {
        sqrt2_slot(matrix, low, mod_bits, scratch);
        proof {
            lemma_sqrt2_step(slot_value(m2.subrange(lo, lo + cl), nl), sv, h_low as nat, nl);
        }
    } else {
        proof {
            lemma_even_step(sv, h_low as nat, nl);
        }
    }
    let ghost m3 = matrix@;
    proof {
        lemma_agree_disjoint(m3, m2, lo, lo + cl, hi, hi + cl);
    }
    if h_high % 2 == 1 {
        sqrt2_slot(matrix, high, mod_bits, scratch);
        proof {
            lemma_sqrt2_step(slot_value(m3.subrange(hi, hi + cl), nl), sv, h_high as nat, nl);
        }
    } else {
        proof {
            lemma_even_step(sv, h_high as nat, nl);
        }
    }
    let ghost m4 = matrix@;
    proof {
        lemma_agree_disjoint(m4, m3, hi, hi + cl, lo, lo + cl);
        assert forall|k: int|
            0 <= k < m4.len() && !(lo <= k < lo + cl) && !(hi <= k < hi + cl) implies m4[k] == m0[k] by {
            lemma_agree_at(m1, m0, lo, lo + cl, k);
            lemma_agree_at(m2, m1, hi, hi + cl, k);
            if h_low % 2 == 1 {
                lemma_agree_at(m3, m2, lo, lo + cl, k);
            }
            if h_high % 2 == 1 {
                lemma_agree_at(m4, m3, hi, hi + cl, k);
            }
        }
    }
}

/// Stepping chunk `i` to `i + 1` adds `omega_shift` to the twiddle exponent.
proof fn lemma_twiddle_step(i: nat, omega_shift: nat, ml: nat, reduced: nat)
    requires
        ml > 0,
        reduced == omega_shift % (128 * ml),
    ensures
        ((twiddle_exponent(i, omega_shift, ml) + reduced) as int) % ((128 * ml) as int) == twiddle_exponent(
            i + 1,
            omega_shift,
            ml,
        ),
{
    let p = (128 * ml) as int;
    lemma_add_mod_noop((i * omega_shift) as int, omega_shift as int, p);
    lemma_mod_mod(omega_shift as int, p, 1);
    lemma_mod_mod((i * omega_shift) as int, p, 1);
    lemma_mul_is_distributive_add_other_way(omega_shift as int, i as int, 1);
}

/// A representative equal to `d` or to `d + m` has the residue of `d`.
proof fn lemma_canonical_residue_value(v: int, d: int, m: int)
    requires
        m > 0,
        v == d || v == d + m,
    ensures
        v % m == d % m,
{
    if v == d + m {
        lemma_mod_add_multiples_vanish(d, m);
    }
}

impl SsaCoefficients {
    /// Splits an operand into chunks of `chunk_bits` bits and writes chunk `i`
    /// into slot `i` of `matrix` already multiplied by its pre-twist, the
    /// half-bit exponent `i * twist_step_half` modulo `4n`; every limb after
    /// the written chunks is zeroed.
    pub fn split_twisted(
        src: &[Limb],
        matrix: &mut [Limb],
        transform_len: usize,
        chunk_bits: usize,
        inner_bits: usize,
        twist_step_half: usize,
        scratch: &mut [Limb],
    )
        requires
            valid_mod_bits(inner_bits),
            inner_bits <= usize::MAX / 4,
            chunk_bits <= inner_bits,
            transform_len * (inner_bits / 64 + 1) <= old(matrix)@.len(),
            old(scratch)@.len() >= 2 * (inner_bits / 64 + 1),
            src@.len() * 64 <= usize::MAX,
        ensures
            final(matrix)@.len() == old(matrix)@.len(),
            final(scratch)@.len() == old(scratch)@.len(),
            forall|i: int|
                #![trigger slot_at(final(matrix)@, i, inner_bits / 64 + 1)]
                0 <= i < active_chunks(src@.len(), chunk_bits as nat, transform_len as nat) ==> {
                    &&& semi_normalized(slot_at(final(matrix)@, i, inner_bits / 64 + 1), (inner_bits / 64) as nat)
                    &&& residue(slot_at(final(matrix)@, i, inner_bits / 64 + 1), (inner_bits / 64) as nat)
                        == half_bit_residue(
                        chunk_value(src@, i as nat, chunk_bits as nat),
                        twist_half_exponent(i as nat, twist_step_half as nat, (inner_bits / 64) as nat),
                        (inner_bits / 64) as nat,
                    )
                },
            forall|j: int|
                active_chunks(src@.len(), chunk_bits as nat, transform_len as nat) * (inner_bits / 64 + 1) <= j
                    < final(matrix)@.len() ==> final(matrix)@[j] == 0,
    {
        let ml = SsaRing::mod_limbs(inner_bits);
        let cl = ml + 1;
        let ghost nl = ml as nat;
        let ghost m0 = matrix@;
        let ghost scratch_len = scratch@.len();
        let half_period = inner_bits * 4;
        let step = twist_step_half % half_period;
        let active = if chunk_bits == 0 {
            0
        } else {
            let count = div_ceil(src.len() * 64, chunk_bits);
            if count < transform_len {
                count
            } else {
                transform_len
            }
        };
        proof {
            assert(half_period == 256 * ml);
            lemma_mul_inequality(active as int, transform_len as int, cl as int);
        }
        let total_len = matrix.len();
        let mut shift: usize = 0;
        let mut i: usize = 0;
        while i < active
            invariant
                total_len == m0.len(),
                valid_mod_bits(inner_bits),
                inner_bits <= usize::MAX / 4,
                ml == inner_bits / 64,
                cl == ml + 1,
                nl == ml,
                half_period == 256 * ml,
                step == twist_step_half % half_period,
                0 < chunk_bits <= inner_bits || active == 0,
                active == active_chunks(src@.len(), chunk_bits as nat, transform_len as nat),
                active * cl <= m0.len(),
                active <= transform_len,
                src@.len() * 64 <= usize::MAX,
                0 <= i <= active,
                shift == twist_half_exponent(i as nat, twist_step_half as nat, nl),
                shift < half_period,
                matrix@.len() == m0.len(),
                scratch@.len() == scratch_len,
                scratch_len >= 2 * cl,
                forall|j: int|
                    0 <= j < i ==> {
                        &&& semi_normalized(#[trigger] slot_at(matrix@, j, cl as int), nl)
                        &&& residue(slot_at(matrix@, j, cl as int), nl) == half_bit_residue(
                            chunk_value(src@, j as nat, chunk_bits as nat),
                            twist_half_exponent(j as nat, twist_step_half as nat, nl),
                            nl,
                        )
                    },
            decreases active - i,
        {
            proof {
                lemma_slot_offsets(i as int, active as int, cl as int);
                let count = ceil_div(64 * src@.len(), chunk_bits as nat);
                assert(i < count);
                let a = 64 * src@.len() + chunk_bits - 1;
                lemma_fundamental_div_mod(a as int, chunk_bits as int);
                lemma_mod_bound(a as int, chunk_bits as int);
                lemma_mul_is_commutative(count as int, chunk_bits as int);
                assert(count * chunk_bits < 64 * src@.len() + chunk_bits);
                lemma_mul_inequality(i as int, count - 1, chunk_bits as int);
                lemma_mul_is_distributive_sub_other_way(chunk_bits as int, count as int, 1);
            }
            let offset = i * cl;
            let ghost stage_f: Seq<Limb>;
            {
                let (stage, _) = scratch.split_at_mut(cl);
                extract_chunk(src, stage, i, chunk_bits, ml);
                proof {
                    stage_f = stage@;
                }
            }
            proof {
                assert(scratch@.subrange(0, cl as int) =~= stage_f);
                assert(slot_value(scratch@, nl) == val(stage_f)) by {
                    assert(scratch@.subrange(0, ml + 1int) =~= stage_f);
                }
            }
            let ghost mb = matrix@;
            twist_into_slot(matrix, offset, scratch, shift, inner_bits);
            proof {
                let ma = matrix@;
                let lo = offset as int;
                let hi = lo + cl;
                assert forall|j: int| 0 <= j < i + 1 implies {
                    &&& semi_normalized(#[trigger] slot_at(ma, j, cl as int), nl)
                    &&& residue(slot_at(ma, j, cl as int), nl) == half_bit_residue(
                        chunk_value(src@, j as nat, chunk_bits as nat),
                        twist_half_exponent(j as nat, twist_step_half as nat, nl),
                        nl,
                    )
                } by {
                    if j < i {
                        lemma_slot_offsets(j, i as int, cl as int);
                        lemma_slot_untouched(ma, mb, j, cl as int, lo, hi);
                    } else {
                        assert(slot_at(ma, j, cl as int) =~= ma.subrange(lo, hi));
                    }
                }
                lemma_exponent_step(i as nat, twist_step_half as nat, nl, step as nat);
            }
            shift = advance_exponent(shift, step, half_period);
            i = i + 1;
        }
        let start = active * cl;
        let ghost mz = matrix@;
        let ghost pre: Seq<Limb>;
        let ghost tail_f: Seq<Limb>;
        {
            let (before, tail) = matrix.split_at_mut(start);
            Addition::fill_zero(tail);
            proof {
                pre = before@;
                tail_f = tail@;
            }
        }
        proof {
            let mf = matrix@;
            assert(mf =~= pre + tail_f);
            assert(pre =~= mz.subrange(0, start as int));
            assert forall|j: int| 0 <= j < active implies {
                &&& semi_normalized(#[trigger] slot_at(mf, j, cl as int), nl)
                &&& residue(slot_at(mf, j, cl as int), nl) == half_bit_residue(
                    chunk_value(src@, j as nat, chunk_bits as nat),
                    twist_half_exponent(j as nat, twist_step_half as nat, nl),
                    nl,
                )
            } by {
                lemma_slot_offsets(j, active as int, cl as int);
                assert(slot_at(mf, j, cl as int) =~= slot_at(mz, j, cl as int));
            }
            assert forall|j: int| start <= j < mf.len() implies mf[j] == 0 by {
                assert(mf[j] == tail_f[j - start]);
            }
        }
    }

    /// Splits and pre-twists an operand as [`Self::split_twisted`] does, and
    /// writes the first DIF butterfly stage across both matrix halves in the
    /// same pass: with the upper half empty, the stage leaves chunk `j`'s
    /// twisted value in slot `j` and that value times `2^(j * omega_shift)`
    /// in slot `transform_len / 2 + j`.
    ///
    /// Returns `false`, leaving the matrix as it was, exactly when
    /// `transform_len < 2` or the matrix holds fewer than `transform_len` slots.
    #[verifier::rlimit(80)]
    #[verifier::spinoff_prover]
    pub fn split_twisted_and_stage1_dif(
        src: &[Limb],
        matrix: &mut [Limb],
        transform_len: usize,
        chunk_bits: usize,
        inner_bits: usize,
        twist_step_half: usize,
        omega_shift: usize,
        scratch: &mut [Limb],
    ) -> (done: bool)
        requires
            valid_mod_bits(inner_bits),
            inner_bits <= usize::MAX / 4,
            chunk_bits <= inner_bits,
            transform_len * (inner_bits / 64 + 1) <= usize::MAX,
            old(scratch)@.len() >= 2 * (inner_bits / 64 + 1),
            src@.len() * 64 <= usize::MAX,
        ensures
            final(matrix)@.len() == old(matrix)@.len(),
            final(scratch)@.len() == old(scratch)@.len(),
            done == (transform_len >= 2 && old(matrix)@.len() >= transform_len * (inner_bits / 64 + 1)),
            !done ==> final(matrix)@ == old(matrix)@,
            done ==> forall|i: int|
                #![trigger slot_at(final(matrix)@, i, inner_bits / 64 + 1)]
                0 <= i < active_chunks(src@.len(), chunk_bits as nat, (transform_len / 2) as nat) ==> {
                    &&& semi_normalized(slot_at(final(matrix)@, i, inner_bits / 64 + 1), (inner_bits / 64) as nat)
                    &&& residue(slot_at(final(matrix)@, i, inner_bits / 64 + 1), (inner_bits / 64) as nat)
                        == half_bit_residue(
                        chunk_value(src@, i as nat, chunk_bits as nat),
                        twist_half_exponent(i as nat, twist_step_half as nat, (inner_bits / 64) as nat),
                        (inner_bits / 64) as nat,
                    )
                    &&& semi_normalized(
                        slot_at(final(matrix)@, transform_len / 2 + i, inner_bits / 64 + 1),
                        (inner_bits / 64) as nat,
                    )
                    &&& residue(
                        slot_at(final(matrix)@, transform_len / 2 + i, inner_bits / 64 + 1),
                        (inner_bits / 64) as nat,
                    ) == half_bit_residue(
                        chunk_value(src@, i as nat, chunk_bits as nat),
                        upper_half_exponent(
                            i as nat,
                            twist_step_half as nat,
                            omega_shift as nat,
                            (inner_bits / 64) as nat,
                        ),
                        (inner_bits / 64) as nat,
                    )
                },
            done && active_chunks(src@.len(), chunk_bits as nat, (transform_len / 2) as nat) < transform_len / 2
                ==> forall|j: int|
                #![trigger final(matrix)@[j]]
                (active_chunks(src@.len(), chunk_bits as nat, (transform_len / 2) as nat) * (inner_bits / 64 + 1) <= j
                    < (transform_len / 2) * (inner_bits / 64 + 1) || (transform_len / 2) * (inner_bits / 64 + 1)
                    + active_chunks(src@.len(), chunk_bits as nat, (transform_len / 2) as nat) * (inner_bits / 64 + 1)
                    <= j < final(matrix)@.len()) ==> final(matrix)@[j] == 0,
            done && active_chunks(src@.len(), chunk_bits as nat, (transform_len / 2) as nat) == transform_len / 2
                ==> final(matrix)@.subrange(
                2 * (transform_len / 2) * (inner_bits / 64 + 1),
                final(matrix)@.len() as int,
            ) == old(matrix)@.subrange(
                2 * (transform_len / 2) * (inner_bits / 64 + 1),
                old(matrix)@.len() as int,
            ),
    {
        if transform_len < 2 {
            return false;
        }
        let ml = SsaRing::mod_limbs(inner_bits);
        let cl = ml + 1;
        if matrix.len() < transform_len * cl {
            return false;
        }
        let ghost nl = ml as nat;
        let ghost m0 = matrix@;
        let ghost scratch_len = scratch@.len();
        let half_period = inner_bits * 4;
        let whole_period = inner_bits * 2;
        let step = twist_step_half % half_period;
        let omega = omega_shift % whole_period;
        let half_len = transform_len / 2;
        proof {
            lemma_mul_inequality(half_len as int, transform_len as int, cl as int);
        }
        let half_matrix_len = half_len * cl;
        let active = if chunk_bits == 0 {
            0
        } else {
            let count = div_ceil(src.len() * 64, chunk_bits);
            if count < half_len {
                count
            } else {
                half_len
            }
        };
        proof {
            assert(half_period == 256 * ml);
            assert(whole_period == 128 * ml);
            lemma_mul_inequality(active as int, half_len as int, cl as int);
            lemma_mul_inequality(2 * half_len as int, transform_len as int, cl as int);
            lemma_mul_is_associative(2, half_len as int, cl as int);
            lemma_mul_basics(twist_step_half as int);
            lemma_mul_basics(omega_shift as int);
            assert(twist_half_exponent(0, twist_step_half as nat, nl) == 0);
            lemma_small_mod(0, 128 * nl);
            assert(twiddle_exponent(0, omega_shift as nat, nl) == 0);
        }
        let total_len = matrix.len();
        let mut low_shift: usize = 0;
        let mut twiddle: usize = 0;
        let mut i: usize = 0;
        while i < active
            invariant
                total_len == m0.len(),
                valid_mod_bits(inner_bits),
                inner_bits <= usize::MAX / 4,
                ml == inner_bits / 64,
                cl == ml + 1,
                nl == ml,
                half_period == 256 * ml,
                whole_period == 128 * ml,
                step == twist_step_half % half_period,
                omega == omega_shift % whole_period,
                0 < chunk_bits <= inner_bits || active == 0,
                half_len == transform_len / 2,
                half_matrix_len == half_len * cl,
                2 * half_matrix_len <= m0.len(),
                active == active_chunks(src@.len(), chunk_bits as nat, half_len as nat),
                active * cl <= half_matrix_len,
                active <= half_len,
                src@.len() * 64 <= usize::MAX,
                0 <= i <= active,
                low_shift == twist_half_exponent(i as nat, twist_step_half as nat, nl),
                low_shift < half_period,
                twiddle == twiddle_exponent(i as nat, omega_shift as nat, nl),
                twiddle < whole_period,
                matrix@.len() == m0.len(),
                scratch@.len() == scratch_len,
                scratch_len >= 2 * cl,
                forall|j: int|
                    0 <= j < i ==> {
                        &&& semi_normalized(#[trigger] slot_at(matrix@, j, cl as int), nl)
                        &&& residue(slot_at(matrix@, j, cl as int), nl) == half_bit_residue(
                            chunk_value(src@, j as nat, chunk_bits as nat),
                            twist_half_exponent(j as nat, twist_step_half as nat, nl),
                            nl,
                        )
                        &&& semi_normalized(slot_at(matrix@, half_len + j, cl as int), nl)
                        &&& residue(slot_at(matrix@, half_len + j, cl as int), nl) == half_bit_residue(
                            chunk_value(src@, j as nat, chunk_bits as nat),
                            upper_half_exponent(j as nat, twist_step_half as nat, omega_shift as nat, nl),
                            nl,
                        )
                    },
                forall|k: int| 2 * half_matrix_len <= k < m0.len() ==> matrix@[k] == m0[k],
            decreases active - i,
        {
            proof {
                lemma_slot_offsets(i as int, active as int, cl as int);
                lemma_slot_offsets(half_len + i, 2 * half_len as int, cl as int);
                lemma_mul_is_distributive_add_other_way(cl as int, half_len as int, i as int);
                let count = ceil_div(64 * src@.len(), chunk_bits as nat);
                assert(i < count);
                let a = 64 * src@.len() + chunk_bits - 1;
                lemma_fundamental_div_mod(a as int, chunk_bits as int);
                lemma_mod_bound(a as int, chunk_bits as int);
                lemma_mul_is_commutative(count as int, chunk_bits as int);
                lemma_mul_inequality(i as int, count - 1, chunk_bits as int);
                lemma_mul_is_distributive_sub_other_way(chunk_bits as int, count as int, 1);
            }
            let low = i * cl;
            let high = half_matrix_len + low;
            let ghost stage_f: Seq<Limb>;
            {
                let (stage, _) = scratch.split_at_mut(cl);
                extract_chunk(src, stage, i, chunk_bits, ml);
                proof {
                    stage_f = stage@;
                }
            }
            proof {
                assert(scratch@.subrange(0, cl as int) =~= stage_f);
                assert(slot_value(scratch@, nl) == val(stage_f)) by {
                    assert(scratch@.subrange(0, ml + 1int) =~= stage_f);
                }
            }
            let high_shift = advance_exponent(low_shift, 2 * twiddle, half_period);
            let ghost mb = matrix@;
            twist_pair(matrix, low, high, scratch, low_shift, high_shift, inner_bits);
            proof {
                let ma = matrix@;
                let ilo = low as int;
                let ihi = high as int;
                assert(high == (half_len + i) * cl);
                assert forall|j: int| 0 <= j < i + 1 implies {
                    &&& semi_normalized(#[trigger] slot_at(ma, j, cl as int), nl)
                    &&& residue(slot_at(ma, j, cl as int), nl) == half_bit_residue(
                        chunk_value(src@, j as nat, chunk_bits as nat),
                        twist_half_exponent(j as nat, twist_step_half as nat, nl),
                        nl,
                    )
                    &&& semi_normalized(slot_at(ma, half_len + j, cl as int), nl)
                    &&& residue(slot_at(ma, half_len + j, cl as int), nl) == half_bit_residue(
                        chunk_value(src@, j as nat, chunk_bits as nat),
                        upper_half_exponent(j as nat, twist_step_half as nat, omega_shift as nat, nl),
                        nl,
                    )
                } by {
                    if j < i {
                        lemma_slot_offsets(j, i as int, cl as int);
                        lemma_slot_offsets(half_len + j, half_len + i, cl as int);
                        lemma_mul_is_distributive_add_other_way(cl as int, half_len as int, j);
                        assert(slot_at(ma, j, cl as int) =~= slot_at(mb, j, cl as int));
                        assert(slot_at(ma, half_len + j, cl as int) =~= slot_at(mb, half_len + j, cl as int));
                    } else {
                        assert(slot_at(ma, j, cl as int) =~= ma.subrange(ilo, ilo + cl));
                        assert(slot_at(ma, half_len + j, cl as int) =~= ma.subrange(ihi, ihi + cl));
                    }
                }
                assert forall|k: int| 2 * half_matrix_len <= k < m0.len() implies ma[k] == m0[k] by {
                    assert(ma[k] == mb[k]);
                }
                lemma_exponent_step(i as nat, twist_step_half as nat, nl, step as nat);
                lemma_twiddle_step(i as nat, omega_shift as nat, nl, omega as nat);
            }
            low_shift = advance_exponent(low_shift, step, half_period);
            twiddle = advance_exponent(twiddle, omega, whole_period);
            i = i + 1;
        }
        if active < half_len {
            let start = active * cl;
            let ghost mz = matrix@;
            let ghost low_pre: Seq<Limb>;
            let ghost low_tail: Seq<Limb>;
            let ghost high_pre: Seq<Limb>;
            let ghost high_tail: Seq<Limb>;
            {
                let (low_matrix, high_matrix) = matrix.split_at_mut(half_matrix_len);
                let (lp, lt) = low_matrix.split_at_mut(start);
                Addition::fill_zero(lt);
                let (hp, ht) = high_matrix.split_at_mut(start);
                Addition::fill_zero(ht);
                proof {
                    low_pre = lp@;
                    low_tail = lt@;
                    high_pre = hp@;
                    high_tail = ht@;
                }
            }
            proof {
                let mf = matrix@;
                let h0 = half_matrix_len as int;
                assert(mf =~= low_pre + low_tail + high_pre + high_tail);
                assert(low_pre =~= mz.subrange(0, start as int));
                assert(high_pre =~= mz.subrange(h0, h0 + start));
                assert forall|j: int| 0 <= j < active implies {
                    &&& semi_normalized(#[trigger] slot_at(mf, j, cl as int), nl)
                    &&& residue(slot_at(mf, j, cl as int), nl) == half_bit_residue(
                        chunk_value(src@, j as nat, chunk_bits as nat),
                        twist_half_exponent(j as nat, twist_step_half as nat, nl),
                        nl,
                    )
                    &&& semi_normalized(slot_at(mf, half_len + j, cl as int), nl)
                    &&& residue(slot_at(mf, half_len + j, cl as int), nl) == half_bit_residue(
                        chunk_value(src@, j as nat, chunk_bits as nat),
                        upper_half_exponent(j as nat, twist_step_half as nat, omega_shift as nat, nl),
                        nl,
                    )
                } by {
                    lemma_slot_offsets(j, active as int, cl as int);
                    lemma_mul_is_distributive_add_other_way(cl as int, half_len as int, j);
                    assert(slot_at(mf, j, cl as int) =~= slot_at(mz, j, cl as int));
                    assert(slot_at(mf, half_len + j, cl as int) =~= slot_at(mz, half_len + j, cl as int));
                }
                assert forall|j: int|
                    (start <= j < h0 || h0 + start <= j < mf.len()) implies mf[j] == 0 by {
                    if j < h0 {
                        assert(mf[j] == low_tail[j - start]);
                    } else {
                        assert(mf[j] == high_tail[j - h0 - start]);
                    }
                }
            }
        } else {
            proof {
                assert(matrix@.subrange(2 * half_matrix_len as int, matrix@.len() as int) =~= m0.subrange(
                    2 * half_matrix_len as int,
                    m0.len() as int,
                ));
            }
        }
        true
    }


    /// Folds the limbs from `ml_outer` on into the data limbs below, using
    /// `2^n = -1` modulo `2^n + 1` with `n = 64 * ml_outer`: the low
    /// `min(len - ml_outer, ml_outer)` limbs of the high part are subtracted
    /// from the data limbs and the canonical residue is left in the first
    /// `ml_outer + 1` limbs, with every limb above cleared. A destination of
    /// at most `outer_cl` limbs is left as it is.
    #[verifier::rlimit(40)]
    #[verifier::spinoff_prover]
    pub fn fold_high_into_low(dst: &mut [Limb], ml_outer: usize, outer_cl: usize, scratch: &mut [Limb])
        requires
            ml_outer < outer_cl <= old(dst)@.len(),
            old(scratch)@.len() >= old(dst)@.len() - ml_outer,
        ensures
            final(dst)@.len() == old(dst)@.len(),
            final(scratch)@.len() == old(scratch)@.len(),
            old(dst)@.len() <= outer_cl ==> final(dst)@ == old(dst)@,
            old(dst)@.len() > outer_cl ==> {
                let low = val(old(dst)@.subrange(0, ml_outer as int)) as int;
                let count = if old(dst)@.len() - ml_outer < ml_outer {
                    old(dst)@.len() - ml_outer
                } else {
                    ml_outer as int
                };
                let high = val(old(dst)@.subrange(ml_outer as int, ml_outer + count)) as int;
                &&& canonical(final(dst)@, ml_outer as nat)
                &&& slot_value(final(dst)@, ml_outer as nat) == if low >= high {
                    low - high
                } else {
                    low - high + fermat_modulus(ml_outer as nat)
                }
                &&& all_zero(final(dst)@.subrange(ml_outer + 1, old(dst)@.len() as int))
            },
            old(dst)@.len() > outer_cl && val(old(dst)@.subrange(ml_outer as int, old(dst)@.len() as int)) < pow_b(
                ml_outer as nat,
            ) ==> residue(final(dst)@, ml_outer as nat) == (val(old(dst)@) as int) % (fermat_modulus(
                ml_outer as nat,
            ) as int),
    {
        let len = dst.len();
        if len <= outer_cl {
            return;
        }
        let ghost d0 = dst@;
        let ghost nl = ml_outer as nat;
        let high_len = len - ml_outer;
        let count = if high_len < ml_outer {
            high_len
        } else {
            ml_outer
        };
        let ghost hc_f: Seq<Limb>;
        {
            let (high_copy, _) = scratch.split_at_mut(high_len);
            Addition::copy_prefix(high_copy, &dst[ml_outer..len]);
            proof {
                hc_f = high_copy@;
            }
        }
        proof {
            assert(hc_f =~= d0.subrange(ml_outer as int, len as int));
            assert(scratch@.subrange(0, high_len as int) =~= hc_f);
        }
        let ghost data0: Seq<Limb>;
        let ghost zeroed: Seq<Limb>;
        {
            let (data, high) = dst.split_at_mut(ml_outer);
            Addition::fill_zero(high);
            proof {
                data0 = data@;
                zeroed = high@;
            }
        }
        proof {
            assert(dst@ =~= data0 + zeroed);
            assert(data0 =~= d0.subrange(0, ml_outer as int));
        }
        let ghost data1: Seq<Limb>;
        let ghost rest1: Seq<Limb>;
        let ghost high_part = d0.subrange(ml_outer as int, ml_outer + count);
        let borrow;
        {
            let (data, rest) = dst.split_at_mut(ml_outer);
            let high_src = &scratch[0..count];
            proof {
                assert(data@ =~= data0);
                assert(high_src@ =~= scratch@.subrange(0, high_len as int).subrange(0, count as int));
                assert(high_src@ =~= high_part);
            }
            borrow = SsaCarry::sub_full_in_place(data, high_src);
            proof {
                data1 = data@;
                rest1 = rest@;
            }
        }
        proof {
            assert(rest1 == zeroed);
            assert(dst@ =~= data1 + rest1);
            lemma_val_bound(data1);
            lemma_val_bound(high_part);
            lemma_pow_b_monotone(count as nat, nl);
            lemma_val_bound(data0);
        }
        let ghost low = val(data0) as int;
        let ghost high = val(high_part) as int;
        if borrow != 0 {
            let ghost before = dst@;
            SsaCarry::correct_wrapped_shift_difference(dst, ml_outer);
            proof {
                assert(before.subrange(0, ml_outer as int) =~= data1);
                assert(dst@.subrange(0, ml_outer + 1) =~= dst@.subrange(0, nl + 1int));
                assert(borrow == 1);
                assert(data1.len() == ml_outer);
                assert(val(data1) - pow_b(nl) == low - high);
                assert(low < high);
                assert(slot_value(dst@, nl) == low - high + pow_b(nl) + 1);
                assert(dst@.subrange(ml_outer + 1, len as int) =~= before.subrange(ml_outer + 1, len as int));
                assert(all_zero(dst@.subrange(ml_outer + 1, len as int))) by {
                    assert forall|j: int| 0 <= j < len - ml_outer - 1 implies #[trigger] dst@.subrange(
                        ml_outer + 1,
                        len as int,
                    )[j] == 0 by {
                        assert(before.subrange(ml_outer + 1, len as int)[j] == zeroed[j + 1]);
                    }
                }
            }
        } else {
            proof {
                assert(low >= high);
                lemma_val_split(dst@.subrange(0, nl + 1int), ml_outer as int);
                assert(dst@.subrange(0, nl + 1int).subrange(0, ml_outer as int) =~= data1);
                assert(dst@.subrange(0, nl + 1int).subrange(ml_outer as int, nl + 1int) =~= seq![0u64]);
                lemma_val_single(0u64);
                assert(slot_value(dst@, nl) == low - high);
                assert(all_zero(dst@.subrange(ml_outer + 1, len as int))) by {
                    assert forall|j: int| 0 <= j < len - ml_outer - 1 implies #[trigger] dst@.subrange(
                        ml_outer + 1,
                        len as int,
                    )[j] == 0 by {
                        assert(dst@[ml_outer + 1 + j] == zeroed[j + 1]);
                    }
                }
            }
        }
        proof {
            lemma_pow_b_pos(nl);
            let m = fermat_modulus(nl) as int;
            let whole = d0.subrange(ml_outer as int, len as int);
            if val(whole) < pow_b(nl) {
                lemma_val_split(whole, count as int);
                assert(whole.subrange(0, count as int) =~= high_part);
                if count < high_len {
                    lemma_pow_b_pos(count as nat);
                    let top = whole.subrange(count as int, whole.len() as int);
                    assert(pow_b(count as nat) * val(top) < pow_b(nl));
                    assert(count == ml_outer);
                    if val(top) > 0 {
                        lemma_mul_increases(val(top) as int, pow_b(nl) as int);
                        lemma_mul_is_commutative(val(top) as int, pow_b(nl) as int);
                    }
                    assert(val(top) == 0);
                } else {
                    assert(whole.subrange(count as int, whole.len() as int).len() == 0);
                    lemma_val_zero(whole.subrange(count as int, whole.len() as int));
                }
                assert(val(whole) == high);
                lemma_val_split(d0, ml_outer as int);
                lemma_mul_is_commutative(pow_b(nl) as int, high);
                lemma_fold_high(val(d0) as int, low, high, pow_b(nl) as int);
                lemma_canonical_residue_value(slot_value(dst@, nl) as int, low - high, m);
            }
        }
    }

}

} // verus!
