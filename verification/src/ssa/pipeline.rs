//! The transform product as a chain of congruences: twisted split, forward
//! transforms, pointwise products, inverse transform and inverse twist leave
//! the negacyclic convolution of the two chunk sequences.

use crate::limbs::{Limb, lemma_pow_b_add, lemma_pow_b_pos, pow_b};
use crate::num::{lemma_two_pow_monotone, lemma_two_pow_pos, two_pow};
use crate::ssa::coefficients::chunk_value;
use crate::ssa::entry::{lemma_two_pow_add, lemma_two_pow_limbs};
use crate::ssa::evaluation::{eval_at, lemma_negacyclic_evaluation, nega_seq, neg_seq};
use crate::ssa::pointwise::slot_at;
use crate::ssa::reconstruct::{
    chunk_sum, coefficient_sum, folded_value, lemma_chunks_recompose, lemma_signed_reading, signed_coefficient,
};
use crate::ssa::ring::{canonical, residue};
use crate::ssa::twist::lemma_negacyclic_bound;
use crate::limbs::val;
use crate::ssa::shift::lemma_fold_high;
use crate::ssa::convolution::{cyclic_sum, lemma_cyclic_convolution};
use crate::ssa::dft::{bit_reverse, is_power_of_two, power_sum, reversed_sum};
use crate::ssa::ring::fermat_modulus;
use crate::ssa::twist::{
    half_power, lemma_half_power_period, lemma_twisted_cyclic, lemma_untwist, negacyclic_sum,
};
use vstd::arithmetic::div_mod::*;
use vstd::arithmetic::mul::*;
use vstd::prelude::*;

verus! {

/// A twist read with its exponent reduced modulo the period `4n` is the
/// twist by the full exponent.
pub proof fn lemma_reduced_twist(c: int, e: nat, ml: nat)
    requires
        ml >= 1,
    ensures
        (c * half_power(e % (256 * ml), ml)) % (fermat_modulus(ml) as int) == (c * half_power(e, ml)) % (
        fermat_modulus(ml) as int),
{
    let f = fermat_modulus(ml) as int;
    lemma_pow_b_pos(ml);
    let q = e / (256 * ml);
    lemma_fundamental_div_mod(e as int, (256 * ml) as int);
    assert(e == e % (256 * ml) + 256 * ml * q) by (nonlinear_arith)
        requires
            e == (256 * ml) * q + e % (256 * ml),
    ;
    lemma_half_power_period(e % (256 * ml), q, ml);
    lemma_mul_mod_noop_right(c, half_power(e % (256 * ml), ml), f);
    lemma_mul_mod_noop_right(c, half_power(e, ml), f);
}

/// The whole chain: when `x`, `y` are the chunks `a`, `b` twisted by
/// `sqrt(2)^(i s)` with `sqrt(2)^(k s) = -1`, `xf`, `yf` their forward
/// transforms under the root `2^r` of order `k = 2^log`, `z` the pointwise
/// products, `w` the inverse transform of `z`, and each shift `sh[j]` makes
/// `sh[j] + j s + 2 log` a whole number of periods, then `w[j]` times
/// `sqrt(2)^sh[j]` is slot `j` of the negacyclic convolution of `a` and `b`,
/// modulo `2^n + 1`.
pub proof fn lemma_transform_product(
    a: Seq<int>,
    b: Seq<int>,
    x: Seq<int>,
    y: Seq<int>,
    xf: Seq<int>,
    yf: Seq<int>,
    z: Seq<int>,
    w: Seq<int>,
    sh: Seq<nat>,
    k: nat,
    log: nat,
    r: nat,
    s: nat,
    ml: nat,
)
    requires
        ml >= 1,
        is_power_of_two(k),
        k == two_pow(log),
        s * k == 128 * ml,
        r < 128 * ml,
        k >= 2 ==> (r * (k / 2)) % (128 * ml) == 64 * ml,
        a.len() == k,
        b.len() == k,
        x.len() == k,
        y.len() == k,
        xf.len() == k,
        yf.len() == k,
        z.len() == k,
        w.len() == k,
        sh.len() == k,
        forall|i: int|
            0 <= i < k ==> #[trigger] x[i] % (fermat_modulus(ml) as int) == (a[i] * half_power(
                ((i as nat) * s) % (256 * ml),
                ml,
            )) % (fermat_modulus(ml) as int),
        forall|i: int|
            0 <= i < k ==> #[trigger] y[i] % (fermat_modulus(ml) as int) == (b[i] * half_power(
                ((i as nat) * s) % (256 * ml),
                ml,
            )) % (fermat_modulus(ml) as int),
        forall|p: int|
            0 <= p < k ==> #[trigger] xf[p] % (fermat_modulus(ml) as int) == power_sum(
                x,
                r * bit_reverse(p as nat, k),
                k,
            ) % (fermat_modulus(ml) as int),
        forall|p: int|
            0 <= p < k ==> #[trigger] yf[p] % (fermat_modulus(ml) as int) == power_sum(
                y,
                r * bit_reverse(p as nat, k),
                k,
            ) % (fermat_modulus(ml) as int),
        forall|p: int|
            0 <= p < k ==> #[trigger] z[p] % (fermat_modulus(ml) as int) == (xf[p] * yf[p]) % (fermat_modulus(
                ml,
            ) as int),
        forall|j: int|
            0 <= j < k ==> #[trigger] w[j] % (fermat_modulus(ml) as int) == reversed_sum(
                z,
                ((128 * ml - r) as nat) * (j as nat),
                k,
                k,
            ) % (fermat_modulus(ml) as int),
        forall|j: int| 0 <= j < k ==> (#[trigger] sh[j] + (j as nat) * s + 2 * log) % (256 * ml) == 0,
    ensures
        forall|j: int|
            0 <= j < k ==> (#[trigger] w[j] * half_power(sh[j], ml)) % (fermat_modulus(ml) as int)
                == negacyclic_sum(a, b, j as nat, k, k) % (fermat_modulus(ml) as int),
{
    let f = fermat_modulus(ml) as int;
    lemma_pow_b_pos(ml);
    assert forall|i: int| 0 <= i < k implies #[trigger] x[i] % f == (a[i] * half_power((i as nat) * s, ml)) % f by {
        lemma_reduced_twist(a[i], (i as nat) * s, ml);
    }
    assert forall|i: int| 0 <= i < k implies #[trigger] y[i] % f == (b[i] * half_power((i as nat) * s, ml)) % f by {
        lemma_reduced_twist(b[i], (i as nat) * s, ml);
    }
    lemma_cyclic_convolution(x, y, xf, yf, z, w, k, r, ml);
    assert forall|j: int| 0 <= j < k implies (#[trigger] w[j] * half_power(sh[j], ml)) % f == negacyclic_sum(
        a,
        b,
        j as nat,
        k,
        k,
    ) % f by {
        let jn = j as nat;
        lemma_twisted_cyclic(a, b, x, y, s, jn, k, k, ml);
        let cyc = cyclic_sum(x, y, jn, k, k);
        let hj = half_power(jn * s, ml);
        let n = negacyclic_sum(a, b, jn, k, k);
        // w[j] = k * cyc = k * (hj * n) modulo f.
        lemma_mul_mod_noop_right(k as int, cyc, f);
        lemma_mul_mod_noop_right(k as int, hj * n, f);
        lemma_untwist(w[j], n, log, jn * s, sh[j], ml);
    }
}

/// The chunks of an operand as a sequence of `k` values.
pub open spec fn chunk_seq(src: Seq<Limb>, k: nat, cb: nat) -> Seq<int> {
    Seq::new(k, |i: int| chunk_value(src, i as nat, cb) as int)
}

pub proof fn lemma_chunk_eval(src: Seq<Limb>, k: nat, cb: nat, count: nat)
    requires
        count <= k,
    ensures
        eval_at(chunk_seq(src, k, cb), cb, count) == chunk_sum(src, count, cb),
    decreases count,
{
    if count > 0 {
        lemma_chunk_eval(src, k, cb, (count - 1) as nat);
    }
}

/// A matrix whose slots read as the given signed values sums to their
/// evaluation.
pub proof fn lemma_coefficient_eval(m: Seq<Limb>, t: Seq<int>, count: nat, cl: nat, ml: nat, cb: nat)
    requires
        count <= t.len(),
        forall|j: int| 0 <= j < count ==> signed_coefficient(#[trigger] slot_at(m, j, cl as int), ml) == t[j],
    ensures
        coefficient_sum(m, count, cl, ml, cb) == eval_at(t, cb, count),
    decreases count,
{
    if count > 0 {
        lemma_coefficient_eval(m, t, (count - 1) as nat, cl, ml, cb);
        assert(signed_coefficient(slot_at(m, count - 1, cl as int), ml) == t[count - 1]);
    }
}

/// The closing fold keeps the residue of an accumulator no wider than two
/// outer coefficients.
pub proof fn lemma_fold_keeps_residue(a: nat, len: nat, no: nat)
    requires
        no >= 1,
        len <= 2 * no,
        a < pow_b(len),
    ensures
        folded_value(a, len, no) % (fermat_modulus(no) as int) == (a as int) % (fermat_modulus(no) as int),
{
    let f = fermat_modulus(no) as int;
    lemma_pow_b_pos(no);
    if len > no + 1 {
        let count = (len - no) as nat;
        let p = pow_b(no) as int;
        lemma_pow_b_add(no, count);
        lemma_pow_b_pos(count);
        let low = (a % pow_b(no)) as int;
        let q = (a / pow_b(no)) as int;
        lemma_fundamental_div_mod(a as int, p);
        assert(q < pow_b(count)) by {
            lemma_multiply_divide_lt(a as int, p, pow_b(count) as int);
        }
        lemma_small_mod(q as nat, pow_b(count));
        lemma_fold_high(a as int, low, q, p);
        assert(a as int == low + q * p) by {
            lemma_mul_is_commutative(p, q);
        }
        if low < q {
            lemma_mod_add_multiples_vanish(low - q, f);
        }
    }
}

/// `sum_{j < c} |t[j]| 2^(j cb)` is at most `2 m 2^((c - 1) cb)` when every
/// `|t[j]| <= m` and `cb >= 1`.
pub proof fn lemma_eval_magnitude(t: Seq<int>, cb: nat, c: nat, m: int)
    requires
        cb >= 1,
        c >= 1,
        c <= t.len(),
        m >= 0,
        forall|j: int| 0 <= j < c ==> -m <= #[trigger] t[j] <= m,
    ensures
        -(2 * m * two_pow(((c - 1) * cb) as nat)) <= eval_at(t, cb, c) <= 2 * m * two_pow(((c - 1) * cb) as nat),
    decreases c,
{
    let xc = two_pow(((c - 1) * cb) as nat) as int;
    lemma_two_pow_pos(((c - 1) * cb) as nat);
    if c == 1 {
        assert(eval_at(t, cb, 0) == 0);
        assert(((c - 1) * cb) as nat == 0) by {
            lemma_mul_basics(cb as int);
        }
        assert(eval_at(t, cb, 1) == t[0] * xc);
        assert(-(2 * m * xc) <= t[0] * xc <= 2 * m * xc) by (nonlinear_arith)
            requires
                -m <= t[0] <= m,
                xc >= 1,
                m >= 0,
        ;
    } else {
        let d = (c - 2) as nat;
        lemma_eval_magnitude(t, cb, (c - 1) as nat, m);
        let xd = two_pow(d * cb) as int;
        lemma_two_pow_pos(d * cb);
        assert(((c - 1) * cb) as nat == d * cb + cb) by (nonlinear_arith)
            requires
                d == c - 2,
        ;
        lemma_two_pow_add(d * cb, cb);
        lemma_two_pow_monotone(1, cb);
        assert(two_pow(1) == 2) by {
            assert(two_pow(0) == 1);
        }
        let xb = two_pow(cb) as int;
        assert(xc == xd * xb);
        let e = eval_at(t, cb, (c - 1) as nat);
        let tl = t[c - 1];
        assert(-(2 * m * xc) <= e + tl * xc <= 2 * m * xc) by (nonlinear_arith)
            requires
                -(2 * m * xd) <= e <= 2 * m * xd,
                -m <= tl <= m,
                xc == xd * xb,
                xb >= 2,
                xd >= 1,
                m >= 0,
        ;
    }
}

/// The reconstruction of the negacyclic coefficients is the product: when
/// the slots of `m` are canonical and congruent to the negacyclic
/// convolution of the chunks of `left` and `right` (both below `2^N`, with
/// `N = k cb`), the ring leaves room for the coefficients' sign, and the
/// accumulator of `len` limbs holds the biased sum and at most two outer
/// coefficients, then the folded accumulator is `left * right` modulo
/// `2^N + 1`.
pub proof fn lemma_reconstructed_product(
    left: Seq<Limb>,
    right: Seq<Limb>,
    m: Seq<Limb>,
    k: nat,
    log: nat,
    cb: nat,
    nl: nat,
    no: nat,
    len: nat,
)
    requires
        nl >= 1,
        no >= 1,
        cb >= 1,
        k >= 1,
        k == two_pow(log),
        k * cb == 64 * no,
        2 * cb + log + 1 <= 64 * nl,
        len <= 2 * no,
        64 * no + cb + log + 2 <= 64 * len,
        val(left) < pow_b(no),
        val(right) < pow_b(no),
        m.len() >= k * (nl + 1),
        forall|j: int|
            #![trigger slot_at(m, j, nl + 1int)]
            0 <= j < k ==> {
                &&& canonical(slot_at(m, j, nl + 1int), nl)
                &&& slot_at(m, j, nl + 1int).len() >= nl + 1
                &&& residue(slot_at(m, j, nl + 1int), nl) == negacyclic_sum(
                    chunk_seq(left, k, cb),
                    chunk_seq(right, k, cb),
                    j as nat,
                    k,
                    k,
                ) % (fermat_modulus(nl) as int)
            },
    ensures
        ({
            let t = coefficient_sum(m, k, nl + 1, nl, cb);
            let f = fermat_modulus(no) as int;
            &&& 0 < f + t < pow_b(len)
            &&& folded_value(((f + t) % (pow_b(len) as int)) as nat, len, no) % f == ((val(left) * val(
                right,
            )) as int) % f
        }),
{
    let a = chunk_seq(left, k, cb);
    let b = chunk_seq(right, k, cb);
    let xn = two_pow(k * cb) as int;
    let f = fermat_modulus(no) as int;
    lemma_two_pow_limbs(no);
    lemma_pow_b_pos(no);
    assert(xn == pow_b(no));
    // Chunks lie in [0, 2^cb).
    let mm = two_pow(cb) as int - 1;
    lemma_two_pow_pos(cb);
    assert forall|i: int| 0 <= i < k implies 0 <= #[trigger] a[i] <= mm by {}
    assert forall|i: int| 0 <= i < k implies 0 <= #[trigger] b[i] <= mm by {}
    // The chunks evaluate to the operands.
    lemma_chunk_eval(left, k, cb, k);
    lemma_chunk_eval(right, k, cb, k);
    lemma_chunks_recompose(left, k, cb);
    lemma_chunks_recompose(right, k, cb);
    lemma_small_mod(val(left), two_pow(k * cb));
    lemma_small_mod(val(right), two_pow(k * cb));
    lemma_negacyclic_evaluation(a, b, k, cb);
    let w = eval_at(neg_seq(a, b, k, k), cb, k);
    let nega = nega_seq(a, b, k);
    // Each coefficient has magnitude at most k (2^cb - 1)^2 < 2^(2 cb + log).
    let bound = k * (mm * mm);
    let sign = two_pow((64 * nl - 1) as nat) as int;
    lemma_two_pow_add(cb, cb);
    lemma_two_pow_add(log, 2 * cb);
    let xb = two_pow(cb) as int;
    assert(bound < two_pow(log + 2 * cb)) by (nonlinear_arith)
        requires
            bound == k * (mm * mm),
            mm == xb - 1,
            xb >= 1,
            k >= 1,
            two_pow(log + 2 * cb) == k * two_pow(cb + cb),
            two_pow(cb + cb) == xb * xb,
    ;
    assert(cb + cb == 2 * cb);
    lemma_two_pow_monotone(log + 2 * cb, (64 * nl - 1) as nat);
    assert forall|j: int| 0 <= j < k implies -bound <= #[trigger] nega[j] <= bound by {
        lemma_negacyclic_bound(a, b, j as nat, k, k, mm);
    }
    // The slots read as the coefficients.
    assert forall|j: int| 0 <= j < k implies signed_coefficient(#[trigger] slot_at(m, j, (nl + 1) as int), nl)
        == nega[j] by {
        assert(slot_at(m, j, (nl + 1) as int) == slot_at(m, j, nl + 1int));
        lemma_signed_reading(slot_at(m, j, nl + 1int), nl, nega[j]);
    }
    lemma_coefficient_eval(m, nega, k, nl + 1, nl, cb);
    let t = coefficient_sum(m, k, nl + 1, nl, cb);
    assert(t == eval_at(nega, cb, k));
    // |t| <= 2 bound 2^((k - 1) cb) < 2^(N + cb + log + 1).
    lemma_eval_magnitude(nega, cb, k, bound);
    let xtop = two_pow(((k - 1) * cb) as nat) as int;
    lemma_two_pow_pos(((k - 1) * cb) as nat);
    assert(((k - 1) * cb) as nat + cb == k * cb) by (nonlinear_arith)
        requires
            k >= 1,
    ;
    lemma_two_pow_add(((k - 1) * cb) as nat, cb);
    lemma_two_pow_add(k * cb, cb + log);
    lemma_two_pow_add(cb, log);
    lemma_two_pow_add(k * cb + cb + log, 2);
    assert(two_pow(2) == 4) by {
        assert(two_pow(0) == 1);
        assert(two_pow(1) == 2);
    }
    let big = two_pow(k * cb + cb + log) as int;
    assert(2 * bound * xtop < 2 * big) by (nonlinear_arith)
        requires
            bound < two_pow(log + 2 * cb),
            two_pow(log + 2 * cb) == k * two_pow(cb + cb),
            two_pow(cb + cb) == xb * xb,
            xtop * xb == xn,
            big == xn * (xb * k),
            xtop >= 1,
            bound >= 0,
    ;
    assert(xn <= big) by (nonlinear_arith)
        requires
            big == xn * (xb * k),
            xb >= 1,
            k >= 1,
            xn >= 1,
    ;
    lemma_two_pow_monotone(k * cb + cb + log + 2, 64 * len);
    lemma_two_pow_limbs(len);
    assert(t > -xn);
    assert(f + t < pow_b(len)) by (nonlinear_arith)
        requires
            f == xn + 1,
            t <= 2 * bound * xtop,
            2 * bound * xtop < 2 * big,
            xn <= big,
            two_pow(k * cb + cb + log + 2) == big * 4,
            two_pow(k * cb + cb + log + 2) <= pow_b(len),
    ;
    lemma_small_mod((f + t) as nat, pow_b(len));
    lemma_fold_keeps_residue((f + t) as nat, len, no);
    // f + t = f (1 - w) + P Q, congruent to P Q.
    let pq = (val(left) * val(right)) as int;
    assert(f + t == pq + f * (1 - w)) by (nonlinear_arith)
        requires
            t == pq - (xn + 1) * w,
            f == xn + 1,
    ;
    lemma_mod_multiples_vanish(1 - w, pq, f);
    lemma_mul_is_commutative(f, 1 - w);
}

} // verus!
