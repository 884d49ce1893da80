//! The convolution theorem of the Fermat-ring transform: transforming two
//! sequences, multiplying them frequency by frequency and transforming back
//! with the inverse root gives `K` times their cyclic convolution.

use crate::limbs::lemma_pow_b_pos;
use crate::num::two_pow;
use crate::ssa::dft::{bit_reverse, is_power_of_two, lemma_reversed_root, power_sum, reversed_sum};
use crate::ssa::entry::lemma_two_pow_add;
use crate::ssa::inversion::{
    lemma_reversed_congruent, lemma_reversed_zero, lemma_root_sum_cross, lemma_swap_sums, ones,
    partial_transform, root_sum, weighted_root_sums,
};
use crate::ssa::ring::fermat_modulus;
use vstd::arithmetic::div_mod::*;
use vstd::arithmetic::mul::*;
use vstd::prelude::*;

verus! {

/// `sum_{i < c} x[i] * y[(j - i) mod k]`: slot `j` of the cyclic convolution
/// of `x` and `y`, over the first `c` terms.
pub open spec fn cyclic_sum(x: Seq<int>, y: Seq<int>, j: nat, k: nat, c: nat) -> int
    decreases c,
{
    if c == 0 {
        0
    } else {
        cyclic_sum(x, y, j, k, (c - 1) as nat) + x[c - 1] * y[((j + k - (c - 1)) as nat % k) as int]
    }
}

/// The forward values of `x` over its first `c` inputs, each times `wt[p]`.
pub open spec fn weighted_transform(x: Seq<int>, wt: Seq<int>, r: nat, k: nat, c: nat) -> Seq<int> {
    Seq::new(k, |p: int| power_sum(x, r * bit_reverse(p as nat, k), c) * wt[p])
}

/// `sum_{i < c} x[i] * reversed_sum(wt, r i + s)`.
pub open spec fn outer_sums(x: Seq<int>, wt: Seq<int>, r: nat, s: nat, k: nat, c: nat) -> int
    decreases c,
{
    if c == 0 {
        0
    } else {
        outer_sums(x, wt, r, s, k, (c - 1) as nat) + x[c - 1] * reversed_sum(wt, r * (c - 1) as nat + s, k, k)
    }
}

/// Adding input `c` adds `x[c] * reversed_sum(wt, r c + s)`.
proof fn lemma_weighted_step(x: Seq<int>, wt: Seq<int>, r: nat, s: nat, k: nat, c: nat, q: nat)
    requires
        c < x.len(),
        q <= k,
    ensures
        reversed_sum(weighted_transform(x, wt, r, k, c + 1), s, k, q) == reversed_sum(
            weighted_transform(x, wt, r, k, c),
            s,
            k,
            q,
        ) + x[c as int] * reversed_sum(wt, r * c + s, k, q),
    decreases q,
{
    if q > 0 {
        let i = (q - 1) as nat;
        lemma_weighted_step(x, wt, r, s, k, c, i);
        let b = bit_reverse(i, k);
        let a0 = power_sum(x, r * b, c);
        let tc = two_pow((r * b) * c) as int;
        let tb = two_pow(s * b) as int;
        let w = wt[i as int];
        let xc = x[c as int];
        assert(weighted_transform(x, wt, r, k, c + 1)[i as int] == (a0 + xc * tc) * w);
        assert(weighted_transform(x, wt, r, k, c)[i as int] == a0 * w);
        lemma_two_pow_add((r * b) * c, s * b);
        assert((r * b) * c + s * b == (r * c + s) * b) by (nonlinear_arith);
        let te = two_pow((r * c + s) * b) as int;
        assert(te == tc * tb);
        assert((a0 + xc * tc) * w * tb == a0 * w * tb + xc * (w * te)) by (nonlinear_arith)
            requires
                te == tc * tb,
        ;
        let prev = reversed_sum(wt, r * c + s, k, i);
        assert(xc * (prev + w * te) == xc * prev + xc * (w * te)) by (nonlinear_arith);
    }
}

/// Swapping the sums: the bit-reversed sum of the weighted forward values is
/// `sum_i x[i] * reversed_sum(wt, r i + s)`.
proof fn lemma_outer_swap(x: Seq<int>, wt: Seq<int>, r: nat, s: nat, k: nat, c: nat)
    requires
        c <= x.len(),
    ensures
        reversed_sum(weighted_transform(x, wt, r, k, c), s, k, k) == outer_sums(x, wt, r, s, k, c),
    decreases c,
{
    if c == 0 {
        assert forall|p: int| 0 <= p < k implies weighted_transform(x, wt, r, k, 0)[p] == 0 by {
            lemma_mul_basics(wt[p]);
        }
        lemma_reversed_zero(weighted_transform(x, wt, r, k, 0), s, k, k);
    } else {
        let i = (c - 1) as nat;
        lemma_outer_swap(x, wt, r, s, k, i);
        lemma_weighted_step(x, wt, r, s, k, i, k);
    }
}

/// `2^(r k)` is one: `r k` is a multiple of `2n`.
proof fn lemma_full_turn(r: nat, k: nat, ml: nat)
    requires
        ml >= 1,
        k >= 2,
        k % 2 == 0,
        (r * (k / 2)) % (128 * ml) == 64 * ml,
    ensures
        (r * k) % (128 * ml) == 0,
{
    let p = (128 * ml) as int;
    let c = (r * (k / 2)) as int / p;
    lemma_fundamental_div_mod((r * (k / 2)) as int, p);
    assert(r * k == p * (2 * c + 1)) by (nonlinear_arith)
        requires
            r * (k / 2) == p * c + 64 * ml,
            k == 2 * (k / 2),
            p == 128 * ml,
    ;
    lemma_mod_multiples_basic(2 * c + 1, p);
    lemma_mul_is_commutative(2 * c + 1, p);
}

/// Only the term `l = (j - i) mod k` of `sum_l y[l] * S(r (i + l) + u j)`
/// survives, with weight `k`.
proof fn lemma_inner_diagonal(y: Seq<int>, r: nat, i: nat, j: nat, k: nat, c: nat, ml: nat)
    requires
        ml >= 1,
        is_power_of_two(k),
        r < 128 * ml,
        k >= 2 ==> (r * (k / 2)) % (128 * ml) == 64 * ml,
        i < k,
        j < k,
        c <= k,
        y.len() == k,
    ensures
        weighted_root_sums(y, r, r * i + ((128 * ml - r) as nat) * j, k, c) % (fermat_modulus(ml) as int) == (
        if ((j + k - i) as nat % k) < c {
            k * y[((j + k - i) as nat % k) as int]
        } else {
            0int
        }) % (fermat_modulus(ml) as int),
    decreases c,
{
    let f = fermat_modulus(ml) as int;
    lemma_pow_b_pos(ml);
    let u = (128 * ml - r) as nat;
    let s = r * i + u * j;
    let t = (j + k - i) as nat % k;
    if c == 0 {
        lemma_small_mod(0, f as nat);
    } else {
        let l = (c - 1) as nat;
        lemma_inner_diagonal(y, r, i, j, k, l, ml);
        let e = r * l + s;
        // Reduce the index i + l below k.
        let m = if i + l >= k {
            (i + l - k) as nat
        } else {
            i + l
        };
        assert(e % (128 * ml) == (r * m + u * j) % (128 * ml)) by {
            if i + l >= k {
                assert(k >= 2);
                assert(k % 2 == 0);
                lemma_full_turn(r, k, ml);
                let q = (r * k) / (128 * ml);
                lemma_fundamental_div_mod((r * k) as int, (128 * ml) as int);
                assert(e == (r * m + u * j) + (128 * ml) * q) by (nonlinear_arith)
                    requires
                        e == r * l + s,
                        s == r * i + u * j,
                        m == i + l - k,
                        r * k == (128 * ml) * q,
                ;
                lemma_mod_multiples_vanish(q as int, (r * m + u * j) as int, (128 * ml) as int);
            } else {
                assert(e == r * m + u * j) by (nonlinear_arith)
                    requires
                        e == r * l + s,
                        s == r * i + u * j,
                        m == i + l,
                ;
            }
        }
        lemma_reversed_root(ones(k), e, r * m + u * j, k, k, ml);
        lemma_root_sum_cross(r, m, j, k, ml);
        // m == j exactly when l == t.
        assert((m == j) == (l == t)) by {
            if j + k - i >= k {
                lemma_fundamental_div_mod_converse((j + k - i) as int, k as int, 1, (j - i) as int);
            } else {
                lemma_small_mod((j + k - i) as nat, k);
            }
        }
        let rs = root_sum(e, k);
        let prev = weighted_root_sums(y, r, s, k, l);
        lemma_mul_mod_noop_right(y[l as int], rs, f);
        lemma_add_mod_noop(prev, y[l as int] * rs, f);
        lemma_small_mod(0, f as nat);
        if m == j {
            lemma_mul_mod_noop_right(y[l as int], k as int, f);
            lemma_mul_is_commutative(y[l as int], k as int);
            lemma_add_mod_noop(0, k * y[t as int], f);
        } else {
            lemma_mul_basics(y[l as int]);
            let target = if t < l {
                k * y[t as int]
            } else {
                0int
            };
            lemma_add_mod_noop(target, 0, f);
        }
    }
}

/// The outer sum is `k` times the cyclic convolution.
proof fn lemma_outer_diagonal(x: Seq<int>, y: Seq<int>, r: nat, j: nat, k: nat, c: nat, ml: nat)
    requires
        ml >= 1,
        is_power_of_two(k),
        r < 128 * ml,
        k >= 2 ==> (r * (k / 2)) % (128 * ml) == 64 * ml,
        j < k,
        c <= k,
        x.len() == k,
        y.len() == k,
    ensures
        outer_sums(x, partial_transform(y, r, k, k), r, ((128 * ml - r) as nat) * j, k, c) % (fermat_modulus(
            ml,
        ) as int) == (k * cyclic_sum(x, y, j, k, c)) % (fermat_modulus(ml) as int),
    decreases c,
{
    let f = fermat_modulus(ml) as int;
    lemma_pow_b_pos(ml);
    let u = (128 * ml - r) as nat;
    let s = u * j;
    let wt = partial_transform(y, r, k, k);
    if c > 0 {
        let i = (c - 1) as nat;
        lemma_outer_diagonal(x, y, r, j, k, i, ml);
        lemma_swap_sums(y, r, r * i + s, k, k);
        lemma_inner_diagonal(y, r, i, j, k, k, ml);
        let t = (j + k - i) as nat % k;
        lemma_mod_bound((j + k - i) as int, k as int);
        let inner = reversed_sum(wt, r * i + s, k, k);
        let prev = outer_sums(x, wt, r, s, k, i);
        let cprev = cyclic_sum(x, y, j, k, i);
        lemma_mul_mod_noop_right(x[i as int], inner, f);
        lemma_mul_mod_noop_right(x[i as int], k * y[t as int], f);
        lemma_add_mod_noop(prev, x[i as int] * inner, f);
        lemma_add_mod_noop(k * cprev, x[i as int] * (k * y[t as int]), f);
        assert(k * (cprev + x[i as int] * y[t as int]) == k * cprev + x[i as int] * (k * y[t as int]))
            by (nonlinear_arith);
    }
}

/// The convolution theorem: when `xf` and `yf` hold the bit-reversed
/// frequencies of `x` and `y` under the root `2^r` (what `fft_in_place`
/// leaves going forward), `z` their products frequency by frequency, and
/// `w[j]` the inverse transform of `z` (what `fft_in_place` leaves going
/// back), then `w[j]` is `k` times slot `j` of the cyclic convolution of `x`
/// and `y`, modulo `2^n + 1`.
pub proof fn lemma_cyclic_convolution(
    x: Seq<int>,
    y: Seq<int>,
    xf: Seq<int>,
    yf: Seq<int>,
    z: Seq<int>,
    w: Seq<int>,
    k: nat,
    r: nat,
    ml: nat,
)
    requires
        ml >= 1,
        is_power_of_two(k),
        x.len() == k,
        y.len() == k,
        xf.len() == k,
        yf.len() == k,
        z.len() == k,
        w.len() == k,
        r < 128 * ml,
        k >= 2 ==> (r * (k / 2)) % (128 * ml) == 64 * ml,
        forall|p: int|
            0 <= p < k ==> #[trigger] xf[p] % (fermat_modulus(ml) as int) == power_sum(
                x,
                r * bit_reverse(p as nat, k),
                k,
            ) % (fermat_modulus(ml) as int),
        forall|p: int|
            0 <= p < k ==> #[trigger] yf[p] % (fermat_modulus(ml) as int) == power_sum(
                y,
                r * bit_reverse(p as nat, k),
                k,
            ) % (fermat_modulus(ml) as int),
        forall|p: int|
            0 <= p < k ==> #[trigger] z[p] % (fermat_modulus(ml) as int) == (xf[p] * yf[p]) % (fermat_modulus(
                ml,
            ) as int),
        forall|j: int|
            0 <= j < k ==> #[trigger] w[j] % (fermat_modulus(ml) as int) == reversed_sum(
                z,
                ((128 * ml - r) as nat) * (j as nat),
                k,
                k,
            ) % (fermat_modulus(ml) as int),
    ensures
        forall|j: int|
            0 <= j < k ==> #[trigger] w[j] % (fermat_modulus(ml) as int) == (k * cyclic_sum(x, y, j as nat, k, k))
                % (fermat_modulus(ml) as int),
{
    let f = fermat_modulus(ml) as int;
    lemma_pow_b_pos(ml);
    let wt = partial_transform(y, r, k, k);
    let prod = weighted_transform(x, wt, r, k, k);
    assert forall|p: int| 0 <= p < k implies #[trigger] z[p] % f == prod[p] % f by {
        let a = power_sum(x, r * bit_reverse(p as nat, k), k);
        let b = power_sum(y, r * bit_reverse(p as nat, k), k);
        assert(prod[p] == a * b);
        lemma_mul_mod_noop(xf[p], yf[p], f);
        lemma_mul_mod_noop(a, b, f);
    }
    assert forall|j: int| 0 <= j < k implies #[trigger] w[j] % f == (k * cyclic_sum(x, y, j as nat, k, k)) % f by {
        let s = ((128 * ml - r) as nat) * (j as nat);
        lemma_reversed_congruent(z, prod, s, k, k, f);
        lemma_outer_swap(x, wt, r, s, k, k);
        lemma_outer_diagonal(x, y, r, j as nat, k, k, ml);
    }
}

} // verus!
