//! The negacyclic product of two chunk sequences, evaluated at `X = 2^cb`:
//! its terms that did not wrap and those that did recombine to the product of
//! the evaluations, `P(X) Q(X) = pos(X) + X^K neg(X)`, so the negacyclic
//! value `pos(X) - neg(X)` is the product modulo `X^K + 1`.

use crate::num::{lemma_two_pow_pos, two_pow};
use crate::ssa::entry::lemma_two_pow_add;
use crate::ssa::twist::negacyclic_sum;
use vstd::arithmetic::mul::*;
use vstd::prelude::*;

verus! {

/// `sum_{j < count} s[j] * 2^(j * cb)`.
pub open spec fn eval_at(s: Seq<int>, cb: nat, count: nat) -> int
    decreases count,
{
    if count == 0 {
        0
    } else {
        eval_at(s, cb, (count - 1) as nat) + s[count - 1] * two_pow(((count - 1) * cb) as nat)
    }
}

/// The terms `a[i] b[j - i]`, `i < c`, that land on slot `j` without wrapping.
pub open spec fn pos_sum(a: Seq<int>, b: Seq<int>, j: nat, c: nat) -> int
    decreases c,
{
    if c == 0 {
        0
    } else {
        let i = (c - 1) as nat;
        pos_sum(a, b, j, i) + if i <= j {
            a[i as int] * b[j - i]
        } else {
            0
        }
    }
}

/// The terms `a[i] b[j + k - i]`, `i < c`, that wrap around onto slot `j`.
pub open spec fn neg_sum(a: Seq<int>, b: Seq<int>, j: nat, k: nat, c: nat) -> int
    decreases c,
{
    if c == 0 {
        0
    } else {
        let i = (c - 1) as nat;
        neg_sum(a, b, j, k, i) + if i <= j {
            0
        } else {
            a[i as int] * b[j + k - i]
        }
    }
}

pub open spec fn pos_seq(a: Seq<int>, b: Seq<int>, k: nat, c: nat) -> Seq<int> {
    Seq::new(k, |j: int| pos_sum(a, b, j as nat, c))
}

pub open spec fn neg_seq(a: Seq<int>, b: Seq<int>, k: nat, c: nat) -> Seq<int> {
    Seq::new(k, |j: int| neg_sum(a, b, j as nat, k, c))
}

pub open spec fn nega_seq(a: Seq<int>, b: Seq<int>, k: nat) -> Seq<int> {
    Seq::new(k, |j: int| negacyclic_sum(a, b, j as nat, k, k))
}

/// `sum_{j < min(q, c)} b[j + k - c] * 2^(j * cb)`.
spec fn rot_sum(b: Seq<int>, c: nat, k: nat, cb: nat, q: nat) -> int
    decreases q,
{
    if q == 0 {
        0
    } else {
        rot_sum(b, c, k, cb, (q - 1) as nat) + if q - 1 < c {
            b[q - 1 + k - c] * two_pow(((q - 1) * cb) as nat)
        } else {
            0
        }
    }
}

proof fn lemma_nega_split(a: Seq<int>, b: Seq<int>, j: nat, k: nat, c: nat)
    ensures
        negacyclic_sum(a, b, j, k, c) == pos_sum(a, b, j, c) - neg_sum(a, b, j, k, c),
    decreases c,
{
    if c > 0 {
        lemma_nega_split(a, b, j, k, (c - 1) as nat);
    }
}

/// `2^(a cb) 2^(b cb) = 2^((a + b) cb)`.
proof fn lemma_pow_cb(x: nat, y: nat, cb: nat)
    ensures
        two_pow(x * cb) * two_pow(y * cb) == two_pow((x + y) * cb),
{
    lemma_two_pow_add(x * cb, y * cb);
    assert(x * cb + y * cb == (x + y) * cb) by (nonlinear_arith);
}

/// Adding input `c` to the unwrapped terms adds `a[c] X^c Q(X)` over the
/// slots from `c` on.
proof fn lemma_pos_step(a: Seq<int>, b: Seq<int>, k: nat, c: nat, cb: nat, q: nat)
    requires
        c < a.len(),
        q <= k,
        k <= b.len() + c,
    ensures
        q >= c ==> eval_at(pos_seq(a, b, k, c + 1), cb, q) == eval_at(pos_seq(a, b, k, c), cb, q) + a[c as int]
            * (two_pow(c * cb) * eval_at(b, cb, (q - c) as nat)),
        q < c ==> eval_at(pos_seq(a, b, k, c + 1), cb, q) == eval_at(pos_seq(a, b, k, c), cb, q),
    decreases q,
{
    assert(eval_at(b, cb, 0) == 0);
    lemma_mul_basics(two_pow(c * cb) as int);
    lemma_mul_basics(a[c as int]);
    if q > 0 {
        let j = (q - 1) as nat;
        lemma_pos_step(a, b, k, c, cb, j);
        let xj = two_pow(j * cb) as int;
        let p1 = pos_seq(a, b, k, c + 1)[j as int];
        let p0 = pos_seq(a, b, k, c)[j as int];
        let e1 = eval_at(pos_seq(a, b, k, c + 1), cb, j);
        let e0 = eval_at(pos_seq(a, b, k, c), cb, j);
        assert(eval_at(pos_seq(a, b, k, c + 1), cb, q) == e1 + p1 * xj);
        assert(eval_at(pos_seq(a, b, k, c), cb, q) == e0 + p0 * xj);
        let ac = a[c as int];
        if c <= j {
            let l = (j - c) as nat;
            lemma_pow_cb(c, l, cb);
            assert(c + l == j);
            let xc = two_pow(c * cb) as int;
            let xl = two_pow(l * cb) as int;
            let bl = b[l as int];
            assert(p1 == p0 + ac * bl);
            let prev = eval_at(b, cb, l);
            assert(eval_at(b, cb, (q - c) as nat) == prev + bl * xl) by {
                assert((q - c) as nat == l + 1);
            }
            assert(e1 == e0 + ac * (xc * prev));
            lemma_mul_is_distributive_add_other_way(xj, p0, ac * bl);
            assert((ac * bl) * xj == ac * (xc * (bl * xl))) by (nonlinear_arith)
                requires
                    xj == xc * xl,
            ;
            lemma_mul_is_distributive_add(xc, prev, bl * xl);
            lemma_mul_is_distributive_add(ac, xc * prev, xc * (bl * xl));
        } else {
            assert(p1 == p0);
        }
    }
}

/// Adding input `c` to the wrapped terms adds `a[c]` times `rot_sum`.
proof fn lemma_neg_step(a: Seq<int>, b: Seq<int>, k: nat, c: nat, cb: nat, q: nat)
    requires
        c < a.len(),
        q <= k,
    ensures
        eval_at(neg_seq(a, b, k, c + 1), cb, q) == eval_at(neg_seq(a, b, k, c), cb, q) + a[c as int] * rot_sum(
            b,
            c,
            k,
            cb,
            q,
        ),
    decreases q,
{
    if q > 0 {
        let j = (q - 1) as nat;
        lemma_neg_step(a, b, k, c, cb, j);
        let xj = two_pow(j * cb) as int;
        let ac = a[c as int];
        let n1 = neg_seq(a, b, k, c + 1)[j as int];
        let n0 = neg_seq(a, b, k, c)[j as int];
        let e1 = eval_at(neg_seq(a, b, k, c + 1), cb, j);
        let e0 = eval_at(neg_seq(a, b, k, c), cb, j);
        let r0 = rot_sum(b, c, k, cb, j);
        assert(eval_at(neg_seq(a, b, k, c + 1), cb, q) == e1 + n1 * xj);
        assert(eval_at(neg_seq(a, b, k, c), cb, q) == e0 + n0 * xj);
        if j < c {
            let bb = b[j + k - c];
            assert(n1 == n0 + ac * bb);
            assert(rot_sum(b, c, k, cb, q) == r0 + bb * xj);
            assert(e1 + n1 * xj == e0 + n0 * xj + ac * (r0 + bb * xj)) by (nonlinear_arith)
                requires
                    e1 == e0 + ac * r0,
                    n1 == n0 + ac * bb,
            ;
        } else {
            assert(n1 == n0);
            assert(rot_sum(b, c, k, cb, q) == r0);
        }
    }
}

/// `X^k` times the wrapped row is `X^c` times the top `c` terms of `Q`.
proof fn lemma_rot_shift(b: Seq<int>, c: nat, k: nat, cb: nat, q: nat)
    requires
        c <= k,
        q <= c,
        k <= b.len(),
    ensures
        two_pow(k * cb) * rot_sum(b, c, k, cb, q) == two_pow(c * cb) * (eval_at(b, cb, (k - c + q) as nat)
            - eval_at(b, cb, (k - c) as nat)),
    decreases q,
{
    let xk = two_pow(k * cb) as int;
    let xc = two_pow(c * cb) as int;
    if q == 0 {
        lemma_mul_basics(xk);
        lemma_mul_basics(xc);
    } else {
        let j = (q - 1) as nat;
        lemma_rot_shift(b, c, k, cb, j);
        let l = (k - c + j) as nat;
        lemma_pow_cb(k, j, cb);
        lemma_pow_cb(c, l, cb);
        assert(k + j == c + l);
        let xj = two_pow(j * cb) as int;
        let xl = two_pow(l * cb) as int;
        let bb = b[l as int];
        assert(j + k - c == l);
        let r = rot_sum(b, c, k, cb, j);
        let e0 = eval_at(b, cb, l);
        let e1 = eval_at(b, cb, (k - c) as nat);
        assert(xk * (r + bb * xj) == xc * (e0 + bb * xl - e1)) by (nonlinear_arith)
            requires
                xk * r == xc * (e0 - e1),
                xk * xj == xc * xl,
        ;
    }
}

/// `P(X) Q(X) = pos(X) + X^k neg(X)` over the first `c` inputs of `a`.
proof fn lemma_product_split(a: Seq<int>, b: Seq<int>, k: nat, c: nat, cb: nat)
    requires
        c <= k,
        a.len() == k,
        b.len() == k,
    ensures
        eval_at(pos_seq(a, b, k, c), cb, k) + two_pow(k * cb) * eval_at(neg_seq(a, b, k, c), cb, k) == eval_at(
            a,
            cb,
            c,
        ) * eval_at(b, cb, k),
    decreases c,
{
    let xk = two_pow(k * cb) as int;
    let qb = eval_at(b, cb, k);
    if c == 0 {
        assert forall|j: int| 0 <= j < k implies pos_seq(a, b, k, 0)[j] == 0 by {}
        assert forall|j: int| 0 <= j < k implies neg_seq(a, b, k, 0)[j] == 0 by {}
        lemma_eval_zero(pos_seq(a, b, k, 0), cb, k);
        lemma_eval_zero(neg_seq(a, b, k, 0), cb, k);
        lemma_mul_basics(xk);
        lemma_mul_basics(qb);
    } else {
        let i = (c - 1) as nat;
        lemma_product_split(a, b, k, i, cb);
        lemma_pos_step(a, b, k, i, cb, k);
        lemma_neg_step(a, b, k, i, cb, k);
        lemma_rot_shift(b, i, k, cb, i);
        lemma_rot_full(b, i, k, cb, k);
        let xi = two_pow(i * cb) as int;
        let ai = a[i as int];
        let p0 = eval_at(pos_seq(a, b, k, i), cb, k);
        let n0 = eval_at(neg_seq(a, b, k, i), cb, k);
        let ea = eval_at(a, cb, i);
        let lo = eval_at(b, cb, (k - i) as nat);
        let r = rot_sum(b, i, k, cb, k);
        assert(k - i + i == k);
        assert(xk * (n0 + ai * r) == xk * n0 + ai * (xk * r)) by (nonlinear_arith);
        assert(ai * (xi * lo) + ai * (xi * (qb - lo)) == ai * xi * qb) by (nonlinear_arith);
        assert((ea + ai * xi) * qb == ea * qb + ai * xi * qb) by (nonlinear_arith);
    }
}

/// Past `c`, the wrapped row stops growing.
proof fn lemma_rot_full(b: Seq<int>, c: nat, k: nat, cb: nat, q: nat)
    requires
        c <= q,
    ensures
        rot_sum(b, c, k, cb, q) == rot_sum(b, c, k, cb, c),
    decreases q,
{
    if q > c {
        lemma_rot_full(b, c, k, cb, (q - 1) as nat);
    }
}

proof fn lemma_eval_zero(s: Seq<int>, cb: nat, count: nat)
    requires
        count <= s.len(),
        forall|j: int| 0 <= j < count ==> s[j] == 0,
    ensures
        eval_at(s, cb, count) == 0,
    decreases count,
{
    if count > 0 {
        lemma_eval_zero(s, cb, (count - 1) as nat);
        lemma_mul_basics(two_pow(((count - 1) * cb) as nat) as int);
    }
}

/// The negacyclic row is the unwrapped row minus the wrapped one.
proof fn lemma_nega_eval(a: Seq<int>, b: Seq<int>, k: nat, cb: nat, q: nat)
    requires
        q <= k,
    ensures
        eval_at(nega_seq(a, b, k), cb, q) == eval_at(pos_seq(a, b, k, k), cb, q) - eval_at(
            neg_seq(a, b, k, k),
            cb,
            q,
        ),
    decreases q,
{
    if q > 0 {
        let j = (q - 1) as nat;
        lemma_nega_eval(a, b, k, cb, j);
        lemma_nega_split(a, b, j, k, k);
        lemma_mul_is_distributive_sub_other_way(
            two_pow((j * cb) as nat) as int,
            pos_sum(a, b, j, k),
            neg_sum(a, b, j, k, k),
        );
    }
}

/// Rows of nonnegative terms evaluate to nonnegative values.
proof fn lemma_eval_nonnegative(s: Seq<int>, cb: nat, count: nat)
    requires
        count <= s.len(),
        forall|j: int| 0 <= j < count ==> s[j] >= 0,
    ensures
        eval_at(s, cb, count) >= 0,
    decreases count,
{
    if count > 0 {
        lemma_eval_nonnegative(s, cb, (count - 1) as nat);
        lemma_two_pow_pos(((count - 1) * cb) as nat);
        lemma_mul_nonnegative(s[count - 1], two_pow(((count - 1) * cb) as nat) as int);
    }
}

proof fn lemma_pos_nonnegative(a: Seq<int>, b: Seq<int>, j: nat, c: nat)
    requires
        c <= a.len(),
        forall|i: int| 0 <= i < a.len() ==> #[trigger] a[i] >= 0,
        forall|i: int| 0 <= i < b.len() ==> #[trigger] b[i] >= 0,
        j < b.len(),
    ensures
        pos_sum(a, b, j, c) >= 0,
    decreases c,
{
    if c > 0 {
        let i = (c - 1) as nat;
        lemma_pos_nonnegative(a, b, j, i);
        if i <= j {
            lemma_mul_nonnegative(a[i as int], b[j - i]);
        }
    }
}

proof fn lemma_neg_nonnegative(a: Seq<int>, b: Seq<int>, j: nat, k: nat, c: nat)
    requires
        c <= a.len(),
        a.len() == k,
        b.len() == k,
        forall|i: int| 0 <= i < a.len() ==> #[trigger] a[i] >= 0,
        forall|i: int| 0 <= i < b.len() ==> #[trigger] b[i] >= 0,
        j < k,
    ensures
        neg_sum(a, b, j, k, c) >= 0,
    decreases c,
{
    if c > 0 {
        let i = (c - 1) as nat;
        lemma_neg_nonnegative(a, b, j, k, i);
        if i > j {
            lemma_mul_nonnegative(a[i as int], b[j + k - i]);
        }
    }
}

/// The negacyclic value of the two rows is their product modulo `X^k + 1`
/// and lies above `-X^k` when both values are below `X^k`: with
/// `P = eval(a)`, `Q = eval(b)` and `T = eval(nega(a, b))`,
/// `T = P Q - (X^k + 1) W` for some `0 <= W < X^k`.
pub proof fn lemma_negacyclic_evaluation(a: Seq<int>, b: Seq<int>, k: nat, cb: nat)
    requires
        a.len() == k,
        b.len() == k,
        forall|i: int| 0 <= i < k ==> #[trigger] a[i] >= 0,
        forall|i: int| 0 <= i < k ==> #[trigger] b[i] >= 0,
        eval_at(a, cb, k) < two_pow(k * cb),
        eval_at(b, cb, k) < two_pow(k * cb),
    ensures
        ({
            let w = eval_at(neg_seq(a, b, k, k), cb, k);
            &&& 0 <= w < two_pow(k * cb)
            &&& eval_at(nega_seq(a, b, k), cb, k) + w >= 0
            &&& eval_at(nega_seq(a, b, k), cb, k) == eval_at(a, cb, k) * eval_at(b, cb, k) - (two_pow(k * cb)
                + 1) * w
        }),
{
    let xk = two_pow(k * cb) as int;
    lemma_product_split(a, b, k, k, cb);
    lemma_nega_eval(a, b, k, cb, k);
    assert forall|j: int| 0 <= j < k implies pos_seq(a, b, k, k)[j] >= 0 by {
        lemma_pos_nonnegative(a, b, j as nat, k);
    }
    assert forall|j: int| 0 <= j < k implies neg_seq(a, b, k, k)[j] >= 0 by {
        lemma_neg_nonnegative(a, b, j as nat, k, k);
    }
    lemma_eval_nonnegative(pos_seq(a, b, k, k), cb, k);
    lemma_eval_nonnegative(neg_seq(a, b, k, k), cb, k);
    let pv = eval_at(a, cb, k);
    let qv = eval_at(b, cb, k);
    let w = eval_at(neg_seq(a, b, k, k), cb, k);
    let ps = eval_at(pos_seq(a, b, k, k), cb, k);
    lemma_eval_nonnegative(a, cb, k);
    lemma_eval_nonnegative(b, cb, k);
    lemma_two_pow_pos(k * cb);
    assert(w < xk) by (nonlinear_arith)
        requires
            ps + xk * w == pv * qv,
            ps >= 0,
            0 <= pv < xk,
            0 <= qv < xk,
            w >= 0,
    ;
    assert(ps - w == pv * qv - (xk + 1) * w) by (nonlinear_arith)
        requires
            ps + xk * w == pv * qv,
    ;
}

} // verus!
