//! Arithmetic behind the odd-factor split of `X^k + 1` with `X = B^n` and
//! `k` three or five: block sums, residues modulo `X + 1` and modulo the
//! cofactor `Q = (X^k + 1) / (X + 1)`, and the kernels that compute them.

use crate::kernels::Addition;
use crate::limbs::{
    Limb, all_max, all_zero, lemma_pow_b_add, lemma_val_update, lemma_pow_b_monotone, lemma_pow_b_pos, lemma_val_bound,
    lemma_val_split, lemma_val_zero, pow_b, val,
};
use crate::eval::SharedEval;
use crate::ssa::carry::SsaCarry;
use crate::ssa::crt::{add_limb, sub_limb};
use crate::ssa::ring::{SsaRing, canonical, fermat_modulus, lemma_canonical_shape, residue, slot_value};
use crate::ssa::shift::lemma_sub_mod_congruent;
use vstd::arithmetic::div_mod::*;
use vstd::arithmetic::mul::*;
use vstd::prelude::*;

verus! {

/// Block `i` of `s`: limbs `[i * n, i * n + n)` read as a number.
pub open spec fn blk(s: Seq<Limb>, n: nat, i: nat) -> nat {
    val(s.subrange((i * n) as int, (i * n + n) as int))
}

/// The first `j` blocks of `s` in radix `X = B^n`.
pub open spec fn block_sum(s: Seq<Limb>, n: nat, j: nat) -> int
    decreases j,
{
    if j == 0 {
        0
    } else {
        block_sum(s, n, (j - 1) as nat) + blk(s, n, (j - 1) as nat) * pow_b(((j - 1) * n) as nat)
    }
}

/// The cofactor `Q = (X^k + 1) / (X + 1)` for `k` three or five.
pub open spec fn cofactor(x: int, k: nat) -> int {
    if k == 3 {
        x * x - x + 1
    } else {
        x * x * x * x - x * x * x + x * x - x + 1
    }
}

/// The first `j` blocks are read in radix `X` by the first `j * n` limbs.
pub proof fn lemma_block_sum(s: Seq<Limb>, n: nat, j: nat)
    requires
        j * n <= s.len(),
    ensures
        val(s.subrange(0, (j * n) as int)) == block_sum(s, n, j),
    decreases j,
{
    if j == 0 {
        lemma_mul_basics(n as int);
        assert(j * n == 0);
        assert(s.subrange(0, 0) =~= Seq::<Limb>::empty());
        lemma_val_zero(s.subrange(0, 0));
    } else {
        let i = (j - 1) as nat;
        assert(j * n == i * n + n) by (nonlinear_arith)
            requires
                i == j - 1,
        ;
        lemma_block_sum(s, n, i);
        assert(((j - 1) * n) as nat == i * n);
        assert(block_sum(s, n, j) == block_sum(s, n, i) + blk(s, n, i) * pow_b(i * n));
        let t = s.subrange(0, (j * n) as int);
        lemma_val_split(t, (i * n) as int);
        assert(t.subrange(0, (i * n) as int) =~= s.subrange(0, (i * n) as int));
        assert(t.subrange((i * n) as int, t.len() as int) =~= s.subrange((i * n) as int, (i * n + n) as int));
        lemma_mul_is_commutative(pow_b(i * n) as int, blk(s, n, i) as int);
    }
}

/// `B^(j n)` for the small powers the split uses.
pub proof fn lemma_block_powers(n: nat)
    ensures
        pow_b(2 * n) == pow_b(n) * pow_b(n),
        pow_b(3 * n) == pow_b(n) * pow_b(n) * pow_b(n),
        pow_b(4 * n) == pow_b(n) * pow_b(n) * pow_b(n) * pow_b(n),
        pow_b(5 * n) == pow_b(n) * pow_b(n) * pow_b(n) * pow_b(n) * pow_b(n),
{
    let x = pow_b(n) as int;
    lemma_pow_b_add(n, n);
    lemma_pow_b_add(2 * n, n);
    lemma_pow_b_add(3 * n, n);
    lemma_pow_b_add(4 * n, n);
}

/// `(X + 1) * Q = X^k + 1`.
pub proof fn lemma_cofactor_product(n: nat, k: nat)
    requires
        k == 3 || k == 5,
    ensures
        (pow_b(n) + 1) * cofactor(pow_b(n) as int, k) == pow_b(k * n) + 1,
        cofactor(pow_b(n) as int, k) >= 1,
{
    let x = pow_b(n) as int;
    lemma_block_powers(n);
    lemma_pow_b_pos(n);
    if k == 3 {
        assert((x + 1) * (x * x - x + 1) == x * x * x + 1) by (nonlinear_arith);
        assert(x * x - x + 1 >= 1) by (nonlinear_arith)
            requires
                x >= 1,
        ;
    } else {
        assert((x + 1) * (x * x * x * x - x * x * x + x * x - x + 1) == x * x * x * x * x + 1)
            by (nonlinear_arith);
        assert(x * x * x * x - x * x * x + x * x - x + 1 >= 1) by (nonlinear_arith)
            requires
                x >= 1,
        ;
    }
}

/// Adds `src`, shifted up by `shift` limbs, into `dst`, returning the carry
/// that escapes `dst`.
pub fn add_shifted(dst: &mut [Limb], shift: usize, src: &[Limb]) -> (carry: Limb)
    requires
        shift + src@.len() <= old(dst)@.len(),
    ensures
        final(dst)@.len() == old(dst)@.len(),
        carry <= 1,
        val(final(dst)@) + carry * pow_b(old(dst)@.len()) == val(old(dst)@) + val(src@) * pow_b(shift as nat),
{
    let ghost d0 = dst@;
    let ghost low: Seq<Limb>;
    let ghost high0: Seq<Limb>;
    let ghost high1: Seq<Limb>;
    let carry;
    {
        let (lo, hi) = dst.split_at_mut(shift);
        proof {
            high0 = hi@;
        }
        carry = SsaCarry::add_full_in_place(hi, src);
        proof {
            low = lo@;
            high1 = hi@;
        }
    }
    proof {
        let len = d0.len();
        assert(dst@ =~= low + high1);
        lemma_val_split(dst@, shift as int);
        lemma_val_split(d0, shift as int);
        assert(dst@.subrange(0, shift as int) =~= low);
        assert(dst@.subrange(shift as int, len as int) =~= high1);
        assert(d0.subrange(0, shift as int) =~= low);
        assert(d0.subrange(shift as int, len as int) =~= high0);
        lemma_pow_b_add(shift as nat, (len - shift) as nat);
        let p = pow_b(shift as nat) as int;
        let q = pow_b((len - shift) as nat) as int;
        assert(p * (val(high1) + carry * q) == p * (val(high0) + val(src@)));
        assert(p * (val(high1) + carry * q) == p * val(high1) + carry * (p * q)) by (nonlinear_arith);
        assert(p * (val(high0) + val(src@)) == p * val(high0) + val(src@) * p) by (nonlinear_arith);
    }
    carry
}

/// Subtracts `src`, shifted up by `shift` limbs, from `dst`, returning the
/// borrow that escapes `dst`.
pub fn sub_shifted(dst: &mut [Limb], shift: usize, src: &[Limb]) -> (borrow: Limb)
    requires
        shift + src@.len() <= old(dst)@.len(),
    ensures
        final(dst)@.len() == old(dst)@.len(),
        borrow <= 1,
        val(final(dst)@) - borrow * pow_b(old(dst)@.len()) == val(old(dst)@) - val(src@) * pow_b(shift as nat),
{
    let ghost d0 = dst@;
    let ghost low: Seq<Limb>;
    let ghost high0: Seq<Limb>;
    let ghost high1: Seq<Limb>;
    let borrow;
    {
        let (lo, hi) = dst.split_at_mut(shift);
        proof {
            high0 = hi@;
        }
        borrow = SsaCarry::sub_full_in_place(hi, src);
        proof {
            low = lo@;
            high1 = hi@;
        }
    }
    proof {
        let len = d0.len();
        assert(dst@ =~= low + high1);
        lemma_val_split(dst@, shift as int);
        lemma_val_split(d0, shift as int);
        assert(dst@.subrange(0, shift as int) =~= low);
        assert(dst@.subrange(shift as int, len as int) =~= high1);
        assert(d0.subrange(0, shift as int) =~= low);
        assert(d0.subrange(shift as int, len as int) =~= high0);
        lemma_pow_b_add(shift as nat, (len - shift) as nat);
        let p = pow_b(shift as nat) as int;
        let q = pow_b((len - shift) as nat) as int;
        assert(p * (val(high1) - borrow * q) == p * (val(high0) - val(src@)));
        assert(p * (val(high1) - borrow * q) == p * val(high1) - borrow * (p * q)) by (nonlinear_arith);
        assert(p * (val(high0) - val(src@)) == p * val(high0) - val(src@) * p) by (nonlinear_arith);
    }
    borrow
}

/// Reduces a product of `N` to `2N` limbs modulo `B^N + 1` into the
/// `N + 1`-limb coefficient `dst`, leaving the canonical residue.
pub fn reduce_product_mod_fermat(dst: &mut [Limb], product: &[Limb], modulus_limbs: usize)
    requires
        old(dst)@.len() == modulus_limbs + 1,
        modulus_limbs <= product@.len() <= 2 * modulus_limbs,
    ensures
        final(dst)@.len() == old(dst)@.len(),
        canonical(final(dst)@, modulus_limbs as nat),
        residue(final(dst)@, modulus_limbs as nat) == (val(product@) as int) % (fermat_modulus(
            modulus_limbs as nat,
        ) as int),
{
    let nl = modulus_limbs;
    let ghost big = pow_b(nl as nat) as int;
    let ghost m = big + 1;
    let low = &product[0..nl];
    let high = &product[nl..product.len()];
    let ghost data1: Seq<Limb>;
    let ghost data2: Seq<Limb>;
    let borrow;
    {
        let (data, guard) = dst.split_at_mut(nl);
        Addition::copy_prefix(data, low);
        guard[0] = 0;
        proof {
            assert(data@ =~= low@);
            data1 = data@;
        }
        borrow = SsaCarry::sub_full_in_place(data, high);
        proof {
            data2 = data@;
        }
    }
    let ghost d2 = dst@;
    proof {
        lemma_val_split(product@, nl as int);
        assert(product@.subrange(0, nl as int) =~= low@);
        assert(product@.subrange(nl as int, product@.len() as int) =~= high@);
        lemma_val_bound(low@);
        lemma_val_bound(high@);
        lemma_pow_b_monotone(high@.len(), nl as nat);
        lemma_val_bound(data2);
        lemma_pow_b_pos(nl as nat);
        assert(d2.subrange(0, nl as int) =~= data2);
        assert(d2[nl as int] == 0);
    }
    let ghost l = val(low@) as int;
    let ghost h = val(high@) as int;
    if borrow != 0 {
        let carry;
        let ghost data3: Seq<Limb>;
        {
            let (data, guard) = dst.split_at_mut(nl);
            proof {
                assert(data@ =~= data2);
            }
            carry = add_limb(data, 1);
            guard[0] = carry;
            proof {
                data3 = data@;
            }
        }
        proof {
            assert(dst@.subrange(0, nl as int) =~= data3);
            lemma_val_split(dst@.subrange(0, nl + 1int), nl as int);
            assert(dst@.subrange(0, nl + 1int).subrange(0, nl as int) =~= data3);
            assert(dst@.subrange(0, nl + 1int).subrange(nl as int, nl + 1int) =~= seq![carry]);
            crate::limbs::lemma_val_single(carry);
            // val(data3) + carry * B^N == l - h + B^N + 1.
            assert(borrow == 1);
            assert(val(data2) - big == l - h);
            lemma_mul_is_commutative(carry as int, big);
            assert(slot_value(dst@, nl as nat) == l - h + m);
            assert(l < h);
            assert(val(product@) as int == l + big * h);
            assert(l + big * h == (h - 1) * m + (l - h + m)) by (nonlinear_arith)
                requires
                    m == big + 1,
            ;
            lemma_fundamental_div_mod_converse(val(product@) as int, m, h - 1, l - h + m);
            lemma_small_mod((l - h + m) as nat, m as nat);
        }
    } else {
        proof {
            lemma_val_split(dst@.subrange(0, nl + 1int), nl as int);
            assert(dst@.subrange(0, nl + 1int).subrange(0, nl as int) =~= data2);
            assert(dst@.subrange(0, nl + 1int).subrange(nl as int, nl + 1int) =~= seq![0u64]);
            crate::limbs::lemma_val_single(0u64);
            assert(slot_value(dst@, nl as nat) == l - h);
            assert(val(product@) as int == l + big * h);
            assert(l + big * h == h * m + (l - h)) by (nonlinear_arith)
                requires
                    m == big + 1,
            ;
            lemma_fundamental_div_mod_converse(val(product@) as int, m, h, l - h);
            lemma_small_mod((l - h) as nat, m as nat);
        }
    }
}

/// The sum of the blocks below `j` whose index has parity `p`.
pub open spec fn parity_sum(s: Seq<Limb>, n: nat, j: nat, p: nat) -> int
    decreases j,
{
    if j == 0 {
        0
    } else {
        parity_sum(s, n, (j - 1) as nat, p) + if (j - 1) % 2 == p {
            blk(s, n, (j - 1) as nat) as int
        } else {
            0
        }
    }
}

/// `(-1)^j`.
pub open spec fn sign(j: nat) -> int {
    if j % 2 == 0 {
        1
    } else {
        -1
    }
}

/// `X^j = (-1)^j + (X + 1) q`: the witness `q`.
pub proof fn lemma_pow_sign(n: nat, j: nat) -> (q: int)
    ensures
        pow_b(j * n) == sign(j) + (pow_b(n) + 1) * q,
    decreases j,
{
    let x = pow_b(n) as int;
    if j == 0 {
        lemma_mul_basics(n as int);
        assert(j * n == 0);
        assert(pow_b(0) == 1);
        lemma_mul_basics(x + 1);
        0
    } else {
        let i = (j - 1) as nat;
        let q0 = lemma_pow_sign(n, i);
        assert(j * n == i * n + n) by (nonlinear_arith)
            requires
                i == j - 1,
        ;
        lemma_pow_b_add(i * n, n);
        let p = pow_b(i * n) as int;
        let si = sign(i);
        assert(sign(j) == -si);
        let q = si + x * q0;
        assert(p * x == -si + (x + 1) * q) by (nonlinear_arith)
            requires
                p == si + (x + 1) * q0,
                q == si + x * q0,
        ;
        lemma_mul_is_commutative(p, x);
        q
    }
}

/// The blocks below `j` read in radix `X` agree modulo `X + 1` with their
/// alternating sum: the witness multiple of `X + 1`.
pub proof fn lemma_alternating(s: Seq<Limb>, n: nat, j: nat) -> (q: int)
    ensures
        block_sum(s, n, j) == parity_sum(s, n, j, 0) - parity_sum(s, n, j, 1) + (pow_b(n) + 1) * q,
    decreases j,
{
    let x = pow_b(n) as int;
    if j == 0 {
        lemma_mul_basics(x + 1);
        0
    } else {
        let i = (j - 1) as nat;
        let q0 = lemma_alternating(s, n, i);
        let q1 = lemma_pow_sign(n, i);
        let b = blk(s, n, i) as int;
        assert(((j - 1) * n) as nat == i * n);
        let p = pow_b(i * n) as int;
        let q = q0 + b * q1;
        assert(b * p == b * sign(i) + (x + 1) * (b * q1)) by (nonlinear_arith)
            requires
                p == sign(i) + (x + 1) * q1,
        ;
        assert((x + 1) * q0 + (x + 1) * (b * q1) == (x + 1) * q) by (nonlinear_arith)
            requires
                q == q0 + b * q1,
        ;
        q
    }
}

/// Adds the blocks of `src` with index of parity `start % 2`, from
/// `start` up to `k`, into the zeroed `n + 1`-limb `dst`.
fn add_parity_blocks(dst: &mut [Limb], src: &[Limb], block_len: usize, factor: usize, start: usize)
    requires
        factor == 3 || factor == 5,
        block_len >= 1,
        start == 0 || start == 1,
        src@.len() >= factor * block_len,
        factor * block_len <= usize::MAX,
        old(dst)@.len() == block_len + 1,
        all_zero(old(dst)@),
    ensures
        final(dst)@.len() == block_len + 1,
        val(final(dst)@) == parity_sum(src@, block_len as nat, factor as nat, start as nat),
        val(final(dst)@) < 3 * pow_b(block_len as nat),
{
    let n = block_len;
    let ghost x = pow_b(n as nat) as int;
    proof {
        lemma_val_zero(dst@);
        lemma_pow_b_pos(n as nat);
        assert(pow_b((n + 1) as nat) == crate::limbs::radix() * pow_b(n as nat));
    }
    proof {
        if start == 1 {
            assert(parity_sum(src@, n as nat, 0, 1) == 0);
            assert(parity_sum(src@, n as nat, 1, 1) == 0);
        }
        assert(parity_sum(src@, n as nat, start as nat, start as nat) == 0);
    }
    let mut e = start;
    while e < factor
        invariant
            factor == 3 || factor == 5,
            n == block_len,
            n >= 1,
            x == pow_b(n as nat),
            x >= 1,
            pow_b((n + 1) as nat) == crate::limbs::radix() * x,
            src@.len() >= factor * n,
            factor * n <= usize::MAX,
            e % 2 == start,
            start <= e <= factor + 1,
            dst@.len() == n + 1,
            val(dst@) == parity_sum(src@, n as nat, e as nat, start as nat),
            val(dst@) <= (e / 2) * (x - 1),
        decreases factor + 1 - e,
    {
        proof {
            lemma_mul_inequality(e as int + 1, factor as int, n as int);
            lemma_mul_is_distributive_add_other_way(n as int, e as int, 1);
        }
        let begin = e * n;
        let block = &src[begin..begin + n];
        let ghost before = val(dst@);
        proof {
            crate::limbs::lemma_val_bound(block@);
            assert(block@ =~= src@.subrange((e * n) as int, (e * n + n) as int));
            assert(val(block@) == blk(src@, n as nat, e as nat));
            assert((e / 2) * (x - 1) + (x - 1) <= 3 * (x - 1)) by (nonlinear_arith)
                requires
                    e / 2 <= 2,
                    x >= 1,
            ;
        }
        let carry = SsaCarry::add_full_in_place(dst, block);
        proof {
            assert(before + val(block@) < crate::limbs::radix() * x) by (nonlinear_arith)
                requires
                    before + val(block@) <= 3 * (x - 1),
                    x >= 1,
            ;
            if carry != 0 {
                assert(val(dst@) + carry * pow_b((n + 1) as nat) >= pow_b((n + 1) as nat));
            }
            assert(carry == 0);
            assert(parity_sum(src@, n as nat, (e + 1) as nat, start as nat) == before + blk(
                src@,
                n as nat,
                e as nat,
            ));
            assert(parity_sum(src@, n as nat, (e + 2) as nat, start as nat) == parity_sum(
                src@,
                n as nat,
                (e + 1) as nat,
                start as nat,
            ));
            let h = e as int / 2;
            assert((e + 2) / 2 == h + 1);
            assert((h + 1) * (x - 1) == h * (x - 1) + (x - 1)) by (nonlinear_arith);
        }
        e = e + 2;
    }
    proof {
        if e == factor + 1 {
            assert(parity_sum(src@, n as nat, e as nat, start as nat) == parity_sum(
                src@,
                n as nat,
                factor as nat,
                start as nat,
            ));
        }
        assert((e / 2) * (x - 1) < 3 * x) by (nonlinear_arith)
            requires
                e / 2 <= 3,
                x >= 1,
        ;
    }
}

/// Reduces an `X^k + 1` coefficient of `k * n + 1` limbs modulo `X + 1`
/// into the canonical `n + 1`-limb residue `dst`, by evaluating at `X = -1`.
pub fn fold_mod_x_plus_one(dst: &mut [Limb], negative: &mut [Limb], src: &[Limb], block_len: usize, factor: usize)
    requires
        factor == 3 || factor == 5,
        block_len >= 1,
        factor * block_len * 64 <= usize::MAX,
        old(dst)@.len() == block_len + 1,
        old(negative)@.len() == block_len + 1,
        src@.len() == factor * block_len + 1,
    ensures
        final(dst)@.len() == block_len + 1,
        final(negative)@.len() == block_len + 1,
        canonical(final(dst)@, block_len as nat),
        residue(final(dst)@, block_len as nat) == (val(src@) as int) % (fermat_modulus(block_len as nat) as int),
{
    let n = block_len;
    let ghost nl = n as nat;
    let ghost x = pow_b(nl) as int;
    proof {
        lemma_mul_inequality(n as int, (factor * n) as int, 64);
        lemma_mul_increases(factor as int, n as int);
    }
    let small_bits = n * 64;
    Addition::fill_zero(dst);
    Addition::fill_zero(negative);
    add_parity_blocks(dst, src, n, factor, 0);
    add_parity_blocks(negative, src, n, factor, 1);
    let guard = src[factor * n];
    let ghost odd = val(negative@);
    let carry = add_limb(negative, guard);
    proof {
        lemma_pow_b_pos(nl);
        lemma_pow_b_monotone(1, nl);
        assert(pow_b(1) == crate::limbs::radix() * pow_b(0));
        assert(pow_b((n + 1) as nat) == crate::limbs::radix() * pow_b(nl));
        assert(odd + guard < crate::limbs::radix() * x) by (nonlinear_arith)
            requires
                odd < 3 * x,
                guard < crate::limbs::radix(),
                x >= crate::limbs::radix(),
                crate::limbs::radix() > 4,
        ;
        assert(carry == 0);
        assert(small_bits / 64 == n);
    }
    let ghost even = val(dst@);
    let ghost odd_all = val(negative@);
    proof {
        assert(dst@.subrange(0, nl + 1int) =~= dst@);
        assert(negative@.subrange(0, nl + 1int) =~= negative@);
    }
    SsaRing::normalize(dst, small_bits);
    SsaRing::normalize(negative, small_bits);
    let ghost dn = dst@;
    let ghost nn = negative@;
    proof {
        lemma_canonical_shape(dn, nl);
        lemma_canonical_shape(nn, nl);
    }
    SsaRing::sub_in_place(dst, negative, small_bits);
    let ghost ds = dst@;
    SsaRing::normalize(dst, small_bits);
    proof {
        let m = x + 1;
        let k = factor as nat;
        // The source: its blocks, then the guard at X^k.
        let data = src@.subrange(0, (k * nl) as int);
        lemma_val_split(src@, (k * nl) as int);
        assert(src@.subrange((k * nl) as int, src@.len() as int) =~= seq![guard]);
        crate::limbs::lemma_val_single(guard);
        lemma_block_sum(src@, nl, k);
        let q = lemma_alternating(src@, nl, k);
        let q2 = lemma_pow_sign(nl, k);
        assert(sign(k) == -1);
        let v = val(src@) as int;
        let w = q + guard * q2;
        assert(v == even - odd_all + m * w) by (nonlinear_arith)
            requires
                v == block_sum(src@, nl, k) + pow_b(k * nl) * guard,
                block_sum(src@, nl, k) == even - odd + m * q,
                pow_b(k * nl) == -1 + m * q2,
                odd_all == odd + guard,
                w == q + guard * q2,
                m == x + 1,
        ;
        assert(dn.subrange(0, nl + 1int) =~= dn);
        assert(slot_value(dst@, nl) == val(dst@.subrange(0, nl + 1int)));
        // residue(dn) == even % m, residue(nn) == odd_all % m.
        lemma_sub_mod_congruent(slot_value(dn, nl) as int, slot_value(nn, nl) as int, even as int, odd_all as int, m);
        lemma_mod_multiples_vanish(w, even - odd_all, m);
        lemma_mul_is_commutative(m, w);
    }
}

/// Limb `i` of `Q` laid out in `(k - 1) * n + 1` limbs: block zero is one,
/// odd blocks are `X - 1`, every other limb is zero.
pub open spec fn cofactor_limb(i: int, n: nat, k: nat) -> Limb {
    if i / (n as int) < k - 1 && (i / (n as int)) % 2 == 1 {
        u64::MAX
    } else if i == 0 {
        1
    } else {
        0
    }
}

/// `Q` as `(k - 1) * n + 1` limbs.
pub open spec fn cofactor_limbs(n: nat, k: nat) -> Seq<Limb> {
    Seq::new((((k - 1) as nat) * n + 1) as nat, |i: int| cofactor_limb(i, n, k))
}

/// Reads a sequence around one limb.
pub(crate) proof fn lemma_val_around(s: Seq<Limb>, k: int)
    requires
        0 <= k < s.len(),
    ensures
        val(s) == val(s.subrange(0, k)) + pow_b(k as nat) * (s[k] + crate::limbs::radix() * val(
            s.subrange(k + 1, s.len() as int),
        )),
{
    lemma_val_split(s, k);
    let hi = s.subrange(k, s.len() as int);
    lemma_val_split(hi, 1);
    assert(hi.subrange(0, 1) =~= seq![s[k]]);
    crate::limbs::lemma_val_single(s[k]);
    assert(hi.subrange(1, hi.len() as int) =~= s.subrange(k + 1, s.len() as int));
    assert(pow_b(1) == crate::limbs::radix() * pow_b(0));
}

/// Two equal-length limb sequences that agree above limb `i` and differ at
/// it compare as their limbs at `i` do.
proof fn lemma_lex(a: Seq<Limb>, b: Seq<Limb>, i: int)
    requires
        a.len() == b.len(),
        0 <= i < a.len(),
        a.subrange(i + 1, a.len() as int) == b.subrange(i + 1, b.len() as int),
        a[i] != b[i],
    ensures
        (val(a) > val(b)) == (a[i] > b[i]),
        val(a) != val(b),
{
    lemma_val_around(a, i);
    lemma_val_around(b, i);
    lemma_val_bound(a.subrange(0, i));
    lemma_val_bound(b.subrange(0, i));
    let p = pow_b(i as nat) as int;
    let r = val(a.subrange(i + 1, a.len() as int)) as int;
    let la = val(a.subrange(0, i)) as int;
    let lb = val(b.subrange(0, i)) as int;
    let c = crate::limbs::radix() * r;
    if a[i] > b[i] {
        assert(p * (a[i] + c) >= p * (b[i] + c) + p) by (nonlinear_arith)
            requires
                a[i] >= b[i] + 1,
                p >= 0,
        ;
    } else {
        assert(p * (b[i] + c) >= p * (a[i] + c) + p) by (nonlinear_arith)
            requires
                b[i] >= a[i] + 1,
                p >= 0,
        ;
    }
}

/// Limb `b * n + t` with `t < n` lies in block `b`.
proof fn lemma_block_index(b: nat, n: nat, t: int)
    requires
        n >= 1,
        0 <= t < n,
    ensures
        (b * n + t) / (n as int) == b,
{
    lemma_fundamental_div_mod_converse(b * n + t, n as int, b as int, t);
}

/// The limb layout above denotes `Q`.
proof fn lemma_cofactor_limbs(n: nat, k: nat)
    requires
        k == 3 || k == 5,
        n >= 1,
    ensures
        val(cofactor_limbs(n, k)) == cofactor(pow_b(n) as int, k),
{
    let q = cofactor_limbs(n, k);
    let x = pow_b(n) as int;
    let km = (k - 1) as nat;
    lemma_val_split(q, (km * n) as int);
    assert(q.subrange((km * n) as int, q.len() as int) =~= seq![0u64]) by {
        assert(((km * n) as int) / (n as int) == km) by {
            lemma_div_multiples_vanish(km as int, n as int);
            lemma_mul_is_commutative(km as int, n as int);
        }
        lemma_mul_increases(km as int, n as int);
    }
    crate::limbs::lemma_val_single(0u64);
    lemma_block_sum(q, n, km);
    lemma_block_powers(n);
    // The value of each block of the layout.
    assert forall|b: nat| b < km implies #[trigger] blk(q, n, b) == if b % 2 == 1 {
        x - 1
    } else if b == 0 {
        1
    } else {
        0
    } by {
        let blk_seq = q.subrange((b * n) as int, (b * n + n) as int);
        lemma_mul_inequality(b as int + 1, km as int, n as int);
        lemma_mul_is_distributive_add_other_way(n as int, b as int, 1);
        if b % 2 == 1 {
            assert(all_max(blk_seq)) by {
                assert forall|t: int| 0 <= t < blk_seq.len() implies blk_seq[t] == u64::MAX by {
                    lemma_block_index(b, n, t);
                    assert(blk_seq[t] == q[b * n + t]);
                }
            }
            crate::limbs::lemma_val_all_max(blk_seq);
        } else if b == 0 {
            assert(blk_seq[0] == 1) by {
                lemma_mul_basics(n as int);
                lemma_block_index(b, n, 0);
            }
            assert forall|t: int| 1 <= t < blk_seq.len() implies blk_seq[t] == 0 by {
                lemma_mul_basics(n as int);
                lemma_block_index(b, n, t);
                assert(blk_seq[t] == q[t]);
            }
            lemma_val_split(blk_seq, 1);
            assert(blk_seq.subrange(0, 1) =~= seq![1u64]);
            crate::limbs::lemma_val_single(1u64);
            lemma_val_zero(blk_seq.subrange(1, blk_seq.len() as int));
            assert(pow_b(1) == crate::limbs::radix() * pow_b(0));
        } else {
            assert(all_zero(blk_seq)) by {
                assert forall|t: int| 0 <= t < blk_seq.len() implies blk_seq[t] == 0 by {
                    lemma_block_index(b, n, t);
                    assert(blk_seq[t] == q[b * n + t]);
                    assert(b * n + t != 0) by {
                        lemma_mul_increases(b as int, n as int);
                    }
                }
            }
            lemma_val_zero(blk_seq);
        }
    }
    lemma_mul_basics(n as int);
    assert(0 * n == 0);
    assert(1 * n == n);
    if k == 3 {
        assert(block_sum(q, n, 2) == blk(q, n, 0) * pow_b(0) + blk(q, n, 1) * pow_b(n)) by {
            assert(block_sum(q, n, 0) == 0);
            assert(block_sum(q, n, 1) == blk(q, n, 0) * pow_b(0));
        }
        assert(pow_b(0) == 1);
        assert(blk(q, n, 0) == 1);
        assert(blk(q, n, 1) == x - 1);
        assert(val(q) == 1 + (x - 1) * x) by {
            lemma_mul_is_commutative(x - 1, x);
        }
        assert(1 + (x - 1) * x == x * x - x + 1) by (nonlinear_arith);
    } else {
        assert(2 * n == n + n);
        assert(block_sum(q, n, 4) == blk(q, n, 0) * pow_b(0) + blk(q, n, 1) * pow_b(n) + blk(q, n, 2)
            * pow_b(2 * n) + blk(q, n, 3) * pow_b(3 * n)) by {
            assert(block_sum(q, n, 0) == 0);
            assert(block_sum(q, n, 1) == blk(q, n, 0) * pow_b(0));
            assert(block_sum(q, n, 2) == block_sum(q, n, 1) + blk(q, n, 1) * pow_b(n));
            assert(block_sum(q, n, 3) == block_sum(q, n, 2) + blk(q, n, 2) * pow_b(2 * n));
        }
        assert(pow_b(0) == 1);
        assert(blk(q, n, 0) == 1);
        assert(blk(q, n, 1) == x - 1);
        assert(blk(q, n, 2) == 0);
        assert(blk(q, n, 3) == x - 1);
        assert(1 + (x - 1) * x + 0 * (x * x) + (x - 1) * (x * x * x) == x * x * x * x - x * x * x + x * x - x + 1)
            by (nonlinear_arith);
    }
}

/// Whether `value`, of `(k - 1) * n + 1` limbs, is at least `Q`: compares
/// against `Q`'s limbs from the top down.
pub fn at_least_cofactor(value: &[Limb], block_len: usize, factor: usize) -> (r: bool)
    requires
        factor == 3 || factor == 5,
        block_len >= 1,
        value@.len() == (factor - 1) * block_len + 1,
    ensures
        r == (val(value@) >= cofactor(pow_b(block_len as nat) as int, factor as nat)),
{
    let ghost q = cofactor_limbs(block_len as nat, factor as nat);
    proof {
        lemma_cofactor_limbs(block_len as nat, factor as nat);
    }
    let mut end = value.len();
    while end > 0
        invariant
            factor == 3 || factor == 5,
            block_len >= 1,
            q == cofactor_limbs(block_len as nat, factor as nat),
            val(q) == cofactor(pow_b(block_len as nat) as int, factor as nat),
            value@.len() == q.len(),
            0 <= end <= value@.len(),
            value@.subrange(end as int, value@.len() as int) == q.subrange(end as int, q.len() as int),
        decreases end,
    {
        let index = end - 1;
        let block = index / block_len;
        let modulus_limb: Limb = if block < factor - 1 && block % 2 == 1 {
            u64::MAX
        } else if index == 0 {
            1
        } else {
            0
        };
        proof {
            assert(modulus_limb == q[index as int]);
        }
        if value[index] != modulus_limb {
            proof {
                lemma_lex(value@, q, index as int);
            }
            return value[index] > modulus_limb;
        }
        proof {
            assert(value@.subrange(index as int, value@.len() as int) =~= q.subrange(index as int, q.len() as int)) by {
                assert forall|t: int| index <= t < value@.len() implies value@[t] == q[t] by {
                    if t > index {
                        assert(value@.subrange(end as int, value@.len() as int)[t - end] == q.subrange(
                            end as int,
                            q.len() as int,
                        )[t - end]);
                    }
                }
            }
        }
        end = index;
    }
    proof {
        assert(value@ =~= q) by {
            assert(value@.subrange(0, value@.len() as int) =~= value@);
            assert(q.subrange(0, q.len() as int) =~= q);
        }
    }
    true
}

/// Adds one at limb `shift` of `dst`, returning the escaping carry.
fn add_unit_at(dst: &mut [Limb], shift: usize) -> (carry: Limb)
    requires
        shift < old(dst)@.len(),
    ensures
        final(dst)@.len() == old(dst)@.len(),
        carry <= 1,
        val(final(dst)@) + carry * pow_b(old(dst)@.len()) == val(old(dst)@) + pow_b(shift as nat),
{
    let one: [Limb; 1] = [1];
    proof {
        assert(one@ =~= seq![1u64]);
        crate::limbs::lemma_val_single(1u64);
    }
    add_shifted(dst, shift, &one)
}

/// Subtracts one at limb `shift` of `dst`, returning the escaping borrow.
fn sub_unit_at(dst: &mut [Limb], shift: usize) -> (borrow: Limb)
    requires
        shift < old(dst)@.len(),
    ensures
        final(dst)@.len() == old(dst)@.len(),
        borrow <= 1,
        val(final(dst)@) - borrow * pow_b(old(dst)@.len()) == val(old(dst)@) - pow_b(shift as nat),
{
    let one: [Limb; 1] = [1];
    proof {
        assert(one@ =~= seq![1u64]);
        crate::limbs::lemma_val_single(1u64);
    }
    sub_shifted(dst, shift, &one)
}

/// A carry out of a sum that stays below `w` is zero.
proof fn lemma_no_carry(after: int, c: int, w: int, target: int)
    requires
        0 <= after,
        0 <= c <= 1,
        target < w,
        after + c * w == target,
    ensures
        c == 0,
        after == target,
{
}

/// A borrow out of a difference that stays nonnegative is zero.
proof fn lemma_no_borrow(after: int, c: int, w: int, target: int)
    requires
        after < w,
        0 <= c <= 1,
        0 <= target,
        after - c * w == target,
    ensures
        c == 0,
        after == target,
{
}

/// `X >= B`, and `B^((k - 1) n + 1) = X^(k - 1) * B`.
proof fn lemma_cofactor_width(n: nat, k: nat)
    requires
        n >= 1,
        k == 3 || k == 5,
    ensures
        pow_b(n) >= crate::limbs::radix(),
        k == 3 ==> pow_b(((k - 1) * n + 1) as nat) == pow_b(n) * pow_b(n) * crate::limbs::radix(),
        k == 5 ==> pow_b(((k - 1) * n + 1) as nat) == pow_b(n) * pow_b(n) * pow_b(n) * pow_b(n)
            * crate::limbs::radix(),
{
    lemma_pow_b_monotone(1, n);
    assert(pow_b(1) == crate::limbs::radix() * pow_b(0));
    lemma_block_powers(n);
    lemma_pow_b_add(((k - 1) * n) as nat, 1);
    if k == 3 {
        assert((k - 1) * n == 2 * n);
    } else {
        assert((k - 1) * n == 4 * n);
    }
}

/// Subtracts `Q` from a value in `[Q, 2Q)` of `(k - 1) * n + 1` limbs.
pub fn subtract_cofactor(dst: &mut [Limb], block_len: usize, factor: usize)
    requires
        factor == 3 || factor == 5,
        block_len >= 1,
        old(dst)@.len() == (factor - 1) * block_len + 1,
        cofactor(pow_b(block_len as nat) as int, factor as nat) <= val(old(dst)@) < 2 * cofactor(
            pow_b(block_len as nat) as int,
            factor as nat,
        ),
    ensures
        final(dst)@.len() == old(dst)@.len(),
        val(final(dst)@) == val(old(dst)@) - cofactor(pow_b(block_len as nat) as int, factor as nat),
{
    let n = block_len;
    let ghost nl = n as nat;
    let ghost x = pow_b(nl) as int;
    let ghost bb = crate::limbs::radix() as int;
    let ghost w = pow_b(dst@.len()) as int;
    let ghost v = val(dst@) as int;
    proof {
        lemma_cofactor_width(nl, factor as nat);
        lemma_block_powers(nl);
        assert(dst@.len() == ((factor - 1) * n + 1) as nat);
        lemma_mul_increases((factor - 1) as int, n as int);
    }
    let len = dst.len();
    proof {
        lemma_mul_inequality(2, (factor - 1) as int, n as int);
        if factor == 5 {
            lemma_mul_inequality(4, (factor - 1) as int, n as int);
        }
        assert(2 * n < len);
        assert(factor == 5 ==> 4 * n < len);
    }
    let b1 = sub_unit_at(dst, 0);
    proof {
        assert(pow_b(0) == 1);
        lemma_val_bound(dst@);
        lemma_no_borrow(val(dst@) as int, b1 as int, w, v - 1);
    }
    let c1 = add_unit_at(dst, n);
    proof {
        lemma_val_bound(dst@);
        if factor == 3 {
            assert(v - 1 + x < w) by (nonlinear_arith)
                requires
                    v < 2 * (x * x - x + 1),
                    w == x * x * bb,
                    x >= bb,
                    bb > 4,
            ;
        } else {
            assert(v - 1 + x < w) by (nonlinear_arith)
                requires
                    v < 2 * (x * x * x * x - x * x * x + x * x - x + 1),
                    w == x * x * x * x * bb,
                    x >= bb,
                    bb > 4,
            ;
        }
        lemma_no_carry(val(dst@) as int, c1 as int, w, v - 1 + x);
    }
    let b2 = sub_unit_at(dst, 2 * n);
    proof {
        lemma_val_bound(dst@);
        if factor == 3 {
            assert(v - 1 + x - x * x >= 0);
        } else {
            assert(v - 1 + x - x * x >= 0) by (nonlinear_arith)
                requires
                    v >= x * x * x * x - x * x * x + x * x - x + 1,
                    x >= 1,
            ;
        }
        lemma_no_borrow(val(dst@) as int, b2 as int, w, v - 1 + x - x * x);
    }
    if factor == 5 {
        let c3 = add_unit_at(dst, 3 * n);
        proof {
            lemma_val_bound(dst@);
            assert(v - 1 + x - x * x + x * x * x < w) by (nonlinear_arith)
                requires
                    v < 2 * (x * x * x * x - x * x * x + x * x - x + 1),
                    w == x * x * x * x * bb,
                    x >= bb,
                    bb > 4,
            ;
            lemma_no_carry(val(dst@) as int, c3 as int, w, v - 1 + x - x * x + x * x * x);
        }
        let b4 = sub_unit_at(dst, 4 * n);
        proof {
            lemma_val_bound(dst@);
            lemma_no_borrow(
                val(dst@) as int,
                b4 as int,
                w,
                v - 1 + x - x * x + x * x * x - x * x * x * x,
            );
        }
    }
}

/// Reduces an `X^k + 1` coefficient with a zero guard modulo `Q` into the
/// `(k - 1) * n + 1`-limb `dst`, using `X^(k-1) = X^(k-2) - X^(k-3) + ... - 1`.
pub fn quotient_residue(dst: &mut [Limb], src: &[Limb], block_len: usize, factor: usize)
    requires
        factor == 3 || factor == 5,
        block_len >= 1,
        factor * block_len + 1 <= usize::MAX,
        old(dst)@.len() == (factor - 1) * block_len + 1,
        src@.len() == factor * block_len + 1,
        src@[factor * block_len] == 0,
    ensures
        final(dst)@.len() == old(dst)@.len(),
        val(final(dst)@) == (val(src@) as int) % cofactor(pow_b(block_len as nat) as int, factor as nat),
        val(final(dst)@) < cofactor(pow_b(block_len as nat) as int, factor as nat),
        final(dst)@[(factor - 1) * block_len] == 0,
{
    let n = block_len;
    let ghost nl = n as nat;
    let ghost kk = factor as nat;
    let ghost x = pow_b(nl) as int;
    let ghost bb = crate::limbs::radix() as int;
    proof {
        lemma_mul_increases((factor - 1) as int, n as int);
        lemma_mul_is_distributive_add_other_way(n as int, (factor - 1) as int, 1);
        lemma_cofactor_width(nl, kk);
        lemma_block_powers(nl);
        lemma_cofactor_product(nl, kk);
    }
    let qlen = (factor - 1) * n;
    let ghost w = pow_b((qlen + 1) as nat) as int;
    let ghost q = cofactor(x, kk);
    Addition::fill_zero(dst);
    Addition::copy_prefix(dst, &src[0..qlen]);
    let top = &src[qlen..qlen + n];
    let ghost lo = src@.subrange(0, qlen as int);
    let ghost l = val(lo) as int;
    let ghost t = val(top@) as int;
    proof {
        assert(dst@ =~= lo + seq![0u64]) by {
            assert(dst@.subrange(qlen as int, dst@.len() as int) =~= seq![0u64]);
        }
        crate::limbs::lemma_val_push(lo, 0u64);
        assert(lo.push(0u64) =~= lo + seq![0u64]);
        assert(val(dst@) as int == l);
        lemma_val_bound(lo);
        lemma_val_bound(top@);
        assert(pow_b(qlen as nat) == pow_b(((kk - 1) * nl) as nat));
        if kk == 3 {
            assert(qlen == 2 * n);
        } else {
            assert(qlen == 4 * n);
        }
        // The source is lo + X^(k-1) * top with a zero guard.
        lemma_val_split(src@, qlen as int);
        let upper = src@.subrange(qlen as int, src@.len() as int);
        lemma_val_split(upper, n as int);
        assert(upper.subrange(0, n as int) =~= top@);
        assert(upper.subrange(n as int, upper.len() as int) =~= seq![0u64]);
        crate::limbs::lemma_val_single(0u64);
        lemma_mul_basics(pow_b(nl) as int);
    }
    let ghost v0 = val(src@) as int;
    proof {
        if kk == 3 {
            assert(v0 == l + x * x * t);
        } else {
            assert(v0 == l + x * x * x * x * t);
        }
    }
    let c1 = add_shifted(dst, n, top);
    proof {
        lemma_val_bound(dst@);
        if kk == 3 {
            assert(l + t * x < w) by (nonlinear_arith)
                requires
                    l < x * x,
                    t < x,
                    w == x * x * bb,
                    x >= bb,
                    bb > 4,
            ;
        } else {
            assert(l + t * x < w) by (nonlinear_arith)
                requires
                    l < x * x * x * x,
                    t < x,
                    w == x * x * x * x * bb,
                    x >= bb,
                    bb > 4,
            ;
        }
        lemma_no_carry(val(dst@) as int, c1 as int, w, l + t * x);
    }
    if factor == 5 {
        let c3 = add_shifted(dst, 3 * n, top);
        proof {
            lemma_val_bound(dst@);
            assert(l + t * x + t * (x * x * x) < w) by (nonlinear_arith)
                requires
                    l < x * x * x * x,
                    t < x,
                    w == x * x * x * x * bb,
                    x >= bb,
                    bb > 4,
            ;
            lemma_no_carry(val(dst@) as int, c3 as int, w, l + t * x + t * (x * x * x));
        }
    }
    let ghost v1 = val(dst@) as int;
    let b0 = sub_shifted(dst, 0, top);
    proof {
        assert(pow_b(0) == 1);
        lemma_val_bound(dst@);
        assert(v1 - t >= 0) by (nonlinear_arith)
            requires
                v1 >= l + t * x,
                l >= 0,
                t >= 0,
                x >= 1,
        ;
        lemma_no_borrow(val(dst@) as int, b0 as int, w, v1 - t * 1);
    }
    if factor == 5 {
        let b2 = sub_shifted(dst, 2 * n, top);
        proof {
            lemma_val_bound(dst@);
            assert(v1 - t - t * (x * x) >= 0) by (nonlinear_arith)
                requires
                    v1 == l + t * x + t * (x * x * x),
                    l >= 0,
                    t >= 0,
                    x >= 1,
            ;
            lemma_no_borrow(val(dst@) as int, b2 as int, w, v1 - t - t * (x * x));
        }
    }
    let ghost v = val(dst@) as int;
    proof {
        if kk == 3 {
            assert(v == v0 - t * q) by (nonlinear_arith)
                requires
                    v == l + t * x - t,
                    v0 == l + x * x * t,
                    q == x * x - x + 1,
            ;
            assert(v < 2 * q) by (nonlinear_arith)
                requires
                    v == l + t * x - t,
                    l <= x * x - 1,
                    0 <= t <= x - 1,
                    q == x * x - x + 1,
            ;
        } else {
            assert(v == v0 - t * q) by (nonlinear_arith)
                requires
                    v == l + t * x + t * (x * x * x) - t - t * (x * x),
                    v0 == l + x * x * x * x * t,
                    q == x * x * x * x - x * x * x + x * x - x + 1,
            ;
            assert(v < 2 * q) by (nonlinear_arith)
                requires
                    v == l + t * x + t * (x * x * x) - t - t * (x * x),
                    l <= x * x * x * x - 1,
                    0 <= t <= x - 1,
                    x >= 1,
                    q == x * x * x * x - x * x * x + x * x - x + 1,
            ;
        }
    }
    if at_least_cofactor(dst, n, factor) {
        subtract_cofactor(dst, n, factor);
        proof {
            assert(v0 == (t + 1) * q + (v - q)) by (nonlinear_arith)
                requires
                    v == v0 - t * q,
            ;
            lemma_fundamental_div_mod_converse(v0, q, t + 1, v - q);
        }
    } else {
        proof {
            assert(v0 == t * q + v);
            lemma_fundamental_div_mod_converse(v0, q, t, v);
        }
    }
    proof {
        let d = dst@;
        lemma_val_around(d, qlen as int);
        lemma_val_bound(d.subrange(0, qlen as int));
        assert(d.subrange(qlen + 1, d.len() as int).len() == 0);
        lemma_val_zero(d.subrange(qlen + 1, d.len() as int));
        assert(q <= pow_b(qlen as nat)) by {
            if kk == 3 {
                assert(x * x - x + 1 <= x * x) by (nonlinear_arith)
                    requires
                        x >= 1,
                ;
            } else {
                assert(x * x * x * x - x * x * x + x * x - x + 1 <= x * x * x * x) by (nonlinear_arith)
                    requires
                        x >= 1,
                ;
            }
        }
        if d[qlen as int] > 0 {
            assert(pow_b(qlen as nat) * (d[qlen as int] + crate::limbs::radix() * 0) >= pow_b(qlen as nat))
                by (nonlinear_arith)
                requires
                    d[qlen as int] >= 1,
            ;
        }
    }
}

/// `B^j` leaves one modulo three and modulo five.
proof fn lemma_pow_b_mod_small(j: nat, k: nat)
    requires
        k == 3 || k == 5,
    ensures
        (pow_b(j) as int) % (k as int) == 1,
    decreases j,
{
    if j == 0 {
        assert(pow_b(0) == 1);
    } else {
        lemma_pow_b_mod_small((j - 1) as nat, k);
        assert((crate::limbs::radix() as int) % (k as int) == 1);
        lemma_mul_mod_noop(crate::limbs::radix() as int, pow_b((j - 1) as nat) as int, k as int);
    }
}

/// The sum of the limbs of `value` modulo `k`, which is `value` modulo `k`
/// because `B` leaves one modulo three and modulo five.
fn limb_sum_mod(value: &[Limb], factor: usize) -> (r: usize)
    requires
        factor == 3 || factor == 5,
    ensures
        r == (val(value@) as int) % (factor as int),
        r < factor,
{
    let mut acc: usize = 0;
    let mut i: usize = 0;
    let f = factor as u64;
    while i < value.len()
        invariant
            factor == 3 || factor == 5,
            f == factor,
            0 <= i <= value@.len(),
            acc == (val(value@.subrange(0, i as int)) as int) % (factor as int),
            acc < factor,
        decreases value@.len() - i,
    {
        let limb_residue = (value[i] % f) as usize;
        proof {
            let k = factor as int;
            crate::limbs::lemma_val_prefix_step(value@, i as int);
            lemma_pow_b_mod_small(i as nat, factor as nat);
            let prefix = val(value@.subrange(0, i as int)) as int;
            let p = pow_b(i as nat) as int;
            lemma_mul_mod_noop(value@[i as int] as int, p, k);
            lemma_mul_basics((value@[i as int] as int) % k);
            lemma_small_mod(((value@[i as int] as int) % k) as nat, k as nat);
            lemma_add_mod_noop(prefix, value@[i as int] * p, k);
            lemma_small_mod(acc as nat, k as nat);
            lemma_small_mod(limb_residue as nat, k as nat);
            lemma_add_mod_noop(acc as int, limb_residue as int, k);
        }
        acc = (acc + limb_residue) % factor;
        i = i + 1;
    }
    proof {
        assert(value@.subrange(0, value@.len() as int) =~= value@);
    }
    acc
}

/// The multiple `m < k` of `X + 1` that makes `r + 2m` divisible by `k`.
pub open spec fn divisibility_multiple(r: nat, k: nat) -> nat {
    (((k - r) * ((k + 1) / 2)) as nat) % k
}

/// Adds the unique multiple `m < k` of `X + 1` that makes `value`
/// divisible by `k`; `value` is a canonical residue modulo `X + 1`.
pub fn make_exactly_divisible_by_factor(value: &mut [Limb], factor: usize)
    requires
        factor == 3 || factor == 5,
        old(value)@.len() >= 2,
        canonical(old(value)@, (old(value)@.len() - 1) as nat),
    ensures
        final(value)@.len() == old(value)@.len(),
        val(final(value)@) == val(old(value)@) + divisibility_multiple(
            ((val(old(value)@) as int) % (factor as int)) as nat,
            factor as nat,
        ) * (pow_b((old(value)@.len() - 1) as nat) + 1),
        (val(final(value)@) as int) % (factor as int) == 0,
{
    let ghost v0 = value@;
    let ghost n = (v0.len() - 1) as nat;
    let ghost x = pow_b(n) as int;
    let remainder = limb_sum_mod(value, factor);
    let half = (factor + 1) / 2;
    let difference = factor - remainder;
    proof {
        assert(difference * half <= 25) by (nonlinear_arith)
            requires
                difference <= 5,
                half <= 5,
        ;
    }
    let multiple = (difference * half) % factor;
    proof {
        let k = factor as int;
        let r = remainder as int;
        let p = difference as int * half as int;
        assert(multiple == p % k);
        assert(p == (k - r) * ((k + 1) / 2));
        if k == 3 {
            if r == 0 {
                assert(p == 6) by (nonlinear_arith) requires p == (3 - 0) * 2;
                assert(multiple == 0);
            } else if r == 1 {
                assert(p == 4) by (nonlinear_arith) requires p == (3 - 1) * 2;
                assert(multiple == 1);
            } else {
                assert(p == 2) by (nonlinear_arith) requires p == (3 - 2) * 2;
                assert(multiple == 2);
            }
            assert((r + 2 * multiple) % k == 0);
        } else {
            if r == 0 {
                assert(p == 15) by (nonlinear_arith) requires p == (5 - 0) * 3;
                assert(multiple == 0);
            } else if r == 1 {
                assert(p == 12) by (nonlinear_arith) requires p == (5 - 1) * 3;
                assert(multiple == 2);
            } else if r == 2 {
                assert(p == 9) by (nonlinear_arith) requires p == (5 - 2) * 3;
                assert(multiple == 4);
            } else if r == 3 {
                assert(p == 6) by (nonlinear_arith) requires p == (5 - 3) * 3;
                assert(multiple == 1);
            } else {
                assert(p == 3) by (nonlinear_arith) requires p == (5 - 4) * 3;
                assert(multiple == 3);
            }
            assert((r + 2 * multiple) % k == 0);
        }
        assert(v0.subrange(0, n + 1int) =~= v0);
        lemma_pow_b_pos(n);
        lemma_pow_b_monotone(1, n);
        assert(pow_b(1) == crate::limbs::radix() * pow_b(0));
        assert(pow_b(n + 1) == crate::limbs::radix() * pow_b(n));
    }
    let carry = add_limb(value, multiple as Limb);
    let ghost v1 = value@;
    proof {
        lemma_val_bound(value@);
        assert(val(v0) + multiple < crate::limbs::radix() * x) by (nonlinear_arith)
            requires
                val(v0) <= x,
                multiple < 5,
                x >= crate::limbs::radix(),
                crate::limbs::radix() > 8,
        ;
        lemma_no_carry(val(v1) as int, carry as int, pow_b(n + 1) as int, val(v0) + multiple);
        // The guard of a value below 2X is at most one.
        lemma_val_around(v1, n as int);
        lemma_val_bound(v1.subrange(0, n as int));
        assert(v1.subrange(n + 1int, v1.len() as int).len() == 0);
        lemma_val_zero(v1.subrange(n + 1int, v1.len() as int));
        if v1[n as int] >= 2 {
            assert(x * (v1[n as int] + crate::limbs::radix() * 0) >= 2 * x) by (nonlinear_arith)
                requires
                    v1[n as int] >= 2,
                    x >= 0,
            ;
        }
    }
    let guard_index = value.len() - 1;
    value[guard_index] = value[guard_index] + multiple as Limb;
    proof {
        lemma_val_update(v1, n as int, (v1[n as int] + multiple) as Limb);
        assert(value@ =~= v1.update(n as int, (v1[n as int] + multiple) as Limb));
        let k = factor as int;
        let total = val(v0) + multiple * (x + 1);
        assert(val(value@) == total) by (nonlinear_arith)
            requires
                val(value@) + v1[n as int] * x == val(v1) + (v1[n as int] + multiple) * x,
                val(v1) == val(v0) + multiple,
                total == val(v0) + multiple * (x + 1),
        ;
        lemma_pow_b_mod_small(n, factor as nat);
        lemma_add_mod_noop(x, 1, k);
        assert((x + 1) % k == 2);
        lemma_mul_mod_noop(multiple as int, x + 1, k);
        lemma_add_mod_noop(val(v0) as int, multiple * (x + 1), k);
        lemma_mul_mod_noop(multiple as int, 2, k);
        lemma_add_mod_noop(val(v0) as int, multiple * 2, k);
        lemma_small_mod(remainder as nat, k as nat);
        lemma_add_mod_noop(remainder as int, multiple * 2, k);
    }
}

/// Divides a multiple of `k` exactly by `k` in place.
pub fn exact_div_in_place(value: &mut [Limb], factor: usize)
    requires
        factor == 3 || factor == 5,
        (val(old(value)@) as int) % (factor as int) == 0,
    ensures
        final(value)@.len() == old(value)@.len(),
        val(final(value)@) * factor == val(old(value)@),
{
    let ghost v0 = val(value@);
    let r = SharedEval::div_word_in_place(value, factor as Limb);
    proof {
        lemma_fundamental_div_mod_converse(v0 as int, factor as int, val(value@) as int, r as int);
    }
}

/// Builds `t * Q` exactly in the `k * n + 1`-limb `dst`, for `t <= X` held
/// in `n + 1` limbs.
pub fn build_times_quotient(dst: &mut [Limb], value: &[Limb], block_len: usize, factor: usize)
    requires
        factor == 3 || factor == 5,
        block_len >= 1,
        old(dst)@.len() == factor * block_len + 1,
        value@.len() == block_len + 1,
        val(value@) <= pow_b(block_len as nat),
    ensures
        final(dst)@.len() == old(dst)@.len(),
        val(final(dst)@) == val(value@) * cofactor(pow_b(block_len as nat) as int, factor as nat),
{
    let n = block_len;
    let ghost nl = n as nat;
    let ghost kk = factor as nat;
    let ghost x = pow_b(nl) as int;
    let ghost bb = crate::limbs::radix() as int;
    let ghost t = val(value@) as int;
    let len = dst.len();
    proof {
        lemma_block_powers(nl);
        lemma_pow_b_monotone(1, nl);
        assert(pow_b(1) == crate::limbs::radix() * pow_b(0));
        lemma_pow_b_add(kk * nl, 1);
        lemma_mul_inequality(3, factor as int, n as int);
        if kk == 3 {
            assert(kk * nl == 3 * nl);
        } else {
            assert(kk * nl == 5 * nl);
        }
    }
    let ghost w = pow_b(len as nat) as int;
    proof {
        if kk == 3 {
            assert(w == x * x * x * bb);
        } else {
            assert(w == x * x * x * x * x * bb);
        }
        assert(2 * n + n + 1 <= len);
        assert(factor == 5 ==> 4 * n + n + 1 <= len);
        lemma_mul_basics(t);
    }
    Addition::fill_zero(dst);
    proof {
        lemma_val_zero(dst@);
    }
    let c0 = add_shifted(dst, 0, value);
    proof {
        assert(pow_b(0) == 1);
        lemma_val_bound(dst@);
        assert(t < w) by (nonlinear_arith)
            requires
                t <= x,
                x >= bb,
                bb > 4,
                w == x * x * x * bb || w == x * x * x * x * x * bb,
        ;
        lemma_no_carry(val(dst@) as int, c0 as int, w, t);
    }
    let c2 = add_shifted(dst, 2 * n, value);
    proof {
        lemma_val_bound(dst@);
        assert(t + t * (x * x) < w) by (nonlinear_arith)
            requires
                0 <= t <= x,
                x >= bb,
                bb > 4,
                w == x * x * x * bb || w == x * x * x * x * x * bb,
        ;
        lemma_no_carry(val(dst@) as int, c2 as int, w, t + t * (x * x));
    }
    if factor == 5 {
        let c4 = add_shifted(dst, 4 * n, value);
        proof {
            lemma_val_bound(dst@);
            assert(t + t * (x * x) + t * (x * x * x * x) < w) by (nonlinear_arith)
                requires
                    0 <= t <= x,
                    x >= bb,
                    bb > 4,
                    w == x * x * x * x * x * bb,
            ;
            lemma_no_carry(val(dst@) as int, c4 as int, w, t + t * (x * x) + t * (x * x * x * x));
        }
    }
    let ghost v1 = val(dst@) as int;
    let b1 = sub_shifted(dst, n, value);
    proof {
        lemma_val_bound(dst@);
        assert(v1 - t * x >= 0) by (nonlinear_arith)
            requires
                v1 >= t + t * (x * x),
                0 <= t,
                x >= 1,
        ;
        lemma_no_borrow(val(dst@) as int, b1 as int, w, v1 - t * x);
    }
    if factor == 5 {
        let b3 = sub_shifted(dst, 3 * n, value);
        proof {
            lemma_val_bound(dst@);
            assert(v1 - t * x - t * (x * x * x) >= 0) by (nonlinear_arith)
                requires
                    v1 == t + t * (x * x) + t * (x * x * x * x),
                    0 <= t,
                    x >= 1,
            ;
            lemma_no_borrow(val(dst@) as int, b3 as int, w, v1 - t * x - t * (x * x * x));
        }
    }
    proof {
        if kk == 3 {
            assert(t + t * (x * x) - t * x == t * (x * x - x + 1)) by (nonlinear_arith);
        } else {
            assert(t + t * (x * x) + t * (x * x * x * x) - t * x - t * (x * x * x) == t * (x * x * x * x - x
                * x * x + x * x - x + 1)) by (nonlinear_arith);
        }
    }
}

/// `x = m * q` for a multiple `x` of `m`: the witness `q`.
proof fn lemma_multiple(x: int, m: int) -> (q: int)
    requires
        m > 0,
        x % m == 0,
    ensures
        x == m * q,
{
    lemma_fundamental_div_mod(x, m);
    x / m
}

/// `Q = (X + 1) h + k`: the cofactor leaves `k` modulo `X + 1`.
proof fn lemma_cofactor_mod_x_plus_one(x: int, k: nat) -> (h: int)
    requires
        k == 3 || k == 5,
    ensures
        cofactor(x, k) == (x + 1) * h + k,
{
    if k == 3 {
        assert(x * x - x + 1 == (x + 1) * (x - 2) + 3) by (nonlinear_arith);
        x - 2
    } else {
        assert(x * x * x * x - x * x * x + x * x - x + 1 == (x + 1) * (x * x * x - 2 * (x * x) + 3 * x - 4) + 5)
            by (nonlinear_arith);
        x * x * x - 2 * (x * x) + 3 * x - 4
    }
}

/// A multiple of `Q` and of `X + 1` is a multiple of `X^k + 1`: the two
/// are coprime because `Q` leaves `k` modulo `X + 1` and `X` leaves one
/// modulo `k`.
pub proof fn lemma_crt_cofactor(n: nat, k: nat, e: int)
    requires
        k == 3 || k == 5,
        e % cofactor(pow_b(n) as int, k) == 0,
        e % ((pow_b(n) + 1) as int) == 0,
    ensures
        e % ((pow_b(k * n) + 1) as int) == 0,
{
    let x = pow_b(n) as int;
    let q = cofactor(x, k);
    let f = x + 1;
    lemma_cofactor_product(n, k);
    lemma_pow_b_pos(n);
    let s1 = lemma_multiple(e, q);
    let s2 = lemma_multiple(e, f);
    let h = lemma_cofactor_mod_x_plus_one(x, k);
    let z = s2 - h * s1;
    let kk = k as int;
    assert(kk * s1 == f * z) by (nonlinear_arith)
        requires
            e == q * s1,
            e == f * s2,
            q == f * h + kk,
            z == s2 - h * s1,
    ;
    lemma_pow_b_mod_small(n, k);
    let c = lemma_multiple(x - 1, kk);
    let s3 = if k == 3 {
        2 * s1 - (2 * c + 1) * z
    } else {
        3 * s1 - (3 * c + 1) * z
    };
    assert(s1 == f * s3) by (nonlinear_arith)
        requires
            kk * s1 == f * z,
            x - 1 == kk * c,
            f == x + 1,
            kk == 3 ==> s3 == 2 * s1 - (2 * c + 1) * z,
            kk == 5 ==> s3 == 3 * s1 - (3 * c + 1) * z,
            kk == 3 || kk == 5,
    ;
    let big = (pow_b(k * n) + 1) as int;
    assert(e == big * s3) by (nonlinear_arith)
        requires
            e == q * s1,
            s1 == f * s3,
            f * q == big,
    ;
    lemma_mod_multiples_vanish(s3, 0, big);
}

/// The odd-factor recombination: `u` agrees with the product modulo `Q`,
/// and `t * k` supplies the difference modulo `X + 1`, so `u + t * Q` is the
/// product modulo `X^k + 1`.
pub proof fn lemma_factored_product(
    n: nat,
    k: nat,
    a: int,
    b: int,
    aq: int,
    bq: int,
    u: int,
    ps: int,
    as_: int,
    bs: int,
    us: int,
    d: int,
    m: int,
    t: int,
)
    requires
        k == 3 || k == 5,
        aq == a % cofactor(pow_b(n) as int, k),
        bq == b % cofactor(pow_b(n) as int, k),
        u % ((pow_b(k * n) + 1) as int) == (aq * bq) % ((pow_b(k * n) + 1) as int),
        as_ % ((pow_b(n) + 1) as int) == a % ((pow_b(n) + 1) as int),
        bs % ((pow_b(n) + 1) as int) == b % ((pow_b(n) + 1) as int),
        ps % ((pow_b(n) + 1) as int) == (as_ * bs) % ((pow_b(n) + 1) as int),
        us % ((pow_b(n) + 1) as int) == u % ((pow_b(n) + 1) as int),
        d % ((pow_b(n) + 1) as int) == (ps - us) % ((pow_b(n) + 1) as int),
        t * (k as int) == d + m * ((pow_b(n) + 1) as int),
    ensures
        (u + t * cofactor(pow_b(n) as int, k)) % ((pow_b(k * n) + 1) as int) == (a * b) % ((pow_b(k * n)
            + 1) as int),
{
    let x = pow_b(n) as int;
    let q = cofactor(x, k);
    let f = x + 1;
    let big = (pow_b(k * n) + 1) as int;
    let kk = k as int;
    lemma_cofactor_product(n, k);
    lemma_pow_b_pos(n);
    let e = u + t * q - a * b;
    // Modulo Q: u - aq * bq is a multiple of X^k + 1, hence of Q.
    lemma_mod_equivalence(u, aq * bq, big);
    let j = lemma_multiple(u - aq * bq, big);
    lemma_mul_mod_noop(a, b, q);
    lemma_mod_mod(a, q, 1);
    lemma_mod_mod(b, q, 1);
    lemma_mod_equivalence(aq * bq, a * b, q);
    let j2 = lemma_multiple(aq * bq - a * b, q);
    let wq = f * j + j2 + t;
    assert(e == q * wq) by (nonlinear_arith)
        requires
            u - aq * bq == big * j,
            aq * bq - a * b == q * j2,
            big == f * q,
            e == u + t * q - a * b,
            wq == f * j + j2 + t,
    ;
    lemma_mod_multiples_vanish(wq, 0, q);
    // Modulo X + 1: t * Q = (X + 1) h t + d + m (X + 1), and d = ab - u there.
    let h = lemma_cofactor_mod_x_plus_one(x, k);
    lemma_mul_mod_noop(as_, bs, f);
    lemma_mul_mod_noop(a, b, f);
    assert(ps % f == (a * b) % f);
    lemma_sub_mod_congruent(ps, us, a * b, u, f);
    lemma_mod_equivalence(d, a * b - u, f);
    let j3 = lemma_multiple(d - (a * b - u), f);
    let wf = h * t + m + j3;
    assert(e == f * wf) by (nonlinear_arith)
        requires
            q == f * h + kk,
            t * kk == d + m * f,
            d - (a * b - u) == f * j3,
            e == u + t * q - a * b,
            wf == h * t + m + j3,
    ;
    lemma_mod_multiples_vanish(wf, 0, f);
    lemma_crt_cofactor(n, k, e);
    lemma_mod_equivalence(u + t * q, a * b, big);
}

} // verus!
