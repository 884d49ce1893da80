//! Kernels shared by the evaluation-interpolation tiers: exact division by a
//! small word, and adding a coefficient into a product at a limb offset.

use crate::limbs::{
    Limb, lemma_pow_b_add, lemma_pow_b_monotone, lemma_pow_b_pos, lemma_val_bound,
    lemma_val_concat, lemma_val_single, lemma_val_split, pow_b, radix, val,
};
use crate::ssa::carry::SsaCarry;
use vstd::arithmetic::div_mod::*;
use vstd::arithmetic::mul::*;
use vstd::prelude::*;

verus! {

/// A suffix is its first limb plus the radix times the rest.
proof fn lemma_val_suffix_step(s: Seq<Limb>, i: int)
    requires
        0 <= i < s.len(),
    ensures
        val(s.subrange(i, s.len() as int)) == s[i] + radix() * val(s.subrange(i + 1, s.len() as int)),
{
    let tail = s.subrange(i + 1, s.len() as int);
    assert(s.subrange(i, s.len() as int) =~= seq![s[i]] + tail);
    lemma_val_concat(seq![s[i]], tail);
    lemma_val_single(s[i]);
    crate::limbs::lemma_pow_b_one();
}

/// One step of long division from the top: `(r * B + x) / d` fits a limb.
proof fn lemma_div_step(r: int, x: int, d: int, q: int, r2: int, rest_new: int, rest_old: int)
    requires
        d > 0,
        0 <= r < d,
        q == (r * radix() + x) / d,
        r2 == (r * radix() + x) % d,
        rest_new * d + r == rest_old,
    ensures
        (q + radix() * rest_new) * d + r2 == x + radix() * rest_old,
{
    lemma_fundamental_div_mod(r * radix() + x, d);
    assert((q + radix() * rest_new) * d + r2 == q * d + r2 + radix() * (rest_new * d))
        by (nonlinear_arith);
    assert(radix() * (rest_new * d) == radix() * rest_old - radix() * r) by (nonlinear_arith)
        requires
            rest_new * d + r == rest_old,
    ;
    lemma_mul_is_commutative(d, q);
    lemma_mul_is_commutative(r, radix() as int);
}

/// One digit step of a multiply-subtract row.
proof fn lemma_submul_step(
    new_prefix: int,
    old_prefix: int,
    a_prefix: int,
    w: int,
    carry: int,
    lo: int,
    hi: int,
    bo: int,
    digit: int,
    old_digit: int,
    a_digit: int,
    p: int,
)
    requires
        new_prefix - carry * p == old_prefix - a_prefix * w,
        lo + hi * radix() == a_digit * w + carry,
        digit == old_digit - lo + bo * radix(),
    ensures
        (new_prefix + digit * p) - (hi + bo) * (radix() * p) == (old_prefix + old_digit * p) - (
        a_prefix + a_digit * p) * w,
{
    assert((new_prefix + digit * p) - (hi + bo) * (radix() * p) == new_prefix + old_digit * p - (lo
        + hi * radix()) * p) by (nonlinear_arith)
        requires
            digit == old_digit - lo + bo * radix(),
    ;
    assert((a_digit * w + carry) * p == (a_digit * p) * w + carry * p) by (nonlinear_arith);
    assert((a_prefix + a_digit * p) * w == a_prefix * w + (a_digit * p) * w) by (nonlinear_arith);
}

/// The running word of a multiply-subtract row never exceeds the multiplier.
proof fn lemma_submul_carry(w: int, carry: int, lo: int, hi: int, bo: int, old_digit: int, a_digit: int)
    requires
        0 <= carry <= w,
        0 <= a_digit < radix(),
        0 <= lo < radix(),
        0 <= hi,
        lo + hi * radix() == a_digit * w + carry,
        bo == 1 <==> old_digit < lo,
        0 <= old_digit,
        0 <= bo <= 1,
    ensures
        hi + bo <= w,
{
    assert(a_digit * w <= (radix() - 1) * w) by (nonlinear_arith)
        requires
            0 <= a_digit < radix(),
            0 <= w,
    ;
    assert(hi * radix() <= w * radix()) by (nonlinear_arith)
        requires
            lo + hi * radix() == a_digit * w + carry,
            a_digit * w <= (radix() - 1) * w,
            carry <= w,
            lo >= 0,
    ;
    lemma_mul_inequality_converse(hi, w, radix() as int);
    if hi == w {
        assert(lo <= 0) by (nonlinear_arith)
            requires
                lo + hi * radix() == a_digit * w + carry,
                a_digit * w <= (radix() - 1) * w,
                carry <= w,
                hi == w,
        ;
    }
}

/// Namespace for the evaluation tiers' shared kernels.
pub struct SharedEval;

impl SharedEval {
    /// Divides `x` in place by the word `d`, returning the remainder.
    pub fn div_word_in_place(x: &mut [Limb], d: Limb) -> (r: Limb)
        requires
            d > 0,
        ensures
            final(x)@.len() == old(x)@.len(),
            r < d,
            val(final(x)@) * d + r == val(old(x)@),
    {
        let ghost x0 = x@;
        let n = x.len();
        let mut r: Limb = 0;
        let mut i: usize = n;
        proof {
            assert(x@.subrange(n as int, n as int) =~= Seq::<Limb>::empty());
            assert(x0.subrange(n as int, n as int) =~= Seq::<Limb>::empty());
            assert(val(Seq::<Limb>::empty()) == 0);
            lemma_mul_basics(d as int);
        }
        while i > 0
            invariant
                n == x0.len(),
                x@.len() == n,
                0 <= i <= n,
                r < d,
                d > 0,
                forall|j: int| 0 <= j < i ==> x@[j] == x0[j],
                val(x@.subrange(i as int, n as int)) * d + r == val(x0.subrange(i as int, n as int)),
            decreases i,
        {
            i = i - 1;
            let limb = x[i];
            let t: u128 = (r as u128) * 0x1_0000_0000_0000_0000u128 + (limb as u128);
            proof {
                assert(t < (d as u128) * 0x1_0000_0000_0000_0000u128) by (nonlinear_arith)
                    requires
                        t == r * 0x1_0000_0000_0000_0000 + limb,
                        r + 1 <= d,
                        limb < 0x1_0000_0000_0000_0000,
                ;
                assert(t / (d as u128) < 0x1_0000_0000_0000_0000) by (nonlinear_arith)
                    requires
                        t < (d as u128) * 0x1_0000_0000_0000_0000u128,
                        d > 0,
                ;
            }
            let q = (t / (d as u128)) as u64;
            let r2 = (t % (d as u128)) as u64;
            let ghost before = x@;
            x[i] = q;
            proof {
                lemma_val_suffix_step(x@, i as int);
                lemma_val_suffix_step(x0, i as int);
                assert(x@.subrange(i + 1, n as int) =~= before.subrange(i + 1, n as int));
                lemma_div_step(
                    r as int,
                    limb as int,
                    d as int,
                    q as int,
                    r2 as int,
                    val(before.subrange(i + 1, n as int)) as int,
                    val(x0.subrange(i + 1, n as int)) as int,
                );
                assert(radix() == 0x1_0000_0000_0000_0000);
            }
            r = r2;
        }
        proof {
            assert(x@.subrange(0, n as int) =~= x@);
            assert(x0.subrange(0, n as int) =~= x0);
        }
        r
    }

    /// Replaces `(x, y)` by `(x + y, x - y)` over their common width,
    /// returning the carry of the sum and the borrow of the difference.
    pub fn add_sub_in_place(x: &mut [Limb], y: &mut [Limb]) -> (out: (Limb, Limb))
        requires
            old(y)@.len() == old(x)@.len(),
        ensures
            final(x)@.len() == old(x)@.len(),
            final(y)@.len() == old(y)@.len(),
            out.0 <= 1,
            out.1 <= 1,
            val(final(x)@) + out.0 * pow_b(old(x)@.len()) == val(old(x)@) + val(old(y)@),
            val(final(y)@) - out.1 * pow_b(old(x)@.len()) == val(old(x)@) - val(old(y)@),
    {
        let ghost x0 = x@;
        let ghost y0 = y@;
        let n = x.len();
        let mut carry: Limb = 0;
        let mut borrow: Limb = 0;
        let mut i: usize = 0;
        proof {
            assert(x@.subrange(0, 0) =~= Seq::<Limb>::empty());
            assert(y@.subrange(0, 0) =~= Seq::<Limb>::empty());
            assert(x0.subrange(0, 0) =~= Seq::<Limb>::empty());
            assert(y0.subrange(0, 0) =~= Seq::<Limb>::empty());
        }
        while i < n
            invariant
                n == x0.len(),
                n == y0.len(),
                x@.len() == n,
                y@.len() == n,
                0 <= i <= n,
                carry <= 1,
                borrow <= 1,
                val(x@.subrange(0, i as int)) + carry * pow_b(i as nat) == val(
                    x0.subrange(0, i as int),
                ) + val(y0.subrange(0, i as int)),
                val(y@.subrange(0, i as int)) - borrow * pow_b(i as nat) == val(
                    x0.subrange(0, i as int),
                ) - val(y0.subrange(0, i as int)),
                forall|j: int| i <= j < n ==> x@[j] == x0[j] && y@[j] == y0[j],
            decreases n - i,
        {
            let xi = x[i];
            let yi = y[i];
            let (sum, carry_out) = crate::kernels::add_with_carry(xi, yi, carry);
            let (difference, borrow_out) = crate::kernels::sub_with_borrow(xi, yi, borrow);
            proof {
                crate::limbs::lemma_val_prefix_step(x@.update(i as int, sum), i as int);
                crate::limbs::lemma_val_prefix_step(y@.update(i as int, difference), i as int);
                crate::limbs::lemma_val_prefix_step(x0, i as int);
                crate::limbs::lemma_val_prefix_step(y0, i as int);
                assert(x@.update(i as int, sum).subrange(0, i as int) =~= x@.subrange(0, i as int));
                assert(y@.update(i as int, difference).subrange(0, i as int) =~= y@.subrange(
                    0,
                    i as int,
                ));
                crate::kernels::lemma_ripple_step(
                    val(x@.subrange(0, i as int)) as int,
                    val(x0.subrange(0, i as int)) as int,
                    val(y0.subrange(0, i as int)) as int,
                    carry as int,
                    carry_out as int,
                    sum as int,
                    xi as int,
                    yi as int,
                    pow_b(i as nat) as int,
                );
                crate::kernels::lemma_borrow_step(
                    val(y@.subrange(0, i as int)) as int,
                    val(x0.subrange(0, i as int)) as int,
                    val(y0.subrange(0, i as int)) as int,
                    borrow as int,
                    borrow_out as int,
                    difference as int,
                    xi as int,
                    yi as int,
                    pow_b(i as nat) as int,
                );
                assert(pow_b((i + 1) as nat) == radix() * pow_b(i as nat));
            }
            x[i] = sum;
            y[i] = difference;
            carry = carry_out;
            borrow = borrow_out;
            i = i + 1;
        }
        proof {
            assert(x@.subrange(0, n as int) =~= x@);
            assert(y@.subrange(0, n as int) =~= y@);
            assert(x0.subrange(0, n as int) =~= x0);
            assert(y0.subrange(0, n as int) =~= y0);
        }
        (carry, borrow)
    }

    /// Subtracts `src * w` from `dst`, propagating the borrow through all of
    /// `dst` and returning what escapes it.
    pub fn sub_mul_word_in_place(dst: &mut [Limb], src: &[Limb], w: Limb) -> (borrow: Limb)
        requires
            src@.len() <= old(dst)@.len(),
        ensures
            final(dst)@.len() == old(dst)@.len(),
            borrow <= w || borrow <= 1,
            val(final(dst)@) - borrow * pow_b(old(dst)@.len()) == val(old(dst)@) - val(src@) * w,
    {
        let n = src.len();
        let total = dst.len();
        let ghost d0 = dst@;
        let mut carry: Limb = 0;
        let mut i: usize = 0;
        proof {
            assert(src@.subrange(0, 0) =~= Seq::<Limb>::empty());
            assert(d0.subrange(0, 0) =~= Seq::<Limb>::empty());
            assert(dst@.subrange(0, 0) =~= Seq::<Limb>::empty());
            lemma_mul_basics(w as int);
        }
        while i < n
            invariant
                n == src@.len(),
                n <= dst@.len(),
                total == dst@.len(),
                dst@.len() == d0.len(),
                0 <= i <= n,
                carry <= w,
                val(dst@.subrange(0, i as int)) - carry * pow_b(i as nat) == val(
                    d0.subrange(0, i as int),
                ) - val(src@.subrange(0, i as int)) * w,
                forall|j: int| i <= j < dst@.len() ==> dst@[j] == d0[j],
            decreases n - i,
        {
            let (lo, hi) = crate::kernels::mul_add_add(src[i], w, carry, 0);
            let (digit, bo) = crate::kernels::sub_with_borrow(dst[i], lo, 0);
            proof {
                lemma_submul_carry(
                    w as int,
                    carry as int,
                    lo as int,
                    hi as int,
                    bo as int,
                    dst[i as int] as int,
                    src@[i as int] as int,
                );
                crate::limbs::lemma_val_prefix_step(dst@.update(i as int, digit), i as int);
                crate::limbs::lemma_val_prefix_step(d0, i as int);
                crate::limbs::lemma_val_prefix_step(src@, i as int);
                assert(dst@.update(i as int, digit).subrange(0, i as int) =~= dst@.subrange(
                    0,
                    i as int,
                ));
                lemma_submul_step(
                    val(dst@.subrange(0, i as int)) as int,
                    val(d0.subrange(0, i as int)) as int,
                    val(src@.subrange(0, i as int)) as int,
                    w as int,
                    carry as int,
                    lo as int,
                    hi as int,
                    bo as int,
                    digit as int,
                    d0[i as int] as int,
                    src@[i as int] as int,
                    pow_b(i as nat) as int,
                );
                assert(pow_b((i + 1) as nat) == radix() * pow_b(i as nat));
            }
            dst[i] = digit;
            carry = hi + bo;
            i = i + 1;
        }
        proof {
            assert(src@.subrange(0, n as int) =~= src@);
        }
        if n == total {
            proof {
                assert(dst@.subrange(0, n as int) =~= dst@);
                assert(d0.subrange(0, n as int) =~= d0);
            }
            return carry;
        }
        let ghost low = dst@.subrange(0, n as int);
        let ghost rest_final: Seq<Limb>;
        let escaped;
        {
            let (_, rest) = dst.split_at_mut(n);
            let ghost rest0 = rest@;
            let word: [Limb; 1] = [carry];
            proof {
                assert(word@ =~= seq![carry]);
                lemma_val_single(carry);
            }
            escaped = SsaCarry::sub_full_in_place(rest, &word);
            proof {
                rest_final = rest@;
                assert(rest0 =~= d0.subrange(n as int, total as int));
            }
        }
        proof {
            assert(dst@ =~= low + rest_final);
            lemma_val_concat(low, rest_final);
            lemma_val_split(d0, n as int);
            lemma_pow_b_add(n as nat, (total - n) as nat);
            let pn = pow_b(n as nat) as int;
            let pr = pow_b((total - n) as nat) as int;
            assert(pn * (val(rest_final) - escaped * pr) == pn * (val(d0.subrange(n as int, total as int)) - carry));
            assert(pn * (val(rest_final) - escaped * pr) == pn * val(rest_final) - escaped * (pn * pr))
                by (nonlinear_arith);
            assert(pn * (val(d0.subrange(n as int, total as int)) - carry) == pn * val(d0.subrange(n as int, total as int)) - carry * pn)
                by (nonlinear_arith);
        }
        escaped
    }

    /// Replaces `x` by `(B^n - x) mod B^n`, its two's-complement negation.
    pub fn negate_in_place(x: &mut [Limb])
        requires
            old(x)@.len() >= 1,
        ensures
            final(x)@.len() == old(x)@.len(),
            val(old(x)@) == 0 ==> val(final(x)@) == 0,
            val(old(x)@) > 0 ==> val(final(x)@) + val(old(x)@) == pow_b(old(x)@.len()),
    {
        let ghost x0 = x@;
        let n = x.len();
        let mut i: usize = 0;
        while i < n
            invariant
                n == x0.len(),
                x@.len() == n,
                0 <= i <= n,
                forall|j: int| 0 <= j < i ==> x@[j] == u64::MAX - x0[j],
                forall|j: int| i <= j < n ==> x@[j] == x0[j],
            decreases n - i,
        {
            x[i] = u64::MAX - x[i];
            i = i + 1;
        }
        proof {
            crate::limbs::lemma_val_complement(x0, x@);
        }
        let one: [Limb; 1] = [1];
        proof {
            assert(one@ =~= seq![1u64]);
            lemma_val_single(1);
        }
        let ghost c0 = val(x@);
        let carry = SsaCarry::add_full_in_place(x, &one);
        proof {
            lemma_val_bound(x@);
            lemma_pow_b_pos(n as nat);
            if val(x0) == 0 {
                assert(c0 + 1 == pow_b(n as nat));
                assert(carry == 1) by (nonlinear_arith)
                    requires
                        val(x@) + carry * pow_b(n as nat) == c0 + 1,
                        c0 + 1 == pow_b(n as nat),
                        val(x@) < pow_b(n as nat),
                        carry <= 1,
                ;
                assert(val(x@) == 0) by (nonlinear_arith)
                    requires
                        val(x@) + carry * pow_b(n as nat) == c0 + 1,
                        c0 + 1 == pow_b(n as nat),
                        carry == 1,
                ;
            } else {
                assert(carry == 0) by (nonlinear_arith)
                    requires
                        val(x@) + carry * pow_b(n as nat) == c0 + 1,
                        c0 + val(x0) + 1 == pow_b(n as nat),
                        val(x0) > 0,
                        carry <= 1,
                ;
            }
        }
    }

    /// Adds `src * w * B^offset` into `dst` when the sum fits `dst`.
    pub fn add_mul_word_at(dst: &mut [Limb], src: &[Limb], w: Limb, offset: usize)
        requires
            offset + src@.len() <= old(dst)@.len(),
            val(old(dst)@) + val(src@) * w * pow_b(offset as nat) < pow_b(old(dst)@.len()),
        ensures
            final(dst)@.len() == old(dst)@.len(),
            val(final(dst)@) == val(old(dst)@) + val(src@) * w * pow_b(offset as nat),
    {
        let ghost d0 = dst@;
        let n = dst.len();
        let m = src.len();
        let carry;
        let ghost lo_final: Seq<Limb>;
        let ghost hi_final: Seq<Limb>;
        {
            let (lo, hi) = dst.split_at_mut(offset);
            proof {
                assert(hi@ =~= d0.subrange(offset as int, n as int));
            }
            carry = crate::basecase::Multiplication::add_mul_word(hi, src, w);
            proof {
                lo_final = lo@;
                hi_final = hi@;
                assert(lo@ =~= d0.subrange(0, offset as int));
            }
        }
        let ghost d1 = dst@;
        proof {
            let p = pow_b(offset as nat) as int;
            let pm = pow_b(m as nat) as int;
            let h0 = d0.subrange(offset as int, n as int);
            assert(d1 =~= lo_final + hi_final);
            lemma_val_concat(lo_final, hi_final);
            lemma_val_split(d0, offset as int);
            lemma_val_split(h0, m as int);
            lemma_val_split(hi_final, m as int);
            assert(hi_final.subrange(m as int, hi_final.len() as int) =~= h0.subrange(
                m as int,
                h0.len() as int,
            ));
            lemma_pow_b_add(offset as nat, m as nat);
            lemma_pow_b_pos(offset as nat);
            let hl = val(hi_final.subrange(0, m as int)) as int;
            let h0l = val(h0.subrange(0, m as int)) as int;
            let rest = val(h0.subrange(m as int, h0.len() as int)) as int;
            let pom = pow_b((offset + m) as nat) as int;
            assert(val(d1) + carry * pom == val(d0) + val(src@) * w * p) by (nonlinear_arith)
                requires
                    hl + carry * pm == h0l + val(src@) * w,
                    val(d1) == val(lo_final) + p * val(hi_final),
                    val(hi_final) == hl + pm * rest,
                    val(h0) == h0l + pm * rest,
                    val(d0) == val(lo_final) + p * val(h0),
                    pom == p * pm,
            ;
            assert(val(d1) + (carry as int) * pow_b((offset + m) as nat) < pow_b(n as nat));
            lemma_val_bound(d1);
            lemma_pow_b_monotone((offset + m) as nat, n as nat);
        }
        if offset + m < n {
            let word: [Limb; 1] = [carry];
            proof {
                assert(word@ =~= seq![carry]);
                lemma_val_single(carry);
            }
            Self::add_coefficient_in_place(dst, &word, offset + m);
        } else {
            proof {
                lemma_pow_b_pos(n as nat);
                assert(carry == 0) by (nonlinear_arith)
                    requires
                        val(d1) + (carry as int) * pow_b((offset + m) as nat) < pow_b(n as nat),
                        offset + m == n,
                        val(d1) >= 0,
                ;
                assert((carry as int) * pow_b((offset + m) as nat) == 0);
            }
        }
    }

    /// Adds `src * B^offset` into `dst` when the sum fits `dst`.
    pub fn add_coefficient_in_place(dst: &mut [Limb], src: &[Limb], offset: usize)
        requires
            offset <= old(dst)@.len(),
            val(old(dst)@) + val(src@) * pow_b(offset as nat) < pow_b(old(dst)@.len()),
        ensures
            final(dst)@.len() == old(dst)@.len(),
            val(final(dst)@) == val(old(dst)@) + val(src@) * pow_b(offset as nat),
    {
        let ghost d0 = dst@;
        let n = dst.len();
        let room = n - offset;
        let m = if src.len() < room {
            src.len()
        } else {
            room
        };
        let src_low = &src[0..m];
        proof {
            lemma_val_split(src@, m as int);
            assert(src@.subrange(0, m as int) =~= src_low@);
            lemma_pow_b_pos(offset as nat);
            lemma_pow_b_add(offset as nat, m as nat);
            // The limbs of `src` beyond the room of `dst` are zero.
            if m < src@.len() {
                let hi = val(src@.subrange(m as int, src@.len() as int)) as int;
                if hi > 0 {
                    assert(val(src@) * pow_b(offset as nat) >= pow_b(n as nat)) by (nonlinear_arith)
                        requires
                            val(src@) == val(src_low@) + pow_b(m as nat) * hi,
                            hi >= 1,
                            pow_b(offset as nat) * pow_b(m as nat) == pow_b(n as nat),
                            m == n - offset,
                    ;
                }
                assert(hi == 0);
            }
            if m == src@.len() {
                assert(src@.subrange(m as int, src@.len() as int) =~= Seq::<Limb>::empty());
                assert(val(Seq::<Limb>::empty()) == 0);
            }
            lemma_mul_basics(pow_b(m as nat) as int);
            assert(val(src@) == val(src_low@));
        }
        let carry;
        let ghost hi_final: Seq<Limb>;
        {
            let (lo, hi) = dst.split_at_mut(offset);
            proof {
                assert(lo@ =~= d0.subrange(0, offset as int));
                assert(hi@ =~= d0.subrange(offset as int, n as int));
            }
            carry = SsaCarry::add_full_in_place(hi, src_low);
            proof {
                hi_final = hi@;
            }
        }
        proof {
            let p = pow_b(offset as nat) as int;
            let hv0 = val(d0.subrange(offset as int, n as int)) as int;
            lemma_val_split(d0, offset as int);
            lemma_val_split(dst@, offset as int);
            assert(dst@.subrange(offset as int, n as int) =~= hi_final);
            assert(dst@.subrange(0, offset as int) =~= d0.subrange(0, offset as int));
            lemma_val_bound(dst@);
            lemma_pow_b_add(offset as nat, room as nat);
            assert(offset + room == n);
            assert(carry == 0) by (nonlinear_arith)
                requires
                    val(hi_final) + carry * pow_b(room as nat) == hv0 + val(src_low@),
                    val(d0) == val(d0.subrange(0, offset as int)) + p * hv0,
                    val(dst@) == val(d0.subrange(0, offset as int)) + p * val(hi_final),
                    val(d0) + val(src_low@) * p < pow_b(n as nat),
                    p * pow_b(room as nat) == pow_b(n as nat),
                    carry <= 1,
                    p >= 1,
                    val(hi_final) >= 0,
            ;
            lemma_mul_basics(pow_b(room as nat) as int);
            assert(val(dst@) == val(d0) + val(src@) * p) by (nonlinear_arith)
                requires
                    val(hi_final) == hv0 + val(src_low@),
                    val(d0) == val(d0.subrange(0, offset as int)) + p * hv0,
                    val(dst@) == val(d0.subrange(0, offset as int)) + p * val(hi_final),
                    val(src@) == val(src_low@),
            ;
        }
    }
}

} // verus!
