//! The mathematical model of a limb slice: a little-endian natural number in
//! radix `B = 2^64`, together with the lemmas every arithmetic layer uses.

use vstd::arithmetic::div_mod::*;
use vstd::arithmetic::mul::*;
use vstd::prelude::*;

verus! {

/// One machine word of a multi-precision number.
pub type Limb = u64;

/// Bits in one limb.
pub const LIMB_BITS: usize = 64;

/// The radix `B = 2^64`.
pub open spec fn radix() -> nat {
    0x1_0000_0000_0000_0000nat
}

/// `B^k`.
pub open spec fn pow_b(k: nat) -> nat
    decreases k,
{
    if k == 0 {
        1
    } else {
        radix() * pow_b((k - 1) as nat)
    }
}

/// The natural number a little-endian limb sequence denotes.
pub open spec fn val(s: Seq<Limb>) -> nat
    decreases s.len(),
{
    if s.len() == 0 {
        0
    } else {
        val(s.drop_last()) + (s.last() as nat) * pow_b((s.len() - 1) as nat)
    }
}

/// Every limb of `s` is zero.
pub open spec fn all_zero(s: Seq<Limb>) -> bool {
    forall|i: int| 0 <= i < s.len() ==> s[i] == 0
}

/// Every limb of `s` is `B - 1`.
pub open spec fn all_max(s: Seq<Limb>) -> bool {
    forall|i: int| 0 <= i < s.len() ==> s[i] == u64::MAX
}

pub proof fn lemma_pow_b_pos(k: nat)
    ensures
        pow_b(k) >= 1,
    decreases k,
{
    if k > 0 {
        lemma_pow_b_pos((k - 1) as nat);
        lemma_mul_increases(radix() as int, pow_b((k - 1) as nat) as int);
    }
}

pub proof fn lemma_pow_b_add(a: nat, b: nat)
    ensures
        pow_b(a + b) == pow_b(a) * pow_b(b),
    decreases a,
{
    if a > 0 {
        lemma_pow_b_add((a - 1) as nat, b);
        assert(pow_b(a) == radix() * pow_b((a - 1) as nat));
        assert(pow_b(a + b) == radix() * pow_b((a - 1 + b) as nat));
        lemma_mul_is_associative(radix() as int, pow_b((a - 1) as nat) as int, pow_b(b) as int);
    } else {
        assert(pow_b(0) == 1);
        lemma_mul_basics(pow_b(b) as int);
    }
}

pub proof fn lemma_pow_b_one()
    ensures
        pow_b(1) == radix(),
{
    assert(pow_b(1) == radix() * pow_b(0));
}

pub proof fn lemma_pow_b_monotone(a: nat, b: nat)
    requires
        a <= b,
    ensures
        pow_b(a) <= pow_b(b),
{
    lemma_pow_b_add(a, (b - a) as nat);
    lemma_pow_b_pos((b - a) as nat);
    lemma_pow_b_pos(a);
    lemma_mul_increases(pow_b((b - a) as nat) as int, pow_b(a) as int);
    lemma_mul_is_commutative(pow_b((b - a) as nat) as int, pow_b(a) as int);
}

pub proof fn lemma_pow_b_strict(a: nat, b: nat)
    requires
        a < b,
    ensures
        2 * pow_b(a) <= pow_b(b),
{
    lemma_pow_b_monotone((a + 1) as nat, b);
    lemma_pow_b_pos(a);
    assert(pow_b(a + 1) == radix() * pow_b(a));
    lemma_mul_inequality(2, radix() as int, pow_b(a) as int);
}

/// A value below `B^n` fits `n` limbs.
pub proof fn lemma_val_bound(s: Seq<Limb>)
    ensures
        val(s) < pow_b(s.len()),
    decreases s.len(),
{
    if s.len() > 0 {
        let k = (s.len() - 1) as nat;
        lemma_val_bound(s.drop_last());
        assert(s.last() <= u64::MAX);
        lemma_mul_inequality(s.last() as int, u64::MAX as int, pow_b(k) as int);
        assert(pow_b(k + 1) == radix() * pow_b(k));
        lemma_mul_is_distributive_add_other_way(pow_b(k) as int, u64::MAX as int, 1);
        assert((u64::MAX as int) * pow_b(k) + pow_b(k) == radix() * pow_b(k));
    }
}

/// Appending one limb adds it at the next radix position.
pub proof fn lemma_val_push(s: Seq<Limb>, x: Limb)
    ensures
        val(s.push(x)) == val(s) + x * pow_b(s.len()),
{
    assert(s.push(x).drop_last() =~= s);
}

/// A one-limb sequence denotes its limb.
pub proof fn lemma_val_single(x: Limb)
    ensures
        val(seq![x]) == x,
{
    assert(seq![x].drop_last() =~= Seq::<Limb>::empty());
    assert(val(Seq::<Limb>::empty()) == 0);
    assert(pow_b(0) == 1);
    assert(x * pow_b(0) == x);
}

/// The value of a prefix grows by one radix digit at a time.
pub proof fn lemma_val_prefix_step(s: Seq<Limb>, i: int)
    requires
        0 <= i < s.len(),
    ensures
        val(s.subrange(0, i + 1)) == val(s.subrange(0, i)) + s[i] * pow_b(i as nat),
{
    assert(s.subrange(0, i + 1).drop_last() =~= s.subrange(0, i));
}

/// Splitting a sequence at `k` splits its value at radix position `k`.
pub proof fn lemma_val_split(s: Seq<Limb>, k: int)
    requires
        0 <= k <= s.len(),
    ensures
        val(s) == val(s.subrange(0, k)) + pow_b(k as nat) * val(s.subrange(k, s.len() as int)),
    decreases s.len(),
{
    if k == s.len() {
        assert(s.subrange(0, k) =~= s);
        assert(s.subrange(k, s.len() as int) =~= Seq::<Limb>::empty());
        assert(val(Seq::<Limb>::empty()) == 0);
        lemma_mul_basics(pow_b(k as nat) as int);
    } else {
        let t = s.drop_last();
        lemma_val_split(t, k);
        let hi = s.subrange(k, s.len() as int);
        let thi = t.subrange(k, t.len() as int);
        assert(hi.drop_last() =~= thi);
        assert(t.subrange(0, k) =~= s.subrange(0, k));
        assert(hi.last() == s.last());
        assert(val(hi) == val(thi) + s.last() * pow_b((hi.len() - 1) as nat));
        lemma_pow_b_add(k as nat, (hi.len() - 1) as nat);
        assert(k + (hi.len() - 1) == s.len() - 1);
        lemma_mul_is_distributive_add(pow_b(k as nat) as int, val(thi) as int, s.last() * pow_b((hi.len() - 1) as nat));
        lemma_mul_is_associative(pow_b(k as nat) as int, s.last() as int, pow_b((hi.len() - 1) as nat) as int);
        lemma_mul_is_commutative(pow_b(k as nat) as int, s.last() as int);
        lemma_mul_is_associative(s.last() as int, pow_b(k as nat) as int, pow_b((hi.len() - 1) as nat) as int);
    }
}

/// Concatenation places the second sequence above the first.
pub proof fn lemma_val_concat(a: Seq<Limb>, b: Seq<Limb>)
    ensures
        val(a + b) == val(a) + pow_b(a.len()) * val(b),
{
    lemma_val_split(a + b, a.len() as int);
    assert((a + b).subrange(0, a.len() as int) =~= a);
    assert((a + b).subrange(a.len() as int, (a + b).len() as int) =~= b);
}

pub proof fn lemma_val_zero(s: Seq<Limb>)
    requires
        all_zero(s),
    ensures
        val(s) == 0,
    decreases s.len(),
{
    if s.len() > 0 {
        lemma_val_zero(s.drop_last());
    }
}

/// A sequence whose value is zero has only zero limbs.
pub proof fn lemma_val_zero_converse(s: Seq<Limb>)
    requires
        val(s) == 0,
    ensures
        all_zero(s),
    decreases s.len(),
{
    if s.len() > 0 {
        let k = (s.len() - 1) as nat;
        lemma_pow_b_pos(k);
        lemma_mul_nonnegative(s.last() as int, pow_b(k) as int);
        if s.last() != 0 {
            lemma_mul_increases(s.last() as int, pow_b(k) as int);
            lemma_mul_is_commutative(s.last() as int, pow_b(k) as int);
        }
        lemma_val_zero_converse(s.drop_last());
        assert forall|i: int| 0 <= i < s.len() implies s[i] == 0 by {
            if i < s.len() - 1 {
                assert(s.drop_last()[i] == s[i]);
            }
        }
    }
}

/// All `B - 1` limbs denote `B^n - 1`.
pub proof fn lemma_val_all_max(s: Seq<Limb>)
    requires
        all_max(s),
    ensures
        val(s) + 1 == pow_b(s.len()),
    decreases s.len(),
{
    if s.len() > 0 {
        let k = (s.len() - 1) as nat;
        lemma_val_all_max(s.drop_last());
        assert(pow_b(k + 1) == radix() * pow_b(k));
        lemma_mul_is_distributive_add_other_way(pow_b(k) as int, u64::MAX as int, 1);
    }
}

/// The only `n`-limb sequence of value `B^n - 1` is all `B - 1`.
pub proof fn lemma_val_all_max_converse(s: Seq<Limb>)
    requires
        val(s) + 1 == pow_b(s.len()),
    ensures
        all_max(s),
    decreases s.len(),
{
    if s.len() > 0 {
        let k = (s.len() - 1) as nat;
        let t = s.drop_last();
        lemma_val_bound(t);
        assert(pow_b(k + 1) == radix() * pow_b(k));
        // val(t) + last * B^k + 1 == B * B^k with val(t) < B^k forces last == B - 1.
        if s.last() < u64::MAX {
            lemma_mul_inequality(s.last() as int + 1, u64::MAX as int, pow_b(k) as int);
            lemma_mul_is_distributive_add_other_way(pow_b(k) as int, s.last() as int, 1);
            lemma_mul_is_distributive_add_other_way(pow_b(k) as int, u64::MAX as int, 1);
            assert(false);
        }
        lemma_mul_is_distributive_add_other_way(pow_b(k) as int, u64::MAX as int, 1);
        lemma_val_all_max_converse(t);
        assert forall|i: int| 0 <= i < s.len() implies s[i] == u64::MAX by {
            if i < s.len() - 1 {
                assert(t[i] == s[i]);
            }
        }
    }
}

/// A limb-wise complement adds up with the original to `B^n - 1`.
pub proof fn lemma_val_complement(s: Seq<Limb>, t: Seq<Limb>)
    requires
        s.len() == t.len(),
        forall|i: int| 0 <= i < s.len() ==> t[i] == u64::MAX - s[i],
    ensures
        val(s) + val(t) + 1 == pow_b(s.len()),
    decreases s.len(),
{
    if s.len() > 0 {
        let k = (s.len() - 1) as nat;
        lemma_val_complement(s.drop_last(), t.drop_last());
        assert(pow_b(k + 1) == radix() * pow_b(k));
        lemma_mul_is_distributive_add_other_way(pow_b(k) as int, s.last() as int, t.last() as int);
        lemma_mul_is_distributive_add_other_way(pow_b(k) as int, u64::MAX as int, 1);
    }
}

/// Two sequences of one length with one value are identical.
pub proof fn lemma_val_injective(a: Seq<Limb>, b: Seq<Limb>)
    requires
        a.len() == b.len(),
        val(a) == val(b),
    ensures
        a == b,
    decreases a.len(),
{
    if a.len() > 0 {
        let k = (a.len() - 1) as nat;
        lemma_val_bound(a.drop_last());
        lemma_val_bound(b.drop_last());
        lemma_pow_b_pos(k);
        let x = a.last() as int;
        let y = b.last() as int;
        let p = pow_b(k) as int;
        // val(a') + x p == val(b') + y p, with both remainders below p.
        lemma_fundamental_div_mod_converse(val(a) as int, p, x, val(a.drop_last()) as int);
        lemma_fundamental_div_mod_converse(val(b) as int, p, y, val(b.drop_last()) as int);
        lemma_mul_is_commutative(x, p);
        lemma_mul_is_commutative(y, p);
        lemma_val_injective(a.drop_last(), b.drop_last());
        assert(a =~= b.drop_last().push(b.last()));
        assert(b =~= b.drop_last().push(b.last()));
    }
}

/// Updating one limb changes the value by the difference at its position.
pub proof fn lemma_val_update(s: Seq<Limb>, i: int, x: Limb)
    requires
        0 <= i < s.len(),
    ensures
        val(s.update(i, x)) + s[i] * pow_b(i as nat) == val(s) + x * pow_b(i as nat),
{
    let t = s.update(i, x);
    lemma_val_split(s, i);
    lemma_val_split(t, i);
    let hs = s.subrange(i, s.len() as int);
    let ht = t.subrange(i, t.len() as int);
    assert(t.subrange(0, i) =~= s.subrange(0, i));
    lemma_val_split(hs, 1);
    lemma_val_split(ht, 1);
    assert(hs.subrange(1, hs.len() as int) =~= ht.subrange(1, ht.len() as int));
    assert(val(hs.subrange(0, 1)) == hs[0]) by {
        assert(hs.subrange(0, 1).drop_last() =~= Seq::<Limb>::empty());
        assert(val(hs.subrange(0, 1).drop_last()) == 0);
        assert(pow_b(0) == 1);
    }
    assert(val(ht.subrange(0, 1)) == ht[0]) by {
        assert(ht.subrange(0, 1).drop_last() =~= Seq::<Limb>::empty());
        assert(val(ht.subrange(0, 1).drop_last()) == 0);
        assert(pow_b(0) == 1);
    }
    lemma_pow_b_one();
    let r = val(hs.subrange(1, hs.len() as int)) as int;
    let p = pow_b(i as nat) as int;
    lemma_mul_is_distributive_add(p, s[i] as int, radix() * r);
    lemma_mul_is_distributive_add(p, x as int, radix() * r);
    lemma_mul_is_commutative(p, s[i] as int);
    lemma_mul_is_commutative(p, x as int);
}

} // verus!
