//! Odd-factor decomposition for medium Fermat-ring point products.
//!
//! For an odd `k` and `X = B^n`, `X^k + 1 = (X + 1) Q` with
//! `Q = X^(k-1) - X^(k-2) + ... - X + 1`, so a product modulo `X^k + 1` can be
//! recovered from one product modulo `Q` and one modulo `X + 1`. This module
//! selects that decomposition and sizes its workspace.

use crate::basecase::Multiplication;
use crate::limbs::{Limb, lemma_pow_b_add, lemma_pow_b_pos, lemma_val_bound, lemma_val_split, pow_b, val};
use crate::ssa::carry::SsaCarry;
use crate::ssa::cofactor::{
    build_times_quotient, cofactor, exact_div_in_place, fold_mod_x_plus_one, lemma_block_powers,
    lemma_cofactor_product, lemma_factored_product, make_exactly_divisible_by_factor, quotient_residue,
    reduce_product_mod_fermat,
};
use crate::ssa::pointwise::SsaPointwise;
use crate::ssa::ring::{SsaRing, canonical, fermat_modulus, lemma_canonical_shape, residue, slot_value};
use crate::ssa::tuning::{SSA_NEGACYCLIC_FACTOR3_THRESHOLD, SSA_NEGACYCLIC_FACTOR5_THRESHOLD};
use vstd::arithmetic::div_mod::*;
use vstd::arithmetic::mul::*;
use vstd::prelude::*;

verus! {

/// A preselected odd-factor decomposition for one fixed coefficient width.
#[derive(Clone, Copy, Debug, PartialEq, Eq, Structural)]
pub struct NegacyclicPlan {
    pub factor: usize,
    pub block_len: usize,
    pub modulus_limbs: usize,
    pub modulus_bits: usize,
    pub small_bits: usize,
    pub quotient_len: usize,
    pub small_coeff_len: usize,
    pub quotient_coeff_len: usize,
    pub quotient_product_len: usize,
    pub small_product_len: usize,
    pub scratch_len: usize,
}

/// The odd factor the decomposition uses for a ring of `modulus_limbs` limbs.
pub open spec fn negacyclic_factor(modulus_limbs: nat) -> nat {
    if modulus_limbs >= SSA_NEGACYCLIC_FACTOR5_THRESHOLD && modulus_limbs % 5 == 0 {
        5
    } else if modulus_limbs >= SSA_NEGACYCLIC_FACTOR3_THRESHOLD && modulus_limbs % 3 == 0 {
        3
    } else {
        0
    }
}

/// The plan [`NegacyclicPlan::new`] selects, if any.
pub open spec fn spec_negacyclic_plan(modulus_limbs: nat) -> Option<NegacyclicPlan> {
    let factor = negacyclic_factor(modulus_limbs);
    let block_len = if factor == 0 {
        0
    } else {
        modulus_limbs / factor
    };
    let quotient_len = modulus_limbs - block_len;
    let scratch_len = (block_len + 1) * 4 + (quotient_len + 1) * 2 + quotient_len * 2 + block_len
        * 2;
    if modulus_limbs * 64 > usize::MAX || factor == 0 || block_len == 0 || scratch_len
        > usize::MAX {
        None
    } else {
        Some(
            NegacyclicPlan {
                factor: factor as usize,
                block_len: block_len as usize,
                modulus_limbs: modulus_limbs as usize,
                modulus_bits: (modulus_limbs * 64) as usize,
                small_bits: (block_len * 64) as usize,
                quotient_len: quotient_len as usize,
                small_coeff_len: (block_len + 1) as usize,
                quotient_coeff_len: (quotient_len + 1) as usize,
                quotient_product_len: (quotient_len * 2) as usize,
                small_product_len: (block_len * 2) as usize,
                scratch_len: scratch_len as usize,
            },
        )
    }
}

impl NegacyclicPlan {
    /// Selects a decomposition only where its two smaller products are
    /// expected to repay the folding and CRT passes: a factor of five from
    /// its threshold on, else a factor of three from its own.
    pub fn new(modulus_limbs: usize) -> (plan: Option<Self>)
        ensures
            plan == spec_negacyclic_plan(modulus_limbs as nat),
    {
        let modulus_bits = modulus_limbs.checked_mul(64)?;
        let factor: usize = if modulus_limbs >= SSA_NEGACYCLIC_FACTOR5_THRESHOLD && modulus_limbs
            % 5 == 0 {
            5
        } else if modulus_limbs >= SSA_NEGACYCLIC_FACTOR3_THRESHOLD && modulus_limbs % 3 == 0 {
            3
        } else {
            return None;
        };
        let block_len = modulus_limbs / factor;
        if block_len == 0 {
            return None;
        }
        let small_bits = block_len * 64;
        let quotient_len = modulus_limbs - block_len;
        let small_coeff_len = block_len + 1;
        let quotient_coeff_len = quotient_len + 1;
        let quotient_product_len = quotient_len * 2;
        let small_product_len = block_len * 2;
        let quotient_work = Multiplication::required_scratch(quotient_len, quotient_len);
        let small_work = small_product_len + Multiplication::required_scratch(block_len, block_len);
        let work = if quotient_work > small_work {
            quotient_work
        } else {
            small_work
        };
        let scratch_len = small_coeff_len.checked_mul(4)?.checked_add(
            quotient_coeff_len.checked_mul(2)?,
        )?.checked_add(quotient_product_len)?.checked_add(work)?;
        Some(
            NegacyclicPlan {
                factor,
                block_len,
                modulus_limbs,
                modulus_bits,
                small_bits,
                quotient_len,
                small_coeff_len,
                quotient_coeff_len,
                quotient_product_len,
                small_product_len,
                scratch_len,
            },
        )
    }

    /// Scratch required by a factorized point product.
    pub fn scratch_len(self) -> (len: usize)
        ensures
            len == self.scratch_len,
    {
        self.scratch_len
    }

    /// Multiplies two canonical residues with zero guards, overwriting
    /// `left` with the canonical product modulo `B^N + 1`: the product modulo
    /// `Q` and modulo `X + 1` are computed from half-width products and
    /// recombined. `right` is used as workspace and left unspecified.
    #[verifier::rlimit(100)]
    #[verifier::spinoff_prover]
    pub fn mul_assign_left(self, left: &mut [Limb], right: &mut [Limb], scratch: &mut [Limb])
        requires
            spec_negacyclic_plan(self.modulus_limbs as nat) == Some(self),
            old(left)@.len() == self.modulus_limbs + 1,
            old(right)@.len() == self.modulus_limbs + 1,
            old(left)@[self.modulus_limbs as int] == 0,
            old(right)@[self.modulus_limbs as int] == 0,
            old(scratch)@.len() >= self.scratch_len,
        ensures
            final(left)@.len() == old(left)@.len(),
            final(right)@.len() == old(right)@.len(),
            final(scratch)@.len() == old(scratch)@.len(),
            canonical(final(left)@, self.modulus_limbs as nat),
            residue(final(left)@, self.modulus_limbs as nat) == ((val(old(left)@) * val(old(right)@)) as int)
                % (fermat_modulus(self.modulus_limbs as nat) as int),
    {
        let k = self.factor;
        let n = self.block_len;
        let big_n = self.modulus_limbs;
        let qlen = self.quotient_len;
        let ghost nl = n as nat;
        let ghost kk = k as nat;
        let ghost x = pow_b(nl) as int;
        let ghost f = x + 1;
        let ghost q = cofactor(x, kk);
        let ghost big = fermat_modulus(big_n as nat) as int;
        let ghost a = val(left@) as int;
        let ghost b = val(right@) as int;
        proof {
            assert(k == 3 || k == 5);
            lemma_fundamental_div_mod(big_n as int, k as int);
            assert(big_n == k * n);
            assert(qlen == (k - 1) * n) by {
                lemma_mul_is_distributive_sub_other_way(n as int, k as int, 1);
            }
            lemma_mul_is_commutative(k as int, n as int);
            lemma_cofactor_product(nl, kk);
            assert(big == f * q);
            lemma_pow_b_pos(nl);
            assert(left@.subrange(0, big_n + 1int) =~= left@);
            assert(right@.subrange(0, big_n + 1int) =~= right@);
            lemma_mul_inequality(n as int, big_n as int, 64);
            lemma_mul_inequality(2, k as int, n as int);
        }
        let (left_small, rest) = scratch.split_at_mut(n + 1);
        let (right_small, rest) = rest.split_at_mut(n + 1);
        let (fold_scratch, rest) = rest.split_at_mut(n + 1);
        let (small_product, rest) = rest.split_at_mut(n + 1);
        let (left_quotient, rest) = rest.split_at_mut(qlen + 1);
        let (right_quotient, rest) = rest.split_at_mut(qlen + 1);
        let (quotient_product, work) = rest.split_at_mut(2 * qlen);
        fold_mod_x_plus_one(left_small, fold_scratch, left, n, k);
        fold_mod_x_plus_one(right_small, fold_scratch, right, n, k);
        let ghost as_ = slot_value(left_small@, nl) as int;
        let ghost bs = slot_value(right_small@, nl) as int;
        quotient_residue(left_quotient, left, n, k);
        quotient_residue(right_quotient, right, n, k);
        let ghost aq = val(left_quotient@) as int;
        let ghost bq = val(right_quotient@) as int;
        let left_quotient_input = &left_quotient[0..qlen];
        let right_quotient_input = &right_quotient[0..qlen];
        proof {
            lemma_val_split(left_quotient@, qlen as int);
            lemma_val_split(right_quotient@, qlen as int);
            assert(left_quotient@.subrange(qlen as int, qlen + 1int) =~= seq![0u64]);
            assert(right_quotient@.subrange(qlen as int, qlen + 1int) =~= seq![0u64]);
            crate::limbs::lemma_val_single(0u64);
            assert(val(left_quotient_input@) == aq);
            assert(val(right_quotient_input@) == bq);
        }
        Multiplication::mul_limbs(quotient_product, left_quotient_input, right_quotient_input);
        proof {
            assert(big_n <= 2 * qlen);
        }
        reduce_product_mod_fermat(left, quotient_product, big_n);
        let ghost u = slot_value(left@, big_n as nat) as int;
        proof {
            assert(left@.subrange(0, big_n + 1int) =~= left@);
        }
        let small_bits = n * 64;
        let (small_full_product, _) = work.split_at_mut(2 * n);
        SsaPointwise::fermat_mul_into(small_product, left_small, right_small, small_bits, small_full_product);
        let ghost ps = slot_value(small_product@, nl) as int;
        fold_mod_x_plus_one(left_small, fold_scratch, left, n, k);
        let ghost us = slot_value(left_small@, nl) as int;
        proof {
            lemma_canonical_shape(small_product@, nl);
            lemma_canonical_shape(left_small@, nl);
        }
        SsaRing::sub_in_place(small_product, left_small, small_bits);
        SsaRing::normalize(small_product, small_bits);
        let ghost d = slot_value(small_product@, nl) as int;
        proof {
            assert(small_product@.subrange(0, nl + 1int) =~= small_product@);
        }
        let ghost m = crate::ssa::cofactor::divisibility_multiple((d % (k as int)) as nat, kk) as int;
        make_exactly_divisible_by_factor(small_product, k);
        let ghost dm = val(small_product@) as int;
        exact_div_in_place(small_product, k);
        let ghost t = val(small_product@) as int;
        proof {
            assert(dm == d + m * f);
            assert(0 <= m < k);
            assert(d <= x);
            let km1 = k as int - 1;
            assert(m * f <= km1 * f) by (nonlinear_arith)
                requires
                    0 <= m <= km1,
                    f >= 0,
            ;
            assert(dm <= x + km1 * (x + 1));
            if k == 3 {
                assert(t <= x) by (nonlinear_arith)
                    requires
                        t * 3 == dm,
                        dm <= x + 2 * (x + 1),
                ;
            } else {
                assert(t <= x) by (nonlinear_arith)
                    requires
                        t * 5 == dm,
                        dm <= x + 4 * (x + 1),
                ;
            }
        }
        build_times_quotient(right, small_product, n, k);
        let ghost tq = val(right@) as int;
        let carry = SsaCarry::add_full_in_place(left, right);
        proof {
            let p = pow_b(big_n as nat) as int;
            lemma_pow_b_add(big_n as nat, 1);
            assert(pow_b(1) == crate::limbs::radix() * pow_b(0));
            assert(u <= p);
            assert(tq == t * q);
            assert(big == p + 1);
            assert(t * q < big) by (nonlinear_arith)
                requires
                    0 <= t <= x,
                    q >= 1,
                    big == (x + 1) * q,
            ;
            lemma_val_bound(left@);
            if carry != 0 {
                assert(val(left@) + carry * pow_b((big_n + 1) as nat) >= pow_b((big_n + 1) as nat));
                assert(pow_b((big_n + 1) as nat) == p * crate::limbs::radix());
                assert(u + tq < p * crate::limbs::radix()) by (nonlinear_arith)
                    requires
                        u <= p,
                        tq < p + 1,
                        p >= 1,
                ;
            }
            assert(carry == 0);
            assert(left@.subrange(0, big_n + 1int) =~= left@);
        }
        let modulus_bits = self.modulus_bits;
        SsaRing::normalize(left, modulus_bits);
        proof {
            lemma_factored_product(nl, kk, a, b, aq, bq, u, ps, as_, bs, us, d, m, t);
            assert(big_n as nat == kk * nl);
        }
    }

}

} // verus!
