//! The odd-factor point product against the full basecase product.

use lib::limbs::Limb;
use lib::ssa::negacyclic::NegacyclicPlan;
use lib::ssa::pointwise::SsaPointwise;

fn dense_operand(len: usize, mut state: u64) -> Vec<Limb> {
    state ^= 0x9e37_79b9_7f4a_7c15;
    let mut limbs = Vec::with_capacity(len + 1);
    for _ in 0..len {
        state ^= state.wrapping_shl(13);
        state ^= state.wrapping_shr(7);
        state ^= state.wrapping_shl(17);
        limbs.push(state);
    }
    limbs.push(0);
    limbs
}

fn check_operands(modulus_limbs: usize, mut left: Vec<Limb>, mut right: Vec<Limb>) {
    let plan = NegacyclicPlan::new(modulus_limbs).expect("test width has an odd factor");
    let modulus_bits = modulus_limbs * 64;
    let mut expected = vec![0; modulus_limbs + 1];
    let mut exact_scratch = vec![0; SsaPointwise::fermat_basecase_scratch_len(modulus_bits)];
    SsaPointwise::fermat_basecase_mul_into(&mut expected, &left, &right, modulus_bits, &mut exact_scratch);

    let mut factor_scratch = vec![0; plan.scratch_len()];
    plan.mul_assign_left(&mut left, &mut right, &mut factor_scratch);
    assert_eq!(left, expected);
}

fn check_factorized_product(modulus_limbs: usize, left_seed: u64, right_seed: u64) {
    check_operands(
        modulus_limbs,
        dense_operand(modulus_limbs, left_seed),
        dense_operand(modulus_limbs, right_seed),
    );
}

#[test]
fn factorized_product_handles_sparse_boundaries() {
    check_factorized_product(288, 0, u64::MAX);
    check_factorized_product(320, u64::MAX, 0);
}

#[test]
fn factorized_product_matches_for_several_seeds() {
    for seed in 1..4_u64 {
        check_factorized_product(288, seed, seed.wrapping_mul(77));
        check_factorized_product(320, seed.wrapping_mul(3), seed);
    }
}

#[test]
fn factorized_product_handles_a_minus_one_residue_modulo_x_plus_one() {
    // X = B^(N/k); an operand equal to X leaves -1 modulo X + 1, whose
    // canonical representative is the guard value X itself.
    for (modulus_limbs, factor) in [(288_usize, 3_usize), (320, 5)] {
        let block = modulus_limbs / factor;
        let mut left = vec![0; modulus_limbs + 1];
        left[block] = 1;
        let right = dense_operand(modulus_limbs, 5);
        check_operands(modulus_limbs, left.clone(), right.clone());
        check_operands(modulus_limbs, right, left);
    }
}

#[test]
fn factorized_product_of_zero_is_zero() {
    let zero = vec![0; 289];
    let other = dense_operand(288, 9);
    check_operands(288, zero, other);
}

#[test]
fn pointwise_products_use_the_factorized_product_where_planned() {
    let modulus_limbs = 288_usize;
    let modulus_bits = modulus_limbs * 64;
    let cl = modulus_limbs + 1;
    let slots = 3_usize;
    let mut left = Vec::new();
    let mut right = Vec::new();
    for i in 0..slots {
        left.extend(dense_operand(modulus_limbs, 11 + i as u64));
        right.extend(dense_operand(modulus_limbs, 23 + i as u64));
    }
    let mut expected = vec![0; slots * cl];
    let mut exact_scratch = vec![0; SsaPointwise::fermat_basecase_scratch_len(modulus_bits)];
    for i in 0..slots {
        SsaPointwise::fermat_mul_into(
            &mut expected[i * cl..(i + 1) * cl],
            &left[i * cl..(i + 1) * cl],
            &right[i * cl..(i + 1) * cl],
            modulus_bits,
            &mut exact_scratch,
        );
    }
    let mut scratch = vec![0; cl + SsaPointwise::fermat_basecase_scratch_len(modulus_bits)];
    SsaPointwise::pointwise_multiply_with_executor(&mut left, &mut right, slots, modulus_bits, &mut scratch);
    assert_eq!(left, expected);
}
