//! Fermat-ring shifts checked against direct modular arithmetic.

use lib::limbs::Limb;
use lib::ssa::pointwise::SsaPointwise;
use lib::ssa::ring::{Residue, SsaRing};

/// `2^64 + 1`, the modulus of the one-limb ring.
const ONE_LIMB_MODULUS: u128 = (1u128 << 64) + 1;

fn slot_of(value: u128) -> Vec<Limb> {
    vec![value as u64, (value >> 64) as u64]
}

fn value_of(slot: &[Limb]) -> u128 {
    (slot[0] as u128) | ((slot[1] as u128) << 64)
}

/// `value * 2^shift mod (2^64 + 1)` by repeated doubling.
fn reference_shift(value: u128, shift: usize) -> u128 {
    let mut r = value % ONE_LIMB_MODULUS;
    for _ in 0..shift {
        r = (r * 2) % ONE_LIMB_MODULUS;
    }
    r
}

fn one_limb_inputs() -> Vec<u128> {
    vec![
        0,
        1,
        2,
        0x8000_0000_0000_0000,
        0xFFFF_FFFF_FFFF_FFFF,
        1u128 << 64,
        (1u128 << 64) | 0x1234_5678_9ABC_DEF0,
        (1u128 << 64) | 0xFFFF_FFFF_FFFF_FFFF,
        0x0123_4567_89AB_CDEF,
    ]
}

#[test]
fn shift_from_matches_modular_doubling() {
    for value in one_limb_inputs() {
        for shift in 0..300 {
            let src = slot_of(value);
            let mut dst = vec![0xAAAA; 3];
            SsaRing::shift_from(&mut dst, &src, shift, 64);
            let got = value_of(&dst[..2]) % ONE_LIMB_MODULUS;
            assert_eq!(got, reference_shift(value, shift), "value {value:#x} shift {shift}");
            assert_eq!(dst[2], 0xAAAA, "the limb past the slot must stay untouched");
            if shift % 128 != 0 {
                assert!(value_of(&dst[..2]) <= 1u128 << 64, "result is canonical");
            } else {
                assert_eq!(&dst[..2], &src[..], "a whole period copies the slot");
            }
        }
    }
}

#[test]
fn shift_in_place_matches_shift_from() {
    for value in one_limb_inputs() {
        for shift in [1, 5, 63, 64, 65, 100, 127, 128, 129, 191] {
            let src = slot_of(value);
            let mut expected = vec![0; 2];
            SsaRing::shift_from(&mut expected, &src, shift, 64);
            let mut dst = src.clone();
            let mut scratch = vec![0; 2];
            SsaRing::shift_in_place(&mut dst, shift, 64, &mut scratch);
            assert_eq!(dst, expected, "value {value:#x} shift {shift}");
        }
    }
}

#[test]
fn shift_leaves_zero_and_whole_periods_alone() {
    let mut zero = vec![0; 5];
    let mut scratch = vec![0; 5];
    SsaRing::shift(&mut zero, 77, 256, &mut scratch);
    assert_eq!(zero, vec![0; 5]);

    let original: Vec<Limb> = vec![3, 1, 4, 1, 1];
    let mut value = original.clone();
    SsaRing::shift(&mut value, 512, 256, &mut scratch);
    assert_eq!(value, original, "a whole period leaves the slot as it was");
}

#[test]
fn shifts_compose_in_a_wide_ring() {
    let mod_bits = 256;
    let source: Vec<Limb> = vec![
        0x0123_4567_89AB_CDEF,
        0xFEDC_BA98_7654_3210,
        0x0F0F_0F0F_0F0F_0F0F,
        0x8000_0000_0000_0001,
        0,
    ];
    for (first, second) in [(1, 2), (63, 65), (100, 200), (255, 1), (300, 300), (17, 500)] {
        let mut once = vec![0; 5];
        let mut twice = vec![0; 5];
        let mut direct = vec![0; 5];
        SsaRing::shift_from(&mut once, &source, first, mod_bits);
        SsaRing::shift_from(&mut twice, &once, second, mod_bits);
        SsaRing::shift_from(&mut direct, &source, first + second, mod_bits);
        SsaRing::normalize(&mut twice, mod_bits);
        SsaRing::normalize(&mut direct, mod_bits);
        assert_eq!(twice, direct, "shifts by {first} and {second}");
    }
}

#[test]
fn half_period_shift_negates() {
    let mod_bits = 128;
    let source: Vec<Limb> = vec![5, 7, 0];
    let mut shifted = vec![0; 3];
    SsaRing::shift_from(&mut shifted, &source, mod_bits, mod_bits);
    let mut negated = source.clone();
    SsaRing::negate(&mut negated, mod_bits);
    assert_eq!(shifted, negated);
}

#[test]
fn sqrt2_applied_twice_doubles() {
    let mod_bits = 256;
    let source: Vec<Limb> = vec![
        0x1111_2222_3333_4444,
        0x5555_6666_7777_8888,
        0x9999_AAAA_BBBB_CCCC,
        0x0DDD_EEEE_FFFF_0001,
        0,
    ];
    let mut scratch = vec![0; 10];
    let mut value = source.clone();
    SsaRing::mul_sqrt2(&mut value, mod_bits, &mut scratch);
    SsaRing::mul_sqrt2(&mut value, mod_bits, &mut scratch);
    SsaRing::normalize(&mut value, mod_bits);
    let mut doubled = vec![0; 5];
    SsaRing::shift_from(&mut doubled, &source, 1, mod_bits);
    assert_eq!(value, doubled);
}

#[test]
fn sqrt2_of_the_one_limb_ring_matches_its_factor() {
    // In Z/(2^64 + 1), sqrt(2) = 2^48 - 2^16.
    let factor = (1u128 << 48) - (1u128 << 16);
    for value in one_limb_inputs() {
        let mut slot = slot_of(value);
        let mut scratch = vec![0; 4];
        SsaRing::mul_sqrt2(&mut slot, 64, &mut scratch);
        let expected = ((value % ONE_LIMB_MODULUS) * factor) % ONE_LIMB_MODULUS;
        assert_eq!(value_of(&slot) % ONE_LIMB_MODULUS, expected, "value {value:#x}");
    }
}

fn modmul(a: u128, b: u128) -> u128 {
    // Both below 2^65, the modulus is 2^64 + 1: reduce first, then multiply
    // in two halves to stay inside u128.
    let a = a % ONE_LIMB_MODULUS;
    let b = b % ONE_LIMB_MODULUS;
    let mut acc: u128 = 0;
    let mut base = a;
    let mut e = b;
    while e > 0 {
        if e & 1 == 1 {
            acc = (acc + base) % ONE_LIMB_MODULUS;
        }
        base = (base * 2) % ONE_LIMB_MODULUS;
        e >>= 1;
    }
    acc
}

#[test]
fn pointwise_products_match_modular_multiplication() {
    let values = one_limb_inputs();
    let k = values.len();
    let mut left: Vec<Limb> = values.iter().flat_map(|&v| slot_of(v)).collect();
    let mut right: Vec<Limb> = values.iter().rev().flat_map(|&v| slot_of(v)).collect();
    left.push(0xDEAD);
    let mut scratch = vec![0; 2 + 2];
    SsaPointwise::pointwise_multiply_with_executor(&mut left, &mut right, k, 64, &mut scratch);
    for i in 0..k {
        let expected = modmul(values[i], values[k - 1 - i]);
        assert_eq!(value_of(&left[2 * i..2 * i + 2]), expected, "slot {i}");
    }
    assert_eq!(left[2 * k], 0xDEAD, "the limb past the matrix stays untouched");
}

#[test]
fn pointwise_squares_match_modular_multiplication() {
    let values = one_limb_inputs();
    let k = values.len();
    let mut matrix: Vec<Limb> = values.iter().flat_map(|&v| slot_of(v)).collect();
    let mut scratch = vec![0; 2];
    SsaPointwise::pointwise_square_with_executor(&mut matrix, k, 64, &mut scratch);
    for i in 0..k {
        assert_eq!(value_of(&matrix[2 * i..2 * i + 2]), modmul(values[i], values[i]), "slot {i}");
    }
}

#[test]
fn special_residue_squares() {
    let mut dst = vec![7, 7, 7, 9];
    assert!(!SsaPointwise::write_special_residue_square(&mut dst, 3, Residue::Ordinary));
    assert_eq!(dst, vec![7, 7, 7, 9]);
    assert!(SsaPointwise::write_special_residue_square(&mut dst, 3, Residue::NegOne));
    assert_eq!(dst, vec![1, 0, 0, 9]);
    assert!(SsaPointwise::write_special_residue_square(&mut dst, 3, Residue::Zero));
    assert_eq!(dst, vec![0, 0, 0, 9]);

    let mut minus_one = slot_of(1u128 << 64);
    assert!(SsaPointwise::write_pointwise_special_square(&mut minus_one, 64));
    assert_eq!(minus_one, slot_of(1));
    let mut ordinary = slot_of(5);
    assert!(!SsaPointwise::write_pointwise_special_square(&mut ordinary, 64));
    assert_eq!(ordinary, slot_of(5));
}

#[test]
fn in_place_basecase_products_reduce() {
    let a = 0xFEDC_BA98_7654_3210u128;
    let b = 0x0123_4567_89AB_CDEFu128;
    let mut left = slot_of(a);
    let right = slot_of(b);
    let mut scratch = vec![0; 2];
    SsaPointwise::fermat_basecase_mul_assign_left(&mut left, &right, 64, &mut scratch);
    assert_eq!(value_of(&left), modmul(a, b));
    let mut value = slot_of(a);
    SsaPointwise::fermat_basecase_sqr_assign(&mut value, 64, &mut scratch);
    assert_eq!(value_of(&value), modmul(a, a));
}

#[test]
fn regression_single_limb_fermat_product_uses_scalar_basecase() {
    let modulus_bits = 64;
    let left = [Limb::MAX, 0];
    let right = [Limb::MAX.wrapping_sub(1), 0];
    let mut actual = [Limb::MAX; 2];
    let mut scratch = vec![Limb::MIN; SsaPointwise::fermat_basecase_scratch_len(modulus_bits)];
    SsaPointwise::fermat_basecase_mul_into(&mut actual, &left, &right, modulus_bits, &mut scratch);
    // Limb::MAX represents -2 and Limb::MAX-1 represents -3 modulo B+1,
    // where B = 2^LIMB_BITS, so their product is the canonical residue 6.
    assert_eq!(actual, [6, 0]);
}

#[test]
fn shift_then_inverse_shift_is_the_identity() {
    for mod_bits in [512usize, 1024] {
        let ml = mod_bits / 64;
        let mut x = vec![0 as Limb; ml + 1];
        for (i, limb) in x.iter_mut().take(ml).enumerate() {
            *limb = (i as u64 + 1).wrapping_mul(0x0123_4567_89AB_CDEF);
        }
        let mut scratch = vec![0 as Limb; ml + 1];
        for s in [1usize, 63, 64, 200, mod_bits - 1, mod_bits, 2 * mod_bits - 3] {
            let mut y = x.clone();
            SsaRing::shift(&mut y, s, mod_bits, &mut scratch);
            SsaRing::shift(&mut y, (2 * mod_bits - s) % (2 * mod_bits), mod_bits, &mut scratch);
            assert_eq!(y, x, "mod_bits {mod_bits}, shift {s}");
        }
    }
}
