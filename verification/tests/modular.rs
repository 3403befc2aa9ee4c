use ec_torsion::modular::{mul_mod, reduce};
use ec_torsion::{mod_inv, NoInverseExists};

const BIG_PRIME: i64 = 9223372036854775783;

#[test]
fn reduce_maps_into_the_residue_range() {
    assert_eq!(reduce(0, 5), 0);
    assert_eq!(reduce(7, 5), 2);
    assert_eq!(reduce(5, 5), 0);
    assert_eq!(reduce(-1, 5), 4);
    assert_eq!(reduce(-5, 5), 0);
    assert_eq!(reduce(-6, 5), 4);
    assert_eq!(reduce(i128::MAX, 1), 0);
    assert_eq!(reduce(i128::MIN, 7), 5);
    assert_eq!(reduce(i128::MAX, 7), 1);
    assert_eq!(reduce(-1, i64::MAX), i64::MAX - 1);
}

#[test]
fn mul_mod_reduces_the_full_product() {
    assert_eq!(mul_mod(3, 4, 5), 2);
    assert_eq!(mul_mod(-3, 4, 5), 3);
    assert_eq!(mul_mod(-3, -4, 5), 2);
    assert_eq!(mul_mod(0, 12345, 7), 0);
    assert_eq!(mul_mod(i64::MAX, i64::MAX, i64::MAX), 0);
    assert_eq!(mul_mod(i64::MIN, i64::MIN, i64::MAX), 1);
    assert_eq!(mul_mod(i64::MIN, i64::MAX, i64::MAX), 0);
    assert_eq!(mul_mod(BIG_PRIME - 1, BIG_PRIME - 1, BIG_PRIME), 1);
    assert_eq!(mul_mod(2, 4611686018427387892, BIG_PRIME), 1);
}

#[test]
fn inverse_of_small_values() {
    assert_eq!(mod_inv(3, 7), Ok(5));
    assert_eq!(mod_inv(1, 7), Ok(1));
    assert_eq!(mod_inv(6, 7), Ok(6));
    assert_eq!(mod_inv(1, 2), Ok(1));
    assert_eq!(mod_inv(3, 5), Ok(2));
    assert_eq!(mod_inv(7, 10), Ok(3));
}

#[test]
fn inverse_of_an_unreduced_value() {
    assert_eq!(mod_inv(10, 7), Ok(5));
    assert_eq!(mod_inv(8, 7), Ok(1));
    assert_eq!(mod_inv(i64::MAX, 7), mod_inv(i64::MAX % 7, 7));
}

#[test]
fn inverse_of_a_negative_value() {
    assert_eq!(mod_inv(-3, 7), Ok(2));
    assert_eq!(mod_inv(-1, 7), Ok(6));
    assert_eq!(mod_inv(-5, BIG_PRIME), Ok(3689348814741910313));
    assert_eq!(mod_inv(-7, 7), Err(NoInverseExists));
}

#[test]
fn inverse_round_trip_for_every_unit() {
    for modulus in [2i64, 3, 5, 7, 11, 13, 12, 15, 16, 97, 100] {
        for value in -2 * modulus..=2 * modulus {
            match mod_inv(value, modulus) {
                Ok(inverse) => {
                    assert!(0 <= inverse && inverse < modulus);
                    assert_eq!(mul_mod(inverse, value, modulus), 1);
                    assert_eq!(gcd(value.rem_euclid(modulus), modulus), 1);
                }
                Err(NoInverseExists) => {
                    assert!(gcd(value.rem_euclid(modulus), modulus) > 1);
                }
            }
        }
    }
}

#[test]
fn inverse_round_trip_modulo_a_large_prime() {
    assert_eq!(mod_inv(2, BIG_PRIME), Ok(4611686018427387892));
    assert_eq!(mod_inv(BIG_PRIME - 1, BIG_PRIME), Ok(9223372036854775782));
    assert_eq!(mod_inv(1234567890123456789, BIG_PRIME), Ok(8179392165194571983));
    for value in [1i64, 2, 3, 1 << 40, i64::MAX, i64::MIN, BIG_PRIME - 2, -1] {
        let inverse = mod_inv(value, BIG_PRIME).unwrap();
        assert_eq!(mul_mod(inverse, value, BIG_PRIME), 1);
    }
}

#[test]
fn inverse_modulo_the_largest_modulus() {
    // i64::MAX = 7^2 * 73 * 127 * 337 * 92737 * 649657
    assert_eq!(mod_inv(7, i64::MAX), Err(NoInverseExists));
    let inverse = mod_inv(2, i64::MAX).unwrap();
    assert_eq!(mul_mod(inverse, 2, i64::MAX), 1);
    let inverse = mod_inv(i64::MAX - 1, i64::MAX).unwrap();
    assert_eq!(inverse, i64::MAX - 1);
}

#[test]
fn zero_has_no_inverse() {
    for modulus in [2i64, 3, 5, 7, 12, 97, BIG_PRIME, i64::MAX] {
        assert_eq!(mod_inv(0, modulus), Err(NoInverseExists));
        assert_eq!(mod_inv(modulus, modulus), Err(NoInverseExists));
    }
}

#[test]
fn common_factor_has_no_inverse() {
    assert_eq!(mod_inv(2, 4), Err(NoInverseExists));
    assert_eq!(mod_inv(6, 9), Err(NoInverseExists));
    assert_eq!(mod_inv(10, 15), Err(NoInverseExists));
    assert_eq!(mod_inv(4, 6), Err(NoInverseExists));
    assert_eq!(mod_inv(5, 6), Ok(5));
}

fn gcd(a: i64, b: i64) -> i64 {
    if b == 0 {
        a
    } else {
        gcd(b, a % b)
    }
}
