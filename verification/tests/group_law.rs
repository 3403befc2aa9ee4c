use ec_torsion::{elliptic_add, is_on_curve, scalar_mult, NoInverseExists, Point};

const BIG_PRIME: i64 = 9223372036854775783;

fn affine(x: i64, y: i64) -> Point {
    Point { x, y, infinity: false }
}

/// The affine points of y^2 = x^3 + x + 1 modulo 5.
fn curve_points() -> Vec<Point> {
    vec![
        affine(0, 1),
        affine(0, 4),
        affine(2, 1),
        affine(2, 4),
        affine(3, 1),
        affine(3, 4),
        affine(4, 2),
        affine(4, 3),
    ]
}

#[test]
fn point_at_infinity_is_canonical() {
    let identity = Point::at_infinity();
    assert!(identity.is_at_infinity());
    assert_eq!(identity, Point { x: 0, y: 0, infinity: true });
    assert!(!affine(0, 0).is_at_infinity());
    assert!(Point { x: 3, y: 4, infinity: true }.is_at_infinity());
}

#[test]
fn identity_is_neutral() {
    let identity = Point::at_infinity();
    for p in curve_points() {
        assert_eq!(elliptic_add(&p, &identity, 1, 5), Ok(p));
        assert_eq!(elliptic_add(&identity, &p, 1, 5), Ok(p));
    }
    assert_eq!(elliptic_add(&identity, &identity, 1, 5), Ok(identity));
    // Points off the curve and with unreduced coordinates pass through too.
    let stray = affine(-17, 123);
    assert_eq!(elliptic_add(&stray, &identity, 1, 5), Ok(stray));
    assert_eq!(elliptic_add(&identity, &stray, 1, 5), Ok(stray));
}

#[test]
fn identity_operand_is_returned_as_given() {
    let marked = Point { x: 3, y: 4, infinity: true };
    let identity = Point::at_infinity();
    assert_eq!(elliptic_add(&identity, &marked, 1, 5), Ok(marked));
    assert_eq!(elliptic_add(&marked, &identity, 1, 5), Ok(identity));
    assert_eq!(elliptic_add(&marked, &affine(0, 1), 1, 5), Ok(affine(0, 1)));
    assert_eq!(elliptic_add(&affine(0, 1), &marked, 1, 5), Ok(affine(0, 1)));
}

#[test]
fn reflection_is_the_inverse() {
    let identity = Point::at_infinity();
    for p in curve_points() {
        let reflected = affine(p.x, (5 - p.y).rem_euclid(5));
        assert_eq!(elliptic_add(&p, &reflected, 1, 5), Ok(identity));
        assert_eq!(elliptic_add(&reflected, &p, 1, 5), Ok(identity));
    }
    // Off the curve as well: only the coordinates matter.
    for m in [3i64, 5, 7, 9, 11] {
        for x in 0..m {
            for y in 0..m {
                let reflected = affine(x, (m - y).rem_euclid(m));
                assert_eq!(elliptic_add(&affine(x, y), &reflected, 2, m), Ok(identity));
            }
        }
    }
}

#[test]
fn reflection_of_a_half_modulus_ordinate_is_a_doubling() {
    // For y = m / 2 the reflection is the point itself, and the tangent has
    // no slope because 2 * y is a multiple of m.
    let p = affine(0, 1);
    let reflected = affine(0, (2 - 1i64).rem_euclid(2));
    assert_eq!(reflected, p);
    assert_eq!(elliptic_add(&p, &reflected, 1, 2), Err(NoInverseExists));
    let q = affine(1, 2);
    assert_eq!(elliptic_add(&q, &affine(1, (4 - 2i64).rem_euclid(4)), 1, 4), Err(NoInverseExists));
}

#[test]
fn zero_ordinate_doubles_to_identity() {
    let identity = Point::at_infinity();
    // y^2 = x^3 + 1 modulo 7 has the points (3, 0), (5, 0), (6, 0).
    for x in [3i64, 5, 6] {
        let p = affine(x, 0);
        assert!(is_on_curve(&p, 0, 1, 7));
        assert_eq!(elliptic_add(&p, &p, 0, 7), Ok(identity));
    }
    assert_eq!(elliptic_add(&affine(4, 0), &affine(4, 0), 3, 11), Ok(identity));
}

#[test]
fn zero_ordinate_with_distinct_abscissas_is_a_chord() {
    // A zero ordinate makes a point its own inverse, not the inverse of others.
    assert_eq!(elliptic_add(&affine(3, 0), &affine(5, 0), 0, 7), Ok(affine(6, 0)));
    assert_eq!(elliptic_add(&affine(3, 0), &affine(0, 1), 0, 7), Ok(affine(1, 4)));
    assert_eq!(elliptic_add(&affine(0, 1), &affine(3, 0), 0, 7), Ok(affine(1, 4)));
}

#[test]
fn addition_is_commutative() {
    for m in [5i64, 7, 9, 11] {
        for x1 in 0..m {
            for y1 in 0..m {
                for x2 in 0..m {
                    let (p, q) = (affine(x1, y1), affine(x2, (x1 + y1) % m));
                    assert_eq!(elliptic_add(&p, &q, 1, m), elliptic_add(&q, &p, 1, m));
                }
            }
        }
    }
}

#[test]
fn addition_is_not_associative_off_a_common_curve() {
    // (0, 0) and (0, 1) lie on no common curve with a = 1 modulo 5.
    let (p, q) = (affine(0, 0), affine(0, 1));
    let left = elliptic_add(&elliptic_add(&p, &p, 1, 5).unwrap(), &q, 1, 5);
    let right = elliptic_add(&p, &elliptic_add(&p, &q, 1, 5).unwrap(), 1, 5);
    assert_eq!(left, Ok(q));
    assert_eq!(right, Ok(p));
}

#[test]
fn addition_never_fails_modulo_an_odd_prime() {
    for m in [3i64, 5, 7, 11, 13] {
        for x1 in 0..m {
            for y1 in 0..m {
                for x2 in 0..m {
                    for y2 in 0..m {
                        let sum = elliptic_add(&affine(x1, y1), &affine(x2, y2), 2, m).unwrap();
                        assert!(sum.is_at_infinity() || (0 <= sum.x && sum.x < m));
                        assert!(scalar_mult(x2 * m + y2, &affine(x1, y1), 2, m).is_ok());
                    }
                }
            }
        }
    }
}

#[test]
fn doubling_by_the_tangent() {
    // (0, 1) on y^2 = x^3 + x + 1 modulo 5: slope (3*0 + 1) / 2 = 3,
    // x3 = 9 - 0 - 0 = 4, y3 = 3 * (0 - 4) - 1 = -13 = 2.
    assert_eq!(elliptic_add(&affine(0, 1), &affine(0, 1), 1, 5), Ok(affine(4, 2)));
    assert_eq!(elliptic_add(&affine(4, 2), &affine(4, 2), 1, 5), Ok(affine(3, 4)));
    assert_eq!(elliptic_add(&affine(2, 1), &affine(2, 1), 1, 5), Ok(affine(2, 4)));
}

#[test]
fn addition_by_the_chord() {
    // (0, 1) + (2, 1): slope 0, x3 = 0 - 0 - 2 = 3, y3 = 0 - 1 = 4.
    assert_eq!(elliptic_add(&affine(0, 1), &affine(2, 1), 1, 5), Ok(affine(3, 4)));
    assert_eq!(elliptic_add(&affine(2, 1), &affine(0, 1), 1, 5), Ok(affine(3, 4)));
    assert_eq!(elliptic_add(&affine(4, 2), &affine(3, 4), 1, 5), Ok(affine(2, 4)));
    assert_eq!(elliptic_add(&affine(0, 1), &affine(4, 2), 1, 5), Ok(affine(2, 1)));
}

#[test]
fn addition_accepts_unreduced_coordinates() {
    // (5, 6) and (7, -4) are (0, 1) and (2, 1) modulo 5.
    assert_eq!(elliptic_add(&affine(5, 6), &affine(7, -4), 1, 5), Ok(affine(3, 4)));
    // Doubling (5, 6): the same point as doubling (0, 1).
    assert_eq!(elliptic_add(&affine(5, 6), &affine(5, 6), 1, 5), Ok(affine(4, 2)));
    // Distinct abscissas that are congruent: the chord has no slope.
    assert_eq!(elliptic_add(&affine(0, 1), &affine(5, 4), 1, 5), Err(NoInverseExists));
}

#[test]
fn addition_fails_without_an_inverse() {
    // Modulo 4 the denominator 2 * y = 2 is not a unit.
    assert_eq!(elliptic_add(&affine(0, 1), &affine(0, 1), 1, 4), Err(NoInverseExists));
    // Modulo 9 the difference of abscissas 3 is not a unit.
    assert_eq!(elliptic_add(&affine(1, 2), &affine(4, 5), 0, 9), Err(NoInverseExists));
    // Modulo 2 no tangent has a slope.
    assert_eq!(elliptic_add(&affine(1, 1), &affine(1, 1), 0, 2), Err(NoInverseExists));
}

#[test]
fn sums_stay_on_the_curve() {
    let points = curve_points();
    for p in &points {
        for q in &points {
            let sum = elliptic_add(p, q, 1, 5).unwrap();
            assert!(is_on_curve(&sum, 1, 1, 5));
            if !sum.is_at_infinity() {
                assert!(0 <= sum.x && sum.x < 5 && 0 <= sum.y && sum.y < 5);
            } else {
                assert_eq!(sum, Point::at_infinity());
            }
        }
    }
}

#[test]
fn addition_modulo_a_large_prime() {
    let (x, y, a) = (1234567890123456789i64, 987654321098765432i64, 7i64);
    let b = 2464065148501344916i64;
    let p = affine(x, y);
    assert!(is_on_curve(&p, a, b, BIG_PRIME));
    let doubled = elliptic_add(&p, &p, a, BIG_PRIME).unwrap();
    assert_eq!(doubled, affine(1372863533876460735, 5219256894718645417));
    assert!(is_on_curve(&doubled, a, b, BIG_PRIME));
    let tripled = elliptic_add(&doubled, &p, a, BIG_PRIME).unwrap();
    assert_eq!(tripled, affine(8454681878271216202, 1585185911914701218));
    assert!(is_on_curve(&tripled, a, b, BIG_PRIME));
}

#[test]
fn addition_at_the_limits_of_the_range() {
    // No arithmetic leaves its range, whatever the operands hold.
    let extremes = [i64::MIN, i64::MIN + 1, -1, 0, 1, i64::MAX - 1, i64::MAX];
    for &x1 in &extremes {
        for &y1 in &extremes {
            for &x2 in &extremes {
                let p = affine(x1, y1);
                let q = affine(x2, i64::MAX);
                for m in [2i64, 3, BIG_PRIME, i64::MAX] {
                    if let Ok(sum) = elliptic_add(&p, &q, i64::MIN, m) {
                        if !sum.is_at_infinity() {
                            assert!(0 <= sum.x && sum.x < m && 0 <= sum.y && sum.y < m);
                        }
                    }
                    let _ = is_on_curve(&p, i64::MAX, i64::MIN, m);
                }
            }
        }
    }
}

#[test]
fn scalar_zero_gives_identity() {
    for p in curve_points() {
        assert_eq!(scalar_mult(0, &p, 1, 5), Ok(Point::at_infinity()));
    }
    assert_eq!(scalar_mult(0, &Point { x: 3, y: 4, infinity: true }, 1, 5), Ok(Point::at_infinity()));
    // Nothing is added or doubled, so nothing can fail.
    assert_eq!(scalar_mult(0, &affine(1, 1), 0, 2), Ok(Point::at_infinity()));
}

#[test]
fn scalar_one_gives_the_point() {
    for p in curve_points() {
        assert_eq!(scalar_mult(1, &p, 1, 5), Ok(p));
    }
}

#[test]
fn scalar_one_fails_when_the_point_cannot_be_doubled() {
    // The addend is doubled after the last digit too.
    assert_eq!(scalar_mult(1, &affine(0, 1), 1, 2), Err(NoInverseExists));
    assert_eq!(scalar_mult(1, &affine(0, 1), 1, 4), Err(NoInverseExists));
}

#[test]
fn multiples_of_a_generator() {
    // (0, 1) generates the nine points of y^2 = x^3 + x + 1 modulo 5.
    let p = affine(0, 1);
    let expected = [
        Point::at_infinity(),
        affine(0, 1),
        affine(4, 2),
        affine(2, 1),
        affine(3, 4),
        affine(3, 1),
        affine(2, 4),
        affine(4, 3),
        affine(0, 4),
        Point::at_infinity(),
        affine(0, 1),
        affine(4, 2),
    ];
    for (n, multiple) in expected.iter().enumerate() {
        assert_eq!(scalar_mult(n as i64, &p, 1, 5), Ok(*multiple));
    }
}

#[test]
fn double_and_add_agrees_with_repeated_addition() {
    for p in curve_points() {
        let mut sum = Point::at_infinity();
        for n in 1..40i64 {
            sum = elliptic_add(&sum, &p, 1, 5).unwrap();
            assert_eq!(scalar_mult(n, &p, 1, 5), Ok(sum));
            let previous = scalar_mult(n - 1, &p, 1, 5).unwrap();
            assert_eq!(elliptic_add(&previous, &p, 1, 5), scalar_mult(n, &p, 1, 5));
        }
    }
}

#[test]
fn smaller_multiple_may_fail_where_the_larger_exists() {
    // Modulo 9 the multiple by 4 of (1, 1) takes doublings only; the multiple
    // by 3 adds (1, 1) and (7, 8), whose abscissas differ by a non-unit.
    let p = affine(1, 1);
    assert_eq!(scalar_mult(2, &p, 0, 9), Ok(affine(7, 8)));
    assert_eq!(scalar_mult(4, &p, 0, 9), Ok(affine(4, 1)));
    assert_eq!(scalar_mult(3, &p, 0, 9), Err(NoInverseExists));
}

#[test]
fn multiples_of_an_identity() {
    let marked = Point { x: 3, y: 4, infinity: true };
    assert_eq!(scalar_mult(0, &marked, 1, 5), Ok(Point::at_infinity()));
    for n in 1..10 {
        assert_eq!(scalar_mult(n, &marked, 1, 5), Ok(marked));
        assert_eq!(scalar_mult(n, &Point::at_infinity(), 1, 5), Ok(Point::at_infinity()));
    }
}

#[test]
fn multiples_modulo_a_large_prime() {
    let (a, b) = (7i64, 2464065148501344916i64);
    let p = affine(1234567890123456789, 987654321098765432);
    assert_eq!(
        scalar_mult(5, &p, a, BIG_PRIME),
        Ok(affine(2662968238673667777, 8355978941927412371))
    );
    assert_eq!(
        scalar_mult(1000003, &p, a, BIG_PRIME),
        Ok(affine(1070073602965186363, 2637866333224129899))
    );
    let last = scalar_mult(i64::MAX, &p, a, BIG_PRIME).unwrap();
    assert_eq!(last, affine(4009121407967672250, 947001067609163435));
    assert!(is_on_curve(&last, a, b, BIG_PRIME));
}

#[test]
fn membership_of_the_curve_modulo_five() {
    let on_curve = curve_points();
    for x in 0..5 {
        for y in 0..5 {
            let p = affine(x, y);
            assert_eq!(is_on_curve(&p, 1, 1, 5), on_curve.contains(&p));
        }
    }
}

#[test]
fn membership_of_the_identity() {
    assert!(is_on_curve(&Point::at_infinity(), 1, 1, 5));
    assert!(is_on_curve(&Point { x: 1, y: 0, infinity: true }, 1, 1, 5));
    assert!(is_on_curve(&Point::at_infinity(), 0, 0, 2));
}

#[test]
fn membership_with_unreduced_values() {
    // (5, 6) is (0, 1) modulo 5; a = 6 and b = -4 are 1 and 1.
    assert!(is_on_curve(&affine(5, 6), 1, 1, 5));
    assert!(is_on_curve(&affine(0, 1), 6, -4, 5));
    assert!(is_on_curve(&affine(-5, -1), 1, 1, 5));
    assert!(!is_on_curve(&affine(6, 6), 1, 1, 5));
    // y^2 = 16, x^3 + a*x + b = 8 + 6 + 2 = 16: equal before reduction.
    assert!(is_on_curve(&affine(2, 4), 3, 2, 1000003));
    assert!(!is_on_curve(&affine(2, 5), 3, 2, 1000003));
}
