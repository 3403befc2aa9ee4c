//! Arithmetic modulo `m`: reduction, products and multiplicative inverses.

use vstd::arithmetic::div_mod::{
    lemma_fundamental_div_mod, lemma_mod_bound, lemma_mod_multiples_basic,
    lemma_mod_multiples_vanish, lemma_mod_twice, lemma_mul_mod_noop_general,
    lemma_mul_mod_noop_right, lemma_small_mod, lemma_sub_mod_noop,
};
use vstd::prelude::*;

verus! {

/// The error of a modular inversion: the value has a factor in common with
/// the modulus, so no inverse exists.
#[derive(Clone, Copy, Debug, PartialEq, Eq)]
pub struct NoInverseExists;

/// `d` divides `n`.
pub open spec fn divides(d: int, n: int) -> bool
    recommends
        d != 0,
{
    n % d == 0
}

/// `value` and `modulus` have a common divisor greater than one, that is,
/// their greatest common divisor is not one.
pub open spec fn shares_factor(value: int, modulus: int) -> bool {
    exists|d: int| d > 1 && #[trigger] divides(d, value) && divides(d, modulus)
}

/// `inv` is the reduced multiplicative inverse of `value` modulo `modulus`.
pub open spec fn is_inverse(inv: int, value: int, modulus: int) -> bool {
    0 <= inv < modulus && (inv * value) % modulus == 1
}

/// `value` is a unit modulo `modulus`.
pub open spec fn has_inverse(value: int, modulus: int) -> bool {
    exists|inv: int| is_inverse(inv, value, modulus)
}

/// The inverse of `value` modulo `modulus` in `[0, modulus)`, if there is one.
pub open spec fn modular_inverse(value: int, modulus: int) -> Option<int> {
    if has_inverse(value, modulus) {
        Some(choose|inv: int| is_inverse(inv, value, modulus))
    } else {
        None
    }
}

/// A value has at most one inverse in `[0, modulus)`.
pub proof fn lemma_inverse_unique(i: int, j: int, value: int, modulus: int)
    requires
        modulus > 1,
        is_inverse(i, value, modulus),
        is_inverse(j, value, modulus),
    ensures
        i == j,
{
    let m = modulus;
    assert(i * (j * value) == j * (i * value)) by (nonlinear_arith);
    lemma_mul_mod_noop_right(i, j * value, m);
    lemma_mul_mod_noop_right(j, i * value, m);
    lemma_small_mod(i as nat, m as nat);
    lemma_small_mod(j as nat, m as nat);
}

/// An inverse, once exhibited, is the value of `modular_inverse`.
pub proof fn lemma_inverse_is_modular_inverse(inv: int, value: int, modulus: int)
    requires
        modulus > 1,
        is_inverse(inv, value, modulus),
    ensures
        modular_inverse(value, modulus) == Some(inv),
{
    let chosen = choose|i: int| is_inverse(i, value, modulus);
    lemma_inverse_unique(chosen, inv, value, modulus);
}

/// A unit has no factor in common with the modulus.
pub proof fn lemma_inverse_excludes_common_factor(inv: int, value: int, modulus: int)
    requires
        modulus > 1,
        is_inverse(inv, value, modulus),
    ensures
        !shares_factor(value, modulus),
{
    assert forall|d: int| d > 1 && #[trigger] divides(d, value) implies !divides(
        d,
        modulus,
    ) by {
        if divides(d, modulus) {
            let k = (inv * value) / modulus;
            lemma_fundamental_div_mod(inv * value, modulus);
            lemma_mul_mod_noop_right(inv, value, d);
            assert(inv * 0 == 0);
            lemma_mul_mod_noop_general(modulus, k, d);
            lemma_sub_mod_noop(inv * value, modulus * k, d);
            lemma_small_mod(1, d as nat);
        }
    }
}

/// Whether a value is a unit, and its inverse, depend on its residue only.
pub proof fn lemma_inverse_of_residue(value: int, modulus: int)
    requires
        modulus > 1,
    ensures
        has_inverse(value % modulus, modulus) <==> has_inverse(value, modulus),
        modular_inverse(value % modulus, modulus) == modular_inverse(value, modulus),
{
    let residue = value % modulus;
    assert forall|i: int| is_inverse(i, residue, modulus) <==> #[trigger] is_inverse(
        i,
        value,
        modulus,
    ) by {
        lemma_mul_mod_noop_right(i, value, modulus);
    }
    if has_inverse(value, modulus) {
        let i = choose|i: int| is_inverse(i, value, modulus);
        lemma_inverse_is_modular_inverse(i, residue, modulus);
    } else {
        if has_inverse(residue, modulus) {
            let i = choose|i: int| is_inverse(i, residue, modulus);
            assert(is_inverse(i, value, modulus));
        }
    }
}

/// Zero is never invertible: it shares the modulus itself with the modulus.
pub proof fn lemma_zero_has_no_inverse(modulus: int)
    requires
        modulus > 1,
    ensures
        shares_factor(0, modulus),
        !has_inverse(0, modulus),
        modular_inverse(0, modulus) is None,
{
    lemma_mod_multiples_basic(1, modulus);
    lemma_small_mod(0, modulus as nat);
    assert(divides(modulus, 0) && divides(modulus, modulus));
    if has_inverse(0, modulus) {
        let i = choose|i: int| is_inverse(i, 0, modulus);
        lemma_inverse_excludes_common_factor(i, 0, modulus);
    }
}

/// Bezout's identity: two naturals, not both zero, have a common divisor
/// that is a combination of them with integer coefficients. The result holds
/// the divisor and the two coefficients.
proof fn lemma_bezout(a: nat, b: nat) -> (res: (int, int, int))
    requires
        a > 0 || b > 0,
    ensures
        res.0 > 0,
        divides(res.0, a as int),
        divides(res.0, b as int),
        a * res.1 + b * res.2 == res.0,
    decreases b,
{
    if b == 0 {
        lemma_mod_multiples_basic(1, a as int);
        lemma_small_mod(0, a);
        assert(a * 1 + b * 0 == a) by (nonlinear_arith);
        (a as int, 1, 0)
    } else {
        let rest = a % b;
        let q = a / b;
        lemma_fundamental_div_mod(a as int, b as int);
        let (g, x, y) = lemma_bezout(b, rest);
        // g divides a = b * q + rest
        let kb = (b as int) / g;
        let kr = (rest as int) / g;
        lemma_fundamental_div_mod(b as int, g);
        lemma_fundamental_div_mod(rest as int, g);
        assert(a == (kb * q + kr) * g) by (nonlinear_arith)
            requires
                a == b * q + rest,
                b == g * kb,
                rest == g * kr,
        ;
        lemma_mod_multiples_basic(kb * q + kr, g);
        assert(a * y + b * (x - q * y) == b * x + rest * y) by (nonlinear_arith)
            requires
                a == b * q + rest,
        ;
        (g, y, x - q * y)
    }
}

/// A value is a unit exactly when it has no factor in common with the
/// modulus.
pub proof fn lemma_unit_iff_coprime(value: int, modulus: int)
    requires
        modulus > 1,
    ensures
        has_inverse(value, modulus) <==> !shares_factor(value, modulus),
        modular_inverse(value, modulus) is Some <==> !shares_factor(value, modulus),
{
    if has_inverse(value, modulus) {
        let i = choose|i: int| is_inverse(i, value, modulus);
        lemma_inverse_excludes_common_factor(i, value, modulus);
    }
    if !shares_factor(value, modulus) {
        let residue = value % modulus;
        lemma_mod_bound(value, modulus);
        let (g, x, y) = lemma_bezout(residue as nat, modulus as nat);
        // g divides the value as it divides its residue and the modulus
        let k = value / modulus;
        let kr = residue / g;
        let km = modulus / g;
        lemma_fundamental_div_mod(value, modulus);
        lemma_fundamental_div_mod(residue, g);
        lemma_fundamental_div_mod(modulus, g);
        assert(value == (km * k + kr) * g) by (nonlinear_arith)
            requires
                value == modulus * k + residue,
                residue == g * kr,
                modulus == g * km,
        ;
        lemma_mod_multiples_basic(km * k + kr, g);
        assert(divides(g, value) && divides(g, modulus));
        // x * residue == 1 - modulus * y
        assert(x * residue == modulus * (-y) + 1) by (nonlinear_arith)
            requires
                residue * x + modulus * y == 1,
        ;
        lemma_mod_multiples_vanish(-y, 1, modulus);
        lemma_small_mod(1, modulus as nat);
        let inv = x % modulus;
        lemma_mod_bound(x, modulus);
        lemma_mul_mod_noop_general(x, residue, modulus);
        lemma_mod_twice(value, modulus);
        lemma_mul_mod_noop_general(inv, value, modulus);
        lemma_mod_twice(x, modulus);
        assert(is_inverse(inv, value, modulus));
    }
}

/// `m` is a prime number.
pub open spec fn is_prime(m: int) -> bool {
    m > 1 && forall|d: int| 1 < d < m ==> !#[trigger] divides(d, m)
}

/// Modulo a prime every value that is not a multiple of it is a unit.
pub proof fn lemma_prime_units(value: int, modulus: int)
    requires
        is_prime(modulus),
        value % modulus != 0,
    ensures
        has_inverse(value, modulus),
        modular_inverse(value, modulus) is Some,
{
    lemma_unit_iff_coprime(value, modulus);
    if shares_factor(value, modulus) {
        let d = choose|d: int| d > 1 && #[trigger] divides(d, value) && divides(d, modulus);
        if d > modulus {
            lemma_small_mod(modulus as nat, d as nat);
        }
    }
}

/// Reduces `x` into `[0, m)`.
pub fn reduce(x: i128, m: i64) -> (r: i64)
    requires
        m > 0,
    ensures
        r == x as int % m as int,
        0 <= r < m,
{
    proof {
        lemma_mod_bound(x as int, m as int);
    }
    let r: i128 = x.checked_rem_euclid(m as i128).unwrap();
    r as i64
}

/// The product of `x` and `y` reduced into `[0, m)`, without overflow.
pub fn mul_mod(x: i64, y: i64, m: i64) -> (r: i64)
    requires
        m > 0,
    ensures
        r == (x as int * y as int) % m as int,
        0 <= r < m,
{
    proof {
        lemma_product_fits(x, y);
    }
    reduce((x as i128) * (y as i128), m)
}

/// The product of two 64-bit values fits in 128 bits with room to spare.
pub(crate) proof fn lemma_product_fits(x: i64, y: i64)
    ensures
        -0x4000_0000_0000_0000_0000_0000_0000_0000 < (x as int) * (y as int)
            <= 0x4000_0000_0000_0000_0000_0000_0000_0000,
{
    assert(-0x4000_0000_0000_0000_0000_0000_0000_0000 < (x as int) * (y as int)
        <= 0x4000_0000_0000_0000_0000_0000_0000_0000) by (nonlinear_arith)
        requires
            -0x8000_0000_0000_0000 <= x <= 0x7fff_ffff_ffff_ffff,
            -0x8000_0000_0000_0000 <= y <= 0x7fff_ffff_ffff_ffff,
    ;
}

/// Replacing a pair `(u, new_u)` by `(new_u, u - q * new_u)`, and the pair of
/// remainders likewise, negates the cross product of the two pairs.
proof fn lemma_cross_product_step(u: int, new_u: int, r: int, new_r: int, q: int)
    by (nonlinear_arith)
    ensures
        new_u * (r - q * new_r) - (u - q * new_u) * new_r == new_u * r - u * new_r,
{
}

/// A step of the algorithm keeps the remainders combinations of the modulus
/// and the value.
proof fn lemma_combination_step(s: int, new_s: int, t: int, new_t: int, q: int, m: int, a0: int)
    ensures
        (s - q * new_s) * m + (t - q * new_t) * a0 == (s * m + t * a0) - q * (new_s * m + new_t
            * a0),
{
    lemma_subtract_multiple(s, new_s, q, m);
    lemma_subtract_multiple(t, new_t, q, a0);
    let x = new_s * m;
    let y = new_t * a0;
    assert(q * (x + y) == q * x + q * y) by (nonlinear_arith);
}

/// Subtracting a multiple of a coefficient subtracts that multiple of its
/// product.
proof fn lemma_subtract_multiple(u: int, new_u: int, q: int, c: int)
    by (nonlinear_arith)
    ensures
        (u - q * new_u) * c == u * c - q * (new_u * c),
{
}

/// The size of the quotient and of the next coefficient in a step of the
/// algorithm, for coefficients of the signs `t <= 0 <= new_t`.
proof fn lemma_euclid_bounds(t: int, new_t: int, r: int, new_r: int, m: int)
    requires
        0 < new_r < r,
        new_t * r - t * new_r == m,
        t <= 0 <= new_t,
    ensures
        r / new_r >= 1,
        0 <= r - (r / new_r) * new_r < new_r,
        0 <= (r / new_r) * new_r <= r,
        0 <= (r / new_r) * new_t <= m,
        -m <= t - (r / new_r) * new_t <= 0,
        2 * new_t <= m,
{
    let q = r / new_r;
    let rest = r % new_r;
    lemma_fundamental_div_mod(r, new_r);
    lemma_mod_bound(r, new_r);
    assert(q >= 1 && q * new_r == new_r * q) by (nonlinear_arith)
        requires
            r == new_r * q + rest,
            0 <= rest < new_r,
            new_r < r,
    ;
    lemma_cross_product_step(t, new_t, r, new_r, q);
    assert(0 <= q * new_t && t - q * new_t <= 0) by (nonlinear_arith)
        requires
            q >= 1,
            new_t >= 0,
            t <= 0,
    ;
    let next = t - q * new_t;
    assert(-next <= m) by (nonlinear_arith)
        requires
            new_t * rest - next * new_r == m,
            new_t >= 0,
            rest >= 0,
            next <= 0,
            new_r >= 1,
    ;
    assert(2 * new_t <= m) by (nonlinear_arith)
        requires
            new_t * r - t * new_r == m,
            t <= 0 <= new_t,
            new_r >= 1,
            r >= 2,
    ;
}

/// What the extended Euclidean algorithm keeps from step to step.
///
/// The remainders `r > new_r >= 0` are combinations of the modulus `m` and the
/// value `a0` with the cofactors `(s, t)` and `(new_s, new_t)`. The
/// coefficients alternate in sign with the parity `odd` of the step, and the
/// cross products of the remainders with the coefficients are `m` and `a0`.
spec fn euclid_invariant(
    odd: bool,
    s: int,
    new_s: int,
    t: int,
    new_t: int,
    r: int,
    new_r: int,
    m: int,
    a0: int,
) -> bool {
    &&& 0 <= new_r < r <= m
    &&& -m < t < m
    &&& r == s * m + t * a0
    &&& new_r == new_s * m + new_t * a0
    &&& !odd ==> t <= 0 <= new_t && new_t * r - t * new_r == m && s * new_r - new_s * r == a0
    &&& odd ==> new_t <= 0 <= t && t * new_r - new_t * r == m && new_s * r - s * new_r == a0
}

/// A step of the algorithm keeps `euclid_invariant`, and its arithmetic stays
/// within the modulus in absolute value.
proof fn lemma_euclid_step(
    odd: bool,
    s: int,
    new_s: int,
    t: int,
    new_t: int,
    r: int,
    new_r: int,
    m: int,
    a0: int,
)
    requires
        new_r != 0,
        euclid_invariant(odd, s, new_s, t, new_t, r, new_r, m, a0),
    ensures
        ({
            let q = r / new_r;
            &&& -m <= q * new_t <= m
            &&& -m <= t - q * new_t <= m
            &&& 0 <= q * new_r <= r
            &&& euclid_invariant(
                !odd,
                new_s,
                s - q * new_s,
                new_t,
                t - q * new_t,
                new_r,
                r - q * new_r,
                m,
                a0,
            )
        }),
{
    let q = r / new_r;
    if odd {
        assert((-new_t) * r - (-t) * new_r == t * new_r - new_t * r) by (nonlinear_arith);
        lemma_euclid_bounds(-t, -new_t, r, new_r, m);
        assert(q * (-new_t) == -(q * new_t)) by (nonlinear_arith);
    } else {
        lemma_euclid_bounds(t, new_t, r, new_r, m);
    }
    lemma_cross_product_step(t, new_t, r, new_r, q);
    lemma_cross_product_step(s, new_s, r, new_r, q);
    lemma_combination_step(s, new_s, t, new_t, q, m, a0);
}

/// When the algorithm stops, the last remainder divides the modulus and the
/// value.
proof fn lemma_euclid_divisor(
    odd: bool,
    s: int,
    new_s: int,
    t: int,
    new_t: int,
    r: int,
    a: int,
    m: int,
)
    requires
        m > 1,
        euclid_invariant(odd, s, new_s, t, new_t, r, 0, m, a % m),
    ensures
        divides(r, m),
        divides(r, a),
{
    let a0 = a % m;
    let u = if odd {
        -new_t
    } else {
        new_t
    };
    let w = if odd {
        new_s
    } else {
        -new_s
    };
    assert(u * r == m && w * r == a0) by (nonlinear_arith)
        requires
            !odd ==> new_t * r - t * 0 == m && s * 0 - new_s * r == a0,
            odd ==> t * 0 - new_t * r == m && new_s * r - s * 0 == a0,
            u == if odd { -new_t } else { new_t },
            w == if odd { new_s } else { -new_s },
    ;
    let k = a / m;
    lemma_fundamental_div_mod(a, m);
    assert(a == (u * k + w) * r) by (nonlinear_arith)
        requires
            a == m * k + a0,
            u * r == m,
            w * r == a0,
    ;
    lemma_mod_multiples_basic(u, r);
    lemma_mod_multiples_basic(u * k + w, r);
}

/// When the last remainder is one, its cofactor of the value, brought into
/// `[0, m)`, is the inverse of the value.
proof fn lemma_euclid_inverse(s: int, t: int, inv: int, a: int, m: int)
    requires
        m > 1,
        1 == s * m + t * (a % m),
        -m < t < m,
        inv == if t < 0 { t + m } else { t },
    ensures
        is_inverse(inv, a, m),
{
    let a0 = a % m;
    let c = if t < 0 {
        a0 - s
    } else {
        -s
    };
    assert(inv * a0 == m * c + 1) by (nonlinear_arith)
        requires
            1 == s * m + t * a0,
            inv == if t < 0 { t + m } else { t },
            c == if t < 0 { a0 - s } else { -s },
    ;
    lemma_mod_multiples_vanish(c, 1, m);
    lemma_small_mod(1, m as nat);
    lemma_mul_mod_noop_right(inv, a, m);
}

/// The multiplicative inverse of `a` modulo `m`, by the extended Euclidean
/// algorithm on `a mod m` and `m`.
///
/// The result lies in `[0, m)` and its product with `a` is congruent to one.
/// The inversion fails exactly when `a` and `m` have a common factor; modulo
/// a prime that is when `a` is a multiple of `m`.
pub fn mod_inv(a: i64, m: i64) -> (res: Result<i64, NoInverseExists>)
    requires
        m > 1,
    ensures
        res is Err <==> shares_factor(a as int, m as int),
        is_prime(m as int) && a as int % m as int != 0 ==> res is Ok,
        match res {
            Ok(inv) => is_inverse(inv as int, a as int, m as int) && modular_inverse(
                a as int,
                m as int,
            ) == Some(inv as int),
            Err(_) => modular_inverse(a as int, m as int) is None,
        },
{
    proof {
        lemma_unit_iff_coprime(a as int, m as int);
        if is_prime(m as int) && a as int % m as int != 0 {
            lemma_prime_units(a as int, m as int);
        }
    }
    let mut t: i64 = 0;
    let mut new_t: i64 = 1;
    let mut r: i64 = m;
    let mut new_r: i64 = reduce(a as i128, m);
    // Cofactors of the modulus, and the parity of the number of steps taken.
    let ghost mut s: int = 1;
    let ghost mut new_s: int = 0;
    let ghost mut odd: bool = false;
    while new_r != 0
        invariant
            m > 1,
            euclid_invariant(
                odd,
                s,
                new_s,
                t as int,
                new_t as int,
                r as int,
                new_r as int,
                m as int,
                a as int % m as int,
            ),
        decreases new_r,
    {
        let quotient: i64 = r / new_r;
        proof {
            lemma_euclid_step(
                odd,
                s,
                new_s,
                t as int,
                new_t as int,
                r as int,
                new_r as int,
                m as int,
                a as int % m as int,
            );
            let next_s = s - quotient * new_s;
            s = new_s;
            new_s = next_s;
            odd = !odd;
        }
        t = t - quotient * new_t;
        std::mem::swap(&mut t, &mut new_t);
        r = r - quotient * new_r;
        std::mem::swap(&mut r, &mut new_r);
    }
    proof {
        lemma_euclid_divisor(odd, s, new_s, t as int, new_t as int, r as int, a as int, m as int);
    }
    if r > 1 {
        return Err(NoInverseExists);
    }
    proof {
        let inv = if t < 0 {
            t + m
        } else {
            t as int
        };
        lemma_euclid_inverse(s, t as int, inv, a as int, m as int);
        lemma_inverse_is_modular_inverse(inv, a as int, m as int);
    }
    if t < 0 {
        t += m;
    }
    Ok(t)
}

} // verus!
