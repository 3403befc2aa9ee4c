//! The chord-and-tangent group law and double-and-add scalar multiplication.

use crate::congruence::{
    congruent, lemma_congruent_add, lemma_congruent_mul, lemma_congruent_residue,
    lemma_congruent_sub,
};
use crate::modular::{
    divides, has_inverse, is_inverse, is_prime, lemma_inverse_is_modular_inverse,
    lemma_inverse_of_residue, lemma_prime_units, lemma_product_fits, mod_inv, modular_inverse,
    mul_mod, reduce, NoInverseExists,
};
use crate::point::{GroupElement, Point};
use vstd::arithmetic::div_mod::{
    lemma_fundamental_div_mod, lemma_mod_bound, lemma_mod_multiples_vanish, lemma_small_mod,
};
use vstd::prelude::*;

verus! {

/// The slope of the line through `(x1, y1)` and `(x2, y2)`, or of the tangent
/// at `(x1, y1)` when the two points coincide, reduced modulo `m`.
///
/// There is no slope when the denominator, `2 * y1` for the tangent and
/// `x2 - x1` for the chord, is not a unit modulo `m`.
pub open spec fn slope(x1: int, y1: int, x2: int, y2: int, a: int, m: int) -> Option<int> {
    if x1 == x2 && y1 == y2 {
        match modular_inverse(2 * y1, m) {
            Some(d) => Some(((3 * x1 * x1 + a) * d) % m),
            None => None,
        }
    } else {
        match modular_inverse(x2 - x1, m) {
            Some(d) => Some(((y2 - y1) * d) % m),
            None => None,
        }
    }
}

/// The sum of two points under the group law of `y^2 = x^3 + a*x + b` modulo
/// `m`, or `None` when the slope it needs does not exist.
///
/// The identity is neutral; two points with the same abscissa that are not
/// the same point, and a point of ordinate zero with itself, sum to the
/// identity; any other pair is joined by a line of slope `l` and sums to
/// `(l^2 - x1 - x2, l * (x1 - x3) - y1)`, with coordinates in `[0, m)`.
pub open spec fn combine(p: GroupElement, q: GroupElement, a: int, m: int) -> Option<
    GroupElement,
> {
    match (p, q) {
        (GroupElement::Identity, _) => Some(q),
        (_, GroupElement::Identity) => Some(p),
        (GroupElement::Affine { x: x1, y: y1 }, GroupElement::Affine { x: x2, y: y2 }) => {
            if x1 == x2 && (y1 != y2 || y1 == 0) {
                Some(GroupElement::Identity)
            } else {
                match slope(x1, y1, x2, y2, a, m) {
                    Some(l) => {
                        let x3 = (l * l - x1 - x2) % m;
                        let y3 = (l * (x1 - x3) - y1) % m;
                        Some(GroupElement::Affine { x: x3, y: y3 })
                    },
                    None => None,
                }
            }
        },
    }
}

/// A reduced value times a difference of a 64-bit value and a reduced value
/// stays clear of the 128-bit limits.
proof fn lemma_slope_product_fits(l: i64, x1: i64, x3: i64)
    requires
        0 <= l <= 0x7fff_ffff_ffff_fffe,
        0 <= x3 <= 0x7fff_ffff_ffff_fffe,
    ensures
        -0x7fff_ffff_ffff_ffff_0000_0000_0000_0000 <= l * (x1 - x3)
            <= 0x7fff_ffff_ffff_ffff_0000_0000_0000_0000,
{
    let d = x1 - x3;
    assert(-0x7fff_ffff_ffff_ffff_0000_0000_0000_0000 <= l * d
        <= 0x7fff_ffff_ffff_ffff_0000_0000_0000_0000) by (nonlinear_arith)
        requires
            0 <= l <= 0x7fff_ffff_ffff_fffe,
            -0x1_0000_0000_0000_0000 <= d <= 0x1_0000_0000_0000_0000,
    ;
}

/// The numerator of the tangent's slope may be reduced before the slope is.
proof fn lemma_tangent_slope(sq: int, num: int, x1: int, a: int, d: int, m: int)
    requires
        m > 0,
        sq == (x1 * x1) % m,
        num == (3 * sq + a) % m,
    ensures
        (num * d) % m == ((3 * x1 * x1 + a) * d) % m,
{
    lemma_congruent_residue(x1 * x1, m);
    lemma_congruent_mul(3, 3, sq, x1 * x1, m);
    lemma_congruent_add(3 * sq, 3 * (x1 * x1), a, a, m);
    lemma_congruent_residue(3 * sq + a, m);
    assert(3 * (x1 * x1) == 3 * x1 * x1) by (nonlinear_arith);
    lemma_congruent_mul(num, 3 * x1 * x1 + a, d, d, m);
}

/// The numerator of the chord's slope may be reduced before the slope is.
proof fn lemma_chord_slope(num: int, dy: int, d: int, m: int)
    requires
        m > 0,
        num == dy % m,
    ensures
        (num * d) % m == (dy * d) % m,
{
    lemma_congruent_residue(dy, m);
    lemma_congruent_mul(num, dy, d, d, m);
}

/// Adds two points under the group law of the curve with coefficient `a`
/// modulo `m`.
///
/// The sum is `combine` of the two views. The identity is neutral and the
/// other operand is handed back as it is; every other result is in canonical
/// form. The addition fails exactly when the slope it needs does not exist,
/// which does not happen modulo an odd prime when the coordinates are reduced.
pub fn elliptic_add(p: &Point, q: &Point, a: i64, m: i64) -> (res: Result<Point, NoInverseExists>)
    requires
        m > 1,
    ensures
        match res {
            Ok(r) => combine(p@, q@, a as int, m as int) == Some(r@),
            Err(_) => combine(p@, q@, a as int, m as int) is None,
        },
        p.infinity ==> res == Ok::<Point, NoInverseExists>(*q),
        !p.infinity && q.infinity ==> res == Ok::<Point, NoInverseExists>(*p),
        !p.infinity && !q.infinity ==> (res matches Ok(r) ==> r.is_canonical()),
        is_prime(m as int) && m > 2 && is_reduced(p@, m as int) && is_reduced(q@, m as int)
            ==> res is Ok,
{
    proof {
        if is_prime(m as int) && m > 2 && is_reduced(p@, m as int) && is_reduced(q@, m as int) {
            lemma_combine_defined(p@, q@, a as int, m as int);
        }
    }
    if p.is_at_infinity() {
        return Ok(*q);
    }
    if q.is_at_infinity() {
        return Ok(*p);
    }
    if p.x == q.x && (p.y != q.y || p.y == 0) {
        return Ok(Point::at_infinity());
    }
    let (x1, y1) = (p.x, p.y);
    let (x2, y2) = (q.x, q.y);

    let lambda: i64 = if x1 == x2 && y1 == y2 {
        // Point doubling
        let square: i64 = mul_mod(x1, x1, m);
        let num: i64 = reduce(3 * (square as i128) + (a as i128), m);
        proof {
            lemma_inverse_of_residue(2 * y1, m as int);
        }
        let denom: i64 = mod_inv(reduce(2 * (y1 as i128), m), m)?;
        proof {
            lemma_tangent_slope(square as int, num as int, x1 as int, a as int, denom as int, m as int);
        }
        mul_mod(num, denom, m)
    } else {
        // Point addition
        let num: i64 = reduce((y2 as i128) - (y1 as i128), m);
        proof {
            lemma_inverse_of_residue(x2 - x1, m as int);
        }
        let denom: i64 = mod_inv(reduce((x2 as i128) - (x1 as i128), m), m)?;
        proof {
            lemma_chord_slope(num as int, y2 - y1, denom as int, m as int);
        }
        mul_mod(num, denom, m)
    };
    assert(slope(x1 as int, y1 as int, x2 as int, y2 as int, a as int, m as int) == Some(
        lambda as int,
    ));

    proof {
        lemma_product_fits(lambda, lambda);
    }
    let x3: i64 = reduce((lambda as i128) * (lambda as i128) - (x1 as i128) - (x2 as i128), m);
    proof {
        lemma_slope_product_fits(lambda, x1, x3);
    }
    let y3: i64 = reduce((lambda as i128) * ((x1 as i128) - (x3 as i128)) - (y1 as i128), m);

    Ok(Point { x: x3, y: y3, infinity: false })
}

/// Double-and-add on the binary digits of `n`, least significant first.
///
/// For each digit the accumulator takes up the addend if the digit is set,
/// and the addend is doubled; the accumulator is the result when no digit is
/// left. The result is `None` as soon as one of the sums does not exist.
pub open spec fn double_and_add(
    n: nat,
    acc: GroupElement,
    addend: GroupElement,
    a: int,
    m: int,
) -> Option<GroupElement>
    decreases n,
{
    if n == 0 {
        Some(acc)
    } else {
        let taken = if n % 2 == 1 {
            combine(acc, addend, a, m)
        } else {
            Some(acc)
        };
        match (taken, combine(addend, addend, a, m)) {
            (Some(next_acc), Some(doubled)) => double_and_add(n / 2, next_acc, doubled, a, m),
            _ => None,
        }
    }
}

/// The multiple `n * p`, computed by double-and-add from the identity.
///
/// Points that share no curve need not add associatively, so the order in
/// which double-and-add sums is part of the definition. Where the multiples
/// of `p` add up, as they do in a group, the result is the sum of `n` copies
/// of `p`: see `lemma_scale_is_repeated_sum`.
pub open spec fn scale(n: nat, p: GroupElement, a: int, m: int) -> Option<GroupElement> {
    double_and_add(n, GroupElement::Identity, p, a, m)
}

/// Multiplies the point `p` by the scalar `n` with double-and-add.
///
/// The product is `scale` of the view of `p`; it fails exactly when one of
/// the additions or doublings on the way fails, which does not happen modulo
/// an odd prime when the coordinates of `p` are reduced. The product is in
/// canonical form, except that a positive multiple of an identity is handed
/// back as that identity was given.
pub fn scalar_mult(n: i64, p: &Point, a: i64, m: i64) -> (res: Result<Point, NoInverseExists>)
    requires
        n >= 0,
        m > 1,
    ensures
        match res {
            Ok(r) => scale(n as nat, p@, a as int, m as int) == Some(r@),
            Err(_) => scale(n as nat, p@, a as int, m as int) is None,
        },
        p.infinity && n > 0 ==> res == Ok::<Point, NoInverseExists>(*p),
        !(p.infinity && n > 0) ==> (res matches Ok(r) ==> r.is_canonical()),
        is_prime(m as int) && m > 2 && is_reduced(p@, m as int) ==> res is Ok,
{
    proof {
        if is_prime(m as int) && m > 2 && is_reduced(p@, m as int) {
            lemma_scale_defined(n as nat, p@, a as int, m as int);
        }
    }
    let mut result = Point::at_infinity();
    let mut addend = *p;
    let mut k: i64 = n;

    while k > 0
        invariant
            0 <= k <= n,
            m > 1,
            double_and_add(k as nat, result@, addend@, a as int, m as int) == scale(
                n as nat,
                p@,
                a as int,
                m as int,
            ),
            p.infinity ==> addend == *p && ((result == *p && n > 0) || (result == Point::identity()
                && (k > 0 || n == 0))),
            !p.infinity ==> result.is_canonical() && addend.is_canonical(),
            is_prime(m as int) && m > 2 && is_reduced(p@, m as int) ==> scale(
                n as nat,
                p@,
                a as int,
                m as int,
            ) is Some,
        decreases k,
    {
        assert((k & 1 == 1) == (k % 2 == 1) && k >> 1 == k / 2) by (bit_vector)
            requires
                k > 0,
        ;
        if k & 1 == 1 {
            result = elliptic_add(&result, &addend, a, m)?;
        }
        addend = elliptic_add(&addend, &addend, a, m)?;
        k >>= 1;
    }

    Ok(result)
}

/// The identity is neutral on both sides.
pub proof fn lemma_identity_neutral(p: GroupElement, a: int, m: int)
    ensures
        combine(p, GroupElement::Identity, a, m) == Some(p),
        combine(GroupElement::Identity, p, a, m) == Some(p),
{
}

/// A point and its reflection `(x, (m - y) mod m)` sum to the identity,
/// unless the point is its own reflection without lying on the axis, that is,
/// unless `2 * y == m`.
pub proof fn lemma_reflection_cancels(x: int, y: int, a: int, m: int)
    requires
        m > 1,
        2 * y != m,
    ensures
        combine(
            GroupElement::Affine { x, y },
            GroupElement::Affine { x, y: (m - y) % m },
            a,
            m,
        ) == Some(GroupElement::Identity),
{
    lemma_mod_bound(m - y, m);
    if 0 < y < m {
        lemma_small_mod((m - y) as nat, m as nat);
    }
}

/// The slope of a chord times its run is congruent to its rise.
pub proof fn lemma_slope_times_run(dx: int, dy: int, d: int, m: int)
    requires
        m > 1,
        is_inverse(d, dx, m),
    ensures
        congruent(((dy * d) % m) * dx, dy, m),
{
    let l = (dy * d) % m;
    lemma_small_mod(1, m as nat);
    lemma_congruent_residue(dy * d, m);
    lemma_congruent_mul(l, dy * d, dx, dx, m);
    assert((dy * d) * dx == dy * (d * dx)) by (nonlinear_arith);
    lemma_congruent_mul(dy, dy, d * dx, 1, m);
}

/// The inverse of the opposite of a unit is the opposite of its inverse.
proof fn lemma_inverse_of_opposite(d: int, v: int, m: int)
    requires
        m > 1,
        is_inverse(d, v, m),
    ensures
        is_inverse(m - d, -v, m),
{
    if d == 0 {
        lemma_small_mod(0, m as nat);
    }
    assert((m - d) * (-v) == m * (-v) + d * v) by (nonlinear_arith);
    lemma_mod_multiples_vanish(-v, d * v, m);
}

/// The group law is commutative.
pub proof fn lemma_combine_commutative(p: GroupElement, q: GroupElement, a: int, m: int)
    requires
        m > 1,
    ensures
        combine(p, q, a, m) == combine(q, p, a, m),
{
    if let (GroupElement::Affine { x: x1, y: y1 }, GroupElement::Affine { x: x2, y: y2 }) = (p, q) {
        if x1 != x2 {
            let dx = x2 - x1;
            let dy = y2 - y1;
            if has_inverse(dx, m) {
                let d = modular_inverse(dx, m).unwrap();
                lemma_inverse_of_opposite(d, dx, m);
                lemma_inverse_is_modular_inverse(m - d, -dx, m);
                // Both chords have the same slope.
                let l = (dy * d) % m;
                assert((-dy) * (m - d) == m * (-dy) + dy * d) by (nonlinear_arith);
                lemma_mod_multiples_vanish(-dy, dy * d, m);
                // The ordinates agree because the slope times the run is the rise.
                let x3 = (l * l - x1 - x2) % m;
                lemma_slope_times_run(dx, dy, d, m);
                assert(l * (x2 - x3) - y2 == (l * (x1 - x3) - y1) + (l * dx - dy))
                    by (nonlinear_arith)
                    requires
                        dx == x2 - x1,
                        dy == y2 - y1,
                ;
                lemma_congruent_sub(l * dx, dy, dy, dy, m);
                lemma_congruent_add(l * (x1 - x3) - y1, l * (x1 - x3) - y1, l * dx - dy, 0, m);
            } else {
                if has_inverse(-dx, m) {
                    let d = modular_inverse(-dx, m).unwrap();
                    lemma_inverse_of_opposite(d, -dx, m);
                }
            }
        }
    }
}

/// A point of ordinate zero is its own inverse.
pub proof fn lemma_zero_ordinate_doubles_to_identity(x: int, a: int, m: int)
    ensures
        combine(GroupElement::Affine { x, y: 0 }, GroupElement::Affine { x, y: 0 }, a, m) == Some(
            GroupElement::Identity,
        ),
{
}

/// The multiple by zero is the identity.
pub proof fn lemma_scale_zero(p: GroupElement, a: int, m: int)
    ensures
        scale(0, p, a, m) == Some(GroupElement::Identity),
{
}

/// The multiple by one is the point itself, provided the point can be
/// doubled: double-and-add doubles its addend once more than it needs to.
pub proof fn lemma_scale_one(p: GroupElement, a: int, m: int)
    requires
        combine(p, p, a, m) is Some,
    ensures
        scale(1, p, a, m) == Some(p),
{
    reveal_with_fuel(double_and_add, 2);
}

/// For the scalars one, two and three, the multiple by `n` is the multiple
/// by `n - 1` plus the point, whenever the multiple by `n` exists.
pub proof fn lemma_scale_successor_up_to_three(n: nat, p: GroupElement, a: int, m: int)
    requires
        m > 1,
        1 <= n <= 3,
        scale(n, p, a, m) is Some,
    ensures
        scale((n - 1) as nat, p, a, m) is Some,
        scale(n, p, a, m) == combine(scale((n - 1) as nat, p, a, m).unwrap(), p, a, m),
{
    reveal_with_fuel(double_and_add, 3);
    if n == 3 {
        let doubled = combine(p, p, a, m).unwrap();
        lemma_combine_commutative(p, doubled, a, m);
    }
}

/// The coordinates of the element, if it has any, lie in `[0, m)`.
pub open spec fn is_reduced(p: GroupElement, m: int) -> bool {
    match p {
        GroupElement::Identity => true,
        GroupElement::Affine { x, y } => 0 <= x < m && 0 <= y < m,
    }
}

/// The sum of two elements with reduced coordinates has reduced coordinates.
pub proof fn lemma_combine_reduced(p: GroupElement, q: GroupElement, a: int, m: int)
    requires
        m > 1,
        is_reduced(p, m),
        is_reduced(q, m),
    ensures
        combine(p, q, a, m) matches Some(sum) ==> is_reduced(sum, m),
{
    if let (GroupElement::Affine { x: x1, y: y1 }, GroupElement::Affine { x: x2, y: y2 }) = (p, q) {
        if let Some(l) = slope(x1, y1, x2, y2, a, m) {
            let x3 = (l * l - x1 - x2) % m;
            lemma_mod_bound(l * l - x1 - x2, m);
            lemma_mod_bound(l * (x1 - x3) - y1, m);
        }
    }
}

/// Modulo an odd prime the sum of two elements with reduced coordinates
/// always exists: the denominators of the slopes are units.
pub proof fn lemma_combine_defined(p: GroupElement, q: GroupElement, a: int, m: int)
    requires
        is_prime(m),
        m > 2,
        is_reduced(p, m),
        is_reduced(q, m),
    ensures
        combine(p, q, a, m) is Some,
{
    if let (GroupElement::Affine { x: x1, y: y1 }, GroupElement::Affine { x: x2, y: y2 }) = (p, q) {
        if !(x1 == x2 && (y1 != y2 || y1 == 0)) {
            if x1 == x2 {
                // The tangent: 0 < 2 * y1 < 2 * m, and m is odd.
                if (2 * y1) % m == 0 {
                    let k = (2 * y1) / m;
                    lemma_fundamental_div_mod(2 * y1, m);
                    assert(k == 1) by (nonlinear_arith)
                        requires
                            2 * y1 == m * k,
                            0 < 2 * y1 < 2 * m,
                    ;
                    assert(m * 1 == m);
                    assert(divides(2, m));
                }
                lemma_prime_units(2 * y1, m);
            } else {
                // The chord: 0 < |x2 - x1| < m.
                if x2 > x1 {
                    lemma_small_mod((x2 - x1) as nat, m as nat);
                } else {
                    lemma_small_mod((x2 - x1 + m) as nat, m as nat);
                    lemma_mod_multiples_vanish(-1, x2 - x1 + m, m);
                }
                lemma_prime_units(x2 - x1, m);
            }
        }
    }
}

/// Modulo an odd prime double-and-add from reduced elements always yields a
/// result.
pub proof fn lemma_double_and_add_defined(
    n: nat,
    acc: GroupElement,
    addend: GroupElement,
    a: int,
    m: int,
)
    requires
        is_prime(m),
        m > 2,
        is_reduced(acc, m),
        is_reduced(addend, m),
    ensures
        double_and_add(n, acc, addend, a, m) matches Some(res) && is_reduced(res, m),
    decreases n,
{
    if n > 0 {
        lemma_combine_defined(acc, addend, a, m);
        lemma_combine_defined(addend, addend, a, m);
        lemma_combine_reduced(acc, addend, a, m);
        lemma_combine_reduced(addend, addend, a, m);
        let next_acc = if n % 2 == 1 {
            combine(acc, addend, a, m).unwrap()
        } else {
            acc
        };
        lemma_double_and_add_defined(n / 2, next_acc, combine(addend, addend, a, m).unwrap(), a, m);
    }
}

/// Modulo an odd prime every multiple of an element with reduced coordinates
/// exists.
pub proof fn lemma_scale_defined(n: nat, p: GroupElement, a: int, m: int)
    requires
        is_prime(m),
        m > 2,
        is_reduced(p, m),
    ensures
        scale(n, p, a, m) matches Some(res) && is_reduced(res, m),
{
    lemma_double_and_add_defined(n, GroupElement::Identity, p, a, m);
}

/// The sum of `n` copies of `p`, added one after the other from the left.
pub open spec fn repeated_sum(n: nat, p: GroupElement, a: int, m: int) -> Option<GroupElement>
    decreases n,
{
    if n == 0 {
        Some(GroupElement::Identity)
    } else {
        match repeated_sum((n - 1) as nat, p, a, m) {
            Some(sum) => combine(sum, p, a, m),
            None => None,
        }
    }
}

/// The sums of `i` and of `j` copies of `p` exist, and their sum is the sum
/// of `i + j` copies.
pub open spec fn sums_add(i: nat, j: nat, p: GroupElement, a: int, m: int) -> bool {
    &&& repeated_sum(i, p, a, m) is Some
    &&& repeated_sum(j, p, a, m) is Some
    &&& combine(repeated_sum(i, p, a, m).unwrap(), repeated_sum(j, p, a, m).unwrap(), a, m)
        == repeated_sum(i + j, p, a, m)
}

/// The sums of up to `bound` copies of `p` exist and add like the integers.
pub open spec fn multiples_add_up(bound: nat, p: GroupElement, a: int, m: int) -> bool {
    forall|i: nat, j: nat| i + j <= bound ==> #[trigger] sums_add(i, j, p, a, m)
}

/// Double-and-add from the sums of `r` and of `s` copies of `p` yields the
/// sum of `r + k * s` copies, where the multiples of `p` add up.
proof fn lemma_double_and_add_of_multiples(
    k: nat,
    r: nat,
    s: nat,
    bound: nat,
    p: GroupElement,
    a: int,
    m: int,
)
    requires
        k > 0,
        multiples_add_up(bound, p, a, m),
        2 * (r + k * s) <= bound,
    ensures
        repeated_sum(r, p, a, m) is Some,
        repeated_sum(s, p, a, m) is Some,
        double_and_add(
            k,
            repeated_sum(r, p, a, m).unwrap(),
            repeated_sum(s, p, a, m).unwrap(),
            a,
            m,
        ) == repeated_sum(r + k * s, p, a, m),
    decreases k,
{
    let half = k / 2;
    let bit = k % 2;
    assert(k * s == half * (2 * s) + bit * s && s <= k * s) by (nonlinear_arith)
        requires
            k == 2 * half + bit,
            k >= 1,
            s >= 0,
    ;
    assert(bit * s == if bit == 1 { s } else { 0 }) by (nonlinear_arith)
        requires
            bit == 0 || bit == 1,
    ;
    assert(sums_add(r, s, p, a, m));
    assert(sums_add(s, s, p, a, m));
    assert(sums_add(s + s, 0, p, a, m));
    let next_r = if bit == 1 {
        r + s
    } else {
        r
    };
    if half == 0 {
        assert(half * (2 * s) == 0) by (nonlinear_arith)
            requires
                half == 0,
        ;
        reveal_with_fuel(double_and_add, 2);
    } else {
        lemma_double_and_add_of_multiples(half, next_r, 2 * s, bound, p, a, m);
    }
}

/// Double-and-add computes the repeated sum wherever the multiples of the
/// point add up: if the sums of up to `2 * n` copies of `p` exist and add like
/// the integers, then the multiple by `n` is the sum of `n` copies, and it is
/// the multiple by `n - 1` plus `p`.
pub proof fn lemma_scale_is_repeated_sum(n: nat, p: GroupElement, a: int, m: int)
    requires
        multiples_add_up(2 * n, p, a, m),
    ensures
        scale(n, p, a, m) == repeated_sum(n, p, a, m),
        n > 0 ==> scale((n - 1) as nat, p, a, m) is Some && scale(n, p, a, m) == combine(
            scale((n - 1) as nat, p, a, m).unwrap(),
            p,
            a,
            m,
        ),
{
    if n > 0 {
        assert(repeated_sum(1, p, a, m) == Some(p)) by {
            reveal_with_fuel(repeated_sum, 2);
        }
        assert(n * 1 == n) by (nonlinear_arith);
        lemma_double_and_add_of_multiples(n, 0, 1, 2 * n, p, a, m);
        let before = (n - 1) as nat;
        assert(sums_add(before, 0, p, a, m));
        if before > 0 {
            assert(before * 1 == before) by (nonlinear_arith);
            lemma_double_and_add_of_multiples(before, 0, 1, 2 * n, p, a, m);
        }
    }
}

} // verus!
