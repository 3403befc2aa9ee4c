//! The curve is closed under the group law: sums and multiples of points of
//! the curve lie on the curve.

use crate::congruence::{
    congruent, lemma_congruent_add, lemma_congruent_mul, lemma_congruent_residue,
    lemma_congruent_sub,
};
use crate::curve::{on_curve, satisfies_equation};
use crate::group_law::{combine, double_and_add, lemma_slope_times_run, scale, slope};
use crate::modular::{is_inverse, modular_inverse};
use crate::point::GroupElement;
use vstd::arithmetic::div_mod::lemma_small_mod;
use vstd::prelude::*;

verus! {

/// The third point of a line and the curve.
///
/// Let a line of slope `l` pass through the point `(x1, y1)` of the curve, and
/// let `g1 = 2*y1*l + l^2*(x2 - x1)` be congruent to
/// `g2 = x2^2 + x1*x2 + x1^2 + a`: this holds of the chord through a second
/// point of abscissa `x2`, and of the tangent when `x2 = x1`. Then the
/// reflection of the third point in which the line meets the curve lies on
/// the curve.
proof fn lemma_third_point_on_curve(x1: int, y1: int, x2: int, l: int, a: int, b: int, m: int)
    requires
        m > 0,
        satisfies_equation(x1, y1, a, b, m),
        congruent(2 * y1 * l + l * l * (x2 - x1), x2 * x2 + x1 * x2 + x1 * x1 + a, m),
    ensures
        satisfies_equation(
            (l * l - x1 - x2) % m,
            (l * (x1 - (l * l - x1 - x2) % m) - y1) % m,
            a,
            b,
            m,
        ),
{
    // The third point before reduction.
    let xs = l * l - x1 - x2;
    let ys = l * (x1 - xs) - y1;
    let u = xs - x1;
    let g1 = 2 * y1 * l + l * l * (x2 - x1);
    let g2 = x2 * x2 + x1 * x2 + x1 * x1 + a;
    let left1 = y1 * y1;
    let right1 = x1 * x1 * x1 + a * x1 + b;
    let right_s = xs * xs * xs + a * xs + b;
    assert(ys * ys + (right1 + u * g2) == right_s + (left1 + u * g1)) by {
        lemma_line_identity(x1, y1, x2, l, a, b);
    }
    lemma_congruent_mul(u, u, g2, g1, m);
    lemma_congruent_add(right1, left1, u * g2, u * g1, m);
    lemma_congruent_sub(
        ys * ys + (right1 + u * g2),
        right_s + (left1 + u * g1),
        right1 + u * g2,
        left1 + u * g1,
        m,
    );

    // The same point after reduction.
    let x3 = xs % m;
    let y3 = (l * (x1 - x3) - y1) % m;
    lemma_congruent_residue(xs, m);
    lemma_congruent_sub(x1, x1, x3, xs, m);
    lemma_congruent_mul(l, l, x1 - x3, x1 - xs, m);
    lemma_congruent_sub(l * (x1 - x3), l * (x1 - xs), y1, y1, m);
    lemma_congruent_residue(l * (x1 - x3) - y1, m);
    lemma_congruent_mul(y3, ys, y3, ys, m);
    lemma_congruent_mul(x3, xs, x3, xs, m);
    lemma_congruent_mul(x3 * x3, xs * xs, x3, xs, m);
    lemma_congruent_mul(a, a, x3, xs, m);
    lemma_congruent_add(x3 * x3 * x3, xs * xs * xs, a * x3, a * xs, m);
    lemma_congruent_add(x3 * x3 * x3 + a * x3, xs * xs * xs + a * xs, b, b, m);
}

/// The polynomial identity behind `lemma_third_point_on_curve`: the defect of
/// the third point in the curve equation is the defect of the first point
/// plus a multiple of `g1 - g2`.
proof fn lemma_line_identity(x1: int, y1: int, x2: int, l: int, a: int, b: int)
    ensures
        ({
            let xs = l * l - x1 - x2;
            let ys = l * (x1 - xs) - y1;
            let u = xs - x1;
            let g1 = 2 * y1 * l + l * l * (x2 - x1);
            let g2 = x2 * x2 + x1 * x2 + x1 * x1 + a;
            ys * ys + ((x1 * x1 * x1 + a * x1 + b) + u * g2) == (xs * xs * xs + a * xs + b) + (y1
                * y1 + u * g1)
        }),
{
    let sq = l * l;
    let xs = sq - x1 - x2;
    let u = xs - x1;
    let t = l * u;
    let w = y1 * l;
    let z = sq * (x2 - x1);
    let ys = l * (x1 - xs) - y1;
    let g1 = 2 * y1 * l + l * l * (x2 - x1);
    let g2 = x2 * x2 + x1 * x2 + x1 * x1 + a;
    let c = 3 * (x1 * x1) + 3 * (x1 * u) + u * u + a;

    // The square of the ordinate.
    assert(l * (x1 - xs) == -t) by (nonlinear_arith)
        requires
            x1 - xs == -u,
            t == l * u,
    ;
    assert(ys * ys == t * t + 2 * (t * y1) + y1 * y1) by (nonlinear_arith)
        requires
            ys == -t - y1,
    ;
    assert(t * t == sq * (u * u)) by (nonlinear_arith)
        requires
            t == l * u,
            sq == l * l,
    ;
    assert(t * y1 == u * w) by (nonlinear_arith)
        requires
            t == l * u,
            w == y1 * l,
    ;
    // The cubic at the abscissa.
    assert(xs * xs * xs + a * xs + b == (x1 * x1 * x1 + a * x1 + b) + u * c) by (nonlinear_arith)
        requires
            xs == x1 + u,
            c == 3 * (x1 * x1) + 3 * (x1 * u) + u * u + a,
    ;
    // The two sides of the slope condition.
    assert(2 * y1 * l == 2 * w) by (nonlinear_arith)
        requires
            w == y1 * l,
    ;
    assert(sq * u + g2 == c + z) by (nonlinear_arith)
        requires
            sq == u + 2 * x1 + x2,
            z == sq * (x2 - x1),
            g2 == x2 * x2 + x1 * x2 + x1 * x1 + a,
            c == 3 * (x1 * x1) + 3 * (x1 * u) + u * u + a,
    ;
    assert(sq * (u * u) + u * g2 == u * c + u * z) by (nonlinear_arith)
        requires
            sq * u + g2 == c + z,
    ;
    assert(u * g1 == 2 * (u * w) + u * z) by (nonlinear_arith)
        requires
            g1 == 2 * w + z,
    ;
}

/// The slope of the tangent at a point of the curve meets the condition of
/// `lemma_third_point_on_curve`.
proof fn lemma_tangent_condition(x1: int, y1: int, d: int, a: int, m: int)
    requires
        m > 1,
        is_inverse(d, 2 * y1, m),
    ensures
        ({
            let l = ((3 * x1 * x1 + a) * d) % m;
            congruent(2 * y1 * l + l * l * (x1 - x1), x1 * x1 + x1 * x1 + x1 * x1 + a, m)
        }),
{
    let n = 3 * x1 * x1 + a;
    let l = (n * d) % m;
    lemma_small_mod(1, m as nat);
    lemma_congruent_residue(n * d, m);
    lemma_congruent_mul(2 * y1, 2 * y1, l, n * d, m);
    assert((2 * y1) * (n * d) == n * (d * (2 * y1))) by (nonlinear_arith);
    lemma_congruent_mul(n, n, d * (2 * y1), 1, m);
    assert(l * l * (x1 - x1) == 0) by (nonlinear_arith);
    assert(n * 1 == x1 * x1 + x1 * x1 + x1 * x1 + a) by (nonlinear_arith)
        requires
            n == 3 * x1 * x1 + a,
    ;
}

/// The slope of the chord through two points of the curve meets the
/// condition of `lemma_third_point_on_curve`.
proof fn lemma_chord_condition(x1: int, y1: int, x2: int, y2: int, d: int, a: int, b: int, m: int)
    requires
        m > 1,
        satisfies_equation(x1, y1, a, b, m),
        satisfies_equation(x2, y2, a, b, m),
        is_inverse(d, x2 - x1, m),
    ensures
        ({
            let l = ((y2 - y1) * d) % m;
            congruent(2 * y1 * l + l * l * (x2 - x1), x2 * x2 + x1 * x2 + x1 * x1 + a, m)
        }),
{
    let dx = x2 - x1;
    let dy = y2 - y1;
    let l = (dy * d) % m;
    let h = l * dx;
    let g1 = 2 * y1 * l + l * l * dx;
    let g2 = x2 * x2 + x1 * x2 + x1 * x1 + a;
    lemma_small_mod(1, m as nat);

    // The slope times the run is the rise.
    lemma_slope_times_run(dx, dy, d, m);

    // Both sides of the condition, multiplied by the run.
    assert(dx * g1 == 2 * y1 * h + h * h) by (nonlinear_arith)
        requires
            h == l * dx,
            g1 == 2 * y1 * l + l * l * dx,
    ;
    lemma_congruent_mul(2 * y1, 2 * y1, h, dy, m);
    lemma_congruent_mul(h, dy, h, dy, m);
    lemma_congruent_add(2 * y1 * h, 2 * y1 * dy, h * h, dy * dy, m);
    assert(2 * y1 * dy + dy * dy == y2 * y2 - y1 * y1) by (nonlinear_arith)
        requires
            dy == y2 - y1,
    ;
    lemma_congruent_sub(
        y2 * y2,
        x2 * x2 * x2 + a * x2 + b,
        y1 * y1,
        x1 * x1 * x1 + a * x1 + b,
        m,
    );
    assert((x2 * x2 * x2 + a * x2 + b) - (x1 * x1 * x1 + a * x1 + b) == dx * g2)
        by (nonlinear_arith)
        requires
            dx == x2 - x1,
            g2 == x2 * x2 + x1 * x2 + x1 * x1 + a,
    ;

    // The run is a unit, so it cancels.
    lemma_congruent_mul(d, d, dx * g1, dx * g2, m);
    assert(d * (dx * g1) == (d * dx) * g1 && d * (dx * g2) == (d * dx) * g2) by (nonlinear_arith);
    lemma_congruent_mul(d * dx, 1, g1, g1, m);
    lemma_congruent_mul(d * dx, 1, g2, g2, m);
}

/// The curve is closed under the group law: whenever the sum of two elements
/// of the curve exists, it is the identity or an affine point of the curve.
pub proof fn lemma_combine_on_curve(p: GroupElement, q: GroupElement, a: int, b: int, m: int)
    requires
        m > 1,
        on_curve(p, a, b, m),
        on_curve(q, a, b, m),
    ensures
        combine(p, q, a, m) matches Some(sum) ==> on_curve(sum, a, b, m),
{
    if let (GroupElement::Affine { x: x1, y: y1 }, GroupElement::Affine { x: x2, y: y2 }) = (p, q) {
        if !(x1 == x2 && (y1 != y2 || y1 == 0)) && slope(x1, y1, x2, y2, a, m) is Some {
            let l = slope(x1, y1, x2, y2, a, m).unwrap();
            if x1 == x2 && y1 == y2 {
                let d = modular_inverse(2 * y1, m).unwrap();
                lemma_tangent_condition(x1, y1, d, a, m);
            } else {
                let d = modular_inverse(x2 - x1, m).unwrap();
                lemma_chord_condition(x1, y1, x2, y2, d, a, b, m);
            }
            lemma_third_point_on_curve(x1, y1, x2, l, a, b, m);
        }
    }
}

/// Double-and-add stays on the curve.
pub proof fn lemma_double_and_add_on_curve(
    n: nat,
    acc: GroupElement,
    addend: GroupElement,
    a: int,
    b: int,
    m: int,
)
    requires
        m > 1,
        on_curve(acc, a, b, m),
        on_curve(addend, a, b, m),
    ensures
        double_and_add(n, acc, addend, a, m) matches Some(res) ==> on_curve(res, a, b, m),
    decreases n,
{
    if n > 0 {
        lemma_combine_on_curve(acc, addend, a, b, m);
        lemma_combine_on_curve(addend, addend, a, b, m);
        let taken = if n % 2 == 1 {
            combine(acc, addend, a, m)
        } else {
            Some(acc)
        };
        if let (Some(next_acc), Some(doubled)) = (taken, combine(addend, addend, a, m)) {
            lemma_double_and_add_on_curve(n / 2, next_acc, doubled, a, b, m);
        }
    }
}

/// Every multiple of a point of the curve that exists lies on the curve.
pub proof fn lemma_scale_on_curve(n: nat, p: GroupElement, a: int, b: int, m: int)
    requires
        m > 1,
        on_curve(p, a, b, m),
    ensures
        scale(n, p, a, m) matches Some(res) ==> on_curve(res, a, b, m),
{
    lemma_double_and_add_on_curve(n, GroupElement::Identity, p, a, b, m);
}

} // verus!
