//! Membership in the curve `y^2 = x^3 + a*x + b` modulo `m`.

use crate::congruence::{
    congruent, lemma_congruent_add, lemma_congruent_mul, lemma_congruent_residue,
};
use crate::modular::{mul_mod, reduce};
use crate::point::{GroupElement, Point};
use vstd::prelude::*;

verus! {

/// The pair `(x, y)` solves the curve equation modulo `m`.
pub open spec fn satisfies_equation(x: int, y: int, a: int, b: int, m: int) -> bool {
    (y * y) % m == (x * x * x + a * x + b) % m
}

/// The element lies on the curve: it is the identity, or an affine point
/// whose coordinates solve the curve equation.
pub open spec fn on_curve(p: GroupElement, a: int, b: int, m: int) -> bool {
    match p {
        GroupElement::Identity => true,
        GroupElement::Affine { x, y } => satisfies_equation(x, y, a, b, m),
    }
}

/// The right-hand side of the curve equation may be reduced term by term.
proof fn lemma_cubic_residue(x: int, a: int, b: int, m: int)
    requires
        m > 0,
    ensures
        congruent((((x * x) % m) * x) % m + (a * x) % m + b, x * x * x + a * x + b, m),
{
    let square = (x * x) % m;
    let cube = (square * x) % m;
    lemma_congruent_residue(x * x, m);
    lemma_congruent_mul(square, x * x, x, x, m);
    lemma_congruent_residue(square * x, m);
    lemma_congruent_residue(a * x, m);
    lemma_congruent_add(cube, x * x * x, (a * x) % m, a * x, m);
    lemma_congruent_add(cube + (a * x) % m, x * x * x + a * x, b, b, m);
}

/// Tells whether `p` lies on the curve `y^2 = x^3 + a*x + b` modulo `m`.
///
/// The point at infinity always does.
pub fn is_on_curve(p: &Point, a: i64, b: i64, m: i64) -> (res: bool)
    requires
        m > 1,
    ensures
        res == on_curve(p@, a as int, b as int, m as int),
{
    if p.is_at_infinity() {
        return true;
    }
    let left_side: i64 = mul_mod(p.y, p.y, m);
    let square: i64 = mul_mod(p.x, p.x, m);
    let cube: i64 = mul_mod(square, p.x, m);
    let linear: i64 = mul_mod(a, p.x, m);
    let right_side: i64 = reduce((cube as i128) + (linear as i128) + (b as i128), m);
    proof {
        lemma_cubic_residue(p.x as int, a as int, b as int, m as int);
    }
    left_side == right_side
}

} // verus!
