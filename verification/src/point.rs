//! Points of a curve: an affine pair of coordinates, or the point at infinity.

use vstd::prelude::*;

verus! {

/// The mathematical value of a point: the identity of the group, or an
/// affine point with integer coordinates.
pub enum GroupElement {
    Identity,
    Affine { x: int, y: int },
}

/// A point in machine representation.
///
/// When `infinity` is set the point is the identity whatever the coordinates
/// hold; the points this crate builds itself keep them at zero.
#[derive(Clone, Copy, Debug, PartialEq, Eq, Structural)]
pub struct Point {
    pub x: i64,
    pub y: i64,
    pub infinity: bool,
}

impl View for Point {
    type V = GroupElement;

    open spec fn view(&self) -> GroupElement {
        if self.infinity {
            GroupElement::Identity
        } else {
            GroupElement::Affine { x: self.x as int, y: self.y as int }
        }
    }
}

impl Point {
    /// A point is in canonical form when the identity is written with zero
    /// coordinates. Two canonical points with the same view are equal: see
    /// `lemma_canonical_points_equal`.
    pub open spec fn is_canonical(&self) -> bool {
        self.infinity ==> self.x == 0 && self.y == 0
    }

    /// The canonical representation of the identity.
    pub open spec fn identity() -> Point {
        Point { x: 0, y: 0, infinity: true }
    }

    /// Tells whether this point is the point at infinity.
    pub fn is_at_infinity(&self) -> (b: bool)
        ensures
            b == self.infinity,
            b == (self@ is Identity),
    {
        self.infinity
    }

    /// The point at infinity, in canonical form.
    pub fn at_infinity() -> (p: Point)
        ensures
            p == Point::identity(),
            p@ is Identity,
            p.is_canonical(),
    {
        Point { x: 0, y: 0, infinity: true }
    }
}

/// Canonical points are determined by their view.
pub proof fn lemma_canonical_points_equal(p: Point, q: Point)
    requires
        p.is_canonical(),
        q.is_canonical(),
        p@ == q@,
    ensures
        p == q,
{
}

} // verus!
