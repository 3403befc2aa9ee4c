//! Exhaustive search for the points of a curve that a scalar sends to the
//! identity.

use crate::curve::{is_on_curve, on_curve};
use crate::group_law::{is_reduced, lemma_scale_defined, scalar_mult, scale};
use crate::modular::{is_prime, NoInverseExists};
use crate::point::{GroupElement, Point};
use vstd::arithmetic::div_mod::{
    lemma_fundamental_div_mod, lemma_fundamental_div_mod_converse, lemma_mod_bound,
};
use vstd::prelude::*;

verus! {

/// The affine pair at position `i` of the scan: all pairs of `[0, m) x [0, m)`
/// in lexicographic order, the abscissa first.
pub open spec fn candidate(i: int, m: int) -> GroupElement {
    GroupElement::Affine { x: i / m, y: i % m }
}

/// The affine pairs of `[0, m) x [0, m)` in scan order.
pub open spec fn candidates(m: int) -> Seq<GroupElement> {
    Seq::new((m * m) as nat, |i: int| candidate(i, m))
}

/// `p` lies on the curve and its multiple by `r` is the identity.
pub open spec fn is_torsion(p: GroupElement, r: nat, a: int, b: int, m: int) -> bool {
    on_curve(p, a, b, m) && scale(r, p, a, m) == Some(GroupElement::Identity)
}

/// The test that selects the torsion points among the candidates.
pub open spec fn torsion_test(r: nat, a: int, b: int, m: int) -> spec_fn(GroupElement) -> bool {
    |p: GroupElement| is_torsion(p, r, a, b, m)
}

/// Every candidate on the curve has a multiple by `r`: none of the scalar
/// multiplications of the scan runs into a missing inverse.
pub open spec fn scan_defined(r: nat, a: int, b: int, m: int) -> bool {
    forall|i: int|
        0 <= i < m * m && on_curve(#[trigger] candidate(i, m), a, b, m) ==> scale(
            r,
            candidate(i, m),
            a,
            m,
        ) is Some
}

/// The `r`-torsion points of the curve: the candidates on the curve that `r`
/// sends to the identity, in scan order, followed by the identity.
pub open spec fn torsion_points(r: nat, a: int, b: int, m: int) -> Seq<GroupElement> {
    candidates(m).filter(torsion_test(r, a, b, m)).push(GroupElement::Identity)
}

/// The views of a sequence of points.
pub open spec fn views(points: Seq<Point>) -> Seq<GroupElement> {
    points.map_values(|p: Point| p@)
}

/// The candidate at position `x * m + y` is the pair `(x, y)`.
proof fn lemma_candidate_at(x: int, y: int, m: int)
    requires
        0 <= x < m,
        0 <= y < m,
    ensures
        0 <= x * m + y < m * m,
        candidate(x * m + y, m) == (GroupElement::Affine { x, y }),
{
    assert(0 <= x * m && x * m + m <= m * m) by (nonlinear_arith)
        requires
            0 <= x < m,
    ;
    lemma_fundamental_div_mod_converse(x * m + y, m, x, y);
}

/// Selecting among one more candidate appends it if it passes the test.
proof fn lemma_scan_step(k: int, r: nat, a: int, b: int, m: int)
    requires
        0 <= k < m * m,
    ensures
        candidates(m).take(k + 1).filter(torsion_test(r, a, b, m)) == if is_torsion(
            candidate(k, m),
            r,
            a,
            b,
            m,
        ) {
            candidates(m).take(k).filter(torsion_test(r, a, b, m)).push(candidate(k, m))
        } else {
            candidates(m).take(k).filter(torsion_test(r, a, b, m))
        },
{
    reveal(Seq::filter);
    let longer = candidates(m).take(k + 1);
    assert(longer.drop_last() =~= candidates(m).take(k));
}

/// Modulo an odd prime no scalar multiplication of the scan runs into a
/// missing inverse.
pub proof fn lemma_scan_defined_for_odd_prime(r: nat, a: int, b: int, m: int)
    requires
        is_prime(m),
        m > 2,
    ensures
        scan_defined(r, a, b, m),
{
    assert forall|i: int| 0 <= i < m * m implies scale(r, #[trigger] candidate(i, m), a, m)
        is Some by {
        lemma_candidate_position(i, m);
        lemma_scale_defined(r, candidate(i, m), a, m);
    }
}

/// An affine point with coordinates in `[0, m)` that lies on the curve and
/// that `r` sends to the identity.
pub open spec fn is_torsion_point(p: Point, r: nat, a: int, b: int, m: int) -> bool {
    &&& !p.infinity
    &&& 0 <= p.x < m
    &&& 0 <= p.y < m
    &&& on_curve(p@, a, b, m)
    &&& scale(r, p@, a, m) == Some(GroupElement::Identity)
}

/// The state of the search after the first `k` candidates: the torsion points
/// among them were found, and all their multiples existed.
spec fn scanned(found: Seq<Point>, k: int, r: nat, a: int, b: int, m: int) -> bool {
    &&& views(found) == candidates(m).take(k).filter(torsion_test(r, a, b, m))
    &&& forall|i: int| 0 <= i < found.len() ==> is_torsion_point(#[trigger] found[i], r, a, b, m)
    &&& forall|i: int|
        0 <= i < k && on_curve(#[trigger] candidate(i, m), a, b, m) ==> scale(
            r,
            candidate(i, m),
            a,
            m,
        ) is Some
}

/// Before the search nothing is found.
proof fn lemma_scan_start(r: nat, a: int, b: int, m: int)
    ensures
        scanned(Seq::<Point>::empty(), 0, r, a, b, m),
{
    reveal(Seq::filter);
    assert(candidates(m).take(0).filter(torsion_test(r, a, b, m)) =~= Seq::<GroupElement>::empty());
    assert(views(Seq::<Point>::empty()) =~= Seq::<GroupElement>::empty());
}

/// Finds the `r`-torsion points of the curve `y^2 = x^3 + a*x + b` modulo `m`.
///
/// Every pair of `[0, m) x [0, m)` is tried in lexicographic order; the pairs
/// on the curve that `r` sends to the identity are kept in that order, and
/// the point at infinity closes the list. The search fails exactly when the
/// multiple of some pair on the curve does not exist; modulo an odd prime it
/// always succeeds.
pub fn find_r_torsion_points(r: i64, a: i64, b: i64, m: i64) -> (res: Result<
    Vec<Point>,
    NoInverseExists,
>)
    requires
        r >= 0,
        m > 1,
    ensures
        res is Ok <==> scan_defined(r as nat, a as int, b as int, m as int),
        is_prime(m as int) && m > 2 ==> res is Ok,
        res matches Ok(found) ==> {
            &&& views(found@) == torsion_points(r as nat, a as int, b as int, m as int)
            &&& found@.len() >= 1
            &&& found@.last() == Point::identity()
            &&& forall|i: int|
                0 <= i < found@.len() - 1 ==> is_torsion_point(
                    #[trigger] found@[i],
                    r as nat,
                    a as int,
                    b as int,
                    m as int,
                )
        },
{
    let mut found: Vec<Point> = Vec::new();
    proof {
        if is_prime(m as int) && m > 2 {
            lemma_scan_defined_for_odd_prime(r as nat, a as int, b as int, m as int);
        }
        lemma_scan_start(r as nat, a as int, b as int, m as int);
        assert(0 * m == 0);
    }
    for x in 0..m
        invariant
            r >= 0,
            m > 1,
            scanned(found@, x * m, r as nat, a as int, b as int, m as int),
    {
        for y in 0..m
            invariant
                r >= 0,
                m > 1,
                0 <= x < m,
                scanned(found@, x * m + y, r as nat, a as int, b as int, m as int),
        {
            let point = Point { x, y, infinity: false };
            proof {
                lemma_candidate_at(x as int, y as int, m as int);
                lemma_scan_step(x * m + y, r as nat, a as int, b as int, m as int);
            }
            let ghost before = found@;
            if is_on_curve(&point, a, b, m) {
                let rp = scalar_mult(r, &point, a, m)?;
                if rp.is_at_infinity() {
                    found.push(point);
                    assert(views(found@) =~= views(before).push(point@));
                }
            }
        }
        proof {
            lemma_next_row(x as int, m as int);
        }
    }
    found.push(Point::at_infinity());
    proof {
        assert(candidates(m as int).take(m * m) =~= candidates(m as int));
    }
    Ok(found)
}

/// The row after row `x` of the scan starts where row `x` ends.
proof fn lemma_next_row(x: int, m: int)
    by (nonlinear_arith)
    ensures
        x * m + m == (x + 1) * m,
{
}

/// The place of an element in the scan: `x * m + y` for an affine pair, and
/// past all pairs for the identity.
pub open spec fn scan_position(p: GroupElement, m: int) -> int {
    match p {
        GroupElement::Affine { x, y } => x * m + y,
        GroupElement::Identity => m * m,
    }
}

/// The candidate at a position of the scan has coordinates in `[0, m)` and
/// sits at that position.
proof fn lemma_candidate_position(i: int, m: int)
    requires
        m > 0,
        0 <= i < m * m,
    ensures
        0 <= i / m < m,
        0 <= i % m < m,
        scan_position(candidate(i, m), m) == i,
{
    lemma_fundamental_div_mod(i, m);
    lemma_mod_bound(i, m);
    let q = i / m;
    assert(0 <= q < m && q * m == m * q) by (nonlinear_arith)
        requires
            i == m * q + i % m,
            0 <= i % m < m,
            0 <= i < m * m,
    ;
}

/// What the selection keeps of the first `k` candidates: torsion points at
/// their own positions below `k`, in ascending order, none left out.
proof fn lemma_scan_prefix(k: int, r: nat, a: int, b: int, m: int)
    requires
        m > 0,
        0 <= k <= m * m,
    ensures
        ({
            let kept = candidates(m).take(k).filter(torsion_test(r, a, b, m));
            &&& forall|i: int|
                0 <= i < kept.len() ==> {
                    &&& 0 <= scan_position(#[trigger] kept[i], m) < k
                    &&& kept[i] == candidate(scan_position(kept[i], m), m)
                    &&& is_torsion(kept[i], r, a, b, m)
                }
            &&& forall|i: int, j: int|
                0 <= i < j < kept.len() ==> scan_position(#[trigger] kept[i], m) < scan_position(
                    #[trigger] kept[j],
                    m,
                )
            &&& forall|pos: int|
                0 <= pos < k && is_torsion(#[trigger] candidate(pos, m), r, a, b, m)
                    ==> kept.contains(candidate(pos, m))
        }),
    decreases k,
{
    let test = torsion_test(r, a, b, m);
    let kept = candidates(m).take(k).filter(test);
    if k == 0 {
        assert(kept =~= Seq::<GroupElement>::empty()) by {
            reveal(Seq::filter);
        }
    } else {
        let shorter = candidates(m).take(k - 1).filter(test);
        let last = candidate(k - 1, m);
        lemma_scan_prefix(k - 1, r, a, b, m);
        lemma_scan_step(k - 1, r, a, b, m);
        lemma_candidate_position(k - 1, m);
        if is_torsion(last, r, a, b, m) {
            assert forall|pos: int|
                0 <= pos < k && is_torsion(#[trigger] candidate(pos, m), r, a, b, m)
                    implies kept.contains(candidate(pos, m)) by {
                if pos < k - 1 {
                    let i = choose|i: int| 0 <= i < shorter.len() && shorter[i] == candidate(pos, m);
                    assert(kept[i] == candidate(pos, m));
                } else {
                    assert(kept[kept.len() - 1] == candidate(pos, m));
                }
            }
        }
    }
}

/// The torsion points come in ascending scan order, the identity last: no
/// element occurs twice.
pub proof fn lemma_torsion_points_ascending(r: nat, a: int, b: int, m: int)
    requires
        m > 0,
    ensures
        forall|i: int, j: int|
            0 <= i < j < torsion_points(r, a, b, m).len() ==> scan_position(
                #[trigger] torsion_points(r, a, b, m)[i],
                m,
            ) < scan_position(#[trigger] torsion_points(r, a, b, m)[j], m),
{
    assert(m * m >= 0) by (nonlinear_arith);
    lemma_scan_prefix(m * m, r, a, b, m);
    assert(candidates(m).take(m * m) =~= candidates(m));
}

/// The torsion points are the identity and the pairs of `[0, m) x [0, m)` on
/// the curve that `r` sends to the identity: none else, and none missing.
pub proof fn lemma_torsion_points_members(p: GroupElement, r: nat, a: int, b: int, m: int)
    requires
        m > 0,
    ensures
        torsion_points(r, a, b, m).contains(p) <==> match p {
            GroupElement::Identity => true,
            GroupElement::Affine { x, y } => 0 <= x < m && 0 <= y < m && is_torsion(p, r, a, b, m),
        },
{
    assert(m * m >= 0) by (nonlinear_arith);
    lemma_scan_prefix(m * m, r, a, b, m);
    assert(candidates(m).take(m * m) =~= candidates(m));
    let kept = candidates(m).filter(torsion_test(r, a, b, m));
    let all = torsion_points(r, a, b, m);
    assert(all[all.len() - 1] == GroupElement::Identity);
    match p {
        GroupElement::Identity => {},
        GroupElement::Affine { x, y } => {
            if all.contains(p) {
                let i = choose|i: int| 0 <= i < all.len() && all[i] == p;
                lemma_candidate_position(scan_position(p, m), m);
            }
            if 0 <= x < m && 0 <= y < m && is_torsion(p, r, a, b, m) {
                lemma_candidate_at(x, y, m);
                let i = choose|i: int| 0 <= i < kept.len() && kept[i] == p;
                assert(all[i] == p);
            }
        },
    }
}

} // verus!
