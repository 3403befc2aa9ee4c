//! Torsion points of short Weierstrass curves `y^2 = x^3 + a*x + b` over `Z/mZ`.
//!
//! The crate is organised in layers: modular inverses, the point type, the
//! chord-and-tangent group law with double-and-add scalar multiplication,
//! curve membership, and the exhaustive search for the points killed by a
//! given scalar. Every executable function carries a contract over the
//! mathematical integers, and the algebraic laws of the construction are
//! stated as proof functions next to the definitions they speak about; the
//! closure of the curve under the group law has a module of its own.

pub mod closure;
pub mod congruence;
pub mod curve;
pub mod group_law;
pub mod modular;
pub mod point;
pub mod torsion;

pub use curve::is_on_curve;
pub use group_law::{elliptic_add, scalar_mult};
pub use modular::{mod_inv, NoInverseExists};
pub use point::{GroupElement, Point};
pub use torsion::find_r_torsion_points;
