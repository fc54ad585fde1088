//! Narrow-phase collision detection for convex shapes of the plane, in
//! fixed-point arithmetic.
//!
//! [`gjk::collides`] tells whether two placed shapes overlap;
//! [`epa::solve`] tells how far, and along which direction, they reach into
//! each other. Both know a shape only through the [`shapes::Shape`] trait.
//!
//! Coordinates are whole numbers of millionths: [`vector::ONE`] stands for
//! 1.0. The points of a shape and the position at which a shape is placed
//! have components of magnitude at most [`vector::POINT_LIMIT`], so that
//! every product that the solvers form fits 128 bits.

pub mod algebra;
pub mod discs;
pub mod epa;
pub mod gjk;
pub mod guard;
pub mod invariance;
pub mod minimum;
pub mod numeric;
pub mod overlap;
pub mod polygon;
pub mod rounding;
pub mod shapes;
pub mod simplex;
pub mod vector;

pub use vector::{Perp, Point, Vector, WideVector};
