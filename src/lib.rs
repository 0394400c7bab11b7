//! Enumeration of the fold lines and crease points reachable by the single-fold origami
//! axioms on a convex sheet.
//!
//! Coordinates are fixed-point: a length is a whole number of ticks, `arith::SCALE` ticks to
//! the unit, and every equivalence test uses the one tolerance `arith::EPSILON`.
//!
//! - `arith`: floor division and integer square roots.
//! - `primitives`: vectors, lines and segments.
//! - `square`: the convex boundary, containment and clipping.
//! - `axioms`: the seven fold constructions; axiom 6 is split around the root finding of its
//!   cubic.
//! - `tree`: the bucketed index that merges near-duplicate points and lines and counts them.
//! - `round`: one generation of the enumeration, and the plain-list duplicate checks.
//! - `checks`: a self-check over known values.
pub mod arith;
pub mod primitives;
pub mod square;
pub mod axioms;
pub mod tree;
pub mod round;
pub mod checks;
