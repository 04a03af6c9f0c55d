//! What the formulas of the geometry and of the estimator promise in exact arithmetic.
//!
//! The functions here are those of `geo` and `kalman` with every operation exact. Numbers
//! are whole: multiples of a unit as small as need be, and where there is a division, of
//! fractions with one denominator. What the computed functions add is rounding.
pub mod estimator;
pub mod rotation;
