//! What the operations are for, stated of their inputs and results.
//!
//! Numbers are compared with the exact ones here: values are whole multiples of 2^-1074, the
//! unit of all doubles, so that sums and products of them can be written down as they are.
//! A rounded operation is off by at most one part in 2^53, or half a unit.
pub mod arithmetic;
pub mod calls;
pub mod closeness;
pub mod ellipsoid;
pub mod estimator;
pub mod geometry;
pub mod inverse;
pub mod listing;
pub mod motion;
pub mod numerals;
pub mod picture;
pub mod reports;
pub mod screening;
pub mod settings;
pub mod tracks;
pub mod units;
pub mod wording;
