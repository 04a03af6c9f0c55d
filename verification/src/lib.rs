//! Aether: aerospace telemetry ingestion, tracking and conjunction screening.
//!
//! The pipeline has the shape of a ground-based surveillance chain:
//!
//!   sensor adapter -> contact reports -> association -> state estimation
//!                  -> conjunction screening -> operator picture
//!
//! Everything here is a function from values to values. The process around the library
//! owns the socket, the clock and the screen, and does the trigonometry.
pub mod approach;
pub mod batches;
pub mod clock;
pub mod config;
pub mod conjunction;
pub mod double;
pub mod engine;
pub mod exact;
pub mod ffi;
pub mod geo;
pub mod ingest;
pub mod kalman;
pub mod laws;
pub mod order;
pub mod render;
pub mod text;
pub mod track;
