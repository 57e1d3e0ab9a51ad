//! Verified core of an X-ray absorption spectroscopy pipeline.
//!
//! Raw three-column measurement lines (energy, incident intensity,
//! transmitted intensity) are parsed, turned into an absorption signal,
//! resampled onto a uniform energy grid through an exact piecewise-linear
//! interpolant, and scanned for the absorption edge energy.
//!
//! All quantities are held in fixed-point micro-units (an `i64` scaled by
//! `num::SCALE`), so every stage is exact integer arithmetic and carries a
//! full functional contract.

pub mod edge;
pub mod error;
pub mod grid;
pub mod interp;
pub mod mode;
pub mod num;
pub mod parse;
pub mod sample;
pub mod spectrum;

pub use error::Error;
pub use mode::Mode;
