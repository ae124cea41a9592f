//! Prediction of the start of the next cycle from a log of past start dates.
//!
//! `date` models a calendar day as its day number, `parse` reads the text log,
//! and `predict` turns the start dates into per-cycle day offsets from which a
//! Poisson density is evaluated.

pub mod date;
pub mod parse;
pub mod predict;
