//! Spike inference from calcium-fluorescence traces: the rules of the
//! deconvolution engine, verified.
//!
//! Fluorescence is taken to be an unknown non-negative spike train convolved
//! with a bi-exponential impulse response, plus a slowly varying baseline.
//! The arithmetic on the samples is floating point and lives with the caller.
//! This crate holds what is decided in whole numbers:
//!
//! - [`solver`]: which steps the proximal-gradient solver takes, when it drops
//!   momentum and when it counts as converged;
//! - [`baseline`], [`ranking`], [`fenwick`], [`sample`]: the rolling
//!   percentile of a trace, found with a binary indexed tree over the distinct
//!   samples;
//! - [`upsample`]: spike counts between the frame rate and the finer rate at
//!   which spikes are inferred;
//! - [`threshold`], [`indeca`]: the sweeps of the threshold search and the
//!   rounds of the scale iteration;
//! - [`kernel_est`], [`freq`], [`options`]: the layout of concatenated traces,
//!   the length of the transform, and the words that name the options.

pub mod baseline;
pub mod fenwick;
pub mod freq;
pub mod indeca;
pub mod kernel_est;
pub mod options;
pub mod ranking;
pub mod sample;
pub mod solver;
pub mod threshold;
pub mod upsample;

pub use solver::{Constraint, ConvMode, Solver};
