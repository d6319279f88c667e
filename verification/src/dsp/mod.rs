//! Shared DSP helpers for measurement modules: the integer side of burst
//! segmentation and of Welch spectral analysis.

pub mod octave;
pub mod segment;
