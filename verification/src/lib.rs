//! Verified core of a car-audio measurement tool.

pub mod audio;
pub mod dsp;
pub mod measurement;
pub mod modules;
pub mod prompt;
pub mod registry;
pub mod storage;
pub mod text;
