//! Audio layer: what can be decided about signals and devices without
//! touching the hardware.

pub mod capture;
pub mod devices;
pub mod signal;
