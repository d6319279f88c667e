//! What a stored measurement records about how it was taken.

use vstd::prelude::*;

verus! {

/// Version of the on-disk JSON format. Bump it on a breaking change.
///
/// Version 2 dropped the output device fields: the tool no longer plays
/// anything, the user plays the generated track through the system being
/// measured.
pub const SCHEMA_VERSION: u32 = 2;

/// The capture chain a measurement was taken with. Without this, a stored
/// measurement is worthless for later comparison.
#[derive(Debug, Clone)]
pub struct ContextInfo {
    pub input_device: String,
    pub input_sample_rate: u32,
    pub input_channels: u16,
    pub buffer_size: Option<u32>,
}

} // verus!
