//! The `crossover-check` module: where two speaker groups hand over, and
//! whether their levels match when they do.
//!
//! The same track is measured three times with the same microphone and the
//! same volume, changing only what is allowed to play: group A alone, group B
//! alone, group A again. The third-octave analysis is floating point and runs
//! in the application; the decisions on what a pass captured are here.

use vstd::prelude::*;
use vstd::string::*;

use crate::dsp::segment::Burst;

verus! {

/// Bands with fewer FFT bins than this are too coarsely resolved to trust.
pub const MIN_BINS: usize = 3;
/// Fixed generator seed, so every generated track is identical.
pub const NOISE_SEED: u64 = 0x0CE7_A5E1_9B3D_4F62;

pub struct CrossoverCheck;

impl CrossoverCheck {
    pub fn name(&self) -> (r: &'static str)
        ensures
            r@ == "crossover-check"@,
    {
        "crossover-check"
    }

    pub fn description(&self) -> (r: &'static str)
        ensures
            r@ == "Bandwidth of two speaker groups, where they cross, and how their levels compare"@,
    {
        "Bandwidth of two speaker groups, where they cross, and how their levels compare"
    }
}

/// Why a pass cannot be analysed.
#[derive(Debug, Clone, Copy, PartialEq, Eq, Structural)]
pub enum PassError {
    /// No burst was found: the track did not play, or the group was muted.
    NoBurst,
    /// More than one burst: the track was played more than once, or
    /// something else made a noise.
    TooManyBursts { count: usize },
}

/// A pass must contain exactly one burst.
pub fn single_burst(bursts: &Vec<Burst>) -> (r: Result<Burst, PassError>)
    ensures
        bursts.len() == 0 ==> r == Err::<Burst, PassError>(PassError::NoBurst),
        bursts.len() == 1 ==> r == Ok::<Burst, PassError>(bursts@[0]),
        bursts.len() > 1 ==> r == Err::<Burst, PassError>(PassError::TooManyBursts { count: bursts.len() }),
{
    if bursts.len() == 1 {
        Ok(bursts[0])
    } else if bursts.len() == 0 {
        Err(PassError::NoBurst)
    } else {
        Err(PassError::TooManyBursts { count: bursts.len() })
    }
}

/// Index of the first band with fewer than `min_bins` FFT bins.
pub fn first_sparse_band(bins: &Vec<usize>, min_bins: usize) -> (r: Option<usize>)
    ensures
        r matches Some(k) ==> k < bins.len() && bins@[k as int] < min_bins && forall|j: int|
            0 <= j < k ==> #[trigger] bins@[j] >= min_bins,
        r is None ==> forall|j: int| 0 <= j < bins.len() ==> #[trigger] bins@[j] >= min_bins,
{
    let mut k: usize = 0;
    while k < bins.len()
        invariant
            k <= bins.len(),
            forall|j: int| 0 <= j < k ==> #[trigger] bins@[j] >= min_bins,
        decreases bins.len() - k,
    {
        if bins[k] < min_bins {
            return Some(k);
        }
        k += 1;
    }
    None
}

/// At most `max` characters of `text`, for a table column.
pub fn truncate(text: &str, max: usize) -> (r: String)
    ensures
        r@ == (if text@.len() <= max { text@ } else { text@.subrange(0, max as int) }),
{
    if text.unicode_len() <= max {
        text.to_owned()
    } else {
        text.substring_char(0, max).to_owned()
    }
}

} // verus!
