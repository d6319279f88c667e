//! The `left-right-balance` module: level difference between left and right.
//!
//! Pink noise (the same buffer for both sides, so we compare like with like)
//! is played into the left channel only, then into the right, while the
//! microphone records at the listening position. The level analysis itself is
//! floating point and runs in the application; the module's identity and its
//! track layout are here.

use vstd::prelude::*;

use crate::audio::signal::Channel;

verus! {

/// Fixed generator seed, so measurements are reproducible.
pub const NOISE_SEED: u64 = 0xCAFE_BABE_1234_5678;

pub struct LeftRightBalance;

impl LeftRightBalance {
    /// Short machine name, used as `--module` and in the output file name.
    pub fn name(&self) -> (r: &'static str)
        ensures
            r@ == "left-right-balance"@,
    {
        "left-right-balance"
    }

    /// One-line description shown in the CLI listing.
    pub fn description(&self) -> (r: &'static str)
        ensures
            r@ == "Level difference between left and right, broadband + octave bands (125 Hz - 8 kHz)"@,
    {
        "Level difference between left and right, broadband + octave bands (125 Hz - 8 kHz)"
    }

    /// The order the sides are played in the generated track: left, right,
    /// and left again at the end when the repeatability check is wanted.
    pub fn burst_order(recheck: bool) -> (order: Vec<Channel>)
        ensures
            order@ == (if recheck {
                seq![Channel::Left, Channel::Right, Channel::Left]
            } else {
                seq![Channel::Left, Channel::Right]
            }),
    {
        let mut order = Vec::new();
        order.push(Channel::Left);
        order.push(Channel::Right);
        if recheck {
            order.push(Channel::Left);
        }
        assert(order@ =~= (if recheck {
            seq![Channel::Left, Channel::Right, Channel::Left]
        } else {
            seq![Channel::Left, Channel::Right]
        }));
        order
    }
}

/// Why a recording cannot be analysed as a left/right run.
#[derive(Debug, Clone, Copy, PartialEq, Eq, Structural)]
pub enum BurstCountError {
    /// Fewer than two bursts: the track did not play through, or a side was
    /// muted.
    TooFew { found: usize },
    /// More than three bursts: the track was played twice, or something else
    /// made a noise.
    TooMany { found: usize },
}

/// The track holds two bursts (left, right) or three (with the repeat of the
/// left side). The analysis insists on one of those and refuses to guess
/// otherwise; the answer says whether the repeat is there.
pub fn check_burst_count(found: usize) -> (r: Result<bool, BurstCountError>)
    ensures
        found < 2 ==> r == Err::<bool, BurstCountError>(BurstCountError::TooFew { found }),
        found == 2 ==> r == Ok::<bool, BurstCountError>(false),
        found == 3 ==> r == Ok::<bool, BurstCountError>(true),
        found > 3 ==> r == Err::<bool, BurstCountError>(BurstCountError::TooMany { found }),
{
    if found < 2 {
        Err(BurstCountError::TooFew { found })
    } else if found > 3 {
        Err(BurstCountError::TooMany { found })
    } else {
        Ok(found == 3)
    }
}

} // verus!
