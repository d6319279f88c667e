//! What the input callback keeps of a capture: channel 0 of the device.

use vstd::prelude::*;

verus! {

/// Channel 0 of an interleaved buffer of `channels` channels: the first
/// sample of every frame, a trailing partial frame included. A channel count
/// of zero is treated as one.
pub fn first_channel<T: Copy>(data: &[T], channels: usize) -> (mono: Vec<T>)
    ensures
        ({
            let step = if channels == 0 { 1 } else { channels as int };
            &&& mono.len() * step >= data@.len()
            &&& mono.len() == 0 || (mono.len() - 1) * step < data@.len()
            &&& forall|i: int| 0 <= i < mono.len() ==> #[trigger] mono@[i] == data@[i * step]
        }),
{
    let step: usize = if channels == 0 { 1 } else { channels };
    let ghost st = step as int;
    let mut mono: Vec<T> = Vec::new();
    let mut pos: usize = 0;
    proof {
        assert(0 * st == 0) by (nonlinear_arith);
    }
    while pos < data.len()
        invariant
            st >= 1,
            st == step,
            st == (if channels == 0 { 1 } else { channels as int }),
            pos <= data@.len(),
            pos < data@.len() ==> pos == mono.len() * st,
            pos == data@.len() ==> mono.len() * st >= data@.len(),
            mono.len() == 0 || (mono.len() - 1) * st < data@.len(),
            forall|i: int| 0 <= i < mono.len() ==> #[trigger] mono@[i] == data@[i * st],
        decreases data.len() - pos,
    {
        let ghost m = mono.len() as int;
        let ghost before = mono@;
        mono.push(data[pos]);
        proof {
            assert((m + 1) * st == m * st + st) by (nonlinear_arith);
            assert(mono@[m] == data@[m * st]);
            assert forall|i: int| 0 <= i < mono.len() implies #[trigger] mono@[i] == data@[i * st] by {
                if i < m {
                    assert(mono@[i] == before[i]);
                }
            }
        }
        if data.len() - pos <= step {
            pos = data.len();
        } else {
            pos += step;
        }
    }
    mono
}

} // verus!
