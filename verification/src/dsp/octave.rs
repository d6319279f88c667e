//! The integer side of fractional-octave band analysis via FFT (Welch's
//! method): how long the transform is and where the windows sit.
//!
//! The signal is cut into Hann windows with 50% overlap; each window goes
//! through a real FFT and the power spectra are averaged. The transform
//! length is a power of two, never longer than the signal, so at least one
//! window always fits.

use vstd::prelude::*;

verus! {

/// Shortest signal the spectral analysis accepts, and shortest transform.
pub const MIN_FFT_LEN: usize = 256;
/// FFT length for whole octaves: ~5.9 Hz per bin at 48 kHz.
pub const OCTAVE_FFT_LEN: usize = 8192;
/// FFT length for thirds. The 20 Hz third spans 17.8-22.4 Hz, so the bins have
/// to be well under 1.5 Hz for the band to contain more than one of them.
pub const THIRD_OCTAVE_FFT_LEN: usize = 32768;

/// `n` is a power of two.
pub open spec fn is_pow2(n: nat) -> bool
    decreases n,
{
    if n == 1 {
        true
    } else if n >= 2 && n % 2 == 0 {
        is_pow2(n / 2)
    } else {
        false
    }
}

/// The largest power of two not above `n`; zero for zero.
pub open spec fn pow2_floor(n: nat) -> nat
    decreases n,
{
    if n < 2 {
        n
    } else {
        2 * pow2_floor(n / 2)
    }
}

/// A power of two `p` with `p <= n < 2 * p` is the largest one not above `n`.
pub proof fn lemma_pow2_floor_unique(n: nat, p: nat)
    requires
        is_pow2(p),
        p <= n < 2 * p,
    ensures
        p == pow2_floor(n),
    decreases n,
{
    if n >= 2 {
        assert(p >= 2);
        lemma_pow2_floor_unique(n / 2, p / 2);
    }
}

pub fn previous_power_of_two(n: usize) -> (p: usize)
    ensures
        p == pow2_floor(n as nat),
        n == 0 ==> p == 0,
        n > 0 ==> is_pow2(p as nat) && p <= n && n < 2 * p,
{
    if n == 0 {
        return 0;
    }
    let mut p: usize = 1;
    while p <= n / 2
        invariant
            1 <= p <= n,
            is_pow2(p as nat),
        decreases n - p,
    {
        assert(is_pow2((2 * p) as nat)) by {
            assert((2 * p) as nat / 2 == p as nat);
        }
        p = p * 2;
    }
    proof {
        lemma_pow2_floor_unique(n as nat, p as nat);
    }
    p
}

/// No power of two lies strictly between `p` and `2 * p`, so the one picked by
/// `previous_power_of_two` is the largest not above `n`.
pub proof fn lemma_powers_of_two_are_spaced(p: nat, q: nat)
    requires
        is_pow2(p),
        is_pow2(q),
        p < q,
    ensures
        2 * p <= q,
    decreases q,
{
    if p == 1 {
        assert(q >= 2);
        assert(q % 2 == 0);
    } else {
        assert(q >= 2 && q % 2 == 0);
        lemma_powers_of_two_are_spaced((p / 2) as nat, (q / 2) as nat);
    }
}

/// Why the analysis refused a signal.
#[derive(Debug, Clone, Copy, PartialEq, Eq, Structural)]
pub enum SpectrumError {
    /// Fewer than `MIN_FFT_LEN` samples.
    SignalTooShort { samples: usize },
}

/// The transform length used for a signal of `signal_len` samples, given an
/// upper bound: the bound raised to `MIN_FFT_LEN`, cut down to the largest
/// power of two that fits in the signal. A shorter signal gets a shorter
/// transform, because a window that does not fit produces no frames at all.
pub open spec fn spec_fft_length(signal_len: nat, max_fft_len: nat) -> nat {
    let wanted = if max_fft_len < MIN_FFT_LEN { MIN_FFT_LEN as nat } else { max_fft_len };
    if wanted < pow2_floor(signal_len) { wanted } else { pow2_floor(signal_len) }
}

/// Every signal the analysis accepts gets a transform of at least
/// `MIN_FFT_LEN` samples that is no longer than the signal, so at least one
/// window fits and the analysis never runs out of frames.
pub proof fn lemma_accepted_signal_fits_a_window(signal_len: nat, max_fft_len: nat)
    requires
        signal_len >= MIN_FFT_LEN,
    ensures
        MIN_FFT_LEN <= spec_fft_length(signal_len, max_fft_len) <= signal_len,
        MIN_FFT_LEN <= pow2_floor(signal_len) <= signal_len,
{
    lemma_pow2_floor_bounds(signal_len);
    let p = pow2_floor(signal_len);
    // 256 is a power of two not above the signal, so the largest one is at least 256.
    assert(is_pow2(256)) by {
        reveal_with_fuel(is_pow2, 9);
    }
    if p < 256 {
        lemma_powers_of_two_are_spaced(p, 256);
    }
}

/// For a positive `n`, `pow2_floor(n)` is a power of two with
/// `pow2_floor(n) <= n < 2 * pow2_floor(n)`.
pub proof fn lemma_pow2_floor_bounds(n: nat)
    requires
        n >= 1,
    ensures
        is_pow2(pow2_floor(n)),
        pow2_floor(n) <= n < 2 * pow2_floor(n),
    decreases n,
{
    if n >= 2 {
        lemma_pow2_floor_bounds(n / 2);
        let q = pow2_floor(n / 2);
        assert((2 * q) / 2 == q);
    }
}

pub fn fft_length(signal_len: usize, max_fft_len: usize) -> (r: Result<usize, SpectrumError>)
    ensures
        signal_len < MIN_FFT_LEN ==> r == Err::<usize, SpectrumError>(SpectrumError::SignalTooShort { samples: signal_len }),
        signal_len >= MIN_FFT_LEN ==> r == Ok::<usize, SpectrumError>(spec_fft_length(signal_len as nat, max_fft_len as nat) as usize),
        r matches Ok(len) ==> MIN_FFT_LEN <= len <= signal_len,
{
    if signal_len < MIN_FFT_LEN {
        return Err(SpectrumError::SignalTooShort { samples: signal_len });
    }
    let p = previous_power_of_two(signal_len);
    proof {
        lemma_accepted_signal_fits_a_window(signal_len as nat, max_fft_len as nat);
    }
    let wanted = if max_fft_len < MIN_FFT_LEN { MIN_FFT_LEN } else { max_fft_len };
    let len = if wanted < p { wanted } else { p };
    Ok(len)
}

/// Start of every analysis window: windows of `fft_len` samples, advancing by
/// half a window, as many as fit entirely inside the signal.
pub fn window_starts(signal_len: usize, fft_len: usize) -> (starts: Vec<usize>)
    requires
        fft_len >= 2,
    ensures
        ({
            let hop = fft_len as int / 2;
            &&& forall|k: int| 0 <= k < starts.len() ==> #[trigger] starts@[k] == k * hop
            &&& forall|k: int| 0 <= k < starts.len() ==> #[trigger] starts@[k] + fft_len <= signal_len
            &&& starts.len() * hop + fft_len > signal_len
            &&& fft_len <= signal_len ==> starts.len() >= 1
        }),
{
    let hop = fft_len / 2;
    let mut starts: Vec<usize> = Vec::new();
    let mut start: usize = 0;
    proof {
        assert(0 * (hop as int) == 0) by (nonlinear_arith);
    }
    while start <= signal_len && signal_len - start >= fft_len
        invariant
            hop >= 1,
            hop == fft_len as int / 2,
            start == starts.len() * (hop as int),
            forall|k: int| 0 <= k < starts.len() ==> #[trigger] starts@[k] == k * hop,
            forall|k: int| 0 <= k < starts.len() ==> #[trigger] starts@[k] + fft_len <= signal_len,
        decreases signal_len + fft_len - start,
    {
        let ghost m = starts.len() as int;
        starts.push(start);
        proof {
            assert((m + 1) * hop == m * hop + hop) by (nonlinear_arith);
        }
        start = start + hop;
    }
    proof {
        if starts.len() == 0 {
            assert(0 * (hop as int) == 0) by (nonlinear_arith);
        }
    }
    starts
}

} // verus!
