use zvuk::dsp::octave::{fft_length, previous_power_of_two, window_starts, SpectrumError, OCTAVE_FFT_LEN, THIRD_OCTAVE_FFT_LEN};

#[test]
fn previous_power_of_two_rounds_down() {
    assert_eq!(previous_power_of_two(0), 0);
    assert_eq!(previous_power_of_two(1), 1);
    assert_eq!(previous_power_of_two(2), 2);
    assert_eq!(previous_power_of_two(3), 2);
    assert_eq!(previous_power_of_two(48_000), 32_768);
    assert_eq!(previous_power_of_two(65_536), 65_536);
    assert_eq!(previous_power_of_two(usize::MAX), 1usize << (usize::BITS - 1));
}

#[test]
fn fft_length_is_bounded_by_the_signal() {
    assert_eq!(fft_length(96_000, OCTAVE_FFT_LEN), Ok(8192));
    assert_eq!(fft_length(5_000, OCTAVE_FFT_LEN), Ok(4096));
    assert_eq!(fft_length(240_000, THIRD_OCTAVE_FFT_LEN), Ok(32_768));
    assert_eq!(fft_length(300, 10), Ok(256));
    assert_eq!(fft_length(255, OCTAVE_FFT_LEN), Err(SpectrumError::SignalTooShort { samples: 255 }));
}

#[test]
fn windows_overlap_by_half_and_fit_the_signal() {
    assert_eq!(window_starts(1024, 256), vec![0, 128, 256, 384, 512, 640, 768]);
    assert_eq!(window_starts(256, 256), vec![0]);
    assert_eq!(window_starts(200, 256), Vec::<usize>::new());
    let fft = fft_length(48_000, OCTAVE_FFT_LEN).unwrap();
    let starts = window_starts(48_000, fft);
    assert_eq!(starts.len(), 10);
    assert!(starts.iter().all(|&s| s + fft <= 48_000));
}
