use zvuk::dsp::segment::{analysis_frames, bursts_from_frames, frames_to_burst, lengths_agree, segment_frames, Burst};

const FS: f32 = 48_000.0;

#[test]
fn trimming_removes_the_edges_and_refuses_to_invert() {
    let b = Burst {
        start: 1000,
        end: 5000,
    };
    let trimmed = b.trimmed_by((0.01 * FS) as usize).unwrap();
    assert_eq!(trimmed.start, 1480);
    assert_eq!(trimmed.end, 4520);
    assert!(b.trimmed_by((1.0 * FS) as usize).is_none());
}

#[test]
fn burst_length_of_an_inverted_range_is_zero() {
    let b = Burst { start: 10, end: 4 };
    assert_eq!(b.len(), 0);
    assert!(b.is_empty());
    let c = Burst { start: 4, end: 10 };
    assert_eq!(c.len(), 6);
    assert!(!c.is_empty());
}

#[test]
fn frames_convert_to_samples_and_are_clipped_to_the_recording() {
    assert_eq!(frames_to_burst(2, 5, 480, 960, 100_000), Burst { start: 960, end: 3360 });
    assert_eq!(frames_to_burst(2, 5, 480, 960, 3000), Burst { start: 960, end: 3000 });
}

fn flags(pattern: &str) -> Vec<bool> {
    pattern.chars().map(|c| c == '#').collect()
}

#[test]
fn short_gaps_are_bridged_and_long_ones_split() {
    // gap of two frames bridged with bridge 2, gap of three frames not
    let loud = flags("..##..#...##.");
    assert_eq!(segment_frames(&loud, 2), vec![(2, 7), (10, 12)]);
    assert_eq!(segment_frames(&loud, 3), vec![(2, 12)]);
    assert_eq!(segment_frames(&loud, 0), vec![(2, 4), (6, 7), (10, 12)]);
}

#[test]
fn a_burst_running_to_the_end_is_closed() {
    assert_eq!(segment_frames(&flags("...###"), 1), vec![(3, 6)]);
    assert_eq!(segment_frames(&flags("...###."), 4), vec![(3, 6)]);
    assert_eq!(segment_frames(&flags("....."), 1), vec![]);
    assert_eq!(segment_frames(&flags(""), 1), vec![]);
}

#[test]
fn short_runs_are_dropped_by_length() {
    let loud = flags("..#......####....");
    // hop 10, frame 20: run (2,3) is 20 samples, run (9,13) is 60 samples
    let bursts = bursts_from_frames(&loud, 2, 10, 20, 170, 31);
    assert_eq!(bursts, vec![Burst { start: 90, end: 150 }]);
    let all = bursts_from_frames(&loud, 2, 10, 20, 170, 0);
    assert_eq!(all, vec![Burst { start: 20, end: 50 }, Burst { start: 90, end: 150 }]);
}

#[test]
fn analysis_frames_cover_the_recording_hop_by_hop() {
    assert_eq!(analysis_frames(25, 10, 20), vec![(0, 20), (10, 25), (20, 25)]);
    assert_eq!(analysis_frames(0, 10, 20), vec![]);
    assert_eq!(analysis_frames(10, 10, 20), vec![(0, 10)]);
}

/// The same front end as the application: 20 ms frames, dB levels, a
/// threshold halfway between the noise floor and the loudest frame.
fn find_bursts(signal: &[f32], sample_rate: f32, min_len_s: f32) -> Result<Vec<Burst>, String> {
    let frame = ((0.020 * sample_rate) as usize).max(16);
    let hop = (frame / 2).max(1);
    if signal.len() < frame * 4 {
        return Err("recording is too short".to_string());
    }
    let ranges = analysis_frames(signal.len(), hop, frame);
    let levels: Vec<f32> = ranges
        .iter()
        .map(|&(s, e)| {
            let sum: f64 = signal[s..e].iter().map(|&x| (x as f64) * (x as f64)).sum();
            let rms = (sum / (e - s) as f64).sqrt() as f32;
            20.0 * rms.max(1e-12).log10()
        })
        .collect();
    let loudest = levels.iter().cloned().fold(f32::MIN, f32::max);
    let mut sorted = levels.clone();
    sorted.sort_by(|a, b| a.partial_cmp(b).unwrap());
    let floor = sorted[((sorted.len() - 1) as f32 * 0.10).round() as usize];
    if loudest < -80.0 {
        return Err("the recording is silent".to_string());
    }
    if loudest - floor < 12.0 {
        return Err("only a little above the background".to_string());
    }
    let threshold = (loudest + floor) / 2.0;
    let loud: Vec<bool> = levels.iter().map(|&l| l >= threshold).collect();
    let bridge_frames = ((0.5 * sample_rate) / hop as f32) as usize;
    let min_len = (min_len_s * sample_rate) as usize;
    Ok(bursts_from_frames(&loud, bridge_frames, hop, frame, signal.len(), min_len))
}

fn track(count: usize, burst_s: f32, gap_s: f32, lead_s: f32, snr_db: f32) -> Vec<f32> {
    let mut state = 0xDEAD_BEEF_1234_5678u64;
    let mut noise = move || {
        state ^= state >> 12;
        state ^= state << 25;
        state ^= state >> 27;
        ((state.wrapping_mul(0x2545_F491_4F6C_DD1D) >> 40) as f32 / 8_388_608.0) - 1.0
    };
    let floor = 0.001f32;
    let burst = floor * 10f32.powf(snr_db / 20.0);
    let mut out = Vec::new();
    let mut push = |seconds: f32, amplitude: f32, noise: &mut dyn FnMut() -> f32| {
        for _ in 0..((seconds * FS) as usize) {
            out.push(noise() * amplitude);
        }
    };
    push(lead_s, floor, &mut noise);
    for i in 0..count {
        if i > 0 {
            push(gap_s, floor, &mut noise);
        }
        push(burst_s, burst, &mut noise);
    }
    push(gap_s, floor, &mut noise);
    out
}

#[test]
fn finds_three_bursts_of_the_right_length() {
    let signal = track(3, 3.0, 2.0, 5.0, 30.0);
    let bursts = find_bursts(&signal, FS, 1.0).unwrap();
    assert_eq!(bursts.len(), 3, "expected three bursts, got {bursts:?}");
    for b in &bursts {
        let seconds = b.len() as f32 / FS;
        assert!((seconds - 3.0).abs() < 0.2, "burst is {seconds:.2} s, expected about 3.0 s");
    }
    let first_start = bursts[0].start as f32 / FS;
    assert!((first_start - 5.0).abs() < 0.2, "first burst starts at {first_start:.2} s, expected about 5.0 s");
}

#[test]
fn finds_two_bursts_when_the_recheck_is_omitted() {
    let signal = track(2, 3.0, 2.0, 1.0, 25.0);
    assert_eq!(find_bursts(&signal, FS, 1.0).unwrap().len(), 2);
}

#[test]
fn short_blips_are_not_bursts() {
    let signal = track(3, 0.2, 2.0, 1.0, 30.0);
    assert!(find_bursts(&signal, FS, 1.0).unwrap().is_empty());
}

#[test]
fn bursts_agree_about_their_length_within_a_quarter() {
    let b = |start: usize, end: usize| Burst { start, end };
    assert!(lengths_agree(&vec![]));
    assert!(lengths_agree(&vec![b(0, 100), b(200, 300), b(400, 475)]));
    assert!(!lengths_agree(&vec![b(0, 100), b(200, 300), b(400, 474)]));
    assert!(!lengths_agree(&vec![b(0, 100), b(200, 201)]));
}

#[test]
fn found_bursts_come_in_order_without_overlap() {
    // hop 10, frame 20, bridge 1: the frame is no longer than the bridged gap
    let loud = flags("##..###...#....##");
    let bursts = bursts_from_frames(&loud, 1, 10, 20, 170, 0);
    assert_eq!(
        bursts,
        vec![Burst { start: 0, end: 40 }, Burst { start: 40, end: 90 }, Burst { start: 100, end: 130 }, Burst { start: 150, end: 170 }]
    );
    for w in bursts.windows(2) {
        assert!(w[0].end <= w[1].start);
    }
}
