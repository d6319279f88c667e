use zvuk::audio::capture::first_channel;
use zvuk::audio::signal::{layout_track, Channel, Xorshift64};
use zvuk::modules::left_right_balance::LeftRightBalance;

fn white(len: usize, seed: u64) -> Vec<f32> {
    let mut rng = Xorshift64::new(seed);
    (0..len)
        .map(|_| 0.5 * (rng.next_bits() as f32 / 8_388_608.0 - 1.0))
        .collect()
}

#[test]
fn the_generator_is_deterministic() {
    let a = white(24_000, 7);
    let b = white(24_000, 7);
    assert_eq!(a, b, "the same seed must produce the same signal");
}

#[test]
fn generator_output_matches_the_xorshift_recurrence() {
    let mut rng = Xorshift64::new(1);
    // state 1 -> 1 ^ (1 << 25) = 0x2000001, then ^ (>> 27) leaves it
    let x: u64 = 0x0000_0000_0200_0001;
    let expected = (x.wrapping_mul(0x2545_F491_4F6C_DD1D) >> 40) as u32;
    assert_eq!(rng.next_bits(), expected);
    assert!(expected < 1 << 24);
}

#[test]
fn a_zero_seed_still_produces_noise() {
    let mut zero = Xorshift64::new(0);
    let mut replaced = Xorshift64::new(0x9E37_79B9_7F4A_7C15);
    for _ in 0..100 {
        let z = zero.next_bits();
        assert_eq!(z, replaced.next_bits());
    }
    let bits: Vec<u32> = (0..10).map(|_| zero.next_bits()).collect();
    assert!(bits.iter().any(|&b| b != 0));
}

#[test]
fn channel_labels_and_slots() {
    assert_eq!(Channel::Left.label(), "left");
    assert_eq!(Channel::Right.label(), "right");
    assert_eq!(Channel::Left.index(), 0);
    assert_eq!(Channel::Right.index(), 1);
    assert_eq!(Channel::Both.label(), "both");
    assert!(Channel::Both.carries(0) && Channel::Both.carries(1));
    assert!(Channel::Left.carries(0) && !Channel::Left.carries(1));
    assert!(!Channel::Right.carries(0) && Channel::Right.carries(1));
}

#[test]
fn burst_track_has_the_expected_length_and_channel_placement() {
    let fs = 48_000;
    let burst = white(fs, 1);
    let track = layout_track(
        &burst,
        0.0f32,
        (2.0 * fs as f32) as usize,
        (0.5 * fs as f32) as usize,
        &vec![Channel::Left, Channel::Right, Channel::Left],
    );

    let expected_frames = (2.0 + 3.0 * 1.0 + 2.0 * 0.5 + 0.5) * fs as f32;
    assert_eq!(track.len(), expected_frames as usize * 2);

    let energy = |channel: usize, from_s: f32, to_s: f32| -> f32 {
        let from = (from_s * fs as f32) as usize * 2 + channel;
        let to = (to_s * fs as f32) as usize * 2 + channel;
        track[from..to].iter().step_by(2).map(|s| s.abs()).sum()
    };

    assert!(energy(0, 2.1, 2.9) > 0.0, "first burst missing from the left channel");
    assert_eq!(energy(1, 2.1, 2.9), 0.0, "first burst leaked into the right channel");
    assert!(energy(1, 3.6, 4.4) > 0.0, "second burst missing from the right channel");
    assert_eq!(energy(0, 3.6, 4.4), 0.0, "second burst leaked into the left channel");
    assert!(energy(0, 5.1, 5.9) > 0.0, "third burst missing from the left channel");
    assert_eq!(energy(1, 5.1, 5.9), 0.0, "third burst leaked into the right channel");
}

#[test]
fn every_burst_carries_the_identical_signal() {
    let fs = 8_000;
    let burst = white(fs, 3);
    let track = layout_track(&burst, 0.0f32, 0, (0.5 * fs as f32) as usize, &vec![Channel::Left, Channel::Right]);
    let first: Vec<f32> = track[0..fs * 2].iter().step_by(2).copied().collect();
    let offset = (1.5 * fs as f32) as usize * 2 + 1;
    let second: Vec<f32> = track[offset..offset + fs * 2].iter().step_by(2).copied().collect();
    assert_eq!(first, second);
}

#[test]
fn a_track_without_bursts_is_lead_in_and_tail() {
    let track = layout_track(&vec![1u8, 2, 3], 0u8, 2, 3, &vec![]);
    assert_eq!(track, vec![0u8; 10]);
}

#[test]
fn small_track_is_laid_out_exactly() {
    let track = layout_track(&vec![7i16, 8], 0i16, 1, 1, &vec![Channel::Right, Channel::Left]);
    assert_eq!(track, vec![0, 0, 0, 7, 0, 8, 0, 0, 7, 0, 8, 0, 0, 0]);
}

#[test]
fn a_burst_in_both_channels_sounds_in_both() {
    let track = layout_track(&vec![5u8, 6], 0u8, 1, 1, &vec![Channel::Both]);
    assert_eq!(track, vec![0, 0, 5, 5, 6, 6, 0, 0]);
}

#[test]
fn the_left_right_track_order() {
    assert_eq!(LeftRightBalance::burst_order(true), vec![Channel::Left, Channel::Right, Channel::Left]);
    assert_eq!(LeftRightBalance::burst_order(false), vec![Channel::Left, Channel::Right]);
}

#[test]
fn channel_zero_is_kept_from_interleaved_input() {
    let data = [1, 2, 3, 4, 5, 6, 7];
    assert_eq!(first_channel(&data, 2), vec![1, 3, 5, 7]);
    assert_eq!(first_channel(&data, 3), vec![1, 4, 7]);
    assert_eq!(first_channel(&data, 0), data.to_vec());
    assert_eq!(first_channel::<i32>(&[], 2), Vec::<i32>::new());
}
