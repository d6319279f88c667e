use zvuk::audio::devices::{choose_config, format_rank, position_of, resolve_device, ConfigRange, ResolveError, SampleFormatKind};

fn names() -> Vec<String> {
    vec!["Built-in Microphone".to_string(), "USB Audio Codec".to_string(), "USB Headset".to_string()]
}

#[test]
fn devices_resolve_by_index_or_name_fragment() {
    assert_eq!(resolve_device(&names(), " 1 ").unwrap(), 1);
    assert_eq!(resolve_device(&names(), "codec").unwrap(), 1);
    assert_eq!(resolve_device(&names(), "MICRO").unwrap(), 0);
    match resolve_device(&names(), "7") {
        Err(ResolveError::IndexOutOfRange { index, count }) => assert_eq!((index, count), (7, 3)),
        other => panic!("unexpected {other:?}"),
    }
    match resolve_device(&names(), "usb") {
        Err(ResolveError::Ambiguous { hits }) => assert_eq!(hits, vec![1, 2]),
        other => panic!("unexpected {other:?}"),
    }
    assert!(matches!(resolve_device(&names(), "bluetooth"), Err(ResolveError::NoMatch)));
}

#[test]
fn the_default_device_is_found_by_exact_name() {
    assert_eq!(position_of(&names(), "USB Headset"), Some(2));
    assert_eq!(position_of(&names(), "usb headset"), None);
}

fn range(min: u32, max: u32, format: SampleFormatKind, channels: u16) -> ConfigRange {
    ConfigRange { min_sample_rate: min, max_sample_rate: max, format, channels }
}

#[test]
fn the_closest_rate_wins_then_the_format_then_fewer_channels() {
    let ranges = vec![
        range(44_100, 44_100, SampleFormatKind::F32, 1),
        range(8_000, 96_000, SampleFormatKind::I16, 2),
        range(8_000, 96_000, SampleFormatKind::F32, 2),
        range(8_000, 96_000, SampleFormatKind::F32, 1),
        range(48_000, 48_000, SampleFormatKind::Other, 1),
    ];
    assert_eq!(choose_config(&ranges, 48_000), Some((3, 48_000)));
    assert_eq!(choose_config(&ranges[..2].to_vec(), 48_000), Some((1, 48_000)));
    assert_eq!(choose_config(&ranges[..1].to_vec(), 48_000), Some((0, 44_100)));
    assert_eq!(choose_config(&ranges[4..].to_vec(), 48_000), None);
    assert_eq!(format_rank(SampleFormatKind::U8), Some(5));
    assert_eq!(format_rank(SampleFormatKind::Other), None);
}
