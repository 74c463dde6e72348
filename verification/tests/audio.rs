//! Choosing the device and its configuration.

use hey_listen::audio;
use hey_listen::audio::{
    CaptureConfig, ConfigChoice, ConfigRange, DeviceError, DevicePick, SampleFormat,
};

fn range(channels: u16, min: u32, max: u32, format: SampleFormat) -> ConfigRange {
    ConfigRange { channels, min_sample_rate: min, max_sample_rate: max, format }
}

fn pick(ranges: &[ConfigRange]) -> ConfigChoice {
    audio::pick_max_channel_config(ranges)
}

fn at(index: usize, sample_rate: u32) -> ConfigChoice {
    ConfigChoice::Range { index, sample_rate }
}

#[test]
fn a_device_without_ranges_is_opened_by_default() {
    assert_eq!(pick(&[]), ConfigChoice::DeviceDefault);
}

#[test]
fn the_most_channels_win() {
    let f = SampleFormat::F32;
    assert_eq!(pick(&[range(1, 48_000, 48_000, f), range(3, 8_000, 16_000, f)]), at(1, 16_000));
    assert_eq!(pick(&[range(3, 8_000, 16_000, f), range(1, 48_000, 48_000, f)]), at(0, 16_000));
}

#[test]
fn standard_rates_are_preferred_in_order() {
    let f = SampleFormat::F32;
    assert_eq!(pick(&[range(2, 8_000, 768_000, f)]), at(0, 48_000));
    assert_eq!(pick(&[range(2, 8_000, 44_100, f)]), at(0, 44_100));
    assert_eq!(pick(&[range(2, 8_000, 44_099, f)]), at(0, 32_000));
    assert_eq!(pick(&[range(2, 8_000, 24_000, f)]), at(0, 24_000));
    assert_eq!(pick(&[range(2, 8_000, 16_000, f)]), at(0, 16_000));
    // A better rate further down the list beats a worse one before it.
    assert_eq!(pick(&[range(2, 44_100, 44_100, f), range(2, 48_000, 48_000, f)]), at(1, 48_000));
}

#[test]
fn without_a_standard_rate_the_lowest_range_is_clamped() {
    let f = SampleFormat::F32;
    assert_eq!(pick(&[range(2, 176_400, 192_000, f), range(2, 88_200, 96_000, f)]), at(1, 88_200));
    assert_eq!(pick(&[range(2, 8_000, 11_025, f)]), at(0, 11_025));
    assert_eq!(pick(&[range(2, 88_200, 96_000, f), range(2, 88_200, 88_200, f)]), at(0, 88_200));
}

#[test]
fn among_equal_channels_f32_is_preferred() {
    let ranges = [
        range(2, 48_000, 48_000, SampleFormat::I16),
        range(2, 16_000, 16_000, SampleFormat::F32),
        range(1, 48_000, 48_000, SampleFormat::F32),
    ];
    assert_eq!(pick(&ranges), at(1, 16_000));
    // Fewer channels do not win by their format.
    assert_eq!(pick(&[ranges[2], ranges[0]]), at(1, 48_000));
}

#[test]
fn three_sample_formats_can_be_captured() {
    assert!(audio::is_supported(SampleFormat::F32));
    assert!(audio::is_supported(SampleFormat::I16));
    assert!(audio::is_supported(SampleFormat::U16));
    assert!(!audio::is_supported(SampleFormat::Other));
}

fn names() -> Vec<Option<String>> {
    vec![
        Some("Built-in Microphone".to_string()),
        None,
        Some("My Aggregate Device".to_string()),
        Some("AGGREGATE 2".to_string()),
        Some("ÜBER Mic".to_string()),
    ]
}

#[test]
fn a_device_is_found_by_part_of_its_name() {
    let found = |wanted: &str| audio::pick_device(Some(wanted), &names(), false).ok();
    assert_eq!(found("aggregate"), Some(DevicePick::At(2)));
    assert_eq!(found("AGGREGATE 2"), Some(DevicePick::At(3)));
    assert_eq!(found("über"), Some(DevicePick::At(4)));
    assert_eq!(found(""), Some(DevicePick::At(0)));
    assert_eq!(found("usb"), None);
}

#[test]
fn a_device_that_is_not_there_is_an_error() {
    let e = match audio::pick_device(Some("u\"s\nb"), &names(), true) {
        Err(e) => e,
        Ok(_) => panic!("found"),
    };
    assert!(matches!(&e, DeviceError::NoMatch(w) if w == "u\"s\nb"));
    assert_eq!(e.message(), "no input device name contains \"u\\\"s\\nb\"");
}

#[test]
fn the_default_device_needs_no_name() {
    assert_eq!(audio::pick_device(None, &names(), true).ok(), Some(DevicePick::SystemDefault));
    let e = match audio::pick_device(None, &names(), false) {
        Err(e) => e,
        Ok(_) => panic!("found"),
    };
    assert!(matches!(e, DeviceError::NoDefault));
    assert_eq!(e.message(), "no default input device found");
}

#[test]
fn devices_are_listed() {
    let mic = || Some("Mic".to_string());
    assert_eq!(audio::device_entry(mic(), Some(2)), ("Mic".to_string(), 2));
    assert_eq!(audio::device_entry(None, None), ("<unknown>".to_string(), 0));
    assert_eq!(audio::display_name(mic()), "Mic");
    assert_eq!(audio::device_line(mic(), Some(2)), "  - Mic  (2 channels)");
    assert_eq!(audio::device_line(None, None), "  - <unknown>  (? channels)");
    assert_eq!(audio::range_line(2, 8_000, 48_000, "F32"), "      2 ch, 8000..48000 Hz, F32");
}

#[test]
fn the_recording_is_announced() {
    let config = CaptureConfig {
        device_name: "Mic".to_string(),
        sample_rate: 44_100,
        channels: 2,
    };
    assert_eq!(
        audio::recording_line(&config, "I16"),
        "Recording from: Mic  (44100 Hz, 2 channel(s), I16)"
    );
}

#[test]
fn only_the_fallback_has_to_be_a_range() {
    let f = SampleFormat::F32;
    let inverted = range(2, 96_000, 88_200, f);
    assert_eq!(audio::try_pick_max_channel_config(&[inverted]), None);
    assert_eq!(
        audio::try_pick_max_channel_config(&[inverted, range(2, 8_000, 48_000, f)]),
        Some(at(1, 48_000))
    );
    assert_eq!(
        audio::try_pick_max_channel_config(&[inverted, range(2, 50_000, 60_000, f)]),
        Some(at(1, 50_000))
    );
    assert_eq!(audio::try_pick_max_channel_config(&[]), Some(ConfigChoice::DeviceDefault));
}
