use msk144plus::audio::{
    capture_plan, frame_sums, list_all_devices_diagnostic, list_input_devices, native_info, rate_offered, resampled_info,
    BlockBuffer, CaptureCalibration, CapturePlan, DeviceInfo,
};
use msk144plus::audio_devices::{
    enumerate_displays, find_input_device, find_output_device, list_input_displays, list_output_displays,
    parse_device_suffix, DeviceCaps,
};
use msk144plus::audio_out::{
    fill_frames, list_output_devices, output_channels, pick_hardware_rate, playback_over, rate_accepted, truncated_len,
};
use msk144plus::clock::{format_date, format_time_of_day, format_year, utc_fields, utc_ms_now, UtcFields};
use msk144plus::text::{
    byte_count, contains, parse_i16, parse_i32, parse_unsigned, same_ignoring_case,
    split_words, to_lower, trimmed,
};

fn device(name: &str, has_in: bool, has_out: bool) -> DeviceCaps {
    DeviceCaps { name: name.into(), has_in, has_out }
}

fn some_devices() -> Vec<DeviceCaps> {
    vec![
        device("USB Audio", true, false),
        device("Built-in", true, true),
        device("USB Audio", false, true),
        device("Null", false, false),
        device("Null", false, false),
    ]
}

#[test]
fn devices_of_one_name_are_told_apart() {
    let want = vec!["Built-in", "Null (1)", "Null (2)", "USB Audio (RX)", "USB Audio (TX)"];
    assert_eq!(enumerate_displays(some_devices()), want);
    assert_eq!(list_input_displays(some_devices()), want);
    assert_eq!(list_output_displays(some_devices()), want);
    assert_eq!(list_input_devices(some_devices()), want);
    assert_eq!(list_output_devices(some_devices()), want);
    let lone = vec![device("X", true, false), device("X", false, false)];
    assert_eq!(enumerate_displays(lone), vec!["X (RX)", "X (TX)"]);
}

#[test]
fn labels_are_taken_off_again() {
    let parse = |s: &str| parse_device_suffix(s);
    assert_eq!(parse("USB Audio (RX)"), ("USB Audio".to_string(), "RX".to_string()));
    assert_eq!(parse("USB (2) (RX/TX)"), ("USB (2)".to_string(), "RX/TX".to_string()));
    assert_eq!(parse("Null (12)"), ("Null".to_string(), "12".to_string()));
    assert_eq!(parse("Mic (front)"), ("Mic (front)".to_string(), String::new()));
    assert_eq!(parse("Mic"), ("Mic".to_string(), String::new()));
}

#[test]
fn shown_names_lead_back_to_the_device() {
    let names: Vec<String> = ["Built-in", "USB Audio"].iter().map(|s| s.to_string()).collect();
    assert_eq!(find_input_device(&names, "USB Audio (RX)"), Some(1));
    assert_eq!(find_output_device(&names, "USB Audio (TX)"), Some(1));
    assert_eq!(find_input_device(&names, "Built-in"), Some(0));
    assert_eq!(find_input_device(&names, "Other"), None);
    assert_eq!(find_output_device(&names, "Other"), None);
    // Playing devices are also found where their name is part of the shown one.
    assert_eq!(find_output_device(&names, "My Built-in Speaker"), Some(0));
    assert_eq!(find_input_device(&names, "My Built-in Speaker"), None);
}

#[test]
fn rates_of_a_device() {
    let ranges = vec![(44_100, 48_000), (8_000, 8_000)];
    assert!(rate_offered(&ranges, 48_000) && !rate_offered(&ranges, 12_000));
    assert_eq!(capture_plan(12_000, 12_000, &ranges), CapturePlan::Native);
    assert_eq!(capture_plan(48_000, 12_000, &ranges), CapturePlan::Resample);
    assert_eq!(capture_plan(48_000, 8_000, &ranges), CapturePlan::NativeElseResample);
    assert_eq!(pick_hardware_rate(&ranges, Some(44_100)), 44_100);
    assert_eq!(pick_hardware_rate(&ranges, None), 12_000);
    assert_eq!(pick_hardware_rate(&vec![(8_000, 96_000)], Some(48_000)), 12_000);
    assert_eq!(pick_hardware_rate(&Vec::new(), Some(32_000)), 32_000);
    assert_eq!(pick_hardware_rate(&Vec::new(), None), 12_000);
    assert!(rate_accepted(12_000) && !rate_accepted(48_000));
    assert_eq!(native_info(12_000, "Mic"), "Capturing at 12000 Hz from Mic");
    assert_eq!(resampled_info(48_000, 12_000, "Mic"), "Capturing at 48000 Hz \u{2192} 12000 Hz from Mic");
}

#[test]
fn devices_are_listed_for_diagnosis() {
    let info = |name: &str, rate, channels| DeviceInfo { name: name.into(), rate, channels };
    let lines = list_all_devices_diagnostic(
        &vec![info("Mic", Some(48_000), Some(1)), info("Line", None, None)],
        &vec![info("Speaker", Some(44_100), Some(2))],
        &Some("Mic".into()),
        &None,
    );
    assert_eq!(lines.len(), 3);
    assert!(lines[0].starts_with("IN   ") && lines[0].contains("Mic"), "{}", lines[0]);
    assert!(lines[2].starts_with("OUT  ") && lines[2].contains("Speaker"), "{}", lines[2]);
}

#[test]
fn capture_times_start_at_the_first_block() {
    let mut c = CaptureCalibration::new();
    assert_eq!(c.capture_to_unix_ms(5, 1_000_000), 1_000_000);
    assert_eq!(c.capture_to_unix_ms(85, 9_999_999), 1_000_085);
}

#[test]
fn blocks_keep_every_sample() {
    let mut b = BlockBuffer::new();
    let mut out = Vec::new();
    let mut next = 0;
    for n in [100usize, 2000, 1, 47, 1024, 3000] {
        let part: Vec<usize> = (next..next + n).collect();
        next += n;
        for block in b.push(part) {
            assert_eq!(block.len(), 1024);
            out.extend(block);
        }
    }
    out.extend(b.waiting.iter().copied());
    assert_eq!(out, (0..next).collect::<Vec<usize>>());
    assert!(b.waiting.len() < 1024);
}

#[test]
fn mono_plays_on_the_first_channel() {
    let mut out = [9; 6];
    assert_eq!(fill_frames(&mut out, &[1, 2, 3, 4], 2, 0), 3);
    assert_eq!(out, [1, 0, 2, 0, 3, 0]);
    let mut out = [9; 4];
    assert_eq!(fill_frames(&mut out, &[1, 2], 1, 0), 2);
    assert_eq!(out, [1, 2, 0, 0]);
}

#[test]
fn frames_are_summed() {
    assert_eq!(frame_sums(&[1, 2, 3, 4, 5], 2), vec![3, 7, 5]);
    assert_eq!(frame_sums(&[-32768; 4], 4), vec![-131072]);
    assert_eq!(frame_sums(&[7, -7], 1), vec![7, -7]);
    assert!(frame_sums(&[], 3).is_empty());
    assert_eq!(output_channels(true, Some(2)), 1);
    assert_eq!(output_channels(false, Some(2)), 2);
    assert_eq!(output_channels(false, None), 1);
}

#[test]
fn playback_is_given_up_in_time() {
    // A second of audio, and two more.
    assert!(!playback_over(false, 3000, 48_000, 48_000));
    assert!(playback_over(false, 3001, 48_000, 48_000));
    assert!(playback_over(true, 0, 48_000, 48_000));
    assert!(!playback_over(false, 2000, 0, 12_000) && playback_over(false, 2001, 0, 12_000));
    assert!(playback_over(false, u64::MAX, usize::MAX, u32::MAX));
}

#[test]
fn late_starts_cut_the_end() {
    assert_eq!(truncated_len(180_000, 500), 174_000);
    assert_eq!(truncated_len(6_000, 500), 6_000);
    assert_eq!(truncated_len(100, 0), 100);
}

#[test]
fn instants_as_dates() {
    let f = utc_fields(1_714_200_000_007);
    assert_eq!(
        f,
        UtcFields { year: 2024, month: 4, day: 27, hour: 6, minute: 40, second: 0, milli: 7 }
    );
    assert_eq!(format_date(&f), "20240427");
    assert_eq!(format_time_of_day(&f), "064000");
    let f = utc_fields(-1);
    assert_eq!((f.year, f.month, f.day, f.hour, f.minute, f.second, f.milli), (1969, 12, 31, 23, 59, 59, 999));
    let f = utc_fields(951_782_400_000);
    assert_eq!((f.year, f.month, f.day), (2000, 2, 29));
}

#[test]
fn years_are_written_as_chrono_does() {
    for ms in [0i64, 253_402_300_800_000, -62_167_219_200_001, -62_135_596_800_000, -377_705_116_800_001] {
        let t = chrono::DateTime::from_timestamp_millis(ms).unwrap();
        let f = utc_fields(ms);
        assert_eq!(format_year(f.year), t.format("%Y").to_string());
        assert_eq!(format_date(&f), t.format("%Y%m%d").to_string());
        assert_eq!(format_time_of_day(&f), t.format("%H%M%S").to_string());
    }
}

#[test]
fn the_clock_runs() {
    let before = chrono::Utc::now().timestamp_millis();
    let now = utc_ms_now();
    let after = chrono::Utc::now().timestamp_millis();
    assert!(before <= now && now <= after);
}

#[test]
fn words_and_numbers() {
    assert_eq!(trimmed("\u{2003} a b\t\n"), "a b");
    assert_eq!(split_words(" a  b\u{a0}c "), vec!["a", "b", "c"]);
    assert_eq!(to_lower("aB\u{c4}9"), "ab\u{c4}9");
    assert!(same_ignoring_case("Rr73", "RR73") && !same_ignoring_case("\u{e4}", "\u{c4}"));
    for s in ["0", "+7", "65535", "007", "-0", "", "+", "1_0", "65536"] {
        assert_eq!(parse_unsigned(s, 65535), s.parse::<u16>().ok().map(|n| n as u64), "{:?}", s);
        assert_eq!(parse_i16(s), s.parse::<i16>().ok(), "{:?}", s);
    }
    for s in ["-32768", "-32769", "32767", "-", "--1", "-12", "2147483647", "-2147483648", "2147483648"] {
        assert_eq!(parse_i16(s), s.parse::<i16>().ok(), "{:?}", s);
        assert_eq!(parse_i32(s), s.parse::<i32>().ok(), "{:?}", s);
    }
    assert_eq!(byte_count("a\u{e9}\u{20ac}\u{1f600}"), 10);
    assert!(contains("hello", "ell") && contains("x", "") && !contains("ell", "hello"));
}
