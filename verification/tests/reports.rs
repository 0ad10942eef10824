use chrono::{TimeZone, Utc};
use msk144plus::psk_session::{session_id, PskReporter, PskSession};
use msk144plus::pskreporter::{build_packet, pad_bytes, write_varlen, ReceiverInfo, Spot};
use msk144plus::wsjtx_udp::{
    adif_record, af, build_logged_adif, build_qso_logged, format_mhz, freq_to_band, write_qdatetime, write_utf8,
    LogRecord, MAGIC, SCHEMA, TYPE_LOGGED_ADIF, TYPE_QSO_LOGGED,
};

fn dummy_info() -> ReceiverInfo {
    ReceiverInfo {
        rx_call: "GW4WND".into(),
        rx_grid: "IO82KM".into(),
        program_id: "MSK144Plus 0.2.0".into(),
        antenna: "4-element 2 m yagi".into(),
        rig_info: "Icom IC-9700".into(),
    }
}

fn dummy_spot() -> Spot {
    Spot {
        heard_call: "F1ABC".into(),
        heard_grid: Some("IN98".into()),
        freq_hz: 144_360_000,
        mode: "MSK144".into(),
        snr_db: 5,
        utc_secs: 1_700_000_000,
    }
}

#[test]
fn header_basics() {
    let info = dummy_info();
    let spots = vec![dummy_spot()];
    let pkt = build_packet(&info, &spots, 1, 0xDEADBEEF, 1_700_000_000, false);
    assert!(pkt.len() >= 16);
    assert_eq!(u16::from_be_bytes([pkt[0], pkt[1]]), 0x000A);
    assert_eq!(u16::from_be_bytes([pkt[2], pkt[3]]) as usize, pkt.len());
    assert_eq!(u32::from_be_bytes([pkt[4], pkt[5], pkt[6], pkt[7]]), 1_700_000_000);
    assert_eq!(u32::from_be_bytes([pkt[8], pkt[9], pkt[10], pkt[11]]), 1);
    assert_eq!(u32::from_be_bytes([pkt[12], pkt[13], pkt[14], pkt[15]]), 0xDEADBEEF);
}

#[test]
fn receiver_call_appears_verbatim() {
    let info = dummy_info();
    let pkt = build_packet(&info, &[dummy_spot()], 1, 1, 0, true);
    let needle = b"GW4WND";
    assert!(pkt.windows(needle.len()).any(|w| w == needle), "expected GW4WND in packet body");
}

#[test]
fn signal_follows_the_frequency() {
    let spot = Spot { freq_hz: 144_360_000, snr_db: -3, ..dummy_spot() };
    let pkt = build_packet(&dummy_info(), &[spot], 1, 1, 0, false);
    assert_eq!(144_360_000, 0x089A_C240);
    let freq_bytes = [0x00, 0x08, 0x9A, 0xC2, 0x40];
    let pos = pkt.windows(freq_bytes.len()).position(|w| w == freq_bytes).expect("frequency not found");
    assert_eq!(pkt[pos + freq_bytes.len()], 0xFD);
    let spot = Spot { freq_hz: 0x01_2345_6789, snr_db: 127, ..dummy_spot() };
    let pkt = build_packet(&dummy_info(), &[spot], 1, 1, 0, false);
    let needle = [0x01, 0x23, 0x45, 0x67, 0x89, 127];
    assert!(pkt.windows(needle.len()).any(|w| w == needle));
}

#[test]
fn templates_only_when_requested() {
    let info = dummy_info();
    let spots = vec![dummy_spot()];
    let with_t = build_packet(&info, &spots, 1, 1, 0, true);
    let without_t = build_packet(&info, &spots, 1, 1, 0, false);
    assert!(
        with_t.len() > without_t.len(),
        "template packet should be larger ({} vs {})",
        with_t.len(),
        without_t.len()
    );
    let set_id = u16::from_be_bytes([with_t[16], with_t[17]]);
    assert_eq!(set_id, 3, "expected Template set (id=3) first when requested");
}

#[test]
fn pad_bytes_correct() {
    assert_eq!(pad_bytes(0), 0);
    assert_eq!(pad_bytes(1), 3);
    assert_eq!(pad_bytes(2), 2);
    assert_eq!(pad_bytes(3), 1);
    assert_eq!(pad_bytes(4), 0);
    assert_eq!(pad_bytes(5), 3);
    assert_eq!(pad_bytes(7), 1);
    assert_eq!(pad_bytes(8), 0);
}

#[test]
fn varlen_encoding() {
    let mut buf = Vec::new();
    write_varlen(&mut buf, "ABC");
    assert_eq!(buf, vec![3, b'A', b'B', b'C']);
    let mut buf2 = Vec::new();
    write_varlen(&mut buf2, "");
    assert_eq!(buf2, vec![0]);
}

#[test]
fn empty_grid_renders_as_empty_varlen() {
    let info = dummy_info();
    let spot = Spot {
        heard_call: "TEST5".into(),
        heard_grid: None,
        freq_hz: 144_360_000,
        mode: "MSK144".into(),
        snr_db: 0,
        utc_secs: 0,
    };
    let pkt = build_packet(&info, &[spot], 1, 1, 0, false);
    let needle = b"TEST5";
    let pos = pkt.windows(needle.len()).position(|w| w == needle).unwrap();
    let mode_pos = pos + needle.len() + 5 + 1;
    assert_eq!(pkt[mode_pos], 6, "expected mode length 6");
    let grid_pos = mode_pos + 1 + 6;
    assert_eq!(pkt[grid_pos], 0, "expected empty grid (length 0) when None");
}

#[test]
fn receiver_template_has_scope_field_count() {
    let info = dummy_info();
    let pkt = build_packet(&info, &[dummy_spot()], 1, 1, 0, true);
    let rx_tmpl_offset = 16;
    let set_id = u16::from_be_bytes([pkt[rx_tmpl_offset], pkt[rx_tmpl_offset + 1]]);
    assert_eq!(set_id, 3, "expected receiver Options Template at offset 16");
    let template_id = u16::from_be_bytes([pkt[rx_tmpl_offset + 4], pkt[rx_tmpl_offset + 5]]);
    let field_count = u16::from_be_bytes([pkt[rx_tmpl_offset + 6], pkt[rx_tmpl_offset + 7]]);
    let scope_field_count = u16::from_be_bytes([pkt[rx_tmpl_offset + 8], pkt[rx_tmpl_offset + 9]]);
    assert_eq!(template_id, 0x50e2, "template id");
    assert_eq!(field_count, 5, "5 receiver fields");
    assert_eq!(scope_field_count, 0, "scope_field_count must be 0 for our receiver Options Template");
}

#[test]
fn spawn_and_stop_clean() {
    let mut reporter = PskReporter::new();
    reporter.add_spot("F1TEST".into(), None, 144_360_000, "MSK144", 5, 1_700_000_000);
    reporter.add_spot("DK7RC".into(), Some("JN69".into()), 144_360_500, "MSK144", -3, 1_700_000_001);
    reporter.stop();
    // Nothing is taken after the stop.
    assert!(!reporter.add_spot("F1TEST".into(), None, 144_360_000, "MSK144", 5, 1_700_000_000));
    let first = reporter.take_spot().expect("queued before the stop");
    assert_eq!(first.heard_call, "F1TEST");
    let second = reporter.take_spot().expect("queued before the stop");
    assert_eq!((second.heard_call.as_str(), second.snr_db), ("DK7RC", -3));
    assert!(reporter.take_spot().is_none());
}

#[test]
fn long_texts_are_cut() {
    let mut buf = Vec::new();
    write_varlen(&mut buf, &"x".repeat(300));
    assert_eq!(buf.len(), 255);
    assert_eq!(buf[0], 254);
}

#[test]
fn blocks_fill_whole_words() {
    for n in 0..6 {
        let spots: Vec<Spot> = (0..n).map(|_| dummy_spot()).collect();
        for t in [false, true] {
            let pkt = build_packet(&dummy_info(), &spots, 7, 8, 9, t);
            assert_eq!(pkt.len() % 4, 0);
            assert_eq!(u16::from_be_bytes([pkt[2], pkt[3]]) as usize, pkt.len());
        }
    }
}

#[test]
fn signal_to_noise_is_clamped() {
    let mut reporter = PskReporter::new();
    reporter.add_spot("A1A".into(), None, 1, "MSK144", 1000, 0);
    reporter.add_spot("A1A".into(), None, 1, "MSK144", -1000, 0);
    assert_eq!(reporter.take_spot().unwrap().snr_db, 127);
    assert_eq!(reporter.take_spot().unwrap().snr_db, -127);
}

#[test]
fn full_queue_drops_spots() {
    let mut reporter = PskReporter::new();
    for k in 0..300 {
        let taken = reporter.add_spot(format!("A{}A", k), None, 1, "MSK144", 0, k);
        assert_eq!(taken, k < 256);
    }
    assert_eq!(reporter.take_spot().unwrap().heard_call, "A0A");
}

#[test]
fn batches_wait_five_seconds() {
    let mut s = PskSession::new(dummy_info(), 77, 1000);
    assert!(s.poll(100_000, 5).is_none());
    s.on_spot(dummy_spot(), 1000);
    assert!(s.poll(1000, 5).is_none());
    assert!(s.wait_ms(1000) <= 5000);
    let b = s.poll(6000, 5).expect("due");
    assert_eq!(b.spots, 1);
    assert!(b.templates);
    assert_eq!(b.packet, build_packet(&dummy_info(), &[dummy_spot()], s.sequence_num, 77, 5, true));
    assert!(s.pending.is_empty());
}

#[test]
fn first_packets_carry_templates() {
    let mut s = PskSession::new(dummy_info(), 77, 0);
    let mut seen = Vec::new();
    let mut now = 0;
    for _ in 0..6 {
        s.on_spot(dummy_spot(), now);
        now += 5000;
        let b = s.poll(now, 5).expect("due");
        seen.push(b.templates);
        s.on_sent(b.templates, now);
    }
    assert_eq!(seen, vec![true, true, true, false, false, false]);
    now += 3_600_000;
    s.on_spot(dummy_spot(), now);
    now += 5000;
    assert!(s.poll(now, 5).expect("due").templates);
}

#[test]
fn packets_stay_below_the_limit() {
    let mut s = PskSession::new(dummy_info(), 77, 0);
    for k in 0..64u32 {
        let mut spot = dummy_spot();
        spot.heard_call = format!("{}{}", "C".repeat(60), k);
        spot.utc_secs = k;
        s.on_spot(spot, 0);
    }
    let mut total = 0;
    let mut now = 0;
    while total < 64 {
        now += 5000;
        if let Some(b) = s.poll(now, 5) {
            assert!(b.packet.len() <= 1400);
            assert!(b.spots >= 1);
            total += b.spots;
            s.on_sent(b.templates, now);
        }
    }
    assert_eq!(total, 64);
    assert!(s.pending.is_empty());
}

#[test]
fn the_end_sends_what_is_left() {
    let mut s = PskSession::new(dummy_info(), 77, 0);
    assert!(s.finish(5).is_empty());
    s.on_spot(dummy_spot(), 0);
    let last = s.finish(5);
    assert_eq!(last.len(), 1);
    assert!(s.pending.is_empty());
}

fn sample_record() -> LogRecord {
    let t_on = Utc.with_ymd_and_hms(2025, 4, 15, 17, 25, 30).unwrap();
    let t_off = Utc.with_ymd_and_hms(2025, 4, 15, 17, 27, 0).unwrap();
    LogRecord {
        my_call: "GW4WND".into(),
        my_grid: "IO82KM".into(),
        dx_call: "F1ABC".into(),
        dx_grid: "JN08".into(),
        freq_hz: 144_360_000,
        mode: "MSK144".into(),
        rst_sent: "+05".into(),
        rst_rcvd: "+02".into(),
        time_on: t_on.timestamp_millis(),
        time_off: t_off.timestamp_millis(),
        comment: "".into(),
        prop_mode: "MS".into(),
    }
}

#[test]
fn qso_logged_starts_with_correct_header() {
    let rec = sample_record();
    let bytes = build_qso_logged("MSK144Plus", &rec);
    assert_eq!(&bytes[0..4], &MAGIC.to_be_bytes());
    assert_eq!(&bytes[4..8], &SCHEMA.to_be_bytes());
    assert_eq!(&bytes[8..12], &TYPE_QSO_LOGGED.to_be_bytes());
    assert_eq!(
        u32::from_be_bytes([bytes[12], bytes[13], bytes[14], bytes[15]]) as usize,
        "MSK144Plus".len()
    );
}

#[test]
fn logged_adif_contains_call_and_grid() {
    let rec = sample_record();
    let bytes = build_logged_adif("MSK144Plus", &rec);
    let s = String::from_utf8_lossy(&bytes);
    assert!(s.contains("<CALL:5>F1ABC"));
    assert!(s.contains("<GRIDSQUARE:4>JN08"));
    assert!(s.contains("<MODE:6>MSK144"));
    assert!(s.contains("<RST_SENT:3>+05"));
    assert!(s.contains("<BAND:2>2m"));
    assert!(s.contains("<PROP_MODE:2>MS"));
    assert!(s.contains("<PROGRAMID:10>MSK144Plus"));
    assert_eq!(&bytes[8..12], &TYPE_LOGGED_ADIF.to_be_bytes());
}

#[test]
fn freq_to_band_handles_amateur_bands() {
    assert_eq!(freq_to_band(3_700_000), "80m");
    assert_eq!(freq_to_band(14_074_000), "20m");
    assert_eq!(freq_to_band(50_313_000), "6m");
    assert_eq!(freq_to_band(70_154_000), "4m");
    assert_eq!(freq_to_band(144_360_000), "2m");
    assert_eq!(freq_to_band(432_500_000), "70cm");
    assert_eq!(freq_to_band(100_000_000), "other");
}

#[test]
fn qdatetime_encodes_julian_day_and_ms() {
    let dt = Utc.with_ymd_and_hms(2000, 1, 1, 0, 0, 0).unwrap();
    let mut buf = Vec::new();
    write_qdatetime(&mut buf, dt.timestamp_millis());
    assert_eq!(buf.len(), 13);
    let jdn = i64::from_be_bytes([buf[0], buf[1], buf[2], buf[3], buf[4], buf[5], buf[6], buf[7]]);
    assert_eq!(jdn, 2_451_545);
    let ms = u32::from_be_bytes([buf[8], buf[9], buf[10], buf[11]]);
    assert_eq!(ms, 0);
    assert_eq!(buf[12], 1u8);
}

#[test]
fn time_of_day_counts_milliseconds() {
    let dt = Utc.with_ymd_and_hms(2025, 4, 15, 17, 25, 30).unwrap();
    let mut buf = Vec::new();
    write_qdatetime(&mut buf, dt.timestamp_millis() + 250);
    let jdn = i64::from_be_bytes([buf[0], buf[1], buf[2], buf[3], buf[4], buf[5], buf[6], buf[7]]);
    assert_eq!(jdn, 2_460_781);
    let ms = u32::from_be_bytes([buf[8], buf[9], buf[10], buf[11]]);
    assert_eq!(ms, ((17 * 60 + 25) * 60 + 30) * 1000 + 250);
}

#[test]
fn empty_string_uses_qt_null_marker() {
    let mut buf = Vec::new();
    write_utf8(&mut buf, "");
    assert_eq!(buf, vec![0xff, 0xff, 0xff, 0xff]);
}

#[test]
fn nonempty_string_uses_length_prefix() {
    let mut buf = Vec::new();
    write_utf8(&mut buf, "abc");
    assert_eq!(buf, vec![0, 0, 0, 3, b'a', b'b', b'c']);
}

#[test]
fn frequency_in_megahertz() {
    let mut all = vec![0u64, 1, 999_999, 50_260_000, 144_360_123, 1_296_200_000, 999_999_999_999_999];
    // Beyond that double precision shows.
    all.extend([1u64 << 53, (1 << 53) + 1, (1 << 53) + 3, (1 << 63) + 1024, (1 << 63) + 3072, u64::MAX, 8_600_000_000_000_001]);
    all.extend((0..200u64).map(|k| 0x9E37_79B9_7F4A_7C15u64.wrapping_mul(2 * k + 1) >> (k % 12)));
    for hz in all {
        assert_eq!(format_mhz(hz), format!("{:.6}", hz as f64 / 1_000_000.0));
    }
    assert_eq!(af("FREQ", "144.360000"), "<FREQ:10>144.360000");
    assert_eq!(af("FREQ", ""), "");
    assert!(adif_record(&sample_record()).contains("<FREQ:10>144.360000"));
}

#[test]
fn session_numbers_have_the_high_bit() {
    use_session(0, "");
    use_session(0x1234_5678_9ABC_DEF0, "ThreadId(3)");
    use_session(u64::MAX, "a rather long name of a thread, to make the number wrap round");
}

fn use_session(nanos: u64, thread: &str) {
    let h: u64 = thread.bytes().fold(0u64, |a, b| a.wrapping_mul(31).wrapping_add(b as u64));
    assert_eq!(session_id(nanos, thread), ((nanos ^ h) as u32) | 0x8000_0000);
}
