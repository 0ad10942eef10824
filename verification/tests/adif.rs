use msk144plus::adif::{
    adif_field, format_time, is_float_text, parse_adif_line, parse_field, split_lines, AdifLogger, QsoRecord,
};
use msk144plus::mhz::with_six_decimals;

fn contact() -> QsoRecord {
    QsoRecord::new(
        "I3FGX".into(),
        "GW4WND".into(),
        1714200000000,
        1714200060000,
        "2M".into(),
        Some("144.360000".into()),
        "MSK144",
        "+10",
        Some("+05"),
        Some("JN55".into()),
    )
}

#[test]
fn write_and_read_qso() {
    let logger = AdifLogger::new("write_and_read.adi".into(), "MSK144+".into());
    let rec = contact();
    let file = logger.log_text(AdifLogger::needs_header(false, None), &rec);
    let read = AdifLogger::read_text(&file);
    assert_eq!(read.len(), 1);
    assert_eq!(read[0].call, "I3FGX");
    assert_eq!(read[0].gridsquare.as_deref(), Some("JN55"));
}

#[test]
fn append_multiple() {
    let logger = AdifLogger::new("append_multiple.adi".into(), "MSK144+".into());
    let mut file = String::new();
    for i in 0..3 {
        let rec = QsoRecord::new(
            format!("CALL{}", i),
            "GW4WND".into(),
            1714200000000,
            1714200060000,
            "2M".into(),
            None,
            "MSK144",
            "+10",
            None,
            None,
        );
        let fresh = AdifLogger::needs_header(i > 0, Some(file.len() as u64));
        file.push_str(&logger.log_text(fresh, &rec));
    }
    let read = AdifLogger::read_text(&file);
    assert_eq!(read.len(), 3);
}

#[test]
fn adif_field_format() {
    assert_eq!(adif_field("CALL", "GW4WND"), "<CALL:6>GW4WND");
}

#[test]
fn record_as_text() {
    let rec = contact();
    assert_eq!(rec.qso_date, "20240427");
    assert_eq!(rec.time_on, "064000");
    assert_eq!(rec.time_off, "064100");
    assert_eq!(
        rec.to_adif(),
        "<CALL:5>I3FGX <OPERATOR:6>GW4WND <QSO_DATE:8>20240427 <TIME_ON:6>064000 <TIME_OFF:6>064100 \
         <BAND:2>2M <FREQ:10>144.360000 <MODE:6>MSK144 <RST_SENT:3>+10 <RST_RCVD:3>+05 <GRIDSQUARE:4>JN55 <EOR>"
    );
}

#[test]
fn record_round_trip() {
    let rec = contact();
    assert_eq!(parse_adif_line(&rec.to_adif()), Some(rec.clone()));
    let bare = QsoRecord { freq: None, gridsquare: None, rst_rcvd: String::new(), ..rec };
    assert_eq!(parse_adif_line(&bare.to_adif()), Some(bare));
}

#[test]
fn frequencies_have_six_decimals() {
    let numbers = [
        "144.36", "144.360000", "50", "50.", ".5", "0.000001", "0144.3", "+7.1", "-7.1", "-0", "0", "999999999.999999",
        "1.0000001", "1.0000005", "0.0078125", "0.0234375", "0.0000005", "0.0000025", "0.0000015", "1e3", "1E-3",
        "1.5e+2", "12345678901234567890", "9007199254740993", "0.1e1", "1e22", "1e23", "1e308", "1.7976931348623157e308",
        "1.7976931348623158e308", "1.7976931348623159e308", "1.8e308", "1e309", "-1e400", "1e99999999999999999999999999999999999",
        "1e-99999999999999999999999999999999999", "4.9e-324", "2e-324", "0e99999999999999999999999999999999999", "-1e-20",
        "00000000000000000000000000000000000001", "0.00000000000000000000000000000000000000001e41", "inf", "-Infinity",
        "+inf", "nan", "-NaN", "144.3600004999999999999999999999999999", "8388607.9999995", "4294967296.0000005",
    ];
    for s in numbers {
        assert_eq!(with_six_decimals(s), format!("{:.6}", s.parse::<f64>().unwrap()), "{}", s);
    }
    // Other texts stay as they are.
    for s in ["", ".", "144,36", "+", "1.2.3", "e5", "1e", "abc"] {
        assert!(s.parse::<f64>().is_err());
        assert_eq!(with_six_decimals(s), s);
    }
    let mut rec = contact();
    rec.freq = Some("144.36".into());
    assert!(rec.to_adif().contains("<FREQ:10>144.360000 "));
    assert_eq!(parse_adif_line(&rec.to_adif()), Some(contact()));
    let read = parse_adif_line("<CALL:5>I3FGX <FREQ:9>1.0000001").expect("a record");
    assert!(read.to_adif().contains("<FREQ:8>1.000000 "));
}

#[test]
fn any_number_is_written_as_a_double_is() {
    let mut x: u64 = 0x9E37_79B9_7F4A_7C15;
    let mut next = move || {
        x ^= x << 13;
        x ^= x >> 7;
        x ^= x << 17;
        x
    };
    for _ in 0..400 {
        // Every double, written in full, and decimal texts of many lengths.
        let f = f64::from_bits(next());
        if f.is_finite() {
            let shortest = format!("{:e}", f);
            assert_eq!(with_six_decimals(&shortest), format!("{:.6}", f), "{}", shortest);
        }
        let (a, b) = (next() >> (next() % 60), next() >> (next() % 60));
        let text = format!("{}.{:07}", a, b);
        assert_eq!(with_six_decimals(&text), format!("{:.6}", text.parse::<f64>().unwrap()), "{}", text);
        let text = format!("{}.{}e{}", a, b, (next() % 60) as i64 - 40);
        assert_eq!(with_six_decimals(&text), format!("{:.6}", text.parse::<f64>().unwrap()), "{}", text);
        // Halves of a millionth, exactly.
        let text = format!("{:.20}", (next() % 100_000) as f64 / 128.0);
        assert_eq!(with_six_decimals(&text), format!("{:.6}", text.parse::<f64>().unwrap()), "{}", text);
    }
}

#[test]
fn first_record_gets_a_header() {
    assert!(AdifLogger::needs_header(false, None));
    assert!(AdifLogger::needs_header(false, Some(7)));
    assert!(AdifLogger::needs_header(true, Some(0)));
    assert!(!AdifLogger::needs_header(true, Some(1)));
    let logger = AdifLogger::new("x.adi".into(), "MSK144+".into());
    assert_eq!(logger.path_display(), "x.adi");
    let rec = contact();
    let fresh = logger.log_text(true, &rec);
    let later = logger.log_text(false, &rec);
    assert!(fresh.ends_with(&later));
    assert!(fresh.contains("<PROGRAMID:7>MSK144+"));
    assert!(fresh.contains("<EOH>"));
    assert_eq!(later, format!("{}\n", rec.to_adif()));
}

#[test]
fn fields_of_a_line() {
    let line = "<CALL:5>I3FGX <MODE:6>MSK144 <RST_SENT:3>+1";
    assert_eq!(parse_field(line, "CALL").as_deref(), Some("I3FGX"));
    assert_eq!(parse_field(line, "MODE").as_deref(), Some("MSK144"));
    assert_eq!(parse_field(line, "RST_SENT").as_deref(), Some("+1"));
    assert_eq!(parse_field(line, "BAND"), None);
    assert_eq!(parse_field("<CALL:x>A", "CALL"), None);
    assert_eq!(parse_field("<CALL:2", "CALL"), None);
    assert_eq!(parse_field("<CALL:0>A", "CALL").as_deref(), Some(""));
    assert_eq!(parse_field("<CALL:1>\u{c4}B", "CALL"), None);
    assert_eq!(parse_field("<call:5>I3FGX", "CALL"), None);
    // A line without a callsign is no record; what else is missing is empty.
    assert_eq!(parse_adif_line("<MODE:6>MSK144"), None);
    let rec = parse_adif_line("<CALL:5>I3FGX <QSO_DATE:8>20240427").expect("a record");
    assert_eq!((rec.call.as_str(), rec.qso_date.as_str(), rec.mode.as_str()), ("I3FGX", "20240427", "MSK144"));
    assert_eq!((rec.operator.as_str(), rec.band.as_str(), rec.freq), ("", "", None));
}

#[test]
fn frequency_must_be_a_number() {
    for s in ["144.36", "1e3", "-.5", "+5.", "inf", "NaN", "INFINITY", "5E-1"] {
        assert!(is_float_text(s), "{}", s);
        assert!(s.parse::<f64>().is_ok(), "{}", s);
    }
    for s in ["", ".", "e5", "1e", "1 ", "0x1", "1.2.3", "+", "1e+", "infin"] {
        assert!(!is_float_text(s), "{}", s);
        assert!(s.parse::<f64>().is_err(), "{}", s);
    }
    let rec = contact();
    let bad = rec.to_adif().replace("144.360000", "144-360000");
    assert_eq!(parse_adif_line(&bad).unwrap().freq, None);
}

#[test]
fn dates_and_times_as_shown() {
    let rec = contact();
    assert_eq!(rec.display_date(), "2024-04-27");
    assert_eq!(rec.display_time_on(), "06:40:00");
    assert_eq!(rec.display_time_off(), "06:41:00");
    assert_eq!(format_time("123"), "123");
    assert_eq!(format_time("1234"), "12:34");
}

#[test]
fn lines_of_a_file() {
    let want: Vec<String> = "a\r\nb\n\nc\r".lines().map(|l| l.to_string()).collect();
    assert_eq!(split_lines("a\r\nb\n\nc\r"), want);
    assert_eq!(split_lines(""), Vec::<String>::new());
}
