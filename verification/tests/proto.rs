use msk144plus::proto::{
    format_report, is_callsign, is_grid, parse_decode_text, parse_report, render_payload, render_payload_with_sh,
    Format, Payload, Rendered,
};

#[test]
fn parse_cq_with_grid() {
    match parse_decode_text("CQ GW4WND IO82") {
        Some(Payload::Cq { from, grid: Some(g) }) => {
            assert_eq!(from, "GW4WND");
            assert_eq!(g, "IO82");
        }
        other => panic!("expected Cq with grid, got {:?}", other),
    }
}

#[test]
fn parse_call_with_report() {
    match parse_decode_text("GW4WND F1ABC +05") {
        Some(Payload::CallWithReport { from, to, rpt }) => {
            assert_eq!(from, "F1ABC");
            assert_eq!(to, "GW4WND");
            assert_eq!(rpt, 5);
        }
        other => panic!("expected CallWithReport, got {:?}", other),
    }
}

#[test]
fn parse_rreport() {
    match parse_decode_text("GW4WND F1ABC R+05") {
        Some(Payload::RReport { from, to, rpt }) => {
            assert_eq!(from, "F1ABC");
            assert_eq!(to, "GW4WND");
            assert_eq!(rpt, 5);
        }
        other => panic!("expected RReport, got {:?}", other),
    }
}

#[test]
fn parse_rrr() {
    assert!(matches!(parse_decode_text("GW4WND F1ABC RRR"), Some(Payload::Rr { .. })));
}

#[test]
fn parse_73() {
    assert!(matches!(parse_decode_text("GW4WND F1ABC 73"), Some(Payload::SeventyThree { .. })));
}

#[test]
fn parse_rr73() {
    match parse_decode_text("GW4WND F1ABC RR73") {
        Some(Payload::Rr73 { from, to }) => {
            assert_eq!(from, "F1ABC");
            assert_eq!(to, "GW4WND");
        }
        other => panic!("expected Rr73, got {:?}", other),
    }
}

#[test]
fn parse_rr73_case_insensitive() {
    assert!(matches!(parse_decode_text("GW4WND F1ABC rr73"), Some(Payload::Rr73 { .. })));
    assert!(matches!(parse_decode_text("GW4WND F1ABC Rr73"), Some(Payload::Rr73 { .. })));
}

#[test]
fn render_rr73() {
    let p = Payload::Rr73 { from: "F1ABC".into(), to: "GW4WND".into() };
    match render_payload(&p) {
        Rendered::Text(s) => assert_eq!(s, "GW4WND F1ABC RR73"),
    }
}

#[test]
fn render_sh_rr73_falls_back_to_long_form() {
    let p = Payload::Rr73 { from: "F1ABC".into(), to: "GW4WND".into() };
    match render_payload_with_sh(&p, true) {
        Rendered::Text(s) => assert_eq!(s, "GW4WND F1ABC RR73"),
    }
}

#[test]
fn parse_cold_call() {
    match parse_decode_text("GW4WND F1ABC") {
        Some(Payload::Call { from, to }) => {
            assert_eq!(from, "F1ABC");
            assert_eq!(to, "GW4WND");
        }
        other => panic!("expected Call, got {:?}", other),
    }
}

#[test]
fn render_call_with_report_sign() {
    let p = Payload::CallWithReport { from: "GW4WND".into(), to: "F1ABC".into(), rpt: 5 };
    match render_payload(&p) {
        Rendered::Text(s) => assert_eq!(s, "F1ABC GW4WND +05"),
    }
}

#[test]
fn render_negative_report() {
    let p = Payload::CallWithReport { from: "GW4WND".into(), to: "F1ABC".into(), rpt: -2 };
    match render_payload(&p) {
        Rendered::Text(s) => assert_eq!(s, "F1ABC GW4WND -02"),
    }
}

#[test]
fn render_sh_rreport() {
    let p = Payload::RReport { from: "GW4WND".into(), to: "F1ABC".into(), rpt: 5 };
    match render_payload_with_sh(&p, true) {
        Rendered::Text(s) => assert_eq!(s, "<GW4WND F1ABC> R+05"),
    }
}

#[test]
fn render_sh_rrr() {
    let p = Payload::Rr { from: "GW4WND".into(), to: "F1ABC".into() };
    match render_payload_with_sh(&p, true) {
        Rendered::Text(s) => assert_eq!(s, "<GW4WND F1ABC> RRR"),
    }
}

#[test]
fn render_sh_seventy_three() {
    let p = Payload::SeventyThree { from: "GW4WND".into(), to: "F1ABC".into() };
    match render_payload_with_sh(&p, true) {
        Rendered::Text(s) => assert_eq!(s, "<GW4WND F1ABC> 73"),
    }
}

#[test]
fn render_sh_off_uses_long_form() {
    let p = Payload::SeventyThree { from: "GW4WND".into(), to: "F1ABC".into() };
    match render_payload_with_sh(&p, false) {
        Rendered::Text(s) => assert_eq!(s, "F1ABC GW4WND 73"),
    }
}

#[test]
fn render_sh_does_not_apply_to_cq() {
    let p = Payload::Cq { from: "GW4WND".into(), grid: Some("IO82".into()) };
    match render_payload_with_sh(&p, true) {
        Rendered::Text(s) => assert_eq!(s, "CQ GW4WND IO82"),
    }
}

#[test]
fn render_sh_does_not_apply_to_call_with_report() {
    let p = Payload::CallWithReport { from: "GW4WND".into(), to: "F1ABC".into(), rpt: 5 };
    match render_payload_with_sh(&p, true) {
        Rendered::Text(s) => assert_eq!(s, "F1ABC GW4WND +05"),
    }
}

#[test]
fn messages_round_trip() {
    let f = || "GW4WND".to_string();
    let t = || "F1ABC/P".to_string();
    let all = vec![
        Payload::Cq { from: f(), grid: Some("IO82".into()) },
        Payload::Cq { from: f(), grid: None },
        Payload::Call { from: f(), to: t() },
        Payload::CallWithReport { from: f(), to: t(), rpt: -12 },
        Payload::CallWithReport { from: f(), to: t(), rpt: 105 },
        Payload::RReport { from: f(), to: t(), rpt: 0 },
        Payload::Rr { from: f(), to: t() },
        Payload::Rr73 { from: f(), to: t() },
        Payload::SeventyThree { from: f(), to: t() },
    ];
    for p in all {
        let Rendered::Text(s) = render_payload(&p);
        assert_eq!(parse_decode_text(&s), Some(p));
    }
}

#[test]
fn render_free_text() {
    let p = Payload::Text { from: "A1A".into(), to: None, text: "HELLO".into() };
    assert_eq!(render_payload(&p), Rendered::Text("CQ A1A HELLO".into()));
    let p = Payload::Text { from: "A1A".into(), to: Some("B2B".into()), text: "HELLO".into() };
    assert_eq!(render_payload(&p), Rendered::Text("B2B A1A HELLO".into()));
    assert_eq!(p.to_call(), Some("B2B"));
    assert_eq!(p.from_call(), "A1A");
    assert_eq!(p.format(), Format::Fmt1);
}

#[test]
fn calls_are_put_into_upper_case() {
    match parse_decode_text("  gw4wnd\tf1abc \u{2003} -07 ") {
        Some(Payload::CallWithReport { from, to, rpt }) => {
            assert_eq!((from.as_str(), to.as_str(), rpt), ("F1ABC", "GW4WND", -7));
        }
        other => panic!("got {:?}", other),
    }
    // Unicode upper case can change the length of a text.
    match parse_decode_text("cq stra\u{df}e") {
        Some(Payload::Cq { from, grid: None }) => assert_eq!(from, "STRASSE"),
        other => panic!("got {:?}", other),
    }
}

#[test]
fn lines_that_say_nothing() {
    for s in ["", "   ", "HELLO", "CQ", "CQ A1A IO82 X", "CQ NOCALL IO82", "ABC DEF", "A1A B2B WHAT", "A1A B2B R5"] {
        assert_eq!(parse_decode_text(s), None, "{:?}", s);
    }
    // A locator as the third word makes a plain call; other third words of a CQ are dropped.
    assert!(matches!(parse_decode_text("A1A B2B IO82"), Some(Payload::Call { .. })));
    assert!(matches!(parse_decode_text("CQ A1A TEST"), Some(Payload::Cq { grid: None, .. })));
    assert!(matches!(parse_decode_text("A1A B2B rr"), Some(Payload::Rr { .. })));
}

#[test]
fn callsigns_and_grids() {
    for s in ["GW4WND", "F1ABC", "F1ABC/P", "/G4A/", "2E0ABC", "a1"] {
        assert!(is_callsign(s), "{}", s);
    }
    for s in ["", "///", "GW", "123", "GW4WNDX1", "G4 A", "G4\u{c4}"] {
        assert!(!is_callsign(s), "{}", s);
    }
    assert!(is_grid("IO82") && is_grid("jn18"));
    for s in ["IO8", "IO82KM", "1O82", "IOAB", "\u{c4}82"] {
        assert!(!is_grid(s), "{}", s);
    }
}

#[test]
fn reports_as_written() {
    assert_eq!(format_report(5), "+05");
    assert_eq!(format_report(-2), "-02");
    assert_eq!(format_report(20), "+20");
    assert_eq!(format_report(0), "+00");
    assert_eq!(format_report(-32767), "-32767");
    assert_eq!(parse_report("+05"), Some(5));
    assert_eq!(parse_report("-02"), Some(-2));
    assert_eq!(parse_report("+-5"), Some(-5));
    assert_eq!(parse_report("--5"), Some(5));
    assert_eq!(parse_report("+32767"), Some(32767));
    assert_eq!(parse_report("-32768"), None);
    for s in ["", "5", "+", "-", "+a", "+5x", "+32768", "05"] {
        assert_eq!(parse_report(s), None, "{:?}", s);
    }
}
