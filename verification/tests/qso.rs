use msk144plus::proto::{Payload, RxEnvelope};
use msk144plus::qso::{normalize_call, Action, EngineEvent, Intent, QsoEngine, QsoState};

fn rx(payload: Payload) -> RxEnvelope {
    let format = payload.format();
    RxEnvelope { payload, format, snr: None, utc_ms: 0, rx_slot: 0 }
}

#[test]
fn scenario_one_cq_caller() {
    let mut a = QsoEngine::new("GW4WND".into());
    a.my_grid = Some("IO82".into());

    let _ = a.on_intent(Intent::Cq);
    assert_eq!(a.state, QsoState::CallingCq);

    let _ = a.on_rx(rx(Payload::CallWithReport { from: "F1ABC".into(), to: "GW4WND".into(), rpt: 5 }));
    assert_eq!(a.state, QsoState::SendingRReport);
    assert_eq!(a.their_call, Some("F1ABC".into()));
    assert_eq!(a.their_report, Some(5));

    let _ = a.on_rx(rx(Payload::Rr { from: "F1ABC".into(), to: "GW4WND".into() }));
    assert_eq!(a.state, QsoState::Sending73);

    let tx = a.next_tx();
    assert!(matches!(tx, Some(Payload::SeventyThree { .. })));
    assert_eq!(a.tx_repeat_count, 1);

    let (_, evs) = a.on_rx(rx(Payload::SeventyThree { from: "F1ABC".into(), to: "GW4WND".into() }));
    assert_eq!(a.state, QsoState::Done);
    assert!(evs.iter().any(|e| matches!(e, EngineEvent::QsoComplete { .. })));
}

#[test]
fn scenario_two_cold_call_received() {
    let mut a = QsoEngine::new("GW4WND".into());
    let _ = a.on_intent(Intent::Listen);

    let _ = a.on_rx(rx(Payload::Call { from: "F1ABC".into(), to: "GW4WND".into() }));
    assert_eq!(a.state, QsoState::SendingReport);
    assert_eq!(a.their_call, Some("F1ABC".into()));
}

#[test]
fn scenario_three_call_specific_station() {
    let mut a = QsoEngine::new("GW4WND".into());

    let _ = a.on_intent(Intent::Call { their: "F1ABC".into() });
    assert_eq!(a.state, QsoState::CallingStn);

    let _ = a.on_rx(rx(Payload::CallWithReport { from: "F1ABC".into(), to: "GW4WND".into(), rpt: 5 }));
    assert_eq!(a.state, QsoState::SendingRReport);
}

#[test]
fn rr73_in_sending_rreport_jumps_to_sending73() {
    let mut a = QsoEngine::new("GW4WND".into());
    let _ = a.on_intent(Intent::Call { their: "SM7VUK".into() });
    let _ = a.on_rx(rx(Payload::CallWithReport { from: "SM7VUK".into(), to: "GW4WND".into(), rpt: 2 }));
    assert_eq!(a.state, QsoState::SendingRReport);

    let (action, _) = a.on_rx(rx(Payload::Rr73 { from: "SM7VUK".into(), to: "GW4WND".into() }));
    match action {
        Action::Transmit(env) => match env.payload {
            Payload::SeventyThree { ref to, .. } => {
                assert_eq!(to, "SM7VUK");
            }
            other => panic!("expected SeventyThree, got {:?}", other),
        },
        other => panic!("expected Transmit, got {:?}", other),
    }
    assert_eq!(a.state, QsoState::Sending73);
}

#[test]
fn answer_cq_starts_with_report() {
    let mut a = QsoEngine::new("GW4WND".into());
    let _ = a.on_intent(Intent::AnswerCq { their: "F1ABC".into(), rpt: -2, grid: Some("JN18".into()) });
    assert_eq!(a.state, QsoState::SendingReport);
    assert_eq!(a.their_call, Some("F1ABC".into()));
    assert_eq!(a.their_grid, Some("JN18".into()));
    assert_eq!(a.my_report, -2);
}

#[test]
fn report_locked_once_committed() {
    let mut a = QsoEngine::new("GW4WND".into());
    let _ = a.on_intent(Intent::Cq);

    let mut env = rx(Payload::CallWithReport { from: "F1ABC".into(), to: "GW4WND".into(), rpt: 5 });
    env.snr = Some(5);
    let _ = a.on_rx(env);
    assert_eq!(a.state, QsoState::SendingRReport);
    let committed = a.my_report;
    assert_eq!(committed, 6);

    let mut env2 = rx(Payload::CallWithReport { from: "F1ABC".into(), to: "GW4WND".into(), rpt: 5 });
    env2.snr = Some(20);
    let _ = a.on_rx(env2);
    assert_eq!(a.my_report, committed, "my_report leaked to {} after committing at {}", a.my_report, committed);
}

#[test]
fn report_updates_pre_commit() {
    let mut a = QsoEngine::new("GW4WND".into());
    let _ = a.on_intent(Intent::Cq);
    let mut env = rx(Payload::Cq { from: "EA5XYZ".into(), grid: None });
    env.snr = Some(15);
    let _ = a.on_rx(env);
    assert!(a.my_report >= 14, "expected my_report ~+15, got {}", a.my_report);
}

#[test]
fn modern_path_sends_rr73_not_rrr() {
    let mut a = QsoEngine::new("GW4WND".into());
    let _ = a.on_intent(Intent::Call { their: "F1ABC".into() });
    let _ = a.on_rx(rx(Payload::CallWithReport { from: "F1ABC".into(), to: "GW4WND".into(), rpt: 3 }));
    assert_eq!(a.state, QsoState::SendingRReport);

    let (action, _) = a.on_rx(rx(Payload::RReport { from: "F1ABC".into(), to: "GW4WND".into(), rpt: 5 }));
    match action {
        Action::Transmit(env) => match env.payload {
            Payload::Rr73 { .. } => {}
            other => panic!("expected Rr73, got {:?}", other),
        },
        other => panic!("expected Transmit, got {:?}", other),
    }
    assert_eq!(a.state, QsoState::Sending73);
    assert!(a.final_is_rr73, "should have flagged final as RR73");

    let next = a.next_tx();
    match next {
        Some(Payload::Rr73 { .. }) => {}
        other => panic!("repeat slot expected Rr73, got {:?}", other),
    }
}

#[test]
fn auto_complete_when_partner_cqs_after_our_rr73() {
    let mut a = QsoEngine::new("GW4WND".into());
    let _ = a.on_intent(Intent::Call { their: "I5YDI".into() });
    let _ = a.on_rx(rx(Payload::CallWithReport { from: "I5YDI".into(), to: "GW4WND".into(), rpt: -7 }));
    let _ = a.on_rx(rx(Payload::RReport { from: "I5YDI".into(), to: "GW4WND".into(), rpt: 0 }));
    assert_eq!(a.state, QsoState::Sending73);

    let _ = a.next_tx();

    let (_, evs) = a.on_rx(rx(Payload::Cq { from: "I5YDI".into(), grid: Some("JN54".into()) }));
    assert_eq!(a.state, QsoState::Done);
    assert!(
        evs.iter().any(|e| matches!(e, EngineEvent::QsoComplete { .. })),
        "expected QsoComplete event when partner CQs after our RR73"
    );
}

#[test]
fn auto_complete_when_partner_cqs_after_our_r_report() {
    let mut a = QsoEngine::new("GW4WND".into());
    let _ = a.on_intent(Intent::Listen);
    let _ = a.on_rx(rx(Payload::Call { from: "DK7RC".into(), to: "GW4WND".into() }));
    assert_eq!(a.state, QsoState::SendingReport);
    let mut a = QsoEngine::new("GW4WND".into());
    let _ = a.on_intent(Intent::Call { their: "DK7RC".into() });
    let _ = a.on_rx(rx(Payload::CallWithReport { from: "DK7RC".into(), to: "GW4WND".into(), rpt: 4 }));
    assert_eq!(a.state, QsoState::SendingRReport);

    let (_, evs) = a.on_rx(rx(Payload::Cq { from: "DK7RC".into(), grid: None }));
    assert_eq!(a.state, QsoState::Done);
    assert!(evs.iter().any(|e| matches!(e, EngineEvent::QsoComplete { .. })));
}

// Two engines talk to each other; what one sends the other hears.
fn hears(e: &mut QsoEngine, p: Option<Payload>) -> Vec<EngineEvent> {
    match p {
        Some(p) => e.on_rx(rx(p)).1,
        None => Vec::new(),
    }
}

#[test]
fn two_stations_complete_a_contact() {
    let mut a = QsoEngine::new("GW4WND".into());
    let mut b = QsoEngine::new("F1ABC".into());
    let _ = a.on_intent(Intent::Cq);
    let _ = b.on_intent(Intent::AnswerCq { their: "GW4WND".into(), rpt: 4, grid: Some("IO82".into()) });
    hears(&mut a, b.next_tx());
    assert_eq!(a.state, QsoState::SendingRReport);
    hears(&mut b, a.next_tx());
    assert_eq!(b.state, QsoState::Sending73);
    hears(&mut a, b.next_tx());
    assert_eq!(a.state, QsoState::Sending73);
    let evs = hears(&mut b, a.next_tx());
    assert_eq!(b.state, QsoState::Done);
    let evs2 = hears(&mut a, Some(Payload::SeventyThree { from: "f1abc ".into(), to: " gw4wnd".into() }));
    assert_eq!(a.state, QsoState::Done);
    for list in [evs, evs2] {
        assert!(list.iter().any(|e| matches!(e, EngineEvent::QsoComplete { record: Some(_), .. })));
    }
}

#[test]
fn record_of_a_contact() {
    let mut a = QsoEngine::new("GW4WND".into());
    a.set_band("6M".into());
    a.set_freq_mhz(Some("50.260000".into()));
    let _ = a.on_intent_at(
        Intent::AnswerCq { their: "F1ABC".into(), rpt: -2, grid: Some("JN18".into()) },
        1714200000000,
    );
    let _ = a.on_rx_at(rx(Payload::RReport { from: "F1ABC".into(), to: "GW4WND".into(), rpt: 7 }), 1714200030000);
    let _ = a.next_tx();
    let (action, evs) =
        a.on_rx_at(rx(Payload::SeventyThree { from: "F1ABC".into(), to: "GW4WND".into() }), 1714200060000);
    assert!(matches!(action, Action::Nothing));
    assert_eq!(evs.len(), 3);
    match &evs[1] {
        EngineEvent::QsoComplete { their, record: Some(r) } => {
            assert_eq!(their, "F1ABC");
            assert_eq!(r.call, "F1ABC");
            assert_eq!(r.operator, "GW4WND");
            assert_eq!(r.qso_date, "20240427");
            assert_eq!(r.time_on, "064000");
            assert_eq!(r.time_off, "064100");
            assert_eq!(r.band, "6M");
            assert_eq!(r.freq.as_deref(), Some("50.260000"));
            assert_eq!(r.mode, "MSK144");
            assert_eq!(r.rst_sent, "-02");
            assert_eq!(r.rst_rcvd, "+07");
            assert_eq!(r.gridsquare.as_deref(), Some("JN18"));
        }
        other => panic!("expected a record, got {:?}", other),
    }
    assert!(matches!(evs[2], EngineEvent::StateChanged(QsoState::Done)));
}

#[test]
fn closing_message_runs_out() {
    let mut a = QsoEngine::new("GW4WND".into());
    a.set_slot_period(30);
    assert_eq!(a.max_repeats, 3);
    a.set_slot_period(15);
    assert_eq!(a.max_repeats, 5);
    let _ = a.force_state_at(QsoState::SendingRr, Some("F1ABC".into()), None, 0);
    assert_eq!(a.state, QsoState::Sending73);
    for _ in 0..5 {
        assert!(a.check_complete_at(1000).is_none());
        assert!(matches!(a.next_tx(), Some(Payload::Rr73 { .. })));
    }
    assert!(a.check_complete_at(1000).is_none());
    assert!(a.next_tx().is_none());
    match a.check_complete() {
        Some(EngineEvent::QsoComplete { their, record: Some(_) }) => assert_eq!(their, "F1ABC"),
        other => panic!("expected completion, got {:?}", other),
    }
    assert_eq!(a.state, QsoState::Done);
    assert!(a.check_complete().is_none());
}

#[test]
fn forced_states() {
    let mut a = QsoEngine::new("GW4WND".into());
    let (action, evs) = a.force_state(QsoState::SendingRReport, Some("F1ABC".into()), Some(99));
    assert_eq!(a.my_report, 24);
    assert_eq!(evs.len(), 3);
    match action {
        Action::Transmit(env) => assert_eq!(env.raw, "F1ABC GW4WND R+24"),
        other => panic!("got {:?}", other),
    }
    let _ = a.force_state(QsoState::SendingReport, Some("F1ABC".into()), Some(-9));
    assert_eq!(a.my_report, -4);
    // States that do not send the report store it all the same.
    let (action, _) = a.force_state(QsoState::CallingStn, Some("F1ABC".into()), Some(7));
    match action {
        Action::Transmit(env) => {
            assert_eq!(env.payload, Payload::Call { from: "GW4WND".into(), to: "F1ABC".into() });
            assert_eq!(env.raw, "F1ABC GW4WND");
        }
        other => panic!("got {:?}", other),
    }
    assert_eq!((a.state, a.my_report), (QsoState::CallingStn, 7));
    let _ = a.force_state(QsoState::Listening, None, Some(10));
    assert_eq!((a.state, a.my_report), (QsoState::CallingStn, 7));
    // Without a partner nothing is sent and the partner is forgotten.
    let (action, evs) = a.force_state(QsoState::Sending73, None, None);
    assert!(matches!(action, Action::Nothing));
    assert!(evs.is_empty());
    assert_eq!(a.their_call, None);
    assert_eq!(a.state, QsoState::CallingStn);
    let (action, _) = a.force_state(QsoState::Idle, Some("F1ABC".into()), None);
    assert!(matches!(action, Action::Nothing));
    let (action, _) = a.force_state(QsoState::CallingCq, None, None);
    match action {
        Action::Transmit(env) => assert_eq!(env.raw, "CQ GW4WND"),
        other => panic!("got {:?}", other),
    }
}

#[test]
fn short_messages_need_a_partner() {
    let mut a = QsoEngine::new("GW4WND".into());
    a.set_use_short_msg(true);
    a.set_my_grid(Some(" IO82KM ".into()));
    let (action, _) = a.on_intent(Intent::Cq);
    match action {
        Action::Transmit(env) => assert_eq!(env.raw, "CQ GW4WND IO82"),
        other => panic!("got {:?}", other),
    }
    let (action, _) =
        a.on_rx(rx(Payload::CallWithReport { from: "F1ABC".into(), to: "GW4WND".into(), rpt: 5 }));
    match action {
        Action::Transmit(env) => assert_eq!(env.raw, "<GW4WND F1ABC> R+05"),
        other => panic!("got {:?}", other),
    }
}

#[test]
fn strangers_change_nothing() {
    let mut a = QsoEngine::new("GW4WND".into());
    let _ = a.on_intent(Intent::Call { their: "F1ABC".into() });
    let (action, evs) =
        a.on_rx(rx(Payload::CallWithReport { from: "X9X".into(), to: "GW4WND".into(), rpt: 5 }));
    assert!(matches!(action, Action::Nothing));
    assert_eq!(evs.len(), 1);
    assert_eq!(a.state, QsoState::CallingStn);
    assert_eq!(a.their_call.as_deref(), Some("F1ABC"));
}

#[test]
fn abort_forgets_the_partner() {
    let mut a = QsoEngine::new("GW4WND".into());
    let _ = a.on_intent(Intent::Call { their: "F1ABC".into() });
    let (action, evs) = a.on_intent(Intent::Abort);
    assert!(matches!(action, Action::Nothing));
    assert_eq!(evs.len(), 1);
    assert_eq!(a.state, QsoState::Idle);
    assert_eq!(a.their_call, None);
    assert_eq!(a.qso_start_utc_ms, None);
    assert!(a.make_qso_record().is_none());
}

#[test]
fn signal_reports_are_quantised() {
    let cases = [(5, 6), (4, 4), (3, 4), (1, 2), (0, 0), (-1, -2), (-3, -4), (-9, -4), (23, 24), (40, 24)];
    for (snr, want) in cases {
        let mut a = QsoEngine::new("GW4WND".into());
        let mut env = rx(Payload::Cq { from: "EA5XYZ".into(), grid: None });
        env.snr = Some(snr);
        let _ = a.on_rx(env);
        assert_eq!(a.my_report, want, "snr {}", snr);
    }
}

#[test]
fn names_of_states() {
    assert_eq!(QsoState::CallingCq.label(), "CALLING_CQ");
    assert_eq!(QsoState::Done.label(), "DONE");
    assert_eq!(normalize_call("  gw4wnd\n"), "GW4WND");
    assert_eq!(normalize_call("stra\u{df}e"), "STRASSE");
}

#[test]
fn rrr_is_never_ours() {
    let mut a = QsoEngine::new("GW4WND".into());
    let _ = a.on_intent(Intent::AnswerCq { their: "F1ABC".into(), rpt: 4, grid: None });
    let (action, _) = a.on_rx(rx(Payload::RReport { from: "F1ABC".into(), to: "GW4WND".into(), rpt: 7 }));
    match action {
        Action::Transmit(env) => assert!(matches!(env.payload, Payload::Rr73 { .. })),
        other => panic!("got {:?}", other),
    }
    let (action, _) = a.force_state(QsoState::SendingRr, Some("F1ABC".into()), None);
    match action {
        Action::Transmit(env) => assert!(matches!(env.payload, Payload::Rr73 { .. })),
        other => panic!("got {:?}", other),
    }
    assert_eq!(a.state, QsoState::Sending73);
}

#[test]
fn both_logs_agree() {
    let mut a = QsoEngine::new("GW4WND".into());
    let mut b = QsoEngine::new("F1ABC".into());
    let _ = a.on_intent(Intent::Cq);
    let _ = b.on_intent(Intent::AnswerCq { their: "GW4WND".into(), rpt: 4, grid: None });
    let mut heard = rx(b.next_tx().expect("report"));
    heard.snr = Some(11);
    let _ = a.on_rx(heard);
    hears(&mut b, a.next_tx());
    let closing = b.next_tx();
    hears(&mut a, closing.clone());
    let seventy_three = a.next_tx();
    let done_b = hears(&mut b, seventy_three);
    let done_a = hears(&mut a, closing);
    let record = |list: &[EngineEvent]| {
        list.iter()
            .find_map(|e| match e {
                EngineEvent::QsoComplete { record, .. } => record.clone(),
                _ => None,
            })
            .expect("a record")
    };
    let (ra, rb) = (record(&done_a), record(&done_b));
    assert_eq!((ra.call.as_str(), rb.call.as_str()), ("F1ABC", "GW4WND"));
    assert_eq!((ra.rst_sent.as_str(), ra.rst_rcvd.as_str()), ("+12", "+04"));
    assert_eq!((rb.rst_sent.as_str(), rb.rst_rcvd.as_str()), ("+04", "+12"));
}
