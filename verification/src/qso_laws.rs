//! What holds of every contact.
use vstd::prelude::*;

use crate::proto::{report_text, PayloadView};
use crate::qso::{
    same_station, quantised, ActionView, EngineView, EventView, IntentView, Outcome, QsoState, Reaction,
    RxView,
};

verus! {

/// Once a report is fixed, nothing that is heard changes it.
pub proof fn law_report_locked_once_committed(e: EngineView, rx: RxView, now: i64)
    requires
        e.state.committed(),
    ensures
        e.after_rx(rx, now).engine.my_report == e.my_report,
{
}

/// Until then, every message that is heard with a signal-to-noise ratio sets it,
/// whoever sent the message.
pub proof fn law_report_follows_signal(e: EngineView, rx: RxView, now: i64)
    requires
        !e.state.committed(),
        rx.snr is Some,
    ensures
        e.after_rx(rx, now).engine.my_report == quantised(rx.snr->0 as int),
        -4 <= e.after_rx(rx, now).engine.my_report <= 24,
        e.after_rx(rx, now).engine.my_report % 2 == 0,
{
}

/// A contact is reported complete exactly when hearing a message takes the
/// engine to the state `Done`, and then nothing is sent.
pub proof fn law_complete_means_done(e: EngineView, rx: RxView, now: i64)
    requires
        e.state != QsoState::Done,
    ensures
        ({
            let o = e.after_rx(rx, now);
            &&& (o.engine.state == QsoState::Done) == (exists|k: int|
                0 <= k < o.events.len() && #[trigger] o.events[k] is QsoComplete)
            &&& o.engine.state == QsoState::Done ==> o.action is Nothing
        }),
{
    let o = e.after_rx(rx, now);
    match e.reaction_to(rx.payload) {
        Reaction::Ignore => {},
        Reaction::Answer { reply, next, partner, report } => {
            assert forall|k: int| 0 <= k < o.events.len() implies !(#[trigger] o.events[k] is QsoComplete) by {}
        },
        Reaction::Complete { note } => {
            let k: int = if note is Some {
                2
            } else {
                1
            };
            assert(o.events[k] is QsoComplete);
        },
    }
}

/// Every message that is heard is reported first and remembered.
pub proof fn law_heard_is_reported(e: EngineView, rx: RxView, now: i64)
    ensures
        e.after_rx(rx, now).events.len() > 0,
        e.after_rx(rx, now).events[0] == EventView::Rx(rx),
        e.after_rx(rx, now).engine.last_rx == Some(rx),
{
}

/// With a partner, a message from anyone else leaves the contact where it is,
/// unless we are still open to callers.
pub proof fn law_strangers_are_ignored(e: EngineView, rx: RxView, now: i64)
    requires
        e.state != QsoState::Listening && e.state != QsoState::CallingCq,
        !(e.their_call matches Some(their) && same_station(rx.payload.sender(), their)),
    ensures
        e.after_rx(rx, now).engine == e.heard(rx),
        e.after_rx(rx, now).action is Nothing,
{
}

/// A completed contact stays completed until the operator wants something.
pub proof fn law_done_is_final(e: EngineView, rx: RxView, now: i64)
    requires
        e.state == QsoState::Done,
    ensures
        e.after_rx(rx, now).engine.state == QsoState::Done,
        e.after_rx(rx, now).action is Nothing,
        e.slot_message() is None,
{
}

/// The partner's R-report is answered with RR73, and RR73 is what is repeated.
pub proof fn law_r_report_answered_with_rr73(e: EngineView, rx: RxView, now: i64)
    requires
        e.state == QsoState::SendingReport || e.state == QsoState::SendingRReport,
        rx.payload is RReport,
        rx.payload.addressee() matches Some(to) && same_station(to, e.my_call),
        e.their_call matches Some(their) && same_station(rx.payload.sender(), their),
        e.tx_repeat_count < e.max_repeats,
    ensures
        ({
            let o = e.after_rx(rx, now);
            &&& o.action matches ActionView::Transmit(tx) && tx.payload is Rr73
            &&& o.engine.state == QsoState::Sending73
            &&& o.engine.slot_message() matches Some(p) && p is Rr73
        }),
{
}

/// RRR or RR73 for our R-report is answered with a plain 73.
pub proof fn law_rrr_answered_with_73(e: EngineView, rx: RxView, now: i64)
    requires
        e.state == QsoState::SendingRReport,
        rx.payload is Rr || rx.payload is Rr73,
        rx.payload.addressee() matches Some(to) && same_station(to, e.my_call),
        e.their_call matches Some(their) && same_station(rx.payload.sender(), their),
    ensures
        ({
            let o = e.after_rx(rx, now);
            &&& o.action matches ActionView::Transmit(tx) && tx.payload is SeventyThree
            &&& o.engine.state == QsoState::Sending73
            &&& o.engine.tx_repeat_count == 0
        }),
{
}

/// A partner who calls CQ or another station after our R-report, RRR or closing
/// message has completed the contact.
pub proof fn law_partner_moving_on_completes(e: EngineView, rx: RxView, now: i64)
    requires
        e.state.nearly_done(),
        rx.payload is Cq || rx.payload is Call,
        e.their_call matches Some(their) && same_station(rx.payload.sender(), their),
    ensures
        e.after_rx(rx, now).engine.state == QsoState::Done,
        e.after_rx(rx, now).engine.qso_end_utc_ms == Some(now),
{
}

/// Listening and aborting forget the partner and send nothing.
pub proof fn law_abort_forgets_partner(e: EngineView, now: i64)
    ensures
        e.after_intent(IntentView::Abort, now).engine == (EngineView { state: QsoState::Idle, ..e.forgotten() }),
        e.after_intent(IntentView::Listen, now).engine == (EngineView {
            state: QsoState::Listening,
            ..e.forgotten()
        }),
        e.after_intent(IntentView::Abort, now).action is Nothing,
        e.after_intent(IntentView::Listen, now).action is Nothing,
{
}

/// The engine after `n` transmit slots.
pub open spec fn after_slots(e: EngineView, n: nat) -> EngineView
    decreases n,
{
    if n == 0 {
        e
    } else {
        after_slots(e, (n - 1) as nat).after_slot()
    }
}

proof fn lemma_slots_counted(e: EngineView, n: nat)
    requires
        e.state == QsoState::Sending73,
        e.tx_repeat_count + n <= u8::MAX,
    ensures
        after_slots(e, n) == (EngineView { tx_repeat_count: (e.tx_repeat_count + n) as u8, ..e }),
    decreases n,
{
    if n > 0 {
        lemma_slots_counted(e, (n - 1) as nat);
    }
}

/// The closing message goes out exactly `max_repeats` times; the slot after that
/// sends nothing, and the contact can then be completed, not before.
pub proof fn law_closing_message_runs_out(e: EngineView, n: nat)
    requires
        e.state == QsoState::Sending73,
        e.their_call is Some,
        e.tx_repeat_count == 0,
        e.max_repeats < u8::MAX,
        n <= e.max_repeats + 1,
    ensures
        after_slots(e, n).slot_message() is Some <==> n < e.max_repeats,
        after_slots(e, n).exhausted() <==> n == e.max_repeats + 1,
{
    lemma_slots_counted(e, n);
}

/// What the operator and the log need to know of us never changes by what is
/// heard.
pub proof fn law_own_station_unchanged(e: EngineView, rx: RxView, now: i64)
    ensures
        ({
            let n = e.after_rx(rx, now).engine;
            &&& n.my_call == e.my_call
            &&& n.my_grid == e.my_grid
            &&& n.band == e.band
            &&& n.freq_mhz == e.freq_mhz
            &&& n.use_short_msg == e.use_short_msg
            &&& n.max_repeats == e.max_repeats
        }),
{
}

/// The start of a contact, once set, stays until the partner is forgotten.
pub proof fn law_start_is_kept(e: EngineView, rx: RxView, now: i64)
    requires
        e.qso_start_utc_ms is Some,
    ensures
        e.after_rx(rx, now).engine.qso_start_utc_ms == e.qso_start_utc_ms,
{
}

/// A contact that completes with a partner and a start has a record of it.
pub proof fn law_completed_contact_has_record(e: EngineView, rx: RxView, now: i64)
    requires
        e.state != QsoState::Done,
        e.after_rx(rx, now).engine.state == QsoState::Done,
        e.qso_start_utc_ms is Some,
    ensures
        exists|k: int|
            0 <= k < e.after_rx(rx, now).events.len()
                && (#[trigger] e.after_rx(rx, now).events[k] matches EventView::QsoComplete { their, record }
                && record is Some && their == rx.payload.sender()),
{
    let o = e.after_rx(rx, now);
    match e.reaction_to(rx.payload) {
        Reaction::Complete { note } => {
            let k: int = if note is Some {
                2
            } else {
                1
            };
            assert(o.events[k] is QsoComplete);
        },
        _ => {},
    }
}

/// We acknowledge with RR73 only: nothing that is heard, wanted or forced makes us
/// send RRR or takes us to the state that sends it.
pub proof fn law_rrr_is_never_sent(e: EngineView, rx: RxView, intent: IntentView, now: i64)
    requires
        e.state != QsoState::SendingRr,
    ensures
        ({
            let o = e.after_rx(rx, now);
            o.engine.state != QsoState::SendingRr && !(o.action matches ActionView::Transmit(tx) && tx.payload is Rr)
        }),
        ({
            let o = e.after_intent(intent, now);
            o.engine.state != QsoState::SendingRr && !(o.action matches ActionView::Transmit(tx) && tx.payload is Rr)
        }),
        forall|target: QsoState, their: Option<Seq<char>>, rpt: Option<i16>|
            ({
                let o = #[trigger] e.after_force(target, their, rpt, now);
                o.engine.state != QsoState::SendingRr && !(o.action matches ActionView::Transmit(tx)
                    && tx.payload is Rr)
            }),
        !(e.slot_message() matches Some(p) && p is Rr),
{
}

/// What happens when a payload is heard; everything else of the reception is as in
/// `like`.
pub open spec fn hearing(e: EngineView, p: PayloadView, like: RxView, now: i64) -> Outcome {
    e.after_rx(RxView { payload: p, ..like }, now)
}

/// A CQ that is answered: the caller's report is answered with an R-report, the
/// caller's RRR with 73, and the caller's 73, once we have sent ours, completes the
/// contact. Its record bears both reports.
pub proof fn law_answered_cq_completes(
    e: EngineView,
    from: Seq<char>,
    to: Seq<char>,
    rpt: i16,
    like: RxView,
    now: i64,
)
    requires
        e.state == QsoState::CallingCq,
        same_station(to, e.my_call),
        e.max_repeats > 0,
    ensures
        ({
            let a = hearing(e, PayloadView::CallWithReport { from, to, rpt: rpt as int }, like, now);
            let b = hearing(a.engine, PayloadView::Rr { from, to }, like, now);
            let c = hearing(b.engine.after_slot(), PayloadView::SeventyThree { from, to }, like, now);
            let mine = a.engine.my_report as int;
            &&& a.action matches ActionView::Transmit(tx) && tx.payload == (PayloadView::RReport {
                from: e.my_call,
                to: from,
                rpt: mine,
            })
            &&& b.action matches ActionView::Transmit(tx) && tx.payload == (PayloadView::SeventyThree {
                from: e.my_call,
                to: from,
            })
            &&& b.engine.slot_message() == Some(
                if e.final_is_rr73 {
                    PayloadView::Rr73 { from: e.my_call, to: from }
                } else {
                    PayloadView::SeventyThree { from: e.my_call, to: from }
                },
            )
            &&& c.engine.state == QsoState::Done
            &&& c.engine.record(now) matches Some(r) && r.call == from && r.operator == e.my_call && r.rst_sent
                == report_text(mine) && r.rst_rcvd == report_text(rpt as int)
        }),
{
}

/// A station that calls us out of the blue: it gets its report, its R-report is
/// answered with RR73, and its 73, once we have sent ours, completes the contact.
pub proof fn law_cold_call_completes(
    e: EngineView,
    from: Seq<char>,
    to: Seq<char>,
    rpt: i16,
    like: RxView,
    now: i64,
)
    requires
        e.state == QsoState::Listening,
        same_station(to, e.my_call),
        e.tx_repeat_count < e.max_repeats,
    ensures
        ({
            let a = hearing(e, PayloadView::Call { from, to }, like, now);
            let b = hearing(a.engine, PayloadView::RReport { from, to, rpt: rpt as int }, like, now);
            let c = hearing(b.engine.after_slot(), PayloadView::SeventyThree { from, to }, like, now);
            let mine = a.engine.my_report as int;
            &&& a.action matches ActionView::Transmit(tx) && tx.payload == (PayloadView::CallWithReport {
                from: e.my_call,
                to: from,
                rpt: mine,
            })
            &&& b.action matches ActionView::Transmit(tx) && tx.payload == (PayloadView::Rr73 {
                from: e.my_call,
                to: from,
            })
            &&& b.engine.slot_message() == Some(PayloadView::Rr73 { from: e.my_call, to: from })
            &&& c.engine.state == QsoState::Done
            &&& c.engine.record(now) matches Some(r) && r.call == from && r.operator == e.my_call && r.rst_sent
                == report_text(mine) && r.rst_rcvd == report_text(rpt as int)
        }),
{
}

/// A station that we call: its report is answered with an R-report, its RRR with
/// 73, and its 73, once we have sent ours, completes the contact.
pub proof fn law_called_station_completes(
    e: EngineView,
    their: Seq<char>,
    to: Seq<char>,
    rpt: i16,
    like: RxView,
    now: i64,
)
    requires
        same_station(to, e.my_call),
        e.max_repeats > 0,
    ensures
        ({
            let z = e.after_intent(IntentView::Call { their }, now);
            let a = hearing(z.engine, PayloadView::CallWithReport { from: their, to, rpt: rpt as int }, like, now);
            let b = hearing(a.engine, PayloadView::Rr { from: their, to }, like, now);
            let c = hearing(b.engine.after_slot(), PayloadView::SeventyThree { from: their, to }, like, now);
            let mine = a.engine.my_report as int;
            &&& z.action matches ActionView::Transmit(tx) && tx.payload == (PayloadView::Call {
                from: e.my_call,
                to: their,
            })
            &&& a.action matches ActionView::Transmit(tx) && tx.payload == (PayloadView::RReport {
                from: e.my_call,
                to: their,
                rpt: mine,
            })
            &&& b.action matches ActionView::Transmit(tx) && tx.payload == (PayloadView::SeventyThree {
                from: e.my_call,
                to: their,
            })
            &&& c.engine.state == QsoState::Done
            &&& c.engine.record(now) matches Some(r) && r.call == their && r.operator == e.my_call && r.rst_sent
                == report_text(mine) && r.rst_rcvd == report_text(rpt as int)
        }),
{
}

/// Two stations that hear each other complete a contact: `a` calls CQ and `b`
/// answers. What the one hears is what the other has for its slot, and `b` repeats
/// its closing message until it hears that of `a`. Both logs then name the other
/// station, and what the one sent as its report the other received.
pub proof fn law_two_stations_complete(
    a: EngineView,
    b: EngineView,
    rpt: i16,
    grid: Option<Seq<char>>,
    like: RxView,
    now: i64,
)
    requires
        a.max_repeats > 0,
        b.max_repeats > 0,
    ensures
        ({
            let a1 = a.after_intent(IntentView::Cq, now).engine;
            let b1 = b.after_intent(IntentView::AnswerCq { their: a.my_call, rpt: rpt as int, grid }, now).engine;
            let a2 = hearing(a1, b1.slot_message()->0, like, now).engine;
            let b2 = hearing(b1, a2.slot_message()->0, like, now).engine;
            let a3 = hearing(a2, b2.slot_message()->0, like, now).engine;
            let b3 = hearing(b2.after_slot(), a3.slot_message()->0, like, now).engine;
            let a4 = hearing(a3.after_slot(), b2.slot_message()->0, like, now).engine;
            &&& b1.slot_message() is Some && a2.slot_message() is Some && b2.slot_message() is Some
                && a3.slot_message() is Some
            &&& a4.state == QsoState::Done && b3.state == QsoState::Done
            &&& a4.record(now) is Some && b3.record(now) is Some
            &&& a4.record(now)->0.call == b.my_call && b3.record(now)->0.call == a.my_call
            &&& a4.record(now)->0.rst_rcvd == b3.record(now)->0.rst_sent
            &&& b3.record(now)->0.rst_rcvd == a4.record(now)->0.rst_sent
        }),
{
}

} // verus!
