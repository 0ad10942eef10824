//! What a station transmits in a contact, to whom, and what its slots repeat.
use vstd::prelude::*;

use crate::clock::{date_text, fields_of, time_text};
use crate::proto::{law_report_round_trip, long_form, report_value, short_form, PayloadView};
use crate::qso::{
    call_note, cq_note, protocol_grid, quantised, same_station, ActionView, EngineView, EventView, IntentView,
    Outcome, QsoState, Reaction, RxView,
};
use crate::text::{byte_len, chars_in_bytes, char_width, lemma_byte_len_first, occurs, occurs_at, trim};

verus! {

/// The message goes out from `from`, and to `to` unless it is a CQ. This takes the
/// message apart by its form.
pub open spec fn goes(p: PayloadView, from: Seq<char>, to: Option<Seq<char>>) -> bool {
    match p {
        PayloadView::Cq { from: f, grid } => f == from,
        PayloadView::Call { from: f, to: t } => f == from && to == Some(t),
        PayloadView::CallWithReport { from: f, to: t, rpt } => f == from && to == Some(t),
        PayloadView::RReport { from: f, to: t, rpt } => f == from && to == Some(t),
        PayloadView::Rr { from: f, to: t } => f == from && to == Some(t),
        PayloadView::Rr73 { from: f, to: t } => f == from && to == Some(t),
        PayloadView::SeventyThree { from: f, to: t } => f == from && to == Some(t),
        PayloadView::Text { from: f, to: t, text } => f == from && t == to,
    }
}

/// The report that a message carries, if it carries one.
pub open spec fn carried(p: PayloadView) -> Option<int> {
    match p {
        PayloadView::CallWithReport { rpt, .. } => Some(rpt),
        PayloadView::RReport { rpt, .. } => Some(rpt),
        _ => None,
    }
}

/// The state in which a message of this form is the one to send.
pub open spec fn state_of(p: PayloadView) -> QsoState {
    match p {
        PayloadView::Cq { .. } => QsoState::CallingCq,
        PayloadView::Call { .. } => QsoState::CallingStn,
        PayloadView::CallWithReport { .. } => QsoState::SendingReport,
        PayloadView::RReport { .. } => QsoState::SendingRReport,
        PayloadView::Rr { .. } => QsoState::SendingRr,
        PayloadView::Rr73 { .. } => QsoState::Sending73,
        PayloadView::SeventyThree { .. } => QsoState::Sending73,
        PayloadView::Text { .. } => QsoState::Idle,
    }
}

/// What a slot sends comes from us and goes to the partner, unless it is a CQ; it
/// is the message of the state, with our report where it carries one. A slot is
/// silent only without a message to send: idle, listening or done, without a partner
/// to address, or with the closing message sent often enough.
pub proof fn law_slot_goes_to_partner(e: EngineView)
    ensures
        e.slot_message() matches Some(p) ==> goes(p, e.my_call, e.their_call) && p.sender() == e.my_call && (p is Cq
            || p.addressee() == e.their_call),
        e.slot_message() matches Some(p) ==> e.state == state_of(p) && !(p is Text),
        e.slot_message() matches Some(p) ==> (carried(p) matches Some(r) ==> r == e.my_report),
        e.slot_message() matches Some(p) ==> (p is Rr73 ==> e.final_is_rr73) && (p is SeventyThree
            ==> !e.final_is_rr73),
        e.slot_message() matches Some(PayloadView::Cq { from, grid }) ==> grid == protocol_grid(e.my_grid),
        e.slot_message() is None <==> {
            ||| e.state == QsoState::Idle || e.state == QsoState::Listening || e.state == QsoState::Done
            ||| e.state != QsoState::CallingCq && e.their_call is None
            ||| e.state == QsoState::Sending73 && e.tx_repeat_count >= e.max_repeats
        },
{
}

/// A slot counts the closing messages and changes nothing else; in particular the
/// next slot sends the same message again, as long as the closing message has not
/// been sent often enough.
pub proof fn law_slot_repeats_itself(e: EngineView)
    requires
        e.tx_repeat_count < 255,
    ensures
        e.after_slot() == (EngineView { tx_repeat_count: e.after_slot().tx_repeat_count, ..e }),
        e.after_slot().tx_repeat_count == e.tx_repeat_count + if e.state == QsoState::Sending73 {
            1int
        } else {
            0
        },
        e.state != QsoState::Sending73 ==> e.after_slot().slot_message() == e.slot_message(),
        e.tx_repeat_count + 1 < e.max_repeats ==> e.after_slot().slot_message() == e.slot_message(),
{
}

/// The message that an action transmits.
pub open spec fn transmitted(o: Outcome) -> Option<PayloadView> {
    match o.action {
        ActionView::Transmit(tx) => Some(tx.payload),
        _ => None,
    }
}

/// What is transmitted is remembered and reported, once, as it goes out.
pub open spec fn told_as_sent(o: Outcome) -> bool {
    match o.action {
        ActionView::Transmit(tx) => o.engine.last_tx == Some(tx) && (exists|k: int|
            0 <= k < o.events.len() && #[trigger] o.events[k] == EventView::Tx(tx)),
        _ => forall|k: int| 0 <= k < o.events.len() ==> !(#[trigger] o.events[k] is Tx),
    }
}

proof fn lemma_send_told(e: EngineView, p: PayloadView, next: QsoState, before: Seq<EventView>)
    ensures
        told_as_sent(e.send(p, next, before)),
{
    let o = e.send(p, next, before);
    assert(o.events[before.len() as int] == EventView::Tx(e.envelope(p)));
}

/// What the operator asks for goes out from our station to the one that was named,
/// with the report that was given, and as long as nothing is heard the slots repeat
/// it: a CQ, a call, or the answer to a CQ. Nothing else is asked for by listening
/// and by aborting.
pub proof fn law_slot_repeats_intent(e: EngineView, intent: IntentView, now: i64)
    requires
        intent matches IntentView::AnswerCq { their, rpt, grid } ==> i16::MIN <= rpt <= i16::MAX,
    ensures
        ({
            let o = e.after_intent(intent, now);
            &&& transmitted(o) is Some ==> o.engine.slot_message() == transmitted(o)
            &&& told_as_sent(o)
            &&& o.engine.state == match intent {
                IntentView::Listen => QsoState::Listening,
                IntentView::Abort => QsoState::Idle,
                IntentView::Cq => QsoState::CallingCq,
                IntentView::Call { .. } => QsoState::CallingStn,
                IntentView::AnswerCq { .. } => QsoState::SendingReport,
            }
            &&& (transmitted(o) is None <==> intent is Listen || intent is Abort)
            &&& transmitted(o) matches Some(p) ==> match intent {
                IntentView::Call { their } => p is Call && goes(p, e.my_call, Some(their))
                    && o.engine.their_call == Some(their),
                IntentView::AnswerCq { their, rpt, grid } => p is CallWithReport && goes(
                    p,
                    e.my_call,
                    Some(their),
                ) && carried(p) == Some(rpt) && o.engine.my_report == rpt && o.engine.their_call == Some(their)
                    && o.engine.their_grid == grid,
                _ => p is Cq && goes(p, e.my_call, None) && o.engine.their_call is None,
            }
        }),
{
    let clean = e.forgotten();
    match intent {
        IntentView::Listen => {},
        IntentView::Abort => {},
        IntentView::Cq => {
            lemma_send_told(
                clean,
                PayloadView::Cq { from: e.my_call, grid: protocol_grid(e.my_grid) },
                QsoState::CallingCq,
                seq![],
            );
        },
        IntentView::Call { their } => {
            lemma_send_told(
                EngineView { their_call: Some(their), ..clean }.begun(now),
                PayloadView::Call { from: e.my_call, to: their },
                QsoState::CallingStn,
                seq![EventView::TheirCallChanged { callsign: their, grid: None }],
            );
        },
        IntentView::AnswerCq { their, rpt, grid } => {
            lemma_send_told(
                EngineView { their_call: Some(their), their_grid: grid, my_report: rpt as i16, ..clean }.begun(now),
                PayloadView::CallWithReport { from: e.my_call, to: their, rpt },
                QsoState::SendingReport,
                seq![EventView::TheirCallChanged { callsign: their, grid }],
            );
        },
    }
}

/// A forced message goes out from our station to the one that was named, and as long
/// as nothing is heard the slots repeat it. It is the message of the state that was
/// forced, where the one for RRR is RR73; our report is the one given, brought
/// between -4 and 24.
pub proof fn law_slot_repeats_forced_message(
    e: EngineView,
    target: QsoState,
    their: Option<Seq<char>>,
    rpt: Option<i16>,
    now: i64,
)
    requires
        e.max_repeats > 0,
    ensures
        ({
            let o = e.after_force(target, their, rpt, now);
            &&& transmitted(o) is Some ==> o.engine.slot_message() == transmitted(o)
            &&& (transmitted(o) is Some <==> {
                ||| target == QsoState::CallingCq
                ||| target != QsoState::Idle && target != QsoState::Listening && target != QsoState::Done
                    && their is Some && their->0.len() > 0
            })
            &&& transmitted(o) is None ==> o.engine.state == e.state && o.engine.their_call is None
            &&& transmitted(o) matches Some(p) ==> {
                &&& goes(p, e.my_call, their)
                &&& p is Cq <==> target == QsoState::CallingCq
                &&& p is Rr73 <==> target == QsoState::SendingRr
                &&& target != QsoState::SendingRr ==> state_of(p) == target
                &&& o.engine.state == state_of(p)
                &&& !(p is Cq) ==> o.engine.their_call == their
                &&& rpt is None ==> o.engine.my_report == e.my_report
                &&& rpt matches Some(r) ==> -4 <= o.engine.my_report <= 24 && (-4 <= r <= 24
                    ==> o.engine.my_report == r) && (r < -4 ==> o.engine.my_report == -4) && (r > 24
                    ==> o.engine.my_report == 24)
                &&& carried(p) matches Some(r) ==> r == o.engine.my_report
            }
        }),
{
}

/// Counters and the form of the closing message belong to the closing states.
pub open spec fn settled(e: EngineView) -> bool {
    e.state == QsoState::Sending73 || e.state == QsoState::Done || (e.tx_repeat_count == 0 && !e.final_is_rr73)
}

/// Nothing that is heard, wanted, forced or sent breaks this.
pub proof fn law_settled_is_kept(
    e: EngineView,
    rx: RxView,
    intent: IntentView,
    target: QsoState,
    their: Option<Seq<char>>,
    rpt: Option<i16>,
    now: i64,
)
    requires
        settled(e),
    ensures
        settled(e.after_rx(rx, now).engine),
        settled(e.after_intent(intent, now).engine),
        settled(e.after_force(target, their, rpt, now).engine),
        settled(e.after_slot()),
{
}

/// A reply goes out from our station to the sender of the message that called for
/// it, which was addressed to us, with our report where it carries one. As long as
/// nothing more is heard the slots repeat it, but for the spelling of the partner's
/// call, which is the one that we began with.
pub proof fn law_slot_repeats_reply(e: EngineView, rx: RxView, now: i64)
    requires
        settled(e),
        e.max_repeats > 0,
    ensures
        ({
            let o = e.after_rx(rx, now);
            &&& told_as_sent(o)
            &&& transmitted(o) matches Some(p) ==> {
                &&& goes(p, e.my_call, Some(rx.payload.sender()))
                &&& !(p is Cq) && !(p is Text)
                &&& rx.payload.addressee() matches Some(me) && same_station(me, e.my_call)
                &&& carried(p) matches Some(r) ==> r == o.engine.my_report
                &&& o.engine.state == state_of(p)
                &&& o.engine.their_call matches Some(partner) && same_station(rx.payload.sender(), partner)
                &&& o.engine.slot_message() matches Some(q) && goes(q, e.my_call, o.engine.their_call) && carried(
                    q,
                ) == carried(p) && state_of(q) == state_of(p) && q is Rr73 == p is Rr73
                &&& e.their_call is None ==> o.engine.their_call == Some(rx.payload.sender())
                    && o.engine.slot_message() == Some(p)
            }
        }),
{
    let o = e.after_rx(rx, now);
    match e.reaction_to(rx.payload) {
        Reaction::Answer { reply, next, partner, report } => {
            let at: int = if partner {
                2
            } else {
                1
            };
            assert(o.action matches ActionView::Transmit(tx) && o.events[at] == EventView::Tx(tx));
        },
        _ => {},
    }
}

/// What a message tells us of our signal is what the record of the contact bears,
/// and only a message to us in the course of the contact tells it.
pub proof fn law_their_report_is_what_they_sent(e: EngineView, rx: RxView, now: i64)
    requires
        carried(rx.payload) matches Some(r) ==> i16::MIN <= r <= i16::MAX,
    ensures
        ({
            let o = e.after_rx(rx, now);
            &&& transmitted(o) is Some && carried(rx.payload) is Some ==> o.engine.their_report is Some
                && o.engine.their_report->0 as int == carried(rx.payload)->0
            &&& transmitted(o) is None || carried(rx.payload) is None ==> o.engine.their_report == e.their_report
        }),
{
}

/// A report is the nearest even number to the signal-to-noise ratio, the one
/// farther from zero where two are near, within -4 and 24.
pub proof fn law_report_is_nearest_even(snr: int)
    ensures
        quantised(snr) % 2 == 0,
        -4 <= snr <= 24 ==> -1 <= quantised(snr) - snr <= 1,
        -4 <= snr < 0 ==> quantised(snr) <= snr,
        0 <= snr <= 24 ==> quantised(snr) >= snr,
        snr < -4 ==> quantised(snr) == -4,
        snr > 24 ==> quantised(snr) == 24,
{
}

proof fn lemma_chars_in_bytes(s: Seq<char>, n: nat)
    requires
        chars_in_bytes(s, n) is Some,
    ensures
        chars_in_bytes(s, n)->0 <= s.len(),
        byte_len(s.subrange(0, chars_in_bytes(s, n)->0 as int)) == n,
    decreases s.len(),
{
    if n == 0 {
        assert(s.subrange(0, 0) =~= Seq::<char>::empty());
    } else {
        let tail = s.drop_first();
        let m = (n - char_width(s[0])) as nat;
        lemma_chars_in_bytes(tail, m);
        let k = chars_in_bytes(s, n)->0 as int;
        let cut = s.subrange(0, k);
        assert(cut.drop_first() =~= tail.subrange(0, k - 1));
        lemma_byte_len_first(cut);
    }
}

/// The locator on the air is the beginning of ours, four bytes of it where it has
/// as many, and all of it where it has fewer.
pub proof fn law_locator_on_the_air(grid: Seq<char>)
    requires
        crate::qso::grid_fits(Some(grid)),
    ensures
        ({
            let sent = protocol_grid(Some(grid));
            &&& sent is Some
            &&& sent->0.len() <= trim(grid).len()
            &&& trim(grid).subrange(0, sent->0.len() as int) == sent->0
            &&& byte_len(sent->0) == if byte_len(trim(grid)) < 4 {
                byte_len(trim(grid))
            } else {
                4
            }
        }),
        protocol_grid(None) is None,
{
    let t = trim(grid);
    if byte_len(t) >= 4 {
        lemma_chars_in_bytes(t, 4);
        let k = chars_in_bytes(t, 4)->0 as int;
        assert(t.subrange(0, k).len() == k);
    } else {
        assert(t.subrange(0, t.len() as int) =~= t);
    }
}

/// The record of a contact names the partner and us, writes our report and theirs
/// as numbers that read as such, nothing where they gave none, and takes the partner's
/// locator, the band and the frequency as they are.
pub proof fn law_record_reads_back(e: EngineView, now: i64)
    requires
        e.my_report > i16::MIN,
        e.their_report matches Some(r) ==> r > i16::MIN,
    ensures
        e.record(now) is Some <==> e.their_call is Some && e.qso_start_utc_ms is Some,
        e.record(now) matches Some(rec) ==> {
            &&& Some(rec.call) == e.their_call
            &&& rec.operator == e.my_call
            &&& report_value(rec.rst_sent) == Some(e.my_report as int)
            &&& e.their_report is None ==> rec.rst_rcvd.len() == 0
            &&& e.their_report matches Some(r) ==> report_value(rec.rst_rcvd) == Some(r as int)
            &&& rec.gridsquare == e.their_grid
            &&& rec.band == e.band
            &&& rec.freq == e.freq_mhz
            &&& rec.mode == seq!['M', 'S', 'K', '1', '4', '4']
            &&& rec.qso_date == date_text(fields_of(e.qso_start_utc_ms->0 as int))
            &&& rec.time_on == time_text(fields_of(e.qso_start_utc_ms->0 as int))
            &&& e.qso_end_utc_ms is None ==> rec.time_off == time_text(fields_of(now as int))
            &&& e.qso_end_utc_ms matches Some(end) ==> rec.time_off == time_text(fields_of(end as int))
        },
{
    reveal_strlit("MSK144");
    law_report_round_trip(e.my_report as int);
    if e.their_report is Some {
        law_report_round_trip(e.their_report->0 as int);
    }
}

/// The message is addressed to us.
pub open spec fn to_us(e: EngineView, p: PayloadView) -> bool {
    p.addressee() matches Some(to) && same_station(to, e.my_call)
}

/// The message comes from the partner.
pub open spec fn from_partner(e: EngineView, p: PayloadView) -> bool {
    e.their_call matches Some(their) && same_station(p.sender(), their)
}

/// What is answered, and how: a call to us while we listen with a report; a report
/// while we listen or call CQ, or from the station that we call, with an R-report; the
/// partner's R-report for our report with RR73; the partner's RRR or RR73 for our
/// R-report, and what closes the contact after our RRR, with 73. Nothing else is
/// answered.
pub proof fn law_what_is_answered(e: EngineView, rx: RxView, now: i64)
    ensures
        ({
            let p = rx.payload;
            let s = e.state;
            let both = to_us(e, p) && from_partner(e, p);
            let t = transmitted(e.after_rx(rx, now));
            &&& (t matches Some(q) && q is CallWithReport) <==> p is Call && to_us(e, p) && s == QsoState::Listening
            &&& (t matches Some(q) && q is RReport) <==> p is CallWithReport && to_us(e, p) && (s
                == QsoState::Listening || s == QsoState::CallingCq || (s == QsoState::CallingStn && both))
            &&& (t matches Some(q) && q is Rr73) <==> p is RReport && both && (s == QsoState::SendingReport || s
                == QsoState::SendingRReport)
            &&& (t matches Some(q) && q is SeventyThree) <==> both && {
                ||| p is Rr && s == QsoState::SendingRReport
                ||| p is Rr73 && (s == QsoState::SendingRReport || s == QsoState::SendingRr)
                ||| p is SeventyThree && s == QsoState::SendingRr
            }
        }),
{
}

/// What completes a contact: the partner's 73 or RR73 to us once our closing message
/// has gone out, and the partner's call to anyone once our R-report, RRR or closing
/// message is under way.
pub proof fn law_what_completes(e: EngineView, rx: RxView, now: i64)
    requires
        e.state != QsoState::Done,
    ensures
        e.after_rx(rx, now).engine.state == QsoState::Done <==> from_partner(e, rx.payload) && {
            ||| (rx.payload is Rr73 || rx.payload is SeventyThree) && to_us(e, rx.payload) && e.state
                == QsoState::Sending73 && e.tx_repeat_count >= 1
            ||| (rx.payload is Cq || rx.payload is Call) && (e.state == QsoState::SendingRReport || e.state
                == QsoState::SendingRr || e.state == QsoState::Sending73)
        },
        e.after_rx(rx, now).engine.state == QsoState::Done ==> e.after_rx(rx, now).engine.qso_end_utc_ms == Some(now),
{
}

/// A message that is neither answered nor completes the contact leaves everything as
/// it was, but for what was heard last and the report that goes by its strength.
pub proof fn law_rest_is_only_heard(e: EngineView, rx: RxView, now: i64)
    requires
        e.state != QsoState::Done,
        transmitted(e.after_rx(rx, now)) is None,
        e.after_rx(rx, now).engine.state != QsoState::Done,
    ensures
        e.after_rx(rx, now).engine == (EngineView {
            last_rx: Some(rx),
            my_report: e.after_rx(rx, now).engine.my_report,
            ..e
        }),
        rx.snr is None ==> e.after_rx(rx, now).engine.my_report == e.my_report,
        e.after_rx(rx, now).events == seq![EventView::Rx(rx)],
{
}

/// A contact begins when its first message goes out or its partner is first answered,
/// and a CQ begins none until someone answers it, unless it was forced.
pub proof fn law_when_a_contact_begins(
    e: EngineView,
    rx: RxView,
    intent: IntentView,
    target: QsoState,
    their: Option<Seq<char>>,
    rpt: Option<i16>,
    now: i64,
)
    ensures
        intent is Call || intent is AnswerCq ==> e.after_intent(intent, now).engine.qso_start_utc_ms == Some(now),
        !(intent is Call || intent is AnswerCq) ==> e.after_intent(intent, now).engine.qso_start_utc_ms is None,
        e.after_intent(intent, now).engine.qso_end_utc_ms is None,
        e.after_intent(intent, now).engine.their_report is None,
        transmitted(e.after_force(target, their, rpt, now)) is Some ==> e.after_force(
            target,
            their,
            rpt,
            now,
        ).engine.qso_start_utc_ms == Some(now),
        transmitted(e.after_force(target, their, rpt, now)) is None ==> e.after_force(
            target,
            their,
            rpt,
            now,
        ).engine.qso_start_utc_ms is None,
        e.state == QsoState::Listening || e.state == QsoState::CallingCq ==> (transmitted(e.after_rx(rx, now)) is Some
            ==> e.after_rx(rx, now).engine.their_call == Some(rx.payload.sender()) && e.after_rx(
            rx,
            now,
        ).engine.qso_start_utc_ms is Some),
        e.qso_start_utc_ms is None && e.after_rx(rx, now).engine.qso_start_utc_ms is Some ==> e.after_rx(
            rx,
            now,
        ).engine.qso_start_utc_ms == Some(now),
{
}

/// A new partner is reported where there is one, with the locator that is known.
pub proof fn law_new_partner_is_reported(
    e: EngineView,
    rx: RxView,
    intent: IntentView,
    target: QsoState,
    their: Option<Seq<char>>,
    rpt: Option<i16>,
    now: i64,
)
    ensures
        intent matches IntentView::Call { their } ==> e.after_intent(intent, now).events[0]
            == (EventView::TheirCallChanged { callsign: their, grid: None }),
        intent matches IntentView::AnswerCq { their, rpt, grid } ==> e.after_intent(intent, now).events[0]
            == (EventView::TheirCallChanged { callsign: their, grid }),
        target != QsoState::CallingCq && transmitted(e.after_force(target, their, rpt, now)) is Some
            ==> e.after_force(target, their, rpt, now).events[0] == (EventView::TheirCallChanged {
            callsign: their->0,
            grid: None,
        }),
        e.after_rx(rx, now).engine.their_call != e.their_call ==> e.after_rx(rx, now).events[1]
            == (EventView::TheirCallChanged { callsign: rx.payload.sender(), grid: None }),
        e.after_rx(rx, now).events[0] == EventView::Rx(rx),
{
}

/// Every change of state is reported with the new state, last of all, and nothing
/// else is.
pub proof fn law_state_changes_are_reported(e: EngineView, rx: RxView, intent: IntentView, now: i64)
    ensures
        ({
            let o = e.after_rx(rx, now);
            &&& o.engine.state != e.state ==> o.events.last() == EventView::StateChanged(o.engine.state)
            &&& o.engine.state == e.state ==> !(o.events.last() is StateChanged)
        }),
        ({
            let o = e.after_intent(intent, now);
            &&& o.engine.state != e.state ==> o.events.len() > 0 && o.events.last() == EventView::StateChanged(
                o.engine.state,
            )
            &&& o.engine.state == e.state && o.events.len() > 0 ==> !(o.events.last() is StateChanged)
        }),
{
}

/// Two callsigns name one station where they differ only in case and in the white
/// space around them; this is mutual.
pub proof fn law_same_station(a: Seq<char>, b: Seq<char>, c: Seq<char>)
    ensures
        same_station(a, a),
        same_station(a, b) == same_station(b, a),
        same_station(a, b) && same_station(b, c) ==> same_station(a, c),
{
}

/// The operator is told why a contact counts as complete: that the partner calls CQ or
/// someone else, and after which of our messages.
pub proof fn law_notes_tell_why(state: QsoState)
    ensures
        state == QsoState::Sending73 ==> occurs(cq_note(state), seq!['C', 'Q']) && occurs(cq_note(state), seq!['e', 'a', 'r', 'l', 'y']),
        state == QsoState::SendingRReport ==> occurs(cq_note(state), seq!['C', 'Q']) && occurs(cq_note(state), seq!['R', '-', 'r', 'e', 'p', 'o', 'r', 't']),
        state == QsoState::SendingRr ==> occurs(cq_note(state), seq!['C', 'Q']) && occurs(cq_note(state), seq!['R', 'R', 'R']),
        state == QsoState::Sending73 ==> occurs(call_note(state), seq!['s', 'o', 'm', 'e', 'o', 'n', 'e', ' ', 'e', 'l', 's', 'e']) && occurs(call_note(state), seq!['e', 'a', 'r', 'l', 'y']),
        state == QsoState::SendingRReport ==> occurs(call_note(state), seq!['s', 'o', 'm', 'e', 'o', 'n', 'e', ' ', 'e', 'l', 's', 'e']) && occurs(call_note(state), seq!['R', '-', 'r', 'e', 'p', 'o', 'r', 't']),
        state == QsoState::SendingRr ==> occurs(call_note(state), seq!['s', 'o', 'm', 'e', 'o', 'n', 'e', ' ', 'e', 'l', 's', 'e']) && occurs(call_note(state), seq!['R', 'R', 'R']),
{
    reveal_strlit("Partner calling CQ — terminating QSO early");
    assert("Partner calling CQ — terminating QSO early"@.subrange(16, 18) =~= seq!['C', 'Q']);
    assert(occurs_at("Partner calling CQ — terminating QSO early"@, seq!['C', 'Q'], 16));
    assert("Partner calling CQ — terminating QSO early"@.subrange(37, 42) =~= seq!['e', 'a', 'r', 'l', 'y']);
    assert(occurs_at("Partner calling CQ — terminating QSO early"@, seq!['e', 'a', 'r', 'l', 'y'], 37));
    reveal_strlit("Partner moved to CQ after our R-report — auto-completing QSO");
    assert("Partner moved to CQ after our R-report — auto-completing QSO"@.subrange(17, 19) =~= seq!['C', 'Q']);
    assert(occurs_at("Partner moved to CQ after our R-report — auto-completing QSO"@, seq!['C', 'Q'], 17));
    assert("Partner moved to CQ after our R-report — auto-completing QSO"@.subrange(30, 38) =~= seq!['R', '-', 'r', 'e', 'p', 'o', 'r', 't']);
    assert(occurs_at("Partner moved to CQ after our R-report — auto-completing QSO"@, seq!['R', '-', 'r', 'e', 'p', 'o', 'r', 't'], 30));
    reveal_strlit("Partner moved to CQ after our RRR — auto-completing QSO");
    assert("Partner moved to CQ after our RRR — auto-completing QSO"@.subrange(17, 19) =~= seq!['C', 'Q']);
    assert(occurs_at("Partner moved to CQ after our RRR — auto-completing QSO"@, seq!['C', 'Q'], 17));
    assert("Partner moved to CQ after our RRR — auto-completing QSO"@.subrange(30, 33) =~= seq!['R', 'R', 'R']);
    assert(occurs_at("Partner moved to CQ after our RRR — auto-completing QSO"@, seq!['R', 'R', 'R'], 30));
    reveal_strlit("Partner calling someone else — terminating QSO early");
    assert("Partner calling someone else — terminating QSO early"@.subrange(16, 28) =~= seq!['s', 'o', 'm', 'e', 'o', 'n', 'e', ' ', 'e', 'l', 's', 'e']);
    assert(occurs_at("Partner calling someone else — terminating QSO early"@, seq!['s', 'o', 'm', 'e', 'o', 'n', 'e', ' ', 'e', 'l', 's', 'e'], 16));
    assert("Partner calling someone else — terminating QSO early"@.subrange(47, 52) =~= seq!['e', 'a', 'r', 'l', 'y']);
    assert(occurs_at("Partner calling someone else — terminating QSO early"@, seq!['e', 'a', 'r', 'l', 'y'], 47));
    reveal_strlit("Partner calling someone else after our R-report — auto-completing");
    assert("Partner calling someone else after our R-report — auto-completing"@.subrange(16, 28) =~= seq!['s', 'o', 'm', 'e', 'o', 'n', 'e', ' ', 'e', 'l', 's', 'e']);
    assert(occurs_at("Partner calling someone else after our R-report — auto-completing"@, seq!['s', 'o', 'm', 'e', 'o', 'n', 'e', ' ', 'e', 'l', 's', 'e'], 16));
    assert("Partner calling someone else after our R-report — auto-completing"@.subrange(39, 47) =~= seq!['R', '-', 'r', 'e', 'p', 'o', 'r', 't']);
    assert(occurs_at("Partner calling someone else after our R-report — auto-completing"@, seq!['R', '-', 'r', 'e', 'p', 'o', 'r', 't'], 39));
    reveal_strlit("Partner calling someone else after our RRR — auto-completing");
    assert("Partner calling someone else after our RRR — auto-completing"@.subrange(16, 28) =~= seq!['s', 'o', 'm', 'e', 'o', 'n', 'e', ' ', 'e', 'l', 's', 'e']);
    assert(occurs_at("Partner calling someone else after our RRR — auto-completing"@, seq!['s', 'o', 'm', 'e', 'o', 'n', 'e', ' ', 'e', 'l', 's', 'e'], 16));
    assert("Partner calling someone else after our RRR — auto-completing"@.subrange(39, 42) =~= seq!['R', 'R', 'R']);
    assert(occurs_at("Partner calling someone else after our RRR — auto-completing"@, seq!['R', 'R', 'R'], 39));
}

/// The states by the names that are shown.
pub proof fn law_state_names()
    ensures
        QsoState::Idle.name() == seq!['I', 'D', 'L', 'E'],
        QsoState::Listening.name() == seq!['L', 'I', 'S', 'T', 'E', 'N'],
        QsoState::CallingCq.name() == seq!['C', 'A', 'L', 'L', 'I', 'N', 'G', '_', 'C', 'Q'],
        QsoState::CallingStn.name() == seq!['C', 'A', 'L', 'L', 'I', 'N', 'G', '_', 'S', 'T', 'N'],
        QsoState::SendingReport.name() == seq!['S', 'E', 'N', 'D', '_', 'R', 'P', 'T'],
        QsoState::SendingRReport.name() == seq!['S', 'E', 'N', 'D', '_', 'R', 'R', 'P', 'T'],
        QsoState::SendingRr.name() == seq!['S', 'E', 'N', 'D', '_', 'R', 'R'],
        QsoState::Sending73.name() == seq!['S', 'E', 'N', 'D', '_', '7', '3'],
        QsoState::Done.name() == seq!['D', 'O', 'N', 'E'],
{
    reveal_strlit("IDLE");
    assert("IDLE"@ =~= seq!['I', 'D', 'L', 'E']);
    reveal_strlit("LISTEN");
    assert("LISTEN"@ =~= seq!['L', 'I', 'S', 'T', 'E', 'N']);
    reveal_strlit("CALLING_CQ");
    assert("CALLING_CQ"@ =~= seq!['C', 'A', 'L', 'L', 'I', 'N', 'G', '_', 'C', 'Q']);
    reveal_strlit("CALLING_STN");
    assert("CALLING_STN"@ =~= seq!['C', 'A', 'L', 'L', 'I', 'N', 'G', '_', 'S', 'T', 'N']);
    reveal_strlit("SEND_RPT");
    assert("SEND_RPT"@ =~= seq!['S', 'E', 'N', 'D', '_', 'R', 'P', 'T']);
    reveal_strlit("SEND_RRPT");
    assert("SEND_RRPT"@ =~= seq!['S', 'E', 'N', 'D', '_', 'R', 'R', 'P', 'T']);
    reveal_strlit("SEND_RR");
    assert("SEND_RR"@ =~= seq!['S', 'E', 'N', 'D', '_', 'R', 'R']);
    reveal_strlit("SEND_73");
    assert("SEND_73"@ =~= seq!['S', 'E', 'N', 'D', '_', '7', '3']);
    reveal_strlit("DONE");
    assert("DONE"@ =~= seq!['D', 'O', 'N', 'E']);
}

/// A message goes out in its short form exactly where that is wanted, there is a
/// partner and it has one, and otherwise in full.
pub proof fn law_text_on_the_air(e: EngineView, p: PayloadView)
    ensures
        ({
            let tx = e.envelope(p);
            &&& tx.payload == p
            &&& tx.format == p.kind()
            &&& e.use_short_msg && e.their_call is Some && short_form(p) is Some ==> tx.raw == short_form(p)->0
            &&& !e.use_short_msg || e.their_call is None || short_form(p) is None ==> tx.raw == long_form(p)
        }),
{
}

/// Every message that goes out does so as the engine sends messages at that time.
pub proof fn law_sent_as_enveloped(e: EngineView, rx: RxView, intent: IntentView, now: i64)
    ensures
        e.after_rx(rx, now).action matches ActionView::Transmit(tx) ==> tx == e.after_rx(rx, now).engine.envelope(
            tx.payload,
        ),
        e.after_intent(intent, now).action matches ActionView::Transmit(tx) ==> tx == e.after_intent(
            intent,
            now,
        ).engine.envelope(tx.payload),
{
}

/// The report goes by the signal only until it is fixed: while we are idle, listen or
/// call.
pub proof fn law_when_the_report_is_fixed(s: QsoState)
    ensures
        !s.committed() <==> s == QsoState::Idle || s == QsoState::Listening || s == QsoState::CallingCq || s
            == QsoState::CallingStn,
{
}

/// The engine gives up its closing message once it was due more often than it may be
/// sent.
pub proof fn law_when_exhausted(e: EngineView)
    ensures
        e.exhausted() ==> e.state == QsoState::Sending73 && e.slot_message() is None,
        e.exhausted() <==> e.state == QsoState::Sending73 && e.tx_repeat_count >= e.max_repeats + 1,
{
}

/// What the operator wants or forces begins anew: no report and no locator of the
/// partner is known but the one given, nothing has been repeated, nothing has ended.
pub proof fn law_operator_begins_anew(
    e: EngineView,
    intent: IntentView,
    target: QsoState,
    their: Option<Seq<char>>,
    rpt: Option<i16>,
    now: i64,
)
    ensures
        ({
            let o = e.after_intent(intent, now).engine;
            &&& o.their_report is None && o.qso_end_utc_ms is None
            &&& o.tx_repeat_count == 0 && !o.final_is_rr73
            &&& o.their_grid == match intent {
                IntentView::AnswerCq { their, rpt, grid } => grid,
                _ => None,
            }
            &&& !(intent is AnswerCq) ==> o.my_report == e.my_report
            &&& o.my_call == e.my_call && o.my_grid == e.my_grid && o.last_rx == e.last_rx
            &&& o.band == e.band && o.freq_mhz == e.freq_mhz
            &&& o.max_repeats == e.max_repeats && o.use_short_msg == e.use_short_msg
        }),
        ({
            let o = e.after_force(target, their, rpt, now).engine;
            let sends = target != QsoState::Idle && target != QsoState::Listening && target != QsoState::Done;
            &&& o.their_report is None && o.qso_end_utc_ms is None && o.their_grid is None
            &&& o.tx_repeat_count == 0
            &&& o.final_is_rr73 ==> target == QsoState::SendingRr
            &&& !sends || rpt is None ==> o.my_report == e.my_report
            &&& sends && rpt is Some ==> -4 <= o.my_report <= 24 && (-4 <= rpt->0 <= 24 ==> o.my_report == rpt->0)
            &&& o.my_call == e.my_call && o.my_grid == e.my_grid && o.last_rx == e.last_rx
            &&& o.band == e.band && o.freq_mhz == e.freq_mhz
            &&& o.max_repeats == e.max_repeats && o.use_short_msg == e.use_short_msg
        }),
{
}

/// Forcing a state that sends nothing, or one for which the partner is missing, reports
/// nothing.
pub proof fn law_forced_silence(
    e: EngineView,
    target: QsoState,
    their: Option<Seq<char>>,
    rpt: Option<i16>,
    now: i64,
)
    requires
        transmitted(e.after_force(target, their, rpt, now)) is None,
    ensures
        e.after_force(target, their, rpt, now).events.len() == 0,
        e.after_force(target, their, rpt, now).engine.last_tx == e.last_tx,
{
}

} // verus!
