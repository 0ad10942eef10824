//! The contact as a state machine: what the operator wants, what is heard and
//! what is sent next.
//!
//! ```text
//! A calls CQ                          A is called
//!   A: CQ A grid                        B: A B
//!        B: A B +NN                       A: B A +NN
//!   A: B A R+NN                         B: A B R+NN
//!        B: A B RRR                       A: B A RR73
//!   A: B A 73 (repeated)                B: A B 73
//!        B: A B 73
//! ```
//!
//! A call to one station goes on as the first of these from the report on.
use vstd::prelude::*;
use vstd::string::*;

use crate::adif::{opt_record, QsoRecord, QsoRecordView};
use crate::clock::{date_text, fields_of, representable, time_text, utc_ms_now};
use crate::proto::{
    clone_opt, format_report, opt_payload, opt_text, rendered, render_payload_with_sh, report_text, Format,
    Payload, PayloadView, Rendered, RxEnvelope, TxEnvelope,
};
use crate::text::{byte_count, byte_len, chars_in_bytes, chars_of, cut_bytes, same, text_of, trim, trimmed, upper};

verus! {

/// Where a contact stands.
#[derive(Debug, Clone, Copy, PartialEq, Eq, Structural)]
pub enum QsoState {
    Idle,
    Listening,
    CallingCq,
    CallingStn,
    SendingReport,
    SendingRReport,
    SendingRr,
    Sending73,
    Done,
}

impl QsoState {
    /// The name of the state for display.
    pub open spec fn name(self) -> Seq<char> {
        match self {
            QsoState::Idle => "IDLE"@,
            QsoState::Listening => "LISTEN"@,
            QsoState::CallingCq => "CALLING_CQ"@,
            QsoState::CallingStn => "CALLING_STN"@,
            QsoState::SendingReport => "SEND_RPT"@,
            QsoState::SendingRReport => "SEND_RRPT"@,
            QsoState::SendingRr => "SEND_RR"@,
            QsoState::Sending73 => "SEND_73"@,
            QsoState::Done => "DONE"@,
        }
    }

    /// The name of the state for display.
    pub fn label(&self) -> (r: String)
        ensures
            r@ == self.name(),
    {
        match self {
            QsoState::Idle => "IDLE".to_owned(),
            QsoState::Listening => "LISTEN".to_owned(),
            QsoState::CallingCq => "CALLING_CQ".to_owned(),
            QsoState::CallingStn => "CALLING_STN".to_owned(),
            QsoState::SendingReport => "SEND_RPT".to_owned(),
            QsoState::SendingRReport => "SEND_RRPT".to_owned(),
            QsoState::SendingRr => "SEND_RR".to_owned(),
            QsoState::Sending73 => "SEND_73".to_owned(),
            QsoState::Done => "DONE".to_owned(),
        }
    }

    /// The report that goes into our messages is fixed from here on.
    pub open spec fn committed(self) -> bool {
        self == QsoState::SendingReport || self == QsoState::SendingRReport || self == QsoState::SendingRr
            || self == QsoState::Sending73 || self == QsoState::Done
    }

    /// Our report has been acknowledged or our R-report sent: a partner who
    /// moves on has completed the contact.
    pub open spec fn nearly_done(self) -> bool {
        self == QsoState::SendingRReport || self == QsoState::SendingRr || self == QsoState::Sending73
    }
}

/// What the operator wants.
#[derive(Debug, Clone)]
pub enum Intent {
    Listen,
    Cq,
    Call { their: String },
    AnswerCq { their: String, rpt: i16, grid: Option<String> },
    Abort,
}

/// What the engine reports.
#[derive(Debug, Clone)]
pub enum EngineEvent {
    StateChanged(QsoState),
    Rx(RxEnvelope),
    Tx(TxEnvelope),
    Info(String),
    QsoComplete { their: String, record: Option<QsoRecord> },
    TheirCallChanged { callsign: String, grid: Option<String> },
}

/// What is to be done at once.
#[derive(Debug, Clone)]
pub enum Action {
    Nothing,
    Transmit(TxEnvelope),
}

/// The mathematical content of an [`Intent`].
#[verifier::ext_equal]
pub enum IntentView {
    Listen,
    Cq,
    Call { their: Seq<char> },
    AnswerCq { their: Seq<char>, rpt: int, grid: Option<Seq<char>> },
    Abort,
}

impl View for Intent {
    type V = IntentView;

    open spec fn view(&self) -> IntentView {
        match *self {
            Intent::Listen => IntentView::Listen,
            Intent::Cq => IntentView::Cq,
            Intent::Call { their } => IntentView::Call { their: their@ },
            Intent::AnswerCq { their, rpt, grid } => IntentView::AnswerCq {
                their: their@,
                rpt: rpt as int,
                grid: opt_text(grid),
            },
            Intent::Abort => IntentView::Abort,
        }
    }
}

/// The mathematical content of a [`RxEnvelope`].
#[verifier::ext_equal]
pub struct RxView {
    pub payload: PayloadView,
    pub format: Format,
    pub snr: Option<i32>,
    pub utc_ms: i64,
    pub rx_slot: u8,
}

impl View for RxEnvelope {
    type V = RxView;

    open spec fn view(&self) -> RxView {
        RxView {
            payload: self.payload@,
            format: self.format,
            snr: self.snr,
            utc_ms: self.utc_ms,
            rx_slot: self.rx_slot,
        }
    }
}

/// The mathematical content of a [`TxEnvelope`].
#[verifier::ext_equal]
pub struct TxView {
    pub payload: PayloadView,
    pub format: Format,
    pub raw: Seq<char>,
}

impl View for TxEnvelope {
    type V = TxView;

    open spec fn view(&self) -> TxView {
        TxView { payload: self.payload@, format: self.format, raw: self.raw@ }
    }
}

/// The mathematical content of an [`EngineEvent`].
#[verifier::ext_equal]
pub enum EventView {
    StateChanged(QsoState),
    Rx(RxView),
    Tx(TxView),
    Info(Seq<char>),
    QsoComplete { their: Seq<char>, record: Option<QsoRecordView> },
    TheirCallChanged { callsign: Seq<char>, grid: Option<Seq<char>> },
}

impl View for EngineEvent {
    type V = EventView;

    open spec fn view(&self) -> EventView {
        match *self {
            EngineEvent::StateChanged(s) => EventView::StateChanged(s),
            EngineEvent::Rx(rx) => EventView::Rx(rx@),
            EngineEvent::Tx(tx) => EventView::Tx(tx@),
            EngineEvent::Info(s) => EventView::Info(s@),
            EngineEvent::QsoComplete { their, record } => EventView::QsoComplete {
                their: their@,
                record: opt_record(record),
            },
            EngineEvent::TheirCallChanged { callsign, grid } => EventView::TheirCallChanged {
                callsign: callsign@,
                grid: opt_text(grid),
            },
        }
    }
}

/// What a list of events says.
pub open spec fn events(v: Seq<EngineEvent>) -> Seq<EventView> {
    v.map_values(|e: EngineEvent| e@)
}

/// The mathematical content of an [`Action`].
#[verifier::ext_equal]
pub enum ActionView {
    Nothing,
    Transmit(TxView),
}

impl View for Action {
    type V = ActionView;

    open spec fn view(&self) -> ActionView {
        match *self {
            Action::Nothing => ActionView::Nothing,
            Action::Transmit(tx) => ActionView::Transmit(tx@),
        }
    }
}

/// One station's side of a contact.
#[derive(Debug)]
pub struct QsoEngine {
    pub my_call: String,
    pub my_grid: Option<String>,
    pub their_call: Option<String>,
    pub their_grid: Option<String>,
    pub state: QsoState,
    pub my_report: i16,
    pub their_report: Option<i16>,
    pub last_rx: Option<RxEnvelope>,
    pub last_tx: Option<TxEnvelope>,
    pub tx_repeat_count: u8,
    pub max_repeats: u8,
    pub qso_start_utc_ms: Option<i64>,
    pub qso_end_utc_ms: Option<i64>,
    pub band: String,
    /// Frequency in megahertz, as a decimal number.
    pub freq_mhz: Option<String>,
    /// Send R-report, RRR and 73 in their short form.
    pub use_short_msg: bool,
    /// The closing message is RR73 and stays so when it is repeated.
    pub final_is_rr73: bool,
}

/// The mathematical content of a [`QsoEngine`].
#[verifier::ext_equal]
pub struct EngineView {
    pub my_call: Seq<char>,
    pub my_grid: Option<Seq<char>>,
    pub their_call: Option<Seq<char>>,
    pub their_grid: Option<Seq<char>>,
    pub state: QsoState,
    pub my_report: i16,
    pub their_report: Option<i16>,
    pub last_rx: Option<RxView>,
    pub last_tx: Option<TxView>,
    pub tx_repeat_count: u8,
    pub max_repeats: u8,
    pub qso_start_utc_ms: Option<i64>,
    pub qso_end_utc_ms: Option<i64>,
    pub band: Seq<char>,
    pub freq_mhz: Option<Seq<char>>,
    pub use_short_msg: bool,
    pub final_is_rr73: bool,
}

impl View for QsoEngine {
    type V = EngineView;

    open spec fn view(&self) -> EngineView {
        EngineView {
            my_call: self.my_call@,
            my_grid: opt_text(self.my_grid),
            their_call: opt_text(self.their_call),
            their_grid: opt_text(self.their_grid),
            state: self.state,
            my_report: self.my_report,
            their_report: self.their_report,
            last_rx: match self.last_rx {
                Some(rx) => Some(rx@),
                None => None,
            },
            last_tx: match self.last_tx {
                Some(tx) => Some(tx@),
                None => None,
            },
            tx_repeat_count: self.tx_repeat_count,
            max_repeats: self.max_repeats,
            qso_start_utc_ms: self.qso_start_utc_ms,
            qso_end_utc_ms: self.qso_end_utc_ms,
            band: self.band@,
            freq_mhz: opt_text(self.freq_mhz),
            use_short_msg: self.use_short_msg,
            final_is_rr73: self.final_is_rr73,
        }
    }
}

/// Two callsigns name the same station: they agree but for case and the white
/// space around them.
pub open spec fn same_station(a: Seq<char>, b: Seq<char>) -> bool {
    upper(trim(a)) == upper(trim(b))
}

/// The first four bytes of a locator do not end inside a character.
pub open spec fn grid_fits(grid: Option<Seq<char>>) -> bool {
    grid matches Some(g) ==> byte_len(trim(g)) >= 4 ==> chars_in_bytes(trim(g), 4) is Some
}

/// A locator as it goes on the air: trimmed, and cut to four bytes.
pub open spec fn protocol_grid(grid: Option<Seq<char>>) -> Option<Seq<char>> {
    match grid {
        None => None,
        Some(g) => if byte_len(trim(g)) >= 4 {
            Some(trim(g).subrange(0, chars_in_bytes(trim(g), 4)->0 as int))
        } else {
            Some(trim(g))
        },
    }
}

/// A signal-to-noise ratio as a report: the nearest even number, a half rounded
/// away from zero, between -4 and 24.
pub open spec fn quantised(snr: int) -> int {
    let even = if snr >= 0 {
        2 * ((snr + 1) / 2)
    } else {
        -(2 * ((1 - snr) / 2))
    };
    if even < -4 {
        -4
    } else if even > 24 {
        24
    } else {
        even
    }
}

impl EngineView {
    /// The engine can close its contact: its reports have a magnitude that fits
    /// and its instants have a calendar date.
    pub open spec fn wf(self) -> bool {
        &&& self.my_report > i16::MIN
        &&& self.their_report matches Some(r) ==> r > i16::MIN
        &&& self.qso_start_utc_ms matches Some(t) ==> representable(t as int)
        &&& self.qso_end_utc_ms matches Some(t) ==> representable(t as int)
    }

    /// Everything about the partner is forgotten.
    pub open spec fn forgotten(self) -> EngineView {
        EngineView {
            their_call: None,
            their_grid: None,
            their_report: None,
            tx_repeat_count: 0,
            qso_start_utc_ms: None,
            qso_end_utc_ms: None,
            final_is_rr73: false,
            ..self
        }
    }

    /// The contact has begun, now unless it had before.
    pub open spec fn begun(self, now: i64) -> EngineView {
        EngineView {
            qso_start_utc_ms: match self.qso_start_utc_ms {
                Some(t) => Some(t),
                None => Some(now),
            },
            ..self
        }
    }

    /// The envelope of a message. It takes the short form only where that is
    /// wanted and there is a partner.
    pub open spec fn envelope(self, payload: PayloadView) -> TxView {
        TxView {
            payload,
            format: payload.kind(),
            raw: rendered(payload, self.use_short_msg && self.their_call is Some),
        }
    }

    /// The event of going over to `next`, if it is another state.
    pub open spec fn change(self, next: QsoState) -> Seq<EventView> {
        if self.state != next {
            seq![EventView::StateChanged(next)]
        } else {
            seq![]
        }
    }

    /// The record of the contact, which ends now unless it has ended before.
    pub open spec fn record(self, now: i64) -> Option<QsoRecordView> {
        match (self.their_call, self.qso_start_utc_ms) {
            (Some(their), Some(start)) => {
                let end = match self.qso_end_utc_ms {
                    Some(t) => t,
                    None => now,
                };
                Some(
                    QsoRecordView {
                        call: their,
                        operator: self.my_call,
                        qso_date: date_text(fields_of(start as int)),
                        time_on: time_text(fields_of(start as int)),
                        time_off: time_text(fields_of(end as int)),
                        band: self.band,
                        freq: self.freq_mhz,
                        mode: "MSK144"@,
                        rst_sent: report_text(self.my_report as int),
                        rst_rcvd: match self.their_report {
                            Some(r) => report_text(r as int),
                            None => Seq::empty(),
                        },
                        gridsquare: self.their_grid,
                    },
                )
            },
            _ => None,
        }
    }

    /// After a message was heard: it is remembered, and as long as our report is
    /// not fixed its signal-to-noise ratio becomes our report.
    pub open spec fn heard(self, rx: RxView) -> EngineView {
        EngineView {
            last_rx: Some(rx),
            my_report: match rx.snr {
                Some(snr) => if self.state.committed() {
                    self.my_report
                } else {
                    quantised(snr as int) as i16
                },
                None => self.my_report,
            },
            ..self
        }
    }
}

/// A message to the partner.
pub enum Reply {
    Report,
    RReport,
    Rr73,
    SeventyThree,
}

/// What a message that was heard calls for.
pub enum Reaction {
    /// Nothing.
    Ignore,
    /// A message to its sender, and the next state. `partner` says that the
    /// sender becomes the partner, `report` what report of us the message gave.
    Answer { reply: Reply, next: QsoState, partner: bool, report: Option<int> },
    /// The contact is complete.
    Complete { note: Option<Seq<char>> },
}

/// Why a contact counts as complete when the partner calls CQ.
pub open spec fn cq_note(state: QsoState) -> Seq<char> {
    if state == QsoState::Sending73 {
        "Partner calling CQ — terminating QSO early"@
    } else if state == QsoState::SendingRReport {
        "Partner moved to CQ after our R-report — auto-completing QSO"@
    } else {
        "Partner moved to CQ after our RRR — auto-completing QSO"@
    }
}

/// Why a contact counts as complete when the partner calls another station.
pub open spec fn call_note(state: QsoState) -> Seq<char> {
    if state == QsoState::Sending73 {
        "Partner calling someone else — terminating QSO early"@
    } else if state == QsoState::SendingRReport {
        "Partner calling someone else after our R-report — auto-completing"@
    } else {
        "Partner calling someone else after our RRR — auto-completing"@
    }
}

/// What a message calls for in a state. `to_me` says that it is addressed to
/// us, `partner` that it comes from the partner, and `sent` that we have sent our
/// closing message at least once.
pub open spec fn reaction(
    state: QsoState,
    p: PayloadView,
    to_me: bool,
    partner: bool,
    sent: bool,
) -> Reaction {
    match p {
        PayloadView::Call { .. } => if state == QsoState::Listening && to_me {
            Reaction::Answer {
                reply: Reply::Report,
                next: QsoState::SendingReport,
                partner: true,
                report: None,
            }
        } else if state.nearly_done() && partner {
            Reaction::Complete { note: Some(call_note(state)) }
        } else {
            Reaction::Ignore
        },
        PayloadView::CallWithReport { rpt, .. } => if (state == QsoState::Listening || state
            == QsoState::CallingCq) && to_me {
            Reaction::Answer {
                reply: Reply::RReport,
                next: QsoState::SendingRReport,
                partner: true,
                report: Some(rpt),
            }
        } else if state == QsoState::CallingStn && to_me && partner {
            Reaction::Answer {
                reply: Reply::RReport,
                next: QsoState::SendingRReport,
                partner: false,
                report: Some(rpt),
            }
        } else {
            Reaction::Ignore
        },
        PayloadView::RReport { rpt, .. } => if (state == QsoState::SendingReport || state
            == QsoState::SendingRReport) && to_me && partner {
            Reaction::Answer {
                reply: Reply::Rr73,
                next: QsoState::Sending73,
                partner: false,
                report: Some(rpt),
            }
        } else {
            Reaction::Ignore
        },
        PayloadView::Rr { .. } => if state == QsoState::SendingRReport && to_me && partner {
            Reaction::Answer {
                reply: Reply::SeventyThree,
                next: QsoState::Sending73,
                partner: false,
                report: None,
            }
        } else {
            Reaction::Ignore
        },
        PayloadView::Rr73 { .. } => if (state == QsoState::SendingRReport || state
            == QsoState::SendingRr) && to_me && partner {
            Reaction::Answer {
                reply: Reply::SeventyThree,
                next: QsoState::Sending73,
                partner: false,
                report: None,
            }
        } else if state == QsoState::Sending73 && to_me && partner && sent {
            Reaction::Complete { note: None }
        } else {
            Reaction::Ignore
        },
        PayloadView::SeventyThree { .. } => if state == QsoState::SendingRr && to_me && partner {
            Reaction::Answer {
                reply: Reply::SeventyThree,
                next: QsoState::Sending73,
                partner: false,
                report: None,
            }
        } else if state == QsoState::Sending73 && to_me && partner && sent {
            Reaction::Complete { note: None }
        } else {
            Reaction::Ignore
        },
        PayloadView::Cq { .. } => if state.nearly_done() && partner {
            Reaction::Complete { note: Some(cq_note(state)) }
        } else {
            Reaction::Ignore
        },
        PayloadView::Text { .. } => Reaction::Ignore,
    }
}

/// The message that a reply is.
pub open spec fn reply_payload(reply: Reply, from: Seq<char>, to: Seq<char>, rpt: int) -> PayloadView {
    match reply {
        Reply::Report => PayloadView::CallWithReport { from, to, rpt },
        Reply::RReport => PayloadView::RReport { from, to, rpt },
        Reply::Rr73 => PayloadView::Rr73 { from, to },
        Reply::SeventyThree => PayloadView::SeventyThree { from, to },
    }
}

/// What an engine does: its next content, what is to be done, and what it
/// reports.
#[verifier::ext_equal]
pub struct Outcome {
    pub engine: EngineView,
    pub action: ActionView,
    pub events: Seq<EventView>,
}

impl EngineView {
    /// What the message calls for.
    pub open spec fn reaction_to(self, p: PayloadView) -> Reaction {
        reaction(
            self.state,
            p,
            p.addressee() matches Some(to) && same_station(to, self.my_call),
            self.their_call matches Some(their) && same_station(p.sender(), their),
            self.tx_repeat_count >= 1,
        )
    }

    /// The engine sends `payload` and goes over to `next`; `before` was reported
    /// already.
    pub open spec fn send(self, payload: PayloadView, next: QsoState, before: Seq<EventView>) -> Outcome {
        let tx = self.envelope(payload);
        Outcome {
            engine: EngineView { last_tx: Some(tx), state: next, ..self },
            action: ActionView::Transmit(tx),
            events: before + seq![EventView::Tx(tx)] + self.change(next),
        }
    }

    /// The effect of a reaction to `rx` on the engine that has heard it.
    pub open spec fn react(self, rx: RxView, what: Reaction, now: i64) -> Outcome {
        let from = rx.payload.sender();
        match what {
            Reaction::Ignore => Outcome {
                engine: self,
                action: ActionView::Nothing,
                events: seq![EventView::Rx(rx)],
            },
            Reaction::Answer { reply, next, partner, report } => {
                let met = if partner {
                    EngineView { their_call: Some(from), ..self }.begun(now)
                } else {
                    self
                };
                let told = EngineView {
                    their_report: match report {
                        Some(r) => Some(r as i16),
                        None => met.their_report,
                    },
                    tx_repeat_count: if reply is SeventyThree {
                        0
                    } else {
                        met.tx_repeat_count
                    },
                    final_is_rr73: reply is Rr73 || met.final_is_rr73,
                    ..met
                };
                let before = if partner {
                    seq![
                        EventView::Rx(rx),
                        EventView::TheirCallChanged { callsign: from, grid: None },
                    ]
                } else {
                    seq![EventView::Rx(rx)]
                };
                told.send(
                    reply_payload(reply, self.my_call, from, self.my_report as int),
                    next,
                    before,
                )
            },
            Reaction::Complete { note } => {
                let ended = EngineView { qso_end_utc_ms: Some(now), ..self };
                let complete = EventView::QsoComplete { their: from, record: ended.record(now) };
                Outcome {
                    engine: EngineView { state: QsoState::Done, ..ended },
                    action: ActionView::Nothing,
                    events: (match note {
                        Some(text) => seq![EventView::Rx(rx), EventView::Info(text)],
                        None => seq![EventView::Rx(rx)],
                    }) + seq![complete] + self.change(QsoState::Done),
                }
            },
        }
    }

    /// What happens when a message is heard at the instant `now`.
    pub open spec fn after_rx(self, rx: RxView, now: i64) -> Outcome {
        self.heard(rx).react(rx, self.reaction_to(rx.payload), now)
    }

    /// What happens when the operator wants something at the instant `now`.
    pub open spec fn after_intent(self, intent: IntentView, now: i64) -> Outcome {
        let clean = self.forgotten();
        match intent {
            IntentView::Listen => Outcome {
                engine: EngineView { state: QsoState::Listening, ..clean },
                action: ActionView::Nothing,
                events: clean.change(QsoState::Listening),
            },
            IntentView::Abort => Outcome {
                engine: EngineView { state: QsoState::Idle, ..clean },
                action: ActionView::Nothing,
                events: clean.change(QsoState::Idle),
            },
            IntentView::Cq => clean.send(
                PayloadView::Cq { from: self.my_call, grid: protocol_grid(self.my_grid) },
                QsoState::CallingCq,
                seq![],
            ),
            IntentView::Call { their } => EngineView { their_call: Some(their), ..clean }.begun(now).send(
                PayloadView::Call { from: self.my_call, to: their },
                QsoState::CallingStn,
                seq![EventView::TheirCallChanged { callsign: their, grid: None }],
            ),
            IntentView::AnswerCq { their, rpt, grid } => EngineView {
                their_call: Some(their),
                their_grid: grid,
                my_report: rpt as i16,
                ..clean
            }.begun(now).send(
                PayloadView::CallWithReport { from: self.my_call, to: their, rpt },
                QsoState::SendingReport,
                seq![EventView::TheirCallChanged { callsign: their, grid }],
            ),
        }
    }

    /// What happens when the operator forces a state at the instant `now`.
    ///
    /// The report is taken over, between -4 and 24, for every state that sends,
    /// though only two of them send it. Forcing `SendingRr` sends RR73 and goes
    /// over to `Sending73`. A state that sends nothing, or a missing partner,
    /// leaves the engine with its partner forgotten.
    pub open spec fn after_force(
        self,
        target: QsoState,
        their: Option<Seq<char>>,
        rpt: Option<i16>,
        now: i64,
    ) -> Outcome {
        let sends = target != QsoState::Idle && target != QsoState::Listening && target != QsoState::Done;
        let clean = EngineView {
            my_report: match rpt {
                Some(r) => if !sends {
                    self.my_report
                } else if r < -4 {
                    (-4) as i16
                } else if r > 24 {
                    24
                } else {
                    r
                },
                None => self.my_report,
            },
            ..self.forgotten()
        };
        let nothing = Outcome { engine: clean, action: ActionView::Nothing, events: seq![] };
        let from = self.my_call;
        let rpt = clean.my_report as int;
        if target == QsoState::CallingCq {
            clean.begun(now).send(
                PayloadView::Cq { from, grid: protocol_grid(self.my_grid) },
                target,
                seq![],
            )
        } else if target == QsoState::Idle || target == QsoState::Listening || target == QsoState::Done {
            nothing
        } else {
            match their {
                Some(to) => if to.len() == 0 {
                    nothing
                } else {
                    let payload = match target {
                        QsoState::CallingStn => PayloadView::Call { from, to },
                        QsoState::SendingReport => PayloadView::CallWithReport { from, to, rpt },
                        QsoState::SendingRReport => PayloadView::RReport { from, to, rpt },
                        QsoState::SendingRr => PayloadView::Rr73 { from, to },
                        _ => PayloadView::SeventyThree { from, to },
                    };
                    EngineView {
                        their_call: Some(to),
                        final_is_rr73: target == QsoState::SendingRr,
                        ..clean
                    }.begun(now).send(
                        payload,
                        if target == QsoState::SendingRr {
                            QsoState::Sending73
                        } else {
                            target
                        },
                        seq![EventView::TheirCallChanged { callsign: to, grid: None }],
                    )
                },
                None => nothing,
            }
        }
    }

    /// The message for the next transmit slot.
    pub open spec fn slot_message(self) -> Option<PayloadView> {
        let from = self.my_call;
        match (self.state, self.their_call) {
            (QsoState::CallingCq, _) => Some(
                PayloadView::Cq { from, grid: protocol_grid(self.my_grid) },
            ),
            (QsoState::CallingStn, Some(to)) => Some(PayloadView::Call { from, to }),
            (QsoState::SendingReport, Some(to)) => Some(
                PayloadView::CallWithReport { from, to, rpt: self.my_report as int },
            ),
            (QsoState::SendingRReport, Some(to)) => Some(
                PayloadView::RReport { from, to, rpt: self.my_report as int },
            ),
            (QsoState::SendingRr, Some(to)) => Some(PayloadView::Rr { from, to }),
            (QsoState::Sending73, Some(to)) => if self.tx_repeat_count >= self.max_repeats {
                None
            } else if self.final_is_rr73 {
                Some(PayloadView::Rr73 { from, to })
            } else {
                Some(PayloadView::SeventyThree { from, to })
            },
            _ => None,
        }
    }

    /// The engine after a transmit slot: the closing message is counted.
    pub open spec fn after_slot(self) -> EngineView {
        if self.state == QsoState::Sending73 {
            EngineView { tx_repeat_count: (self.tx_repeat_count + 1) as u8, ..self }
        } else {
            self
        }
    }

    /// The closing message has been sent as often as it may be, and once more was
    /// due.
    pub open spec fn exhausted(self) -> bool {
        self.state == QsoState::Sending73 && self.tx_repeat_count > self.max_repeats
    }
}

/// What a message calls for, as it is decided.
enum Decision {
    Ignore,
    Answer { reply: Reply, next: QsoState, partner: bool, report: Option<i16> },
    Complete { note: Option<String> },
}

impl Decision {
    spec fn reaction(self) -> Reaction {
        match self {
            Decision::Ignore => Reaction::Ignore,
            Decision::Answer { reply, next, partner, report } => Reaction::Answer {
                reply,
                next,
                partner,
                report: match report {
                    Some(r) => Some(r as int),
                    None => None,
                },
            },
            Decision::Complete { note } => Reaction::Complete { note: opt_text(note) },
        }
    }
}

/// Decides what a message calls for.
fn decide(state: QsoState, p: &Payload, to_me: bool, partner: bool, sent: bool) -> (r: Decision)
    ensures
        r.reaction() == reaction(state, p@, to_me, partner, sent),
{
    match p {
        Payload::Call { .. } => {
            if state == QsoState::Listening && to_me {
                return Decision::Answer {
                    reply: Reply::Report,
                    next: QsoState::SendingReport,
                    partner: true,
                    report: None,
                };
            }
            if partner {
                if state == QsoState::Sending73 {
                    return Decision::Complete {
                        note: Some("Partner calling someone else — terminating QSO early".to_owned()),
                    };
                }
                if state == QsoState::SendingRReport {
                    return Decision::Complete {
                        note: Some(
                            "Partner calling someone else after our R-report — auto-completing".to_owned(),
                        ),
                    };
                }
                if state == QsoState::SendingRr {
                    return Decision::Complete {
                        note: Some(
                            "Partner calling someone else after our RRR — auto-completing".to_owned(),
                        ),
                    };
                }
            }
            Decision::Ignore
        },
        Payload::CallWithReport { rpt, .. } => {
            if to_me && (state == QsoState::Listening || state == QsoState::CallingCq) {
                return Decision::Answer {
                    reply: Reply::RReport,
                    next: QsoState::SendingRReport,
                    partner: true,
                    report: Some(*rpt),
                };
            }
            if to_me && partner && state == QsoState::CallingStn {
                return Decision::Answer {
                    reply: Reply::RReport,
                    next: QsoState::SendingRReport,
                    partner: false,
                    report: Some(*rpt),
                };
            }
            Decision::Ignore
        },
        Payload::RReport { rpt, .. } => {
            if to_me && partner && (state == QsoState::SendingReport || state
                == QsoState::SendingRReport) {
                return Decision::Answer {
                    reply: Reply::Rr73,
                    next: QsoState::Sending73,
                    partner: false,
                    report: Some(*rpt),
                };
            }
            Decision::Ignore
        },
        Payload::Rr { .. } => {
            if to_me && partner && state == QsoState::SendingRReport {
                return closing_answer();
            }
            Decision::Ignore
        },
        Payload::Rr73 { .. } => {
            if to_me && partner && (state == QsoState::SendingRReport || state == QsoState::SendingRr) {
                return closing_answer();
            }
            if to_me && partner && sent && state == QsoState::Sending73 {
                return Decision::Complete { note: None };
            }
            Decision::Ignore
        },
        Payload::SeventyThree { .. } => {
            if to_me && partner && state == QsoState::SendingRr {
                return closing_answer();
            }
            if to_me && partner && sent && state == QsoState::Sending73 {
                return Decision::Complete { note: None };
            }
            Decision::Ignore
        },
        Payload::Cq { .. } => {
            if partner {
                if state == QsoState::Sending73 {
                    return Decision::Complete {
                        note: Some("Partner calling CQ — terminating QSO early".to_owned()),
                    };
                }
                if state == QsoState::SendingRReport {
                    return Decision::Complete {
                        note: Some(
                            "Partner moved to CQ after our R-report — auto-completing QSO".to_owned(),
                        ),
                    };
                }
                if state == QsoState::SendingRr {
                    return Decision::Complete {
                        note: Some("Partner moved to CQ after our RRR — auto-completing QSO".to_owned()),
                    };
                }
            }
            Decision::Ignore
        },
        Payload::Text { .. } => Decision::Ignore,
    }
}

/// A 73 that closes the contact from our side.
fn closing_answer() -> (r: Decision)
    ensures
        r.reaction() == (Reaction::Answer {
            reply: Reply::SeventyThree,
            next: QsoState::Sending73,
            partner: false,
            report: None,
        }),
{
    Decision::Answer {
        reply: Reply::SeventyThree,
        next: QsoState::Sending73,
        partner: false,
        report: None,
    }
}

/// A callsign without the white space around it, in upper case.
pub fn normalize_call(s: &str) -> (r: String)
    ensures
        r@ == upper(trim(s@)),
{
    trimmed(s).to_uppercase()
}

/// A signal-to-noise ratio as a report.
fn quantise(snr: i32) -> (r: i16)
    ensures
        r == quantised(snr as int),
{
    if snr >= 24 {
        24
    } else if snr <= -4 {
        -4
    } else if snr >= 0 {
        (2 * ((snr + 1) / 2)) as i16
    } else {
        (-(2 * ((1 - snr) / 2))) as i16
    }
}

/// Appends an event.
fn note(ev: &mut Vec<EngineEvent>, e: EngineEvent)
    ensures
        events(final(ev)@) == events(old(ev)@).push(e@),
{
    ev.push(e);
    assert(events(ev@) =~= events(old(ev)@).push(e@));
}

impl QsoEngine {
    /// An idle engine of the station `my_call`.
    pub fn new(my_call: String) -> (r: Self)
        ensures
            r@ == (EngineView {
                my_call: my_call@,
                my_grid: None,
                their_call: None,
                their_grid: None,
                state: QsoState::Idle,
                my_report: 5,
                their_report: None,
                last_rx: None,
                last_tx: None,
                tx_repeat_count: 0,
                max_repeats: 5,
                qso_start_utc_ms: None,
                qso_end_utc_ms: None,
                band: "2M"@,
                freq_mhz: None,
                use_short_msg: false,
                final_is_rr73: false,
            }),
            r@.wf(),
    {
        QsoEngine {
            my_call,
            my_grid: None,
            their_call: None,
            their_grid: None,
            state: QsoState::Idle,
            my_report: 5,
            their_report: None,
            last_rx: None,
            last_tx: None,
            tx_repeat_count: 0,
            max_repeats: 5,
            qso_start_utc_ms: None,
            qso_end_utc_ms: None,
            band: "2M".to_owned(),
            freq_mhz: None,
            use_short_msg: false,
            final_is_rr73: false,
        }
    }

    /// Our callsign.
    pub fn set_my_call(&mut self, my: String)
        ensures
            final(self)@ == (EngineView { my_call: my@, ..old(self)@ }),
    {
        self.my_call = my;
    }

    /// Our locator.
    pub fn set_my_grid(&mut self, grid: Option<String>)
        ensures
            final(self)@ == (EngineView { my_grid: opt_text(grid), ..old(self)@ }),
    {
        self.my_grid = grid;
    }

    /// The partner.
    pub fn set_their_call(&mut self, their: Option<String>)
        ensures
            final(self)@ == (EngineView { their_call: opt_text(their), ..old(self)@ }),
    {
        self.their_call = their;
    }

    /// The report that we send.
    pub fn set_my_report(&mut self, rpt: i16)
        ensures
            final(self)@ == (EngineView { my_report: rpt, ..old(self)@ }),
    {
        self.my_report = rpt;
    }

    /// Whether the late messages take their short form.
    pub fn set_use_short_msg(&mut self, on: bool)
        ensures
            final(self)@ == (EngineView { use_short_msg: on, ..old(self)@ }),
    {
        self.use_short_msg = on;
    }

    /// The band that goes into the log.
    pub fn set_band(&mut self, band: String)
        ensures
            final(self)@ == (EngineView { band: band@, ..old(self)@ }),
    {
        self.band = band;
    }

    /// The frequency that goes into the log.
    pub fn set_freq_mhz(&mut self, f: Option<String>)
        ensures
            final(self)@ == (EngineView { freq_mhz: opt_text(f), ..old(self)@ }),
    {
        self.freq_mhz = f;
    }

    /// Sets how often the closing message may be sent by the length of a slot:
    /// three times from thirty seconds on, else five times.
    pub fn set_slot_period(&mut self, period_secs: u32)
        ensures
            final(self)@ == (EngineView {
                max_repeats: if period_secs >= 30 {
                    3
                } else {
                    5
                },
                ..old(self)@
            }),
    {
        self.max_repeats = if period_secs >= 30 {
            3
        } else {
            5
        };
    }

    /// Our locator as it goes on the air.
    fn grid_for_protocol(&self) -> (r: Option<String>)
        requires
            grid_fits(self@.my_grid),
        ensures
            opt_text(r) == protocol_grid(self@.my_grid),
    {
        match &self.my_grid {
            None => None,
            Some(g) => {
                let t = trimmed(g.as_str());
                if byte_count(t) >= 4 {
                    let x = chars_of(t);
                    assert(x@.subrange(0, x@.len() as int) =~= x@);
                    match cut_bytes(&x, 0, 4) {
                        Some(k) => Some(text_of(&x, 0, k)),
                        None => None,
                    }
                } else {
                    Some(t.to_owned())
                }
            },
        }
    }

    fn mark_qso_start(&mut self, now: i64)
        ensures
            final(self)@ == old(self)@.begun(now),
    {
        if self.qso_start_utc_ms.is_none() {
            self.qso_start_utc_ms = Some(now);
        }
    }

    fn reset_qso(&mut self)
        ensures
            final(self)@ == old(self)@.forgotten(),
    {
        self.their_call = None;
        self.their_grid = None;
        self.their_report = None;
        self.tx_repeat_count = 0;
        self.qso_start_utc_ms = None;
        self.qso_end_utc_ms = None;
        self.final_is_rr73 = false;
    }

    fn is_me(&self, call: &str) -> (r: bool)
        ensures
            r == same_station(call@, self@.my_call),
    {
        let a = normalize_call(call);
        let b = normalize_call(self.my_call.as_str());
        same(a.as_str(), b.as_str())
    }

    fn is_partner(&self, call: &str) -> (r: bool)
        ensures
            r == (self@.their_call matches Some(their) && same_station(call@, their)),
    {
        match &self.their_call {
            Some(their) => {
                let a = normalize_call(call);
                let b = normalize_call(their.as_str());
                same(a.as_str(), b.as_str())
            },
            None => false,
        }
    }

    fn transition(&mut self, next: QsoState, ev: &mut Vec<EngineEvent>)
        ensures
            final(self)@ == (EngineView { state: next, ..old(self)@ }),
            events(final(ev)@) == events(old(ev)@) + old(self)@.change(next),
    {
        if self.state != next {
            self.state = next;
            note(ev, EngineEvent::StateChanged(next));
        }
        assert(events(ev@) =~= events(old(ev)@) + old(self)@.change(next));
    }

    fn make_tx(&mut self, payload: Payload, ev: &mut Vec<EngineEvent>) -> (tx: TxEnvelope)
        requires
            payload@.report_fits(),
        ensures
            tx@ == old(self)@.envelope(payload@),
            final(self)@ == (EngineView { last_tx: Some(tx@), ..old(self)@ }),
            events(final(ev)@) == events(old(ev)@).push(EventView::Tx(tx@)),
    {
        let format = payload.format();
        let use_sh = self.use_short_msg && self.their_call.is_some();
        let raw = match render_payload_with_sh(&payload, use_sh) {
            Rendered::Text(s) => s,
        };
        let tx = TxEnvelope { payload, format, raw };
        self.last_tx = Some(tx.clone());
        note(ev, EngineEvent::Tx(tx.clone()));
        tx
    }

    /// Sends a message and goes over to another state.
    fn send(&mut self, payload: Payload, next: QsoState, ev: &mut Vec<EngineEvent>) -> (r: Action)
        requires
            payload@.report_fits(),
        ensures
            ({
                let o = old(self)@.send(payload@, next, events(old(ev)@));
                final(self)@ == o.engine && r@ == o.action && events(final(ev)@) == o.events
            }),
    {
        let tx = self.make_tx(payload, ev);
        self.transition(next, ev);
        proof {
            let o = old(self)@.send(payload@, next, events(old(ev)@));
            assert(events(ev@) =~= o.events);
        }
        Action::Transmit(tx)
    }

    /// The record of the contact at the instant `now`: there is one once the
    /// partner and the start are known.
    pub fn make_qso_record_at(&self, now: i64) -> (r: Option<QsoRecord>)
        requires
            self@.wf(),
            representable(now as int),
        ensures
            opt_record(r) == self@.record(now),
    {
        let their = match &self.their_call {
            Some(c) => c.clone(),
            None => {
                return None;
            },
        };
        let start: i64 = match self.qso_start_utc_ms {
            Some(t) => t,
            None => {
                return None;
            },
        };
        let end: i64 = match self.qso_end_utc_ms {
            Some(t) => t,
            None => now,
        };
        let sent = format_report(self.my_report);
        let rcvd = match self.their_report {
            Some(r) => Some(format_report(r)),
            None => None,
        };
        let rcvd_text = match &rcvd {
            Some(s) => Some(s.as_str()),
            None => None,
        };
        Some(
            QsoRecord::new(
                their,
                self.my_call.clone(),
                start,
                end,
                self.band.clone(),
                clone_opt(&self.freq_mhz),
                "MSK144",
                sent.as_str(),
                rcvd_text,
                clone_opt(&self.their_grid),
            ),
        )
    }

    /// The record of the contact, which ends now unless it has ended before.
    pub fn make_qso_record(&self) -> (r: Option<QsoRecord>)
        requires
            self@.wf(),
        ensures
            exists|now: i64| #[trigger] representable(now as int) && opt_record(r) == self@.record(now),
    {
        let now: i64 = utc_ms_now();
        self.make_qso_record_at(now)
    }

    /// Takes in a message that was heard at the instant `now`.
    ///
    /// Its signal-to-noise ratio becomes our report as long as that is not fixed
    /// yet. The message then advances the contact, closes it, or changes nothing.
    pub fn on_rx_at(&mut self, rx: RxEnvelope, now: i64) -> (r: (Action, Vec<EngineEvent>))
        requires
            old(self)@.wf(),
            representable(now as int),
        ensures
            ({
                let o = old(self)@.after_rx(rx@, now);
                final(self)@ == o.engine && r.0@ == o.action && events(r.1@) == o.events
            }),
            rx@.payload.report_fits() ==> final(self)@.wf(),
    {
        let ghost before = self@;
        let ghost rxv = rx@;
        let ghost o = before.after_rx(rxv, now);
        let mut ev: Vec<EngineEvent> = Vec::new();
        assert(events(ev@) =~= seq![]);
        note(&mut ev, EngineEvent::Rx(rx.clone()));
        assert(events(ev@) =~= seq![EventView::Rx(rxv)]);
        let partner = self.is_partner(rx.payload.from_call());
        let to_me = match rx.payload.to_call() {
            Some(to) => self.is_me(to),
            None => false,
        };
        let what = decide(self.state, &rx.payload, to_me, partner, self.tx_repeat_count >= 1);
        assert(what.reaction() == before.reaction_to(rxv.payload));
        self.last_rx = Some(rx.clone());
        let fixed = self.state == QsoState::SendingReport || self.state == QsoState::SendingRReport
            || self.state == QsoState::SendingRr || self.state == QsoState::Sending73 || self.state
            == QsoState::Done;
        if !fixed {
            if let Some(snr) = rx.snr {
                self.my_report = quantise(snr);
            }
        }
        assert(self@ =~= before.heard(rxv));
        let from = rx.payload.from_call().to_owned();
        match what {
            Decision::Ignore => (Action::Nothing, ev),
            Decision::Answer { reply, next, partner, report } => {
                if partner {
                    self.their_call = Some(from.clone());
                    self.mark_qso_start(now);
                    note(&mut ev, EngineEvent::TheirCallChanged { callsign: from.clone(), grid: None });
                    assert(events(ev@) =~= seq![
                        EventView::Rx(rxv),
                        EventView::TheirCallChanged { callsign: from@, grid: None },
                    ]);
                }
                if let Some(r) = report {
                    self.their_report = Some(r);
                }
                let payload = match reply {
                    Reply::Report => Payload::CallWithReport {
                        from: self.my_call.clone(),
                        to: from,
                        rpt: self.my_report,
                    },
                    Reply::RReport => Payload::RReport {
                        from: self.my_call.clone(),
                        to: from,
                        rpt: self.my_report,
                    },
                    Reply::Rr73 => {
                        self.final_is_rr73 = true;
                        Payload::Rr73 { from: self.my_call.clone(), to: from }
                    },
                    Reply::SeventyThree => {
                        self.tx_repeat_count = 0;
                        Payload::SeventyThree { from: self.my_call.clone(), to: from }
                    },
                };
                let action = self.send(payload, next, &mut ev);
                assert(self@ =~= o.engine);
                (action, ev)
            },
            Decision::Complete { note: why } => {
                if let Some(text) = why {
                    note(&mut ev, EngineEvent::Info(text));
                }
                self.qso_end_utc_ms = Some(now);
                let record = self.make_qso_record_at(now);
                note(&mut ev, EngineEvent::QsoComplete { their: from, record });
                self.transition(QsoState::Done, &mut ev);
                assert(events(ev@) =~= o.events);
                (Action::Nothing, ev)
            },
        }
    }

    /// Takes in a message that is heard now.
    pub fn on_rx(&mut self, rx: RxEnvelope) -> (r: (Action, Vec<EngineEvent>))
        requires
            old(self)@.wf(),
        ensures
            exists|now: i64| #[trigger]
                representable(now as int) && {
                    let o = old(self)@.after_rx(rx@, now);
                    final(self)@ == o.engine && r.0@ == o.action && events(r.1@) == o.events
                },
            rx@.payload.report_fits() ==> final(self)@.wf(),
    {
        let now: i64 = utc_ms_now();
        self.on_rx_at(rx, now)
    }
}

impl IntentView {
    /// The report that the operator gives has a magnitude that fits.
    pub open spec fn report_fits(self) -> bool {
        self matches IntentView::AnswerCq { their, rpt, grid } ==> rpt > i16::MIN
    }
}

impl QsoEngine {
    /// Does what the operator wants at the instant `now`: the partner so far is
    /// forgotten, then the first message of the new contact goes out.
    pub fn on_intent_at(&mut self, intent: Intent, now: i64) -> (r: (Action, Vec<EngineEvent>))
        requires
            intent@ is Cq ==> grid_fits(old(self)@.my_grid),
            intent@.report_fits(),
        ensures
            ({
                let o = old(self)@.after_intent(intent@, now);
                final(self)@ == o.engine && r.0@ == o.action && events(r.1@) == o.events
            }),
            old(self)@.wf() && representable(now as int) ==> final(self)@.wf(),
    {
        let ghost o = old(self)@.after_intent(intent@, now);
        let mut ev: Vec<EngineEvent> = Vec::new();
        assert(events(ev@) =~= seq![]);
        self.reset_qso();
        match intent {
            Intent::Listen => {
                self.transition(QsoState::Listening, &mut ev);
                assert(events(ev@) =~= o.events);
                (Action::Nothing, ev)
            },
            Intent::Abort => {
                self.transition(QsoState::Idle, &mut ev);
                assert(events(ev@) =~= o.events);
                (Action::Nothing, ev)
            },
            Intent::Cq => {
                let payload = Payload::Cq {
                    from: self.my_call.clone(),
                    grid: self.grid_for_protocol(),
                };
                let action = self.send(payload, QsoState::CallingCq, &mut ev);
                (action, ev)
            },
            Intent::Call { their } => {
                self.their_call = Some(their.clone());
                self.mark_qso_start(now);
                note(&mut ev, EngineEvent::TheirCallChanged { callsign: their.clone(), grid: None });
                assert(events(ev@) =~= seq![
                    EventView::TheirCallChanged { callsign: their@, grid: None },
                ]);
                let payload = Payload::Call { from: self.my_call.clone(), to: their };
                let action = self.send(payload, QsoState::CallingStn, &mut ev);
                (action, ev)
            },
            Intent::AnswerCq { their, rpt, grid } => {
                self.their_call = Some(their.clone());
                self.their_grid = clone_opt(&grid);
                self.my_report = rpt;
                self.mark_qso_start(now);
                let ghost gv = opt_text(grid);
                note(&mut ev, EngineEvent::TheirCallChanged { callsign: their.clone(), grid });
                assert(events(ev@) =~= seq![
                    EventView::TheirCallChanged { callsign: their@, grid: gv },
                ]);
                let payload = Payload::CallWithReport { from: self.my_call.clone(), to: their, rpt };
                let action = self.send(payload, QsoState::SendingReport, &mut ev);
                (action, ev)
            },
        }
    }

    /// Does what the operator wants now.
    pub fn on_intent(&mut self, intent: Intent) -> (r: (Action, Vec<EngineEvent>))
        requires
            intent@ is Cq ==> grid_fits(old(self)@.my_grid),
            intent@.report_fits(),
        ensures
            exists|now: i64| #[trigger]
                representable(now as int) && {
                    let o = old(self)@.after_intent(intent@, now);
                    final(self)@ == o.engine && r.0@ == o.action && events(r.1@) == o.events
                },
            old(self)@.wf() ==> final(self)@.wf(),
    {
        let now: i64 = utc_ms_now();
        self.on_intent_at(intent, now)
    }

    /// Forces the contact to a point of the exchange at the instant `now` and
    /// starts to send the message that belongs there.
    ///
    /// `their_call` is needed for all but `CallingCq`. `rpt` is sent in
    /// `SendingReport` and `SendingRReport`; the other states store it without
    /// sending it. `SendingRr` stands for RR73: the engine goes over to `Sending73`
    /// and keeps sending RR73 there.
    pub fn force_state_at(
        &mut self,
        target_state: QsoState,
        their_call: Option<String>,
        rpt: Option<i16>,
        now: i64,
    ) -> (r: (Action, Vec<EngineEvent>))
        requires
            old(self)@.my_report > i16::MIN,
            target_state == QsoState::CallingCq ==> grid_fits(old(self)@.my_grid),
        ensures
            ({
                let o = old(self)@.after_force(target_state, opt_text(their_call), rpt, now);
                final(self)@ == o.engine && r.0@ == o.action && events(r.1@) == o.events
            }),
            representable(now as int) ==> final(self)@.wf(),
    {
        let ghost o = old(self)@.after_force(target_state, opt_text(their_call), rpt, now);
        let mut ev: Vec<EngineEvent> = Vec::new();
        assert(events(ev@) =~= seq![]);
        self.reset_qso();
        if target_state != QsoState::Idle && target_state != QsoState::Listening && target_state
            != QsoState::Done {
            if let Some(r) = rpt {
                self.my_report = if r < -4 {
                    -4
                } else if r > 24 {
                    24
                } else {
                    r
                };
            }
        }
        if target_state == QsoState::CallingCq {
            let payload = Payload::Cq { from: self.my_call.clone(), grid: self.grid_for_protocol() };
            self.mark_qso_start(now);
            let action = self.send(payload, target_state, &mut ev);
            return (action, ev);
        }
        if target_state == QsoState::Idle || target_state == QsoState::Listening || target_state
            == QsoState::Done {
            return (Action::Nothing, ev);
        }
        let to = match their_call {
            Some(c) => if c.as_str().is_empty() {
                return (Action::Nothing, ev);
            } else {
                c
            },
            None => {
                return (Action::Nothing, ev);
            },
        };
        let ghost partner = to@;
        self.their_call = Some(to.clone());
        note(&mut ev, EngineEvent::TheirCallChanged { callsign: to.clone(), grid: None });
        assert(events(ev@) =~= seq![
            EventView::TheirCallChanged { callsign: partner, grid: None },
        ]);
        let from = self.my_call.clone();
        let rpt: i16 = self.my_report;
        let mut next = target_state;
        let payload = match target_state {
            QsoState::CallingStn => Payload::Call { from, to },
            QsoState::SendingReport => Payload::CallWithReport { from, to, rpt },
            QsoState::SendingRReport => Payload::RReport { from, to, rpt },
            QsoState::SendingRr => {
                self.final_is_rr73 = true;
                next = QsoState::Sending73;
                Payload::Rr73 { from, to }
            },
            _ => Payload::SeventyThree { from, to },
        };
        self.mark_qso_start(now);
        let action = self.send(payload, next, &mut ev);
        assert(self@ =~= o.engine);
        (action, ev)
    }

    /// Forces the contact to a point of the exchange now.
    pub fn force_state(
        &mut self,
        target_state: QsoState,
        their_call: Option<String>,
        rpt: Option<i16>,
    ) -> (r: (Action, Vec<EngineEvent>))
        requires
            old(self)@.my_report > i16::MIN,
            target_state == QsoState::CallingCq ==> grid_fits(old(self)@.my_grid),
        ensures
            exists|now: i64| #[trigger]
                representable(now as int) && {
                    let o = old(self)@.after_force(target_state, opt_text(their_call), rpt, now);
                    final(self)@ == o.engine && r.0@ == o.action && events(r.1@) == o.events
                },
            final(self)@.wf(),
    {
        let now: i64 = utc_ms_now();
        self.force_state_at(target_state, their_call, rpt, now)
    }

    /// The message for the transmit slot that begins, if there is one to send.
    /// The closing message is counted, and ends after as many times as it may be
    /// sent.
    pub fn next_tx(&mut self) -> (r: Option<Payload>)
        requires
            old(self)@.state == QsoState::CallingCq ==> grid_fits(old(self)@.my_grid),
            old(self)@.state == QsoState::Sending73 ==> old(self)@.tx_repeat_count < u8::MAX,
        ensures
            opt_payload(r) == old(self)@.slot_message(),
            final(self)@ == old(self)@.after_slot(),
    {
        if self.state == QsoState::CallingCq {
            return Some(Payload::Cq { from: self.my_call.clone(), grid: self.grid_for_protocol() });
        }
        if self.state == QsoState::Sending73 {
            self.tx_repeat_count = self.tx_repeat_count + 1;
            if self.tx_repeat_count > self.max_repeats {
                return None;
            }
        }
        let to = match &self.their_call {
            Some(c) => c.clone(),
            None => {
                return None;
            },
        };
        let from = self.my_call.clone();
        match self.state {
            QsoState::CallingStn => Some(Payload::Call { from, to }),
            QsoState::SendingReport => Some(Payload::CallWithReport { from, to, rpt: self.my_report }),
            QsoState::SendingRReport => Some(Payload::RReport { from, to, rpt: self.my_report }),
            QsoState::SendingRr => Some(Payload::Rr { from, to }),
            QsoState::Sending73 => if self.final_is_rr73 {
                Some(Payload::Rr73 { from, to })
            } else {
                Some(Payload::SeventyThree { from, to })
            },
            _ => None,
        }
    }

    /// Completes a contact whose closing message has run out, at the instant
    /// `now`.
    pub fn check_complete_at(&mut self, now: i64) -> (r: Option<EngineEvent>)
        requires
            old(self)@.wf(),
            representable(now as int),
        ensures
            r is Some <==> old(self)@.exhausted(),
            r matches Some(e) ==> {
                let ended = EngineView { qso_end_utc_ms: Some(now), ..old(self)@ };
                &&& final(self)@ == (EngineView { state: QsoState::Done, ..ended })
                &&& e@ == (EventView::QsoComplete {
                    their: match old(self)@.their_call {
                        Some(t) => t,
                        None => Seq::empty(),
                    },
                    record: ended.record(now),
                })
            },
            r is None ==> final(self)@ == old(self)@,
            final(self)@.wf(),
    {
        if self.state == QsoState::Sending73 && self.tx_repeat_count > self.max_repeats {
            self.qso_end_utc_ms = Some(now);
            let their = match &self.their_call {
                Some(t) => t.clone(),
                None => String::new(),
            };
            let record = self.make_qso_record_at(now);
            self.state = QsoState::Done;
            return Some(EngineEvent::QsoComplete { their, record });
        }
        None
    }

    /// Completes a contact whose closing message has run out.
    pub fn check_complete(&mut self) -> (r: Option<EngineEvent>)
        requires
            old(self)@.wf(),
        ensures
            r is Some <==> old(self)@.exhausted(),
            r matches Some(e) ==> exists|now: i64| #[trigger]
                representable(now as int) && {
                    let ended = EngineView { qso_end_utc_ms: Some(now), ..old(self)@ };
                    &&& final(self)@ == (EngineView { state: QsoState::Done, ..ended })
                    &&& e@ == (EventView::QsoComplete {
                        their: match old(self)@.their_call {
                            Some(t) => t,
                            None => Seq::empty(),
                        },
                        record: ended.record(now),
                    })
                },
            r is None ==> final(self)@ == old(self)@,
            final(self)@.wf(),
    {
        let now: i64 = utc_ms_now();
        self.check_complete_at(now)
    }
}

} // verus!
