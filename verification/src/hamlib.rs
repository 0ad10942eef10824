//! The dialogue with `rigctld`, which controls the radio over a TCP connection.
//!
//! `f` asks for the frequency in hertz, `m` for the mode and the passband (two
//! lines), `F hz` sets the frequency, and `T 1` and `T 0` key and release the
//! transmitter; setting answers `RPRT n`.
use vstd::prelude::*;
use vstd::string::*;

use crate::proto::opt_text;
use crate::text::{
    all_digits, decimal, digits_value, is_white, law_trim_takes_white_space, lemma_decimal_value, occurs_at, parse_i32, parse_unsigned, push_decimal,
    signed_value, strip_prefix, trim, trim_end, trimmed, unsigned_value,
};

verus! {

/// What the radio is asked to do.
#[derive(Debug, Clone, Copy, PartialEq, Eq, Structural)]
pub enum HamlibCmd {
    /// Key or release the transmitter.
    Ptt(bool),
    GetFreq,
    GetMode,
    /// Set the frequency, in hertz.
    SetFreq(u64),
    Disconnect,
}

/// What is known of the radio.
#[derive(Debug, Clone, PartialEq, Eq)]
pub struct HamlibUpdate {
    /// Frequency in hertz.
    pub freq_hz: Option<u64>,
    /// Mode, such as "USB".
    pub mode: Option<String>,
    /// The connection is up.
    pub connected: bool,
}

/// The mathematical content of a [`HamlibUpdate`].
#[verifier::ext_equal]
pub struct UpdateView {
    pub freq_hz: Option<u64>,
    pub mode: Option<Seq<char>>,
    pub connected: bool,
}

impl View for HamlibUpdate {
    type V = UpdateView;

    open spec fn view(&self) -> UpdateView {
        UpdateView {
            freq_hz: self.freq_hz,
            mode: opt_text(self.mode),
            connected: self.connected,
        }
    }
}

/// The commands that wait for the connection.
#[derive(Debug)]
pub struct HamlibClient {
    pub queue: Vec<HamlibCmd>,
}

impl HamlibClient {
    /// No commands yet.
    pub fn new() -> (r: Self)
        ensures
            r.queue@ == Seq::<HamlibCmd>::empty(),
    {
        HamlibClient { queue: Vec::new() }
    }

    /// Keys or releases the transmitter.
    pub fn set_ptt(&mut self, active: bool)
        ensures
            final(self).queue@ == old(self).queue@.push(HamlibCmd::Ptt(active)),
    {
        self.queue.push(HamlibCmd::Ptt(active));
    }

    /// Asks for the frequency.
    pub fn refresh(&mut self)
        ensures
            final(self).queue@ == old(self).queue@.push(HamlibCmd::GetFreq),
    {
        self.queue.push(HamlibCmd::GetFreq);
    }

    /// Asks for the mode.
    pub fn refresh_mode(&mut self)
        ensures
            final(self).queue@ == old(self).queue@.push(HamlibCmd::GetMode),
    {
        self.queue.push(HamlibCmd::GetMode);
    }

    /// Sets the frequency, in hertz.
    pub fn set_freq(&mut self, hz: u64)
        ensures
            final(self).queue@ == old(self).queue@.push(HamlibCmd::SetFreq(hz)),
    {
        self.queue.push(HamlibCmd::SetFreq(hz));
    }

    /// Ends the dialogue.
    pub fn disconnect(&mut self)
        ensures
            final(self).queue@ == old(self).queue@.push(HamlibCmd::Disconnect),
    {
        self.queue.push(HamlibCmd::Disconnect);
    }

    /// The command that has waited longest.
    pub fn take_cmd(&mut self) -> (r: Option<HamlibCmd>)
        ensures
            match r {
                Some(c) => old(self).queue@.len() > 0 && c == old(self).queue@[0] && final(self).queue@
                    == old(self).queue@.drop_first(),
                None => old(self).queue@.len() == 0 && final(self).queue@ == old(self).queue@,
            },
    {
        if self.queue.len() == 0 {
            return None;
        }
        let c = self.queue.remove(0);
        assert(self.queue@ =~= old(self).queue@.drop_first());
        Some(c)
    }
}

/// Where the dialogue stands.
#[derive(Debug, Clone, Copy, PartialEq, Eq, Structural)]
pub enum RigState {
    /// The connection is being made.
    Connecting,
    /// The connection could not be made; it is tried again after a while.
    Backoff,
    /// The first question for the frequency is out.
    First,
    /// Commands are awaited.
    Ready,
    /// The transmitter is being keyed or released.
    Ptt(bool),
    /// The frequency is being set.
    SetFreq(u64),
    /// The frequency is read back after it was set.
    Readback,
    /// The frequency is asked for.
    Freq,
    /// The mode is asked for.
    Mode,
    /// The dialogue has ended.
    Stopped,
}

/// What happened.
#[derive(Debug)]
pub enum RigEvent {
    /// The address has no entry.
    Unresolvable,
    Connected,
    ConnectFailed,
    /// A command could not be sent.
    SendFailed,
    /// The first line of the answer; none where it could not be read.
    Reply(Option<String>),
    Command(HamlibCmd),
    /// No command came in time.
    Timeout,
    /// No command can come any more.
    Closed,
}

/// What is to be done next.
#[derive(Debug)]
pub enum RigAction {
    Connect,
    /// Wait five seconds for a command.
    WaitRetry,
    /// Wait for a command as long as the poll interval.
    WaitCommand,
    /// Send the text and read an answer of so many lines.
    Exchange { text: String, lines: usize },
    Stop,
}

/// The mathematical content of a [`RigAction`].
#[verifier::ext_equal]
pub enum RigActionView {
    Connect,
    WaitRetry,
    WaitCommand,
    Exchange { text: Seq<char>, lines: usize },
    Stop,
}

impl View for RigAction {
    type V = RigActionView;

    open spec fn view(&self) -> RigActionView {
        match *self {
            RigAction::Connect => RigActionView::Connect,
            RigAction::WaitRetry => RigActionView::WaitRetry,
            RigAction::WaitCommand => RigActionView::WaitCommand,
            RigAction::Exchange { text, lines } => RigActionView::Exchange { text: text@, lines },
            RigAction::Stop => RigActionView::Stop,
        }
    }
}

impl RigState {
    /// What a state waits for.
    pub open spec fn duty(self) -> RigActionView {
        match self {
            RigState::Connecting => RigActionView::Connect,
            RigState::Backoff => RigActionView::WaitRetry,
            RigState::Ready => RigActionView::WaitCommand,
            RigState::First => RigActionView::Exchange { text: "f\n"@, lines: 1 },
            RigState::Freq => RigActionView::Exchange { text: "f\n"@, lines: 1 },
            RigState::Readback => RigActionView::Exchange { text: "f\n"@, lines: 1 },
            RigState::Mode => RigActionView::Exchange { text: "m\n"@, lines: 2 },
            RigState::Ptt(on) => RigActionView::Exchange {
                text: if on {
                    "T 1\n"@
                } else {
                    "T 0\n"@
                },
                lines: 1,
            },
            RigState::SetFreq(hz) => RigActionView::Exchange {
                text: "F "@ + decimal(hz as nat) + "\n"@,
                lines: 1,
            },
            RigState::Stopped => RigActionView::Stop,
        }
    }

    /// What is to be done in a state.
    pub fn action(&self) -> (r: RigAction)
        ensures
            r@ == self.duty(),
    {
        match self {
            RigState::Connecting => RigAction::Connect,
            RigState::Backoff => RigAction::WaitRetry,
            RigState::Ready => RigAction::WaitCommand,
            RigState::First => RigAction::Exchange { text: "f\n".to_owned(), lines: 1 },
            RigState::Freq => RigAction::Exchange { text: "f\n".to_owned(), lines: 1 },
            RigState::Readback => RigAction::Exchange { text: "f\n".to_owned(), lines: 1 },
            RigState::Mode => RigAction::Exchange { text: "m\n".to_owned(), lines: 2 },
            RigState::Ptt(on) => if *on {
                RigAction::Exchange { text: "T 1\n".to_owned(), lines: 1 }
            } else {
                RigAction::Exchange { text: "T 0\n".to_owned(), lines: 1 }
            },
            RigState::SetFreq(hz) => {
                let mut text = "F ".to_owned();
                push_decimal(&mut text, *hz);
                text.append("\n");
                RigAction::Exchange { text, lines: 1 }
            },
            RigState::Stopped => RigAction::Stop,
        }
    }
}

/// The frequency that an answer tells.
pub open spec fn freq_told(line: Option<Seq<char>>) -> Option<u64> {
    match line {
        Some(l) => match unsigned_value(trim(l), u64::MAX as nat) {
            Some(n) => Some(n as u64),
            None => None,
        },
        None => None,
    }
}

/// The mode that an answer tells.
pub open spec fn mode_told(line: Option<Seq<char>>) -> Option<Seq<char>> {
    match line {
        Some(l) => if trim(l).len() > 0 {
            Some(trim(l))
        } else {
            None
        },
        None => None,
    }
}

/// Reads the frequency from an answer.
pub fn parse_freq(line: &Option<String>) -> (r: Option<u64>)
    ensures
        r == freq_told(opt_text(*line)),
{
    match line {
        Some(l) => parse_unsigned(trimmed(l.as_str()), u64::MAX),
        None => None,
    }
}

/// Reads the mode from an answer.
pub fn parse_mode(line: &Option<String>) -> (r: Option<String>)
    ensures
        opt_text(r) == mode_told(opt_text(*line)),
{
    match line {
        Some(l) => {
            let mode = trimmed(l.as_str());
            if mode.is_empty() {
                None
            } else {
                Some(mode.to_owned())
            }
        },
        None => None,
    }
}

/// The number that the answer to a setting tells.
pub open spec fn result_told(line: Seq<char>) -> Option<int> {
    if occurs_at(trim(line), "RPRT "@, 0) {
        signed_value(trim(line).skip(5), 0x7fff_ffff)
    } else {
        None
    }
}

/// Reads the answer to a setting: `RPRT 0` for success, a negative number for an
/// error.
pub fn parse_result(line: &str) -> (r: Option<i32>)
    ensures
        match r {
            Some(n) => result_told(line@) == Some(n as int),
            None => result_told(line@) is None,
        },
{
    proof {
        reveal_strlit("RPRT ");
    }
    match strip_prefix(trimmed(line), "RPRT ") {
        Some(n) => parse_i32(n),
        None => None,
    }
}

/// The connection is up, or down, and nothing else is known.
pub open spec fn link(connected: bool) -> UpdateView {
    UpdateView { freq_hz: None, mode: None, connected }
}

/// The frequency is known.
pub open spec fn tuned(hz: u64) -> UpdateView {
    UpdateView { freq_hz: Some(hz), mode: None, connected: true }
}

/// The state after an event, and what it tells of the radio. An event that the
/// state does not wait for changes nothing.
pub open spec fn rig_step(state: RigState, event: RigEvent) -> (RigState, Option<UpdateView>) {
    match (state, event) {
        (RigState::Connecting, RigEvent::Unresolvable) => (RigState::Stopped, None),
        (RigState::Connecting, RigEvent::Connected) => (RigState::First, Some(link(true))),
        (RigState::Connecting, RigEvent::ConnectFailed) => (RigState::Backoff, Some(link(false))),
        (RigState::Backoff, RigEvent::Command(HamlibCmd::Disconnect)) => (RigState::Stopped, None),
        (RigState::Backoff, RigEvent::Closed) => (RigState::Stopped, None),
        (RigState::Backoff, RigEvent::Command(_)) => (RigState::Connecting, None),
        (RigState::Backoff, RigEvent::Timeout) => (RigState::Connecting, None),
        (RigState::First, RigEvent::SendFailed) => (RigState::Connecting, None),
        (RigState::First, RigEvent::Reply(line)) => match freq_told(opt_text(line)) {
            Some(hz) => (RigState::Ready, Some(tuned(hz))),
            None => (RigState::Connecting, Some(link(false))),
        },
        (RigState::Ready, RigEvent::Command(HamlibCmd::Disconnect)) => (RigState::Stopped, None),
        (RigState::Ready, RigEvent::Closed) => (RigState::Stopped, None),
        (RigState::Ready, RigEvent::Command(HamlibCmd::Ptt(on))) => (RigState::Ptt(on), None),
        (RigState::Ready, RigEvent::Command(HamlibCmd::SetFreq(hz))) => (RigState::SetFreq(hz), None),
        (RigState::Ready, RigEvent::Command(HamlibCmd::GetMode)) => (RigState::Mode, None),
        (RigState::Ready, RigEvent::Command(HamlibCmd::GetFreq)) => (RigState::Freq, None),
        (RigState::Ready, RigEvent::Timeout) => (RigState::Freq, None),
        (RigState::Ptt(_), RigEvent::SendFailed) => (RigState::Connecting, Some(link(false))),
        (RigState::Ptt(_), RigEvent::Reply(_)) => (RigState::Ready, None),
        (RigState::SetFreq(_), RigEvent::SendFailed) => (RigState::Connecting, Some(link(false))),
        (RigState::SetFreq(_), RigEvent::Reply(_)) => (RigState::Readback, None),
        (RigState::Readback, RigEvent::SendFailed) => (RigState::Connecting, None),
        (RigState::Readback, RigEvent::Reply(line)) => (
            RigState::Ready,
            match freq_told(opt_text(line)) {
                Some(hz) => Some(tuned(hz)),
                None => None,
            },
        ),
        (RigState::Freq, RigEvent::SendFailed) => (RigState::Connecting, Some(link(false))),
        (RigState::Freq, RigEvent::Reply(line)) => match freq_told(opt_text(line)) {
            Some(hz) => (RigState::Ready, Some(tuned(hz))),
            None => (RigState::Connecting, Some(link(false))),
        },
        (RigState::Mode, RigEvent::SendFailed) => (RigState::Connecting, None),
        (RigState::Mode, RigEvent::Reply(line)) => (
            RigState::Ready,
            match mode_told(opt_text(line)) {
                Some(m) => Some(UpdateView { freq_hz: None, mode: Some(m), connected: true }),
                None => None,
            },
        ),
        _ => (state, None),
    }
}

/// What an optional update says.
pub open spec fn opt_update(u: Option<HamlibUpdate>) -> Option<UpdateView> {
    match u {
        Some(u) => Some(u@),
        None => None,
    }
}

fn link_update(connected: bool) -> (r: Option<HamlibUpdate>)
    ensures
        opt_update(r) == Some(link(connected)),
{
    Some(HamlibUpdate { freq_hz: None, mode: None, connected })
}

fn tuned_update(hz: u64) -> (r: Option<HamlibUpdate>)
    ensures
        opt_update(r) == Some(tuned(hz)),
{
    Some(HamlibUpdate { freq_hz: Some(hz), mode: None, connected: true })
}

/// Takes in an event and says what it tells of the radio.
pub fn step(state: RigState, event: &RigEvent) -> (r: (RigState, Option<HamlibUpdate>))
    ensures
        (r.0, opt_update(r.1)) == rig_step(state, *event),
{
    match state {
        RigState::Connecting => match event {
            RigEvent::Unresolvable => (RigState::Stopped, None),
            RigEvent::Connected => (RigState::First, link_update(true)),
            RigEvent::ConnectFailed => (RigState::Backoff, link_update(false)),
            _ => (state, None),
        },
        RigState::Backoff => match event {
            RigEvent::Command(c) => if *c == HamlibCmd::Disconnect {
                (RigState::Stopped, None)
            } else {
                (RigState::Connecting, None)
            },
            RigEvent::Closed => (RigState::Stopped, None),
            RigEvent::Timeout => (RigState::Connecting, None),
            _ => (state, None),
        },
        RigState::First => match event {
            RigEvent::SendFailed => (RigState::Connecting, None),
            RigEvent::Reply(line) => match parse_freq(line) {
                Some(hz) => (RigState::Ready, tuned_update(hz)),
                None => (RigState::Connecting, link_update(false)),
            },
            _ => (state, None),
        },
        RigState::Ready => match event {
            RigEvent::Command(c) => match c {
                HamlibCmd::Disconnect => (RigState::Stopped, None),
                HamlibCmd::Ptt(on) => (RigState::Ptt(*on), None),
                HamlibCmd::SetFreq(hz) => (RigState::SetFreq(*hz), None),
                HamlibCmd::GetMode => (RigState::Mode, None),
                HamlibCmd::GetFreq => (RigState::Freq, None),
            },
            RigEvent::Closed => (RigState::Stopped, None),
            RigEvent::Timeout => (RigState::Freq, None),
            _ => (state, None),
        },
        RigState::Ptt(_) => match event {
            RigEvent::SendFailed => (RigState::Connecting, link_update(false)),
            RigEvent::Reply(_) => (RigState::Ready, None),
            _ => (state, None),
        },
        RigState::SetFreq(_) => match event {
            RigEvent::SendFailed => (RigState::Connecting, link_update(false)),
            RigEvent::Reply(_) => (RigState::Readback, None),
            _ => (state, None),
        },
        RigState::Readback => match event {
            RigEvent::SendFailed => (RigState::Connecting, None),
            RigEvent::Reply(line) => match parse_freq(line) {
                Some(hz) => (RigState::Ready, tuned_update(hz)),
                None => (RigState::Ready, None),
            },
            _ => (state, None),
        },
        RigState::Freq => match event {
            RigEvent::SendFailed => (RigState::Connecting, link_update(false)),
            RigEvent::Reply(line) => match parse_freq(line) {
                Some(hz) => (RigState::Ready, tuned_update(hz)),
                None => (RigState::Connecting, link_update(false)),
            },
            _ => (state, None),
        },
        RigState::Mode => match event {
            RigEvent::SendFailed => (RigState::Connecting, None),
            RigEvent::Reply(line) => match parse_mode(line) {
                Some(m) => (
                    RigState::Ready,
                    Some(HamlibUpdate { freq_hz: None, mode: Some(m), connected: true }),
                ),
                None => (RigState::Ready, None),
            },
            _ => (state, None),
        },
        RigState::Stopped => (state, None),
    }
}

/// The wait for another attempt to connect ends the dialogue exactly where it is
/// to end.
pub fn wait_or_disconnect(event: &RigEvent) -> (stop: bool)
    ensures
        stop == (*event is Closed || *event == RigEvent::Command(HamlibCmd::Disconnect)),
        *event is Command || *event is Timeout || *event is Closed ==> stop == (rig_step(
            RigState::Backoff,
            *event,
        ).0 == RigState::Stopped),
{
    match event {
        RigEvent::Closed => true,
        RigEvent::Command(c) => *c == HamlibCmd::Disconnect,
        _ => false,
    }
}

/// The amateur band that a frequency in hertz lies in.
pub open spec fn band_of(hz: nat) -> Option<Seq<char>> {
    if 1_800_000 <= hz <= 2_000_000 {
        Some("160M"@)
    } else if 3_500_000 <= hz <= 4_000_000 {
        Some("80M"@)
    } else if 5_250_000 <= hz <= 5_450_000 {
        Some("60M"@)
    } else if 7_000_000 <= hz <= 7_300_000 {
        Some("40M"@)
    } else if 10_100_000 <= hz <= 10_150_000 {
        Some("30M"@)
    } else if 14_000_000 <= hz <= 14_350_000 {
        Some("20M"@)
    } else if 18_060_000 <= hz <= 18_170_000 {
        Some("17M"@)
    } else if 21_000_000 <= hz <= 21_450_000 {
        Some("15M"@)
    } else if 24_890_000 <= hz <= 24_990_000 {
        Some("12M"@)
    } else if 28_000_000 <= hz <= 29_700_000 {
        Some("10M"@)
    } else if 50_000_000 <= hz <= 54_000_000 {
        Some("6M"@)
    } else if 70_000_000 <= hz <= 70_500_000 {
        Some("4M"@)
    } else if 144_000_000 <= hz <= 148_000_000 {
        Some("2M"@)
    } else if 222_000_000 <= hz <= 225_000_000 {
        Some("1.25M"@)
    } else if 430_000_000 <= hz <= 440_000_000 {
        Some("70CM"@)
    } else if 902_000_000 <= hz <= 928_000_000 {
        Some("33CM"@)
    } else if 1_240_000_000 <= hz <= 1_300_000_000 {
        Some("23CM"@)
    } else {
        None
    }
}

/// The amateur band that a frequency in hertz lies in, if it lies in one.
pub fn band_from_freq_hz(freq_hz: u64) -> (r: Option<&'static str>)
    ensures
        match r {
            Some(s) => band_of(freq_hz as nat) == Some(s@),
            None => band_of(freq_hz as nat) is None,
        },
{
    let hz: u64 = freq_hz;
    if 1_800_000 <= hz && hz <= 2_000_000 {
        Some("160M")
    } else if 3_500_000 <= hz && hz <= 4_000_000 {
        Some("80M")
    } else if 5_250_000 <= hz && hz <= 5_450_000 {
        Some("60M")
    } else if 7_000_000 <= hz && hz <= 7_300_000 {
        Some("40M")
    } else if 10_100_000 <= hz && hz <= 10_150_000 {
        Some("30M")
    } else if 14_000_000 <= hz && hz <= 14_350_000 {
        Some("20M")
    } else if 18_060_000 <= hz && hz <= 18_170_000 {
        Some("17M")
    } else if 21_000_000 <= hz && hz <= 21_450_000 {
        Some("15M")
    } else if 24_890_000 <= hz && hz <= 24_990_000 {
        Some("12M")
    } else if 28_000_000 <= hz && hz <= 29_700_000 {
        Some("10M")
    } else if 50_000_000 <= hz && hz <= 54_000_000 {
        Some("6M")
    } else if 70_000_000 <= hz && hz <= 70_500_000 {
        Some("4M")
    } else if 144_000_000 <= hz && hz <= 148_000_000 {
        Some("2M")
    } else if 222_000_000 <= hz && hz <= 225_000_000 {
        Some("1.25M")
    } else if 430_000_000 <= hz && hz <= 440_000_000 {
        Some("70CM")
    } else if 902_000_000 <= hz && hz <= 928_000_000 {
        Some("33CM")
    } else if 1_240_000_000 <= hz && hz <= 1_300_000_000 {
        Some("23CM")
    } else {
        None
    }
}

/// A command that cannot be sent, or a question for the frequency that gets no
/// number, leads back to connecting.
pub proof fn law_failure_reconnects(state: RigState, event: RigEvent)
    requires
        state.duty() is Exchange,
        event is SendFailed || ((state is First || state is Freq) && (event matches RigEvent::Reply(line)
            && freq_told(opt_text(line)) is None)),
    ensures
        rig_step(state, event).0 == RigState::Connecting,
{
}

/// The end of the dialogue is final.
pub proof fn law_stopped_is_final(event: RigEvent)
    ensures
        rig_step(RigState::Stopped, event) == (RigState::Stopped, None::<UpdateView>),
{
}

/// A frequency that was set is read back.
pub proof fn law_set_freq_reads_back(hz: u64, line: Option<String>)
    ensures
        rig_step(RigState::Ready, RigEvent::Command(HamlibCmd::SetFreq(hz))).0 == RigState::SetFreq(hz),
        rig_step(RigState::SetFreq(hz), RigEvent::Reply(line)).0 == RigState::Readback,
        RigState::Readback.duty() == RigState::Freq.duty(),
{
}

/// A frequency is told only where the connection is up.
pub proof fn law_told_only_when_connected(state: RigState, event: RigEvent)
    ensures
        rig_step(state, event).1 matches Some(u) ==> (u.freq_hz is Some || u.mode is Some ==> u.connected
            && rig_step(state, event).0 == RigState::Ready),
{
}

/// What a command sends is what the radio's program understands by it: a letter, the
/// value behind a space, and a line break. Only the mode is answered in two lines.
pub proof fn law_commands_on_the_wire(cmd: HamlibCmd)
    ensures
        ({
            let duty = rig_step(RigState::Ready, RigEvent::Command(cmd)).0.duty();
            match cmd {
                HamlibCmd::Ptt(on) => duty == (RigActionView::Exchange {
                    text: seq!['T', ' ', if on {
                        '1'
                    } else {
                        '0'
                    }, '\n'],
                    lines: 1,
                }),
                HamlibCmd::GetFreq => duty == (RigActionView::Exchange { text: seq!['f', '\n'], lines: 1 }),
                HamlibCmd::GetMode => duty == (RigActionView::Exchange { text: seq!['m', '\n'], lines: 2 }),
                HamlibCmd::SetFreq(hz) => duty matches RigActionView::Exchange { text, lines } && lines == 1
                    && text.len() >= 4 && text[0] == 'F' && text[1] == ' ' && text.last() == '\n' && all_digits(
                    text.subrange(2, text.len() - 1),
                ) && digits_value(text.subrange(2, text.len() - 1)) == hz,
                HamlibCmd::Disconnect => duty is Stop,
            }
        }),
        rig_step(RigState::Ready, RigEvent::Timeout).0.duty() == (RigActionView::Exchange {
            text: seq!['f', '\n'],
            lines: 1,
        }),
        RigState::First.duty() == (RigActionView::Exchange { text: seq!['f', '\n'], lines: 1 }),
        RigState::Readback.duty() == (RigActionView::Exchange { text: seq!['f', '\n'], lines: 1 }),
{
    reveal_strlit("f\n");
    reveal_strlit("m\n");
    reveal_strlit("T 1\n");
    reveal_strlit("T 0\n");
    reveal_strlit("F ");
    reveal_strlit("\n");
    assert("f\n"@ =~= seq!['f', '\n']);
    assert("m\n"@ =~= seq!['m', '\n']);
    assert("T 1\n"@ =~= seq!['T', ' ', '1', '\n']);
    assert("T 0\n"@ =~= seq!['T', ' ', '0', '\n']);
    if let HamlibCmd::SetFreq(hz) = cmd {
        let d = decimal(hz as nat);
        lemma_decimal_value(hz as nat);
        let text = "F "@ + d + "\n"@;
        assert(text.subrange(2, text.len() - 1) =~= d);
    }
}

/// What an answer tells: to a question for the frequency the number in it, and that
/// the connection is up; to one for the mode the mode; to a setting nothing. Where a
/// question for the frequency gets no number, the connection is given up, unless a
/// frequency was just set.
pub proof fn law_answers_tell(hz: u64, on: bool, line: Option<String>)
    ensures
        freq_told(opt_text(line)) matches Some(f) ==> {
            let told = Some(UpdateView { freq_hz: Some(f), mode: None, connected: true });
            &&& rig_step(RigState::First, RigEvent::Reply(line)) == (RigState::Ready, told)
            &&& rig_step(RigState::Freq, RigEvent::Reply(line)) == (RigState::Ready, told)
            &&& rig_step(RigState::Readback, RigEvent::Reply(line)) == (RigState::Ready, told)
        },
        freq_told(opt_text(line)) is None ==> {
            let down = Some(UpdateView { freq_hz: None, mode: None, connected: false });
            &&& rig_step(RigState::First, RigEvent::Reply(line)) == (RigState::Connecting, down)
            &&& rig_step(RigState::Freq, RigEvent::Reply(line)) == (RigState::Connecting, down)
            &&& rig_step(RigState::Readback, RigEvent::Reply(line)) == (RigState::Ready, None::<UpdateView>)
        },
        mode_told(opt_text(line)) matches Some(m) ==> rig_step(RigState::Mode, RigEvent::Reply(line)) == (
            RigState::Ready,
            Some(UpdateView { freq_hz: None, mode: Some(m), connected: true }),
        ),
        mode_told(opt_text(line)) is None ==> rig_step(RigState::Mode, RigEvent::Reply(line)) == (
            RigState::Ready,
            None::<UpdateView>,
        ),
        rig_step(RigState::Ptt(on), RigEvent::Reply(line)) == (RigState::Ready, None::<UpdateView>),
        rig_step(RigState::SetFreq(hz), RigEvent::Reply(line)) == (RigState::Readback, None::<UpdateView>),
{
}

/// The connection is told to be up when it is made and down when it is lost while a
/// command is sent or the frequency is polled. A wait for commands is ended only by
/// the end of the dialogue, and while there is no connection every other command is
/// dropped for another attempt.
pub proof fn law_connection_told(cmd: HamlibCmd, hz: u64, on: bool)
    ensures
        ({
            let up = Some(UpdateView { freq_hz: None, mode: None, connected: true });
            let down = Some(UpdateView { freq_hz: None, mode: None, connected: false });
            &&& rig_step(RigState::Connecting, RigEvent::Connected) == (RigState::First, up)
            &&& rig_step(RigState::Connecting, RigEvent::ConnectFailed) == (RigState::Backoff, down)
            &&& rig_step(RigState::Ptt(on), RigEvent::SendFailed) == (RigState::Connecting, down)
            &&& rig_step(RigState::SetFreq(hz), RigEvent::SendFailed) == (RigState::Connecting, down)
            &&& rig_step(RigState::Freq, RigEvent::SendFailed) == (RigState::Connecting, down)
            &&& rig_step(RigState::First, RigEvent::SendFailed).1 is None
            &&& rig_step(RigState::Readback, RigEvent::SendFailed).1 is None
            &&& rig_step(RigState::Mode, RigEvent::SendFailed).1 is None
        }),
        cmd != HamlibCmd::Disconnect ==> rig_step(RigState::Backoff, RigEvent::Command(cmd)) == (
            RigState::Connecting,
            None::<UpdateView>,
        ),
        rig_step(RigState::Backoff, RigEvent::Timeout).0 == RigState::Connecting,
        rig_step(RigState::Backoff, RigEvent::Closed).0 == RigState::Stopped,
        rig_step(RigState::Ready, RigEvent::Closed).0 == RigState::Stopped,
        rig_step(RigState::Backoff, RigEvent::Command(HamlibCmd::Disconnect)).0 == RigState::Stopped,
        rig_step(RigState::Connecting, RigEvent::Unresolvable).0 == RigState::Stopped,
{
}

/// A frequency that stands in an answer, with white space around it or not, is the
/// one told.
pub proof fn law_frequency_is_read(n: u64)
    ensures
        freq_told(Some(decimal(n as nat))) == Some(n),
        freq_told(Some(decimal(n as nat).push('\n'))) == Some(n),
{
    let d = decimal(n as nat);
    lemma_decimal_value(n as nat);
    assert('0' <= d[0] <= '9');
    assert('0' <= d.last() <= '9');
    assert(trim(d) == d);
    let l = d.push('\n');
    assert(l[0] == d[0]);
    assert(l.drop_last() =~= d);
    assert(trim_end(l) == trim_end(d));
}

/// Setting is answered by a number with its sign behind a word.
pub proof fn law_result_is_read(n: int)
    requires
        -0x8000_0000 <= n <= 0x7fff_ffff,
    ensures
        n >= 0 ==> result_told(seq!['R', 'P', 'R', 'T', ' '] + decimal(n as nat)) == Some(n),
        n < 0 ==> result_told(seq!['R', 'P', 'R', 'T', ' ', '-'] + decimal((-n) as nat)) == Some(n),
{
    let m = (if n >= 0 {
        n
    } else {
        -n
    }) as nat;
    let d = decimal(m);
    lemma_decimal_value(m);
    reveal_strlit("RPRT ");
    let p = seq!['R', 'P', 'R', 'T', ' '];
    assert("RPRT "@ =~= p);
    assert('0' <= d[0] <= '9');
    assert('0' <= d.last() <= '9');
    if n >= 0 {
        let l = p + d;
        assert(l.last() == d.last());
        assert(trim(l) == l);
        assert(l.subrange(0, 5) =~= p);
        assert(l.skip(5) =~= d);
    } else {
        let l = seq!['R', 'P', 'R', 'T', ' ', '-'] + d;
        assert(l.last() == d.last());
        assert(trim(l) == l);
        assert(l.subrange(0, 5) =~= p);
        assert(l.skip(5) =~= seq!['-'] + d);
        assert((seq!['-'] + d).drop_first() =~= d);
    }
}

/// The bands with their edges, by the names that the log gives them.
pub proof fn law_band_edges(hz: nat)
    ensures
        1_800_000 <= hz <= 2_000_000 ==> band_of(hz) == Some(seq!['1', '6', '0', 'M']),
        3_500_000 <= hz <= 4_000_000 ==> band_of(hz) == Some(seq!['8', '0', 'M']),
        5_250_000 <= hz <= 5_450_000 ==> band_of(hz) == Some(seq!['6', '0', 'M']),
        7_000_000 <= hz <= 7_300_000 ==> band_of(hz) == Some(seq!['4', '0', 'M']),
        10_100_000 <= hz <= 10_150_000 ==> band_of(hz) == Some(seq!['3', '0', 'M']),
        14_000_000 <= hz <= 14_350_000 ==> band_of(hz) == Some(seq!['2', '0', 'M']),
        18_060_000 <= hz <= 18_170_000 ==> band_of(hz) == Some(seq!['1', '7', 'M']),
        21_000_000 <= hz <= 21_450_000 ==> band_of(hz) == Some(seq!['1', '5', 'M']),
        24_890_000 <= hz <= 24_990_000 ==> band_of(hz) == Some(seq!['1', '2', 'M']),
        28_000_000 <= hz <= 29_700_000 ==> band_of(hz) == Some(seq!['1', '0', 'M']),
        50_000_000 <= hz <= 54_000_000 ==> band_of(hz) == Some(seq!['6', 'M']),
        70_000_000 <= hz <= 70_500_000 ==> band_of(hz) == Some(seq!['4', 'M']),
        144_000_000 <= hz <= 148_000_000 ==> band_of(hz) == Some(seq!['2', 'M']),
        222_000_000 <= hz <= 225_000_000 ==> band_of(hz) == Some(seq!['1', '.', '2', '5', 'M']),
        430_000_000 <= hz <= 440_000_000 ==> band_of(hz) == Some(seq!['7', '0', 'C', 'M']),
        902_000_000 <= hz <= 928_000_000 ==> band_of(hz) == Some(seq!['3', '3', 'C', 'M']),
        1_240_000_000 <= hz <= 1_300_000_000 ==> band_of(hz) == Some(seq!['2', '3', 'C', 'M']),
        band_of(hz) is Some <==> {
            ||| 1_800_000 <= hz <= 2_000_000
            ||| 3_500_000 <= hz <= 4_000_000
            ||| 5_250_000 <= hz <= 5_450_000
            ||| 7_000_000 <= hz <= 7_300_000
            ||| 10_100_000 <= hz <= 10_150_000
            ||| 14_000_000 <= hz <= 14_350_000
            ||| 18_060_000 <= hz <= 18_170_000
            ||| 21_000_000 <= hz <= 21_450_000
            ||| 24_890_000 <= hz <= 24_990_000
            ||| 28_000_000 <= hz <= 29_700_000
            ||| 50_000_000 <= hz <= 54_000_000
            ||| 70_000_000 <= hz <= 70_500_000
            ||| 144_000_000 <= hz <= 148_000_000
            ||| 222_000_000 <= hz <= 225_000_000
            ||| 430_000_000 <= hz <= 440_000_000
            ||| 902_000_000 <= hz <= 928_000_000
            ||| 1_240_000_000 <= hz <= 1_300_000_000
        },
{
    reveal_strlit("160M");
    assert("160M"@ =~= seq!['1', '6', '0', 'M']);
    reveal_strlit("80M");
    assert("80M"@ =~= seq!['8', '0', 'M']);
    reveal_strlit("60M");
    assert("60M"@ =~= seq!['6', '0', 'M']);
    reveal_strlit("40M");
    assert("40M"@ =~= seq!['4', '0', 'M']);
    reveal_strlit("30M");
    assert("30M"@ =~= seq!['3', '0', 'M']);
    reveal_strlit("20M");
    assert("20M"@ =~= seq!['2', '0', 'M']);
    reveal_strlit("17M");
    assert("17M"@ =~= seq!['1', '7', 'M']);
    reveal_strlit("15M");
    assert("15M"@ =~= seq!['1', '5', 'M']);
    reveal_strlit("12M");
    assert("12M"@ =~= seq!['1', '2', 'M']);
    reveal_strlit("10M");
    assert("10M"@ =~= seq!['1', '0', 'M']);
    reveal_strlit("6M");
    assert("6M"@ =~= seq!['6', 'M']);
    reveal_strlit("4M");
    assert("4M"@ =~= seq!['4', 'M']);
    reveal_strlit("2M");
    assert("2M"@ =~= seq!['2', 'M']);
    reveal_strlit("1.25M");
    assert("1.25M"@ =~= seq!['1', '.', '2', '5', 'M']);
    reveal_strlit("70CM");
    assert("70CM"@ =~= seq!['7', '0', 'C', 'M']);
    reveal_strlit("33CM");
    assert("33CM"@ =~= seq!['3', '3', 'C', 'M']);
    reveal_strlit("23CM");
    assert("23CM"@ =~= seq!['2', '3', 'C', 'M']);
}

/// A mode is told by any answer that is not blank, without the white space around it.
pub proof fn law_mode_is_read(l: Seq<char>)
    ensures
        mode_told(None) is None,
        mode_told(Some(l)) is Some <==> exists|i: int| 0 <= i < l.len() && !is_white(#[trigger] l[i]),
        mode_told(Some(l)) matches Some(m) ==> m == trim(l) && !is_white(m[0]) && !is_white(m.last()),
{
    law_trim_takes_white_space(l);
    let (a, b) = choose|a: int, b: int|
        0 <= a <= b <= l.len() && trim(l) == #[trigger] l.subrange(a, b) && (forall|i: int|
            0 <= i < a || b <= i < l.len() ==> is_white(#[trigger] l[i]));
    if trim(l).len() > 0 {
        assert(l[a] == trim(l)[0]);
    }
}

} // verus!
