//! The messages of a contact: what they say, how they are written on the air
//! and how a received line is read.
use vstd::prelude::*;
use vstd::string::*;

use crate::text::{
    all_ascii, ascii_lower, ascii_upper, chars_of, decimal2, lemma_decimal2_value, lemma_words_cons,
    lemma_words_one, is_word, is_white, lower_char, parse_i16, push_decimal2, same, signed_value, split_words,
    texts, to_lower, upper, words,
};

verus! {

/// How a message is sent.
#[derive(Debug, Clone, Copy, PartialEq, Eq, Structural)]
pub enum Format {
    /// Full messages: CQ, calls with reports.
    Fmt1,
    /// Short messages: R-reports, RR, 73.
    Fmt2,
}

/// A message as it goes on the air.
#[derive(Debug, Clone, PartialEq)]
pub enum Rendered {
    Text(String),
}

/// What a message says.
#[allow(inconsistent_fields)]
#[derive(Debug, PartialEq)]
pub enum Payload {
    /// A call to anyone.
    Cq { from: String, grid: Option<String> },
    /// A call to one station, without a report.
    Call { from: String, to: String },
    /// A call to one station with a report.
    CallWithReport { from: String, to: String, rpt: i16 },
    /// Roger and a report.
    RReport { from: String, to: String, rpt: i16 },
    /// Roger.
    Rr { from: String, to: String },
    /// Roger and 73 in one message: acknowledges the R-report and closes the
    /// contact.
    Rr73 { from: String, to: String },
    /// The end of a contact.
    SeventyThree { from: String, to: String },
    /// Free text.
    Text { from: String, to: Option<String>, text: String },
}

/// The mathematical content of a [`Payload`].
#[allow(inconsistent_fields)]
#[verifier::ext_equal]
pub enum PayloadView {
    Cq { from: Seq<char>, grid: Option<Seq<char>> },
    Call { from: Seq<char>, to: Seq<char> },
    CallWithReport { from: Seq<char>, to: Seq<char>, rpt: int },
    RReport { from: Seq<char>, to: Seq<char>, rpt: int },
    Rr { from: Seq<char>, to: Seq<char> },
    Rr73 { from: Seq<char>, to: Seq<char> },
    SeventyThree { from: Seq<char>, to: Seq<char> },
    Text { from: Seq<char>, to: Option<Seq<char>>, text: Seq<char> },
}

/// The content of an optional text.
pub open spec fn opt_text(s: Option<String>) -> Option<Seq<char>> {
    match s {
        Some(t) => Some(t@),
        None => None,
    }
}

impl View for Payload {
    type V = PayloadView;

    open spec fn view(&self) -> PayloadView {
        match *self {
            Payload::Cq { from, grid } => PayloadView::Cq { from: from@, grid: opt_text(grid) },
            Payload::Call { from, to } => PayloadView::Call { from: from@, to: to@ },
            Payload::CallWithReport { from, to, rpt } => PayloadView::CallWithReport {
                from: from@,
                to: to@,
                rpt: rpt as int,
            },
            Payload::RReport { from, to, rpt } => PayloadView::RReport {
                from: from@,
                to: to@,
                rpt: rpt as int,
            },
            Payload::Rr { from, to } => PayloadView::Rr { from: from@, to: to@ },
            Payload::Rr73 { from, to } => PayloadView::Rr73 { from: from@, to: to@ },
            Payload::SeventyThree { from, to } => PayloadView::SeventyThree { from: from@, to: to@ },
            Payload::Text { from, to, text } => PayloadView::Text {
                from: from@,
                to: opt_text(to),
                text: text@,
            },
        }
    }
}

impl PayloadView {
    /// The station that sends the message.
    pub open spec fn sender(self) -> Seq<char> {
        match self {
            PayloadView::Cq { from, .. } => from,
            PayloadView::Call { from, .. } => from,
            PayloadView::CallWithReport { from, .. } => from,
            PayloadView::RReport { from, .. } => from,
            PayloadView::Rr { from, .. } => from,
            PayloadView::Rr73 { from, .. } => from,
            PayloadView::SeventyThree { from, .. } => from,
            PayloadView::Text { from, .. } => from,
        }
    }

    /// The station that the message is addressed to, if it is addressed to one.
    pub open spec fn addressee(self) -> Option<Seq<char>> {
        match self {
            PayloadView::Cq { .. } => None,
            PayloadView::Call { to, .. } => Some(to),
            PayloadView::CallWithReport { to, .. } => Some(to),
            PayloadView::RReport { to, .. } => Some(to),
            PayloadView::Rr { to, .. } => Some(to),
            PayloadView::Rr73 { to, .. } => Some(to),
            PayloadView::SeventyThree { to, .. } => Some(to),
            PayloadView::Text { to, .. } => to,
        }
    }

    /// The late-stage messages are short, all others are full messages.
    pub open spec fn kind(self) -> Format {
        match self {
            PayloadView::RReport { .. } => Format::Fmt2,
            PayloadView::Rr { .. } => Format::Fmt2,
            PayloadView::Rr73 { .. } => Format::Fmt2,
            PayloadView::SeventyThree { .. } => Format::Fmt2,
            _ => Format::Fmt1,
        }
    }

    /// The report that the message carries has a magnitude that fits.
    pub open spec fn report_fits(self) -> bool {
        match self {
            PayloadView::CallWithReport { rpt, .. } => rpt > i16::MIN,
            PayloadView::RReport { rpt, .. } => rpt > i16::MIN,
            _ => true,
        }
    }
}

impl Clone for Payload {
    fn clone(&self) -> (r: Self)
        ensures
            r == *self,
    {
        match self {
            Payload::Cq { from, grid } => Payload::Cq { from: from.clone(), grid: clone_opt(grid) },
            Payload::Call { from, to } => Payload::Call { from: from.clone(), to: to.clone() },
            Payload::CallWithReport { from, to, rpt } => Payload::CallWithReport {
                from: from.clone(),
                to: to.clone(),
                rpt: *rpt,
            },
            Payload::RReport { from, to, rpt } => Payload::RReport {
                from: from.clone(),
                to: to.clone(),
                rpt: *rpt,
            },
            Payload::Rr { from, to } => Payload::Rr { from: from.clone(), to: to.clone() },
            Payload::Rr73 { from, to } => Payload::Rr73 { from: from.clone(), to: to.clone() },
            Payload::SeventyThree { from, to } => Payload::SeventyThree {
                from: from.clone(),
                to: to.clone(),
            },
            Payload::Text { from, to, text } => Payload::Text {
                from: from.clone(),
                to: clone_opt(to),
                text: text.clone(),
            },
        }
    }
}

/// A copy of an optional text.
pub fn clone_opt(s: &Option<String>) -> (r: Option<String>)
    ensures
        r == *s,
{
    match s {
        Some(t) => Some(t.clone()),
        None => None,
    }
}

impl Payload {
    /// The station that sends the message.
    pub fn from_call(&self) -> (r: &str)
        ensures
            r@ == self@.sender(),
    {
        match self {
            Payload::Cq { from, .. } => from.as_str(),
            Payload::Call { from, .. } => from.as_str(),
            Payload::CallWithReport { from, .. } => from.as_str(),
            Payload::RReport { from, .. } => from.as_str(),
            Payload::Rr { from, .. } => from.as_str(),
            Payload::Rr73 { from, .. } => from.as_str(),
            Payload::SeventyThree { from, .. } => from.as_str(),
            Payload::Text { from, .. } => from.as_str(),
        }
    }

    /// The station that the message is addressed to, if it is addressed to one.
    pub fn to_call(&self) -> (r: Option<&str>)
        ensures
            match r {
                Some(s) => self@.addressee() == Some(s@),
                None => self@.addressee() is None,
            },
    {
        match self {
            Payload::Cq { .. } => None,
            Payload::Call { to, .. } => Some(to.as_str()),
            Payload::CallWithReport { to, .. } => Some(to.as_str()),
            Payload::RReport { to, .. } => Some(to.as_str()),
            Payload::Rr { to, .. } => Some(to.as_str()),
            Payload::Rr73 { to, .. } => Some(to.as_str()),
            Payload::SeventyThree { to, .. } => Some(to.as_str()),
            Payload::Text { to, .. } => match to {
                Some(t) => Some(t.as_str()),
                None => None,
            },
        }
    }

    /// Whether the message is a full or a short one.
    pub fn format(&self) -> (r: Format)
        ensures
            r == self@.kind(),
    {
        match self {
            Payload::Cq { .. } => Format::Fmt1,
            Payload::Call { .. } => Format::Fmt1,
            Payload::CallWithReport { .. } => Format::Fmt1,
            Payload::RReport { .. } => Format::Fmt2,
            Payload::Rr { .. } => Format::Fmt2,
            Payload::Rr73 { .. } => Format::Fmt2,
            Payload::SeventyThree { .. } => Format::Fmt2,
            Payload::Text { .. } => Format::Fmt1,
        }
    }
}

/// A received message.
///
/// `snr` is the signal-to-noise ratio in decibels, rounded toward zero.
#[derive(Debug)]
pub struct RxEnvelope {
    pub payload: Payload,
    pub format: Format,
    pub snr: Option<i32>,
    pub utc_ms: i64,
    pub rx_slot: u8,
}

/// A message to transmit, with the text that goes on the air.
#[derive(Debug)]
pub struct TxEnvelope {
    pub payload: Payload,
    pub format: Format,
    pub raw: String,
}

impl Clone for RxEnvelope {
    fn clone(&self) -> (r: Self)
        ensures
            r == *self,
    {
        RxEnvelope {
            payload: self.payload.clone(),
            format: self.format,
            snr: self.snr,
            utc_ms: self.utc_ms,
            rx_slot: self.rx_slot,
        }
    }
}

impl Clone for TxEnvelope {
    fn clone(&self) -> (r: Self)
        ensures
            r == *self,
    {
        TxEnvelope { payload: self.payload.clone(), format: self.format, raw: self.raw.clone() }
    }
}

/// A report as it is written: its sign and at least two digits.
pub open spec fn report_text(rpt: int) -> Seq<char> {
    if rpt >= 0 {
        seq!['+'] + decimal2(rpt as nat)
    } else {
        seq!['-'] + decimal2((-rpt) as nat)
    }
}

/// Writes a report with its sign: +05, -02, +20.
pub fn format_report(rpt: i16) -> (r: String)
    requires
        rpt > i16::MIN,
    ensures
        r@ == report_text(rpt as int),
{
    let mut s = String::new();
    if rpt >= 0 {
        s.push('+');
        assert(s@ =~= seq!['+']);
        push_decimal2(&mut s, rpt as u64);
    } else {
        s.push('-');
        assert(s@ =~= seq!['-']);
        push_decimal2(&mut s, (-rpt) as u64);
    }
    s
}

/// The full form of a message.
pub open spec fn long_form(p: PayloadView) -> Seq<char> {
    match p {
        PayloadView::Cq { from, grid } => match grid {
            Some(g) => "CQ "@ + from + " "@ + g,
            None => "CQ "@ + from,
        },
        PayloadView::Call { from, to } => to + " "@ + from,
        PayloadView::CallWithReport { from, to, rpt } => to + " "@ + from + " "@ + report_text(rpt),
        PayloadView::RReport { from, to, rpt } => to + " "@ + from + " R"@ + report_text(rpt),
        PayloadView::Rr { from, to } => to + " "@ + from + " RRR"@,
        PayloadView::Rr73 { from, to } => to + " "@ + from + " RR73"@,
        PayloadView::SeventyThree { from, to } => to + " "@ + from + " 73"@,
        PayloadView::Text { from, to, text } => match to {
            Some(t) => t + " "@ + from + " "@ + text,
            None => "CQ "@ + from + " "@ + text,
        },
    }
}

/// The bracketed form of the messages that have one: R-report, RRR and 73.
pub open spec fn short_form(p: PayloadView) -> Option<Seq<char>> {
    match p {
        PayloadView::RReport { from, to, rpt } => Some(
            "<"@ + from + " "@ + to + "> R"@ + report_text(rpt),
        ),
        PayloadView::Rr { from, to } => Some("<"@ + from + " "@ + to + "> RRR"@),
        PayloadView::SeventyThree { from, to } => Some("<"@ + from + " "@ + to + "> 73"@),
        _ => None,
    }
}

/// The text of a message, in its short form where that is wanted and there is
/// one.
pub open spec fn rendered(p: PayloadView, use_sh: bool) -> Seq<char> {
    match short_form(p) {
        Some(s) => if use_sh {
            s
        } else {
            long_form(p)
        },
        None => long_form(p),
    }
}

impl View for Rendered {
    type V = Seq<char>;

    open spec fn view(&self) -> Seq<char> {
        match *self {
            Rendered::Text(s) => s@,
        }
    }
}

/// `head`, then `a`, a space and `b`.
fn pair(head: &str, a: &str, b: &str) -> (r: String)
    ensures
        r@ == head@ + a@ + " "@ + b@,
{
    let mut s = head.to_owned();
    s.append(a);
    s.append(" ");
    s.append(b);
    s
}

/// The text of a message in its full form.
pub fn render_payload(payload: &Payload) -> (r: Rendered)
    requires
        payload@.report_fits(),
    ensures
        r@ == long_form(payload@),
{
    render_payload_with_sh(payload, false)
}

/// The text of a message.
///
/// With `use_sh` the late-stage messages (R-report, RRR, 73) take the bracketed
/// form `<FROM TO> RPT`. CQ, calls and calls with a report always take the full
/// form, since the receiver cannot know both calls yet; so does RR73, which has
/// no short form.
pub fn render_payload_with_sh(payload: &Payload, use_sh: bool) -> (r: Rendered)
    requires
        payload@.report_fits(),
    ensures
        r@ == rendered(payload@, use_sh),
{
    if use_sh {
        match payload {
            Payload::RReport { from, to, rpt } => {
                let mut s = pair("<", from.as_str(), to.as_str());
                let report = format_report(*rpt);
                s.append("> R");
                s.append(report.as_str());
                return Rendered::Text(s);
            },
            Payload::Rr { from, to } => {
                let mut s = pair("<", from.as_str(), to.as_str());
                s.append("> RRR");
                return Rendered::Text(s);
            },
            Payload::SeventyThree { from, to } => {
                let mut s = pair("<", from.as_str(), to.as_str());
                s.append("> 73");
                return Rendered::Text(s);
            },
            _ => {},
        }
    }
    let s = match payload {
        Payload::Cq { from, grid } => {
            if let Some(g) = grid {
                pair("CQ ", from.as_str(), g.as_str())
            } else {
                let mut s = "CQ ".to_owned();
                s.append(from.as_str());
                s
            }
        },
        Payload::Call { from, to } => addressed(to, from),
        Payload::CallWithReport { from, to, rpt } => {
            let mut s = addressed(to, from);
            let report = format_report(*rpt);
            s.append(" ");
            s.append(report.as_str());
            s
        },
        Payload::RReport { from, to, rpt } => {
            let mut s = addressed(to, from);
            let report = format_report(*rpt);
            s.append(" R");
            s.append(report.as_str());
            s
        },
        Payload::Rr { from, to } => {
            let mut s = addressed(to, from);
            s.append(" RRR");
            s
        },
        Payload::Rr73 { from, to } => {
            let mut s = addressed(to, from);
            s.append(" RR73");
            s
        },
        Payload::SeventyThree { from, to } => {
            let mut s = addressed(to, from);
            s.append(" 73");
            s
        },
        Payload::Text { from, to, text } => {
            let mut s = match to {
                Some(t) => addressed(t, from),
                None => {
                    let mut s = "CQ ".to_owned();
                    s.append(from.as_str());
                    s
                },
            };
            s.append(" ");
            s.append(text.as_str());
            s
        },
    };
    Rendered::Text(s)
}

/// The two calls of an addressed message, the addressee first.
fn addressed(to: &String, from: &String) -> (r: String)
    ensures
        r@ == to@ + " "@ + from@,
{
    let mut s = to.clone();
    s.append(" ");
    s.append(from.as_str());
    s
}

/// A text without the slashes around it.
pub open spec fn strip_slashes(s: Seq<char>) -> Seq<char>
    decreases s.len(),
{
    if s.len() > 0 && s[0] == '/' {
        strip_slashes(s.drop_first())
    } else if s.len() > 0 && s.last() == '/' {
        strip_slashes(s.drop_last())
    } else {
        s
    }
}

/// An ASCII letter.
pub open spec fn is_letter(c: char) -> bool {
    'A' <= c <= 'Z' || 'a' <= c <= 'z'
}

/// An ASCII digit.
pub open spec fn is_digit(c: char) -> bool {
    '0' <= c <= '9'
}

/// Looks like a callsign: without the slashes around it, one to seven letters,
/// digits and slashes, at least one of them a letter and at least one a digit.
pub open spec fn is_call(s: Seq<char>) -> bool {
    let body = strip_slashes(s);
    &&& 1 <= body.len() <= 7
    &&& forall|i: int|
        0 <= i < body.len() ==> is_letter(#[trigger] body[i]) || is_digit(body[i]) || body[i] == '/'
    &&& exists|i: int| 0 <= i < body.len() && is_letter(#[trigger] body[i])
    &&& exists|i: int| 0 <= i < body.len() && is_digit(#[trigger] body[i])
}

/// Looks like a locator: two letters, then two digits.
pub open spec fn is_locator(s: Seq<char>) -> bool {
    s.len() == 4 && is_letter(s[0]) && is_letter(s[1]) && is_digit(s[2]) && is_digit(s[3])
}

/// The number that a report writes: a sign, then a 16-bit number.
pub open spec fn report_value(s: Seq<char>) -> Option<int> {
    if s.len() >= 2 && (s[0] == '+' || s[0] == '-') {
        match signed_value(s.drop_first(), 32767) {
            Some(n) => if s[0] == '+' {
                Some(n)
            } else if n > i16::MIN {
                Some(-n)
            } else {
                None
            },
            None => None,
        }
    } else {
        None
    }
}

/// What the third word of an addressed message makes of it.
pub open spec fn body_payload(to: Seq<char>, from: Seq<char>, body: Seq<char>) -> Option<PayloadView> {
    if body == "73"@ {
        Some(PayloadView::SeventyThree { from, to })
    } else if ascii_lower(body) == "rr73"@ {
        Some(PayloadView::Rr73 { from, to })
    } else if ascii_lower(body) == "rrr"@ || ascii_lower(body) == "rr"@ {
        Some(PayloadView::Rr { from, to })
    } else if body.len() > 0 && (body[0] == 'R' || body[0] == 'r') && report_value(
        body.drop_first(),
    ) is Some {
        Some(PayloadView::RReport { from, to, rpt: report_value(body.drop_first())->0 })
    } else if report_value(body) is Some {
        Some(PayloadView::CallWithReport { from, to, rpt: report_value(body)->0 })
    } else if is_locator(body) {
        Some(PayloadView::Call { from, to })
    } else {
        None
    }
}

/// What a received line says, word by word.
pub open spec fn parsed(w: Seq<Seq<char>>) -> Option<PayloadView> {
    if w.len() < 2 {
        None
    } else if ascii_lower(w[0]) == "cq"@ {
        if w.len() == 2 {
            Some(PayloadView::Cq { from: upper(w[1]), grid: None })
        } else if w.len() == 3 && is_call(w[1]) {
            let grid = if is_locator(w[2]) {
                Some(upper(w[2]))
            } else {
                None
            };
            Some(PayloadView::Cq { from: upper(w[1]), grid })
        } else {
            None
        }
    } else if !is_call(w[0]) || !is_call(w[1]) {
        None
    } else if w.len() == 2 {
        Some(PayloadView::Call { from: upper(w[1]), to: upper(w[0]) })
    } else {
        body_payload(upper(w[0]), upper(w[1]), w[2])
    }
}

/// What an optional message says.
pub open spec fn opt_payload(p: Option<Payload>) -> Option<PayloadView> {
    match p {
        Some(p) => Some(p@),
        None => None,
    }
}

/// Whether a word looks like a callsign.
pub fn is_callsign(s: &str) -> (r: bool)
    ensures
        r == is_call(s@),
{
    let x = chars_of(s);
    let mut from: usize = 0;
    let mut to: usize = x.len();
    assert(s@.subrange(0, s@.len() as int) =~= s@);
    while from < to && x[from] == '/'
        invariant
            from <= to == x@.len(),
            x@ == s@,
            strip_slashes(s@) == strip_slashes(s@.subrange(from as int, to as int)),
        decreases to - from,
    {
        assert(s@.subrange(from as int, to as int).drop_first() =~= s@.subrange(from + 1, to as int));
        from = from + 1;
    }
    while from < to && x[to - 1] == '/'
        invariant
            from <= to <= x@.len(),
            x@ == s@,
            from < to ==> x@[from as int] != '/',
            strip_slashes(s@) == strip_slashes(s@.subrange(from as int, to as int)),
        decreases to - from,
    {
        assert(s@.subrange(from as int, to as int).drop_last() =~= s@.subrange(from as int, to - 1));
        to = to - 1;
    }
    let ghost body = s@.subrange(from as int, to as int);
    assert(strip_slashes(s@) == body);
    if from == to || to - from > 7 {
        return false;
    }
    let mut has_letter = false;
    let mut has_digit = false;
    let mut i: usize = from;
    while i < to
        invariant
            from <= i <= to <= x@.len(),
            x@ == s@,
            body == s@.subrange(from as int, to as int),
            strip_slashes(s@) == body,
            has_letter == exists|k: int| 0 <= k < i - from && is_letter(#[trigger] body[k]),
            has_digit == exists|k: int| 0 <= k < i - from && is_digit(#[trigger] body[k]),
            forall|k: int|
                0 <= k < i - from ==> is_letter(#[trigger] body[k]) || is_digit(body[k]) || body[k]
                    == '/',
        decreases to - i,
    {
        let c = x[i];
        assert(c == body[i - from]);
        let letter = ('A' <= c && c <= 'Z') || ('a' <= c && c <= 'z');
        let digit = '0' <= c && c <= '9';
        if !letter && !digit && c != '/' {
            return false;
        }
        has_letter = has_letter || letter;
        has_digit = has_digit || digit;
        i = i + 1;
    }
    has_letter && has_digit
}

/// Whether a word looks like a four-character locator.
pub fn is_grid(s: &str) -> (r: bool)
    ensures
        r == is_locator(s@),
{
    let x = chars_of(s);
    if x.len() != 4 {
        return false;
    }
    letter(x[0]) && letter(x[1]) && digit(x[2]) && digit(x[3])
}

fn letter(c: char) -> (r: bool)
    ensures
        r == is_letter(c),
{
    ('A' <= c && c <= 'Z') || ('a' <= c && c <= 'z')
}

fn digit(c: char) -> (r: bool)
    ensures
        r == is_digit(c),
{
    '0' <= c && c <= '9'
}

/// Reads a signed report such as "+05", "-02", "+20".
pub fn parse_report(s: &str) -> (r: Option<i16>)
    ensures
        match r {
            Some(v) => report_value(s@) == Some(v as int),
            None => report_value(s@) is None,
        },
{
    let n: usize = s.unicode_len();
    if n < 2 {
        return None;
    }
    let sign = s.get_char(0);
    if sign != '+' && sign != '-' {
        return None;
    }
    let digits = s.substring_char(1, n);
    assert(digits@ =~= s@.drop_first());
    match parse_i16(digits) {
        Some(v) => if sign == '+' {
            Some(v)
        } else if v > i16::MIN {
            Some(-v)
        } else {
            None
        },
        None => None,
    }
}

/// Reads a received line.
///
/// "CQ CALL" and "CQ CALL GRID" are calls to anyone. Otherwise the first two
/// words are the addressee and the sender, and the third one, if there is one,
/// says what kind of message it is: a report, an R-report, RRR, RR73, 73, or a
/// locator, which makes it a plain call.
pub fn parse_decode_text(text: &str) -> (r: Option<Payload>)
    ensures
        opt_payload(r) == parsed(words(text@)),
{
    let toks = split_words(text);
    let ghost w = words(text@);
    assert(texts(toks@).len() == toks@.len());
    assert(forall|i: int| 0 <= i < toks@.len() ==> texts(toks@)[i] == #[trigger] toks@[i]@);
    if toks.len() < 2 {
        return None;
    }
    assert(toks@[0]@ == w[0] && toks@[1]@ == w[1]);
    let first = to_lower(toks[0].as_str());
    if same(first.as_str(), "cq") {
        if toks.len() == 2 {
            return Some(Payload::Cq { from: toks[1].as_str().to_uppercase(), grid: None });
        }
        if toks.len() == 3 && is_callsign(toks[1].as_str()) {
            assert(toks@[2]@ == w[2]);
            let grid = if is_grid(toks[2].as_str()) {
                Some(toks[2].as_str().to_uppercase())
            } else {
                None
            };
            return Some(Payload::Cq { from: toks[1].as_str().to_uppercase(), grid });
        }
        return None;
    }
    if !is_callsign(toks[0].as_str()) || !is_callsign(toks[1].as_str()) {
        return None;
    }
    let to = toks[0].as_str().to_uppercase();
    let from = toks[1].as_str().to_uppercase();
    if toks.len() == 2 {
        return Some(Payload::Call { from, to });
    }
    assert(toks@[2]@ == w[2]);
    parse_body(to, from, toks[2].as_str())
}

/// Reads the third word of an addressed message.
fn parse_body(to: String, from: String, body: &str) -> (r: Option<Payload>)
    ensures
        opt_payload(r) == body_payload(to@, from@, body@),
{
    if same(body, "73") {
        return Some(Payload::SeventyThree { from, to });
    }
    let lowered = to_lower(body);
    if same(lowered.as_str(), "rr73") {
        return Some(Payload::Rr73 { from, to });
    }
    if same(lowered.as_str(), "rrr") || same(lowered.as_str(), "rr") {
        return Some(Payload::Rr { from, to });
    }
    let n: usize = body.unicode_len();
    if n > 0 {
        let first = body.get_char(0);
        if first == 'R' || first == 'r' {
            let rest = body.substring_char(1, n);
            assert(rest@ =~= body@.drop_first());
            if let Some(rpt) = parse_report(rest) {
                return Some(Payload::RReport { from, to, rpt });
            }
        }
    }
    if let Some(rpt) = parse_report(body) {
        return Some(Payload::CallWithReport { from, to, rpt });
    }
    if is_grid(body) {
        return Some(Payload::Call { from, to });
    }
    None
}

/// Reading a report that was written gives the report back.
pub proof fn law_report_round_trip(rpt: int)
    requires
        -32767 <= rpt <= 32767,
    ensures
        report_value(report_text(rpt)) == Some(rpt),
{
    let n = if rpt >= 0 {
        rpt as nat
    } else {
        (-rpt) as nat
    };
    lemma_decimal2_value(n);
    let d = decimal2(n);
    assert(report_text(rpt).drop_first() =~= d);
    assert('0' <= d[0] <= '9');
}

/// Every character of a callsign is a letter, a digit or a slash, and one of
/// them is a digit.
proof fn lemma_call_chars(s: Seq<char>)
    requires
        is_call(s),
    ensures
        s.len() > 0,
        forall|i: int|
            0 <= i < s.len() ==> is_letter(#[trigger] s[i]) || is_digit(s[i]) || s[i] == '/',
        exists|i: int| 0 <= i < s.len() && is_digit(#[trigger] s[i]),
    decreases s.len(),
{
    if s.len() > 0 && s[0] == '/' {
        let t = s.drop_first();
        lemma_call_chars(t);
        let k = choose|k: int| 0 <= k < t.len() && is_digit(#[trigger] t[k]);
        assert(s[k + 1] == t[k]);
        assert forall|i: int| 0 <= i < s.len() implies is_letter(#[trigger] s[i]) || is_digit(s[i])
            || s[i] == '/' by {
            if i > 0 {
                assert(t[i - 1] == s[i]);
            }
        }
    } else if s.len() > 0 && s.last() == '/' {
        let t = s.drop_last();
        lemma_call_chars(t);
        let k = choose|k: int| 0 <= k < t.len() && is_digit(#[trigger] t[k]);
        assert(s[k] == t[k]);
        assert forall|i: int| 0 <= i < s.len() implies is_letter(#[trigger] s[i]) || is_digit(s[i])
            || s[i] == '/' by {
            if i < s.len() - 1 {
                assert(t[i] == s[i]);
            }
        }
    } else {
        assert(strip_slashes(s) == s);
    }
}

/// A callsign in upper case.
pub open spec fn canonical_call(s: Seq<char>) -> bool {
    is_call(s) && ascii_upper(s) == s
}

proof fn lemma_canonical_call(s: Seq<char>)
    requires
        canonical_call(s),
    ensures
        is_word(s),
        all_ascii(s),
        upper(s) == s,
        ascii_lower(s) != "cq"@,
{
    lemma_call_chars(s);
    assert forall|i: int| 0 <= i < s.len() implies (#[trigger] s[i] as u32) < 128 && !is_white(s[i]) by {
        assert(is_letter(s[i]) || is_digit(s[i]) || s[i] == '/');
    }
    if ascii_lower(s) == "cq"@ {
        reveal_strlit("cq");
        let k = choose|k: int| 0 <= k < s.len() && is_digit(#[trigger] s[k]);
        assert(ascii_lower(s)[k] == s[k]);
        assert("cq"@[0] == 'c' && "cq"@[1] == 'q');
        assert(ascii_lower(s).len() == s.len() && "cq"@.len() == 2);
        assert(k == 0 || k == 1);
    }
}

/// A message that a station would send: callsigns in upper case, a locator in
/// upper case, and a report whose magnitude fits.
pub open spec fn sendable(p: PayloadView) -> bool {
    &&& p !is Text
    &&& canonical_call(p.sender())
    &&& p.addressee() matches Some(to) ==> canonical_call(to)
    &&& p matches PayloadView::Cq { from, grid: Some(g) } ==> is_locator(g) && ascii_upper(g) == g
    &&& p matches PayloadView::CallWithReport { from, to, rpt } ==> -32767 <= rpt <= 32767
    &&& p matches PayloadView::RReport { from, to, rpt } ==> -32767 <= rpt <= 32767
}

proof fn lemma_report_word(rpt: int)
    requires
        -32767 <= rpt <= 32767,
    ensures
        is_word(report_text(rpt)),
        report_text(rpt)[0] == '+' || report_text(rpt)[0] == '-',
        is_word(seq!['R'] + report_text(rpt)),
{
    let n = if rpt >= 0 {
        rpt as nat
    } else {
        (-rpt) as nat
    };
    lemma_decimal2_value(n);
    let d = decimal2(n);
    let r = report_text(rpt);
    assert forall|i: int| 0 <= i < r.len() implies !is_white(#[trigger] r[i]) by {
        if i > 0 {
            assert(r[i] == d[i - 1]);
        }
    }
    let t = seq!['R'] + r;
    assert forall|i: int| 0 <= i < t.len() implies !is_white(#[trigger] t[i]) by {
        if i > 0 {
            assert(t[i] == r[i - 1]);
        }
    }
}

/// The words of a message of three words.
proof fn lemma_three_words(to: Seq<char>, from: Seq<char>, body: Seq<char>)
    requires
        is_word(to),
        is_word(from),
        is_word(body),
    ensures
        words(to + seq![' '] + from + seq![' '] + body) == seq![to, from, body],
{
    let tail = from + seq![' '] + body;
    assert(to + seq![' '] + from + seq![' '] + body =~= to + seq![' '] + tail);
    lemma_words_cons(to, tail);
    lemma_words_cons(from, body);
    lemma_words_one(body);
    assert(seq![to] + (seq![from] + seq![body]) =~= seq![to, from, body]);
}

/// An addressed message is read by its third word.
proof fn lemma_addressed(to: Seq<char>, from: Seq<char>, body: Seq<char>, line: Seq<char>)
    requires
        canonical_call(to),
        canonical_call(from),
        is_word(body),
        line == to + " "@ + from + (seq![' '] + body),
    ensures
        parsed(words(line)) == body_payload(to, from, body),
{
    reveal_strlit(" ");
    assert(" "@ =~= seq![' ']);
    lemma_canonical_call(to);
    lemma_canonical_call(from);
    assert(line =~= to + seq![' '] + from + seq![' '] + body);
    lemma_three_words(to, from, body);
}

proof fn lemma_read_report(to: Seq<char>, from: Seq<char>, rpt: int)
    requires
        -32767 <= rpt <= 32767,
    ensures
        body_payload(to, from, report_text(rpt)) == Some(
            PayloadView::CallWithReport { from, to, rpt },
        ),
{
    reveal_strlit("73");
    reveal_strlit("rr73");
    reveal_strlit("rrr");
    reveal_strlit("rr");
    let body = report_text(rpt);
    lemma_report_word(rpt);
    law_report_round_trip(rpt);
    assert(ascii_lower(body)[0] == body[0]);
    assert("rr73"@[0] == 'r' && "rrr"@[0] == 'r' && "rr"@[0] == 'r' && "73"@[0] == '7');
}

proof fn lemma_read_r_report(to: Seq<char>, from: Seq<char>, rpt: int)
    requires
        -32767 <= rpt <= 32767,
    ensures
        body_payload(to, from, seq!['R'] + report_text(rpt)) == Some(
            PayloadView::RReport { from, to, rpt },
        ),
{
    reveal_strlit("73");
    reveal_strlit("rr73");
    reveal_strlit("rrr");
    reveal_strlit("rr");
    let body = seq!['R'] + report_text(rpt);
    lemma_report_word(rpt);
    law_report_round_trip(rpt);
    assert(body.drop_first() =~= report_text(rpt));
    assert(ascii_lower(body)[1] == body[1]);
    assert("rr73"@[1] == 'r' && "rrr"@[1] == 'r' && "rr"@[1] == 'r');
    assert(body[0] == 'R' && "73"@[0] == '7');
}

proof fn lemma_read_closings(to: Seq<char>, from: Seq<char>)
    ensures
        body_payload(to, from, seq!['R', 'R', 'R']) == Some(PayloadView::Rr { from, to }),
        body_payload(to, from, seq!['R', 'R', '7', '3']) == Some(PayloadView::Rr73 { from, to }),
        body_payload(to, from, seq!['7', '3']) == Some(PayloadView::SeventyThree { from, to }),
{
    reveal_strlit("73");
    reveal_strlit("rr73");
    reveal_strlit("rrr");
    assert(ascii_lower(seq!['R', 'R', 'R']) =~= "rrr"@);
    assert(ascii_lower(seq!['R', 'R', '7', '3']) =~= "rr73"@);
    assert(seq!['7', '3'] =~= "73"@);
}

proof fn lemma_read_cq(from: Seq<char>, grid: Option<Seq<char>>)
    requires
        sendable(PayloadView::Cq { from, grid }),
    ensures
        parsed(words(long_form(PayloadView::Cq { from, grid }))) == Some(PayloadView::Cq { from, grid }),
{
    reveal_strlit(" ");
    reveal_strlit("CQ ");
    reveal_strlit("cq");
    let cq = seq!['C', 'Q'];
    let line = long_form(PayloadView::Cq { from, grid });
    assert(PayloadView::Cq { from, grid }.sender() == from);
    lemma_canonical_call(from);
    assert(" "@ =~= seq![' ']);
    assert("CQ "@ =~= cq + seq![' ']);
    assert(ascii_lower(cq) =~= "cq"@);
    match grid {
        Some(g) => {
            assert forall|i: int| 0 <= i < g.len() implies (#[trigger] g[i] as u32) < 128 && !is_white(
                g[i],
            ) by {
                assert(i == 0 || i == 1 || i == 2 || i == 3);
            }
            lemma_three_words(cq, from, g);
            assert(line =~= cq + seq![' '] + from + seq![' '] + g);
        },
        None => {
            assert(line =~= cq + seq![' '] + from);
            lemma_words_cons(cq, from);
            lemma_words_one(from);
            assert(words(line) =~= seq![cq, from]);
        },
    }
}

/// Reading a message that was written in its full form gives the message back.
pub proof fn law_message_round_trip(p: PayloadView)
    requires
        sendable(p),
    ensures
        parsed(words(long_form(p))) == Some(p),
{
    match p {
        PayloadView::Cq { from, grid } => {
            lemma_read_cq(from, grid);
        },
        PayloadView::Call { from, to } => {
            reveal_strlit(" ");
            assert(" "@ =~= seq![' ']);
            lemma_canonical_call(to);
            lemma_canonical_call(from);
            lemma_words_cons(to, from);
            lemma_words_one(from);
            assert(words(long_form(p)) =~= seq![to, from]);
        },
        PayloadView::CallWithReport { from, to, rpt } => {
            reveal_strlit(" ");
            let body = report_text(rpt);
            lemma_report_word(rpt);
            assert(long_form(p) =~= to + " "@ + from + (seq![' '] + body));
            lemma_addressed(to, from, body, long_form(p));
            lemma_read_report(to, from, rpt);
        },
        PayloadView::RReport { from, to, rpt } => {
            reveal_strlit(" R");
            let body = seq!['R'] + report_text(rpt);
            lemma_report_word(rpt);
            assert(long_form(p) =~= to + " "@ + from + (seq![' '] + body));
            lemma_addressed(to, from, body, long_form(p));
            lemma_read_r_report(to, from, rpt);
        },
        PayloadView::Rr { from, to } => {
            reveal_strlit(" RRR");
            let body = seq!['R', 'R', 'R'];
            assert(" RRR"@ =~= seq![' '] + body);
            lemma_addressed(to, from, body, long_form(p));
            lemma_read_closings(to, from);
        },
        PayloadView::Rr73 { from, to } => {
            reveal_strlit(" RR73");
            let body = seq!['R', 'R', '7', '3'];
            assert(" RR73"@ =~= seq![' '] + body);
            lemma_addressed(to, from, body, long_form(p));
            lemma_read_closings(to, from);
        },
        PayloadView::SeventyThree { from, to } => {
            reveal_strlit(" 73");
            let body = seq!['7', '3'];
            assert(" 73"@ =~= seq![' '] + body);
            lemma_addressed(to, from, body, long_form(p));
            lemma_read_closings(to, from);
        },
        PayloadView::Text { .. } => {},
    }
}

/// The short form differs from the full one only for R-report, RRR and 73.
pub proof fn law_short_form_scope(p: PayloadView)
    ensures
        p is Cq || p is Call || p is CallWithReport || p is Rr73 || p is Text ==> rendered(p, true)
            == long_form(p),
        p is RReport || p is Rr || p is SeventyThree ==> rendered(p, true)[0] == '<',
        rendered(p, false) == long_form(p),
{
    reveal_strlit("<");
    match short_form(p) {
        Some(s) => {
            assert(s[0] == '<');
        },
        None => {},
    }
}

/// A message names the station it is addressed to first and its sender second, with
/// a space between them; a CQ stands in the place of an addressee. What it says
/// comes third.
pub proof fn law_addressee_comes_first(p: PayloadView)
    ensures
        ({
            let t = long_form(p);
            let to = match p.addressee() {
                Some(to) => to,
                None => seq!['C', 'Q'],
            };
            let from = p.sender();
            let (a, b) = (to.len() as int, to.len() as int + 1 + from.len() as int);
            &&& t.len() >= b
            &&& t.subrange(0, a) == to
            &&& t[a] == ' '
            &&& t.subrange(a + 1, b) == from
            &&& t.len() > b ==> t[b] == ' '
            &&& t.len() == b <==> p is Call || (p matches PayloadView::Cq { from, grid } && grid is None)
            &&& t.len() > b ==> t.subrange(b + 1, t.len() as int) == match p {
                PayloadView::Cq { from, grid } => grid->0,
                PayloadView::CallWithReport { from, to, rpt } => report_text(rpt),
                PayloadView::RReport { from, to, rpt } => seq!['R'] + report_text(rpt),
                PayloadView::Rr { from, to } => seq!['R', 'R', 'R'],
                PayloadView::Rr73 { from, to } => seq!['R', 'R', '7', '3'],
                PayloadView::SeventyThree { from, to } => seq!['7', '3'],
                PayloadView::Text { from, to, text } => text,
                PayloadView::Call { from, to } => seq![],
            }
        }),
{
    reveal_strlit("CQ ");
    reveal_strlit(" ");
    reveal_strlit(" R");
    reveal_strlit(" RRR");
    reveal_strlit(" RR73");
    reveal_strlit(" 73");
    let t = long_form(p);
    let to = match p.addressee() {
        Some(to) => to,
        None => seq!['C', 'Q'],
    };
    let from = p.sender();
    let (a, b) = (to.len() as int, to.len() as int + 1 + from.len() as int);
    assert(t.subrange(0, a) =~= to);
    assert(t.subrange(a + 1, b) =~= from);
    if t.len() > b {
        let x = t.subrange(b + 1, t.len() as int);
        match p {
            PayloadView::Cq { from, grid } => assert(x =~= grid->0),
            PayloadView::CallWithReport { from, to, rpt } => assert(x =~= report_text(rpt)),
            PayloadView::RReport { from, to, rpt } => assert(x =~= seq!['R'] + report_text(rpt)),
            PayloadView::Rr { from, to } => assert(x =~= seq!['R', 'R', 'R']),
            PayloadView::Rr73 { from, to } => assert(x =~= seq!['R', 'R', '7', '3']),
            PayloadView::SeventyThree { from, to } => assert(x =~= seq!['7', '3']),
            PayloadView::Text { from, to, text } => assert(x =~= text),
            PayloadView::Call { from, to } => {},
        }
    }
}

/// In its short form a message names its sender first, then the addressee, in
/// brackets, and then what it says in its full form. Only an R-report, RRR and 73
/// have one.
pub proof fn law_sender_comes_first_in_short_form(p: PayloadView)
    ensures
        short_form(p) is Some <==> p is RReport || p is Rr || p is SeventyThree,
        short_form(p) matches Some(t) ==> {
            let (from, to) = (p.sender(), p.addressee()->0);
            let (a, b) = (1 + from.len() as int, 2 + from.len() as int + to.len() as int);
            &&& t[0] == '<'
            &&& t.subrange(1, a) == from
            &&& t[a] == ' '
            &&& t.subrange(a + 1, b) == to
            &&& t[b] == '>'
            &&& t.subrange(b + 1, t.len() as int) == long_form(p).subrange(b - 1, long_form(p).len() as int)
        },
        rendered(p, false) == long_form(p),
        short_form(p) is Some ==> rendered(p, true) == short_form(p)->0,
        short_form(p) is None ==> rendered(p, true) == long_form(p),
        p.kind() == Format::Fmt2 <==> short_form(p) is Some || p is Rr73,
{
    reveal_strlit("<");
    reveal_strlit(" ");
    reveal_strlit("> R");
    reveal_strlit("> RRR");
    reveal_strlit("> 73");
    reveal_strlit(" R");
    reveal_strlit(" RRR");
    reveal_strlit(" 73");
    if let Some(t) = short_form(p) {
        let (from, to) = (p.sender(), p.addressee()->0);
        let (a, b) = (1 + from.len() as int, 2 + from.len() as int + to.len() as int);
        assert(t.subrange(1, a) =~= from);
        assert(t.subrange(a + 1, b) =~= to);
        let l = long_form(p);
        assert(t.subrange(b + 1, t.len() as int) =~= l.subrange(b - 1, l.len() as int));
    }
}

/// Slashes around a callsign do not matter. Without them a callsign has up to seven
/// letters, digits and slashes, with a letter and a digit among them.
pub proof fn law_what_a_callsign_is(s: Seq<char>)
    ensures
        is_call(seq!['/'] + s) == is_call(s),
        is_call(s) ==> (exists|i: int| 0 <= i < s.len() && is_letter(#[trigger] s[i])) && (exists|i: int|
            0 <= i < s.len() && is_digit(#[trigger] s[i])),
        s.len() > 0 && s[0] != '/' && s.last() != '/' ==> {
            &&& is_call(s.push('/')) == is_call(s)
            &&& (is_call(s) <==> s.len() <= 7 && (forall|i: int|
                0 <= i < s.len() ==> is_letter(#[trigger] s[i]) || is_digit(s[i]) || s[i] == '/') && (exists|i: int|
                0 <= i < s.len() && is_letter(#[trigger] s[i])) && (exists|i: int|
                0 <= i < s.len() && is_digit(#[trigger] s[i])))
        },
{
    let t = seq!['/'] + s;
    assert(t.drop_first() =~= s);
    assert(t[0] == '/');
    if s.len() > 0 && s[0] != '/' && s.last() != '/' {
        let u = s.push('/');
        assert(u[0] == s[0]);
        assert(u.drop_last() =~= s);
        assert(strip_slashes(u) == strip_slashes(s));
    }
    if is_call(s) {
        lemma_stripped_within(s);
        let body = strip_slashes(s);
        let i = choose|i: int| 0 <= i < body.len() && is_letter(#[trigger] body[i]);
        let j = choose|j: int| 0 <= j < body.len() && is_digit(#[trigger] body[j]);
        assert(s.contains(body[i]));
        assert(s.contains(body[j]));
        assert(is_letter(s[s.index_of(body[i])]));
        assert(is_digit(s[s.index_of(body[j])]));
    }
}

proof fn lemma_stripped_within(s: Seq<char>)
    ensures
        forall|i: int| 0 <= i < strip_slashes(s).len() ==> s.contains(#[trigger] strip_slashes(s)[i]),
    decreases s.len(),
{
    let body = strip_slashes(s);
    if s.len() > 0 && s[0] == '/' {
        let t = s.drop_first();
        lemma_stripped_within(t);
        assert(body == strip_slashes(t));
        assert forall|i: int| 0 <= i < body.len() implies s.contains(#[trigger] body[i]) by {
            assert(t.contains(strip_slashes(t)[i]));
            assert(s[t.index_of(body[i]) + 1] == body[i]);
        }
    } else if s.len() > 0 && s.last() == '/' {
        let t = s.drop_last();
        lemma_stripped_within(t);
        assert(body == strip_slashes(t));
        assert forall|i: int| 0 <= i < body.len() implies s.contains(#[trigger] body[i]) by {
            assert(t.contains(strip_slashes(t)[i]));
            assert(s[t.index_of(body[i])] == body[i]);
        }
    }
}

/// Of a message to a station only the first three words matter: the addressee, the
/// sender and what it says. A CQ has at most three.
pub proof fn law_words_behind_the_third(w: Seq<Seq<char>>)
    requires
        w.len() > 3,
    ensures
        ascii_lower(w[0]) == seq!['c', 'q'] ==> parsed(w) is None,
        ascii_lower(w[0]) != seq!['c', 'q'] ==> parsed(w) == parsed(w.take(3)),
{
    reveal_strlit("cq");
    assert("cq"@ =~= seq!['c', 'q']);
    let t = w.take(3);
    assert(t[0] == w[0] && t[1] == w[1] && t[2] == w[2]);
}

/// What a message to a station says is told by its third word: 73, RR73, RRR or RR,
/// a report, a report behind an R, or a locator; without one it is a call. The first
/// word is the addressee, the second the sender.
pub proof fn law_third_word_decides(to: Seq<char>, from: Seq<char>, body: Seq<char>)
    requires
        is_call(to),
        is_call(from),
        ascii_lower(to) != seq!['c', 'q'],
    ensures
        ({
            let (t, f) = (upper(to), upper(from));
            let r = parsed(seq![to, from, body]);
            let low = ascii_lower(body);
            &&& parsed(seq![to, from]) == Some(PayloadView::Call { from: f, to: t })
            &&& low == seq!['7', '3'] ==> r == Some(PayloadView::SeventyThree { from: f, to: t })
            &&& low == seq!['r', 'r', '7', '3'] ==> r == Some(PayloadView::Rr73 { from: f, to: t })
            &&& low == seq!['r', 'r', 'r'] || low == seq!['r', 'r'] ==> r == Some(PayloadView::Rr { from: f, to: t })
            &&& report_value(body) matches Some(n) ==> r == Some(PayloadView::CallWithReport { from: f, to: t, rpt: n })
            &&& is_locator(body) && low != seq!['r', 'r', '7', '3'] ==> r == Some(PayloadView::Call { from: f, to: t })
            &&& body.len() > 0 && low[0] == 'r' && report_value(body.drop_first()) is Some ==> r == Some(
                PayloadView::RReport { from: f, to: t, rpt: report_value(body.drop_first())->0 },
            )
        }),
{
    reveal_strlit("cq");
    reveal_strlit("73");
    reveal_strlit("rr73");
    reveal_strlit("rrr");
    reveal_strlit("rr");
    assert("cq"@ =~= seq!['c', 'q']);
    assert("73"@ =~= seq!['7', '3']);
    assert("rr73"@ =~= seq!['r', 'r', '7', '3']);
    assert("rrr"@ =~= seq!['r', 'r', 'r']);
    assert("rr"@ =~= seq!['r', 'r']);
    let low = ascii_lower(body);
    assert(low.len() == body.len());
    if low == seq!['7', '3'] {
        assert(low[0] == '7' && low[1] == '3');
        assert(body =~= seq!['7', '3']);
    }
    if low == seq!['r', 'r', '7', '3'] || low == seq!['r', 'r', 'r'] || low == seq!['r', 'r'] {
        assert(low[0] == 'r');
        assert(body != "73"@) by {
            assert("73"@[0] == '7');
        }
        assert(low.len() != seq!['r', 'r', '7', '3'].len() || low != seq!['r', 'r', 'r']);
    }
    if report_value(body) is Some {
        assert(low[0] == body[0]);
        assert("73"@[0] == '7' && "rr73"@[0] == 'r' && "rrr"@[0] == 'r' && "rr"@[0] == 'r');
    }
    if is_locator(body) {
        assert(low[1] == lower_char(body[1]));
        assert("73"@.len() == 2 && "rrr"@.len() == 3 && "rr"@.len() == 2);
        lemma_locator_no_report(body);
    }
    if body.len() > 0 && low[0] == 'r' && report_value(body.drop_first()) is Some {
        assert(low[0] == lower_char(body[0]));
        assert(body[0] == 'R' || body[0] == 'r');
        let sign = body.drop_first()[0];
        assert(sign == body[1] && low[1] == sign);
        assert("73"@[0] == '7' && "rr73"@[1] == 'r' && "rrr"@[1] == 'r' && "rr"@[1] == 'r');
    }
}

proof fn lemma_locator_no_report(body: Seq<char>)
    requires
        is_locator(body),
    ensures
        report_value(body) is None,
        report_value(body.drop_first()) is None,
{
    assert(body.drop_first()[0] == body[1]);
}

/// A locator is two letters and two digits.
pub proof fn law_what_a_locator_is(s: Seq<char>)
    ensures
        is_locator(s) ==> s.len() == 4,
        s.len() == 4 ==> (is_locator(s) <==> ('A' <= s[0] <= 'Z' || 'a' <= s[0] <= 'z') && ('A' <= s[1] <= 'Z' || 'a'
            <= s[1] <= 'z') && '0' <= s[2] <= '9' && '0' <= s[3] <= '9'),
{
}

/// A CQ names the station that calls, and its locator where the third word is one; a
/// third word of another kind is passed over. With a third word the second one must be
/// a callsign.
pub proof fn law_words_of_a_cq(cq: Seq<char>, call: Seq<char>, third: Seq<char>)
    requires
        ascii_lower(cq) == seq!['c', 'q'],
    ensures
        parsed(seq![cq, call]) == Some(PayloadView::Cq { from: upper(call), grid: None }),
        is_call(call) && is_locator(third) ==> parsed(seq![cq, call, third]) == Some(
            PayloadView::Cq { from: upper(call), grid: Some(upper(third)) },
        ),
        is_call(call) && !is_locator(third) ==> parsed(seq![cq, call, third]) == Some(
            PayloadView::Cq { from: upper(call), grid: None },
        ),
        !is_call(call) ==> parsed(seq![cq, call, third]) is None,
{
    reveal_strlit("cq");
    assert("cq"@ =~= seq!['c', 'q']);
}

/// A line of fewer than two words says nothing, nor does one to or from something
/// that is no callsign.
pub proof fn law_what_is_no_message(w: Seq<Seq<char>>)
    ensures
        w.len() < 2 ==> parsed(w) is None,
        w.len() >= 2 && ascii_lower(w[0]) != seq!['c', 'q'] && !(is_call(w[0]) && is_call(w[1])) ==> parsed(w) is None,
{
    reveal_strlit("cq");
    assert("cq"@ =~= seq!['c', 'q']);
}

} // verus!
