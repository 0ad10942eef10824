//! The contact log in ADIF, the Amateur Data Interchange Format.
//!
//! A field is written `<NAME:length>value`, its length counted in bytes. A
//! record is one line of fields that ends in `<EOR>`; a file starts with a
//! header that ends in `<EOH>`.
use vstd::prelude::*;
use vstd::string::*;

use crate::clock::{
    date_text, fields_of, format_date, format_time_of_day, representable, time_text, utc_fields,
};
use crate::mhz::{six_decimals, with_six_decimals};
use crate::proto::{clone_opt, opt_text};
use crate::text::{
    all_ascii, law_ascii_bytes, byte_count, byte_len, bytes_from, chars_in_bytes, chars_of, contains, cut_bytes, decimal,
    find_from, first_at, lemma_cut_whole, occurs, parse_unsigned, push_decimal, text_of, texts,
    trim, trimmed, unsigned_value, to_lower, ascii_lower, same,
};

verus! {

/// One completed contact.
#[derive(Debug, PartialEq, Eq)]
pub struct QsoRecord {
    /// Their callsign.
    pub call: String,
    /// Our callsign.
    pub operator: String,
    /// Date, as YYYYMMDD.
    pub qso_date: String,
    /// Start time, as HHMMSS.
    pub time_on: String,
    /// End time, as HHMMSS.
    pub time_off: String,
    /// Band, such as "2M" or "70CM".
    pub band: String,
    /// Frequency in megahertz, as the text of a number; it is written with six
    /// decimals.
    pub freq: Option<String>,
    /// Mode, such as "MSK144".
    pub mode: String,
    /// Report sent.
    pub rst_sent: String,
    /// Report received.
    pub rst_rcvd: String,
    /// Their locator.
    pub gridsquare: Option<String>,
}

/// The mathematical content of a [`QsoRecord`].
#[verifier::ext_equal]
pub struct QsoRecordView {
    pub call: Seq<char>,
    pub operator: Seq<char>,
    pub qso_date: Seq<char>,
    pub time_on: Seq<char>,
    pub time_off: Seq<char>,
    pub band: Seq<char>,
    pub freq: Option<Seq<char>>,
    pub mode: Seq<char>,
    pub rst_sent: Seq<char>,
    pub rst_rcvd: Seq<char>,
    pub gridsquare: Option<Seq<char>>,
}

impl View for QsoRecord {
    type V = QsoRecordView;

    open spec fn view(&self) -> QsoRecordView {
        QsoRecordView {
            call: self.call@,
            operator: self.operator@,
            qso_date: self.qso_date@,
            time_on: self.time_on@,
            time_off: self.time_off@,
            band: self.band@,
            freq: opt_text(self.freq),
            mode: self.mode@,
            rst_sent: self.rst_sent@,
            rst_rcvd: self.rst_rcvd@,
            gridsquare: opt_text(self.gridsquare),
        }
    }
}

impl Clone for QsoRecord {
    fn clone(&self) -> (r: Self)
        ensures
            r == *self,
    {
        QsoRecord {
            call: self.call.clone(),
            operator: self.operator.clone(),
            qso_date: self.qso_date.clone(),
            time_on: self.time_on.clone(),
            time_off: self.time_off.clone(),
            band: self.band.clone(),
            freq: clone_opt(&self.freq),
            mode: self.mode.clone(),
            rst_sent: self.rst_sent.clone(),
            rst_rcvd: self.rst_rcvd.clone(),
            gridsquare: clone_opt(&self.gridsquare),
        }
    }
}

/// A field as it is written.
pub open spec fn field_text(name: Seq<char>, value: Seq<char>) -> Seq<char> {
    "<"@ + name + ":"@ + decimal(byte_len(value)) + ">"@ + value
}

/// Writes one field.
pub fn adif_field(name: &str, value: &str) -> (r: String)
    ensures
        r@ == field_text(name@, value@),
{
    let mut s = "<".to_owned();
    s.append(name);
    s.append(":");
    push_decimal(&mut s, byte_count(value) as u64);
    s.append(">");
    s.append(value);
    s
}

/// Fields in a row, each followed by a space.
pub open spec fn fields_text(fields: Seq<(Seq<char>, Seq<char>)>) -> Seq<char>
    decreases fields.len(),
{
    if fields.len() == 0 {
        Seq::empty()
    } else {
        fields_text(fields.drop_last()) + field_text(fields.last().0, fields.last().1) + " "@
    }
}

/// An optional field: no field at all where there is no value.
pub open spec fn opt_field(name: Seq<char>, value: Option<Seq<char>>) -> Seq<(Seq<char>, Seq<char>)> {
    match value {
        Some(v) => seq![(name, v)],
        None => seq![],
    }
}

/// A frequency as it is written: with six decimals.
pub open spec fn written_freq(freq: Option<Seq<char>>) -> Option<Seq<char>> {
    match freq {
        Some(f) => Some(six_decimals(f)),
        None => None,
    }
}

impl QsoRecordView {
    /// The record with its frequency as it is written.
    pub open spec fn normal(self) -> QsoRecordView {
        QsoRecordView { freq: written_freq(self.freq), ..self }
    }

    /// The fields of a record in the order in which they are written. An empty
    /// received report is left out.
    pub open spec fn fields(self) -> Seq<(Seq<char>, Seq<char>)> {
        seq![
            ("CALL"@, self.call),
            ("OPERATOR"@, self.operator),
            ("QSO_DATE"@, self.qso_date),
            ("TIME_ON"@, self.time_on),
            ("TIME_OFF"@, self.time_off),
            ("BAND"@, self.band),
        ] + opt_field("FREQ"@, written_freq(self.freq)) + seq![
            ("MODE"@, self.mode),
            ("RST_SENT"@, self.rst_sent),
        ] + opt_field(
            "RST_RCVD"@,
            if self.rst_rcvd.len() > 0 {
                Some(self.rst_rcvd)
            } else {
                None
            },
        ) + opt_field("GRIDSQUARE"@, self.gridsquare)
    }

    /// The line that a record is written as.
    pub open spec fn line(self) -> Seq<char> {
        fields_text(self.fields()) + "<EOR>"@
    }
}

/// Appends one field and a space to a line under construction.
fn push_field(
    line: &mut String,
    name: &str,
    value: &str,
    Ghost(done): Ghost<Seq<(Seq<char>, Seq<char>)>>,
)
    requires
        old(line)@ == fields_text(done),
    ensures
        final(line)@ == fields_text(done.push((name@, value@))),
{
    let field = adif_field(name, value);
    line.append(field.as_str());
    line.append(" ");
    assert(done.push((name@, value@)).drop_last() =~= done);
}

impl QsoRecord {
    /// A record of a contact between two instants.
    pub fn new(
        call: String,
        operator: String,
        start_utc_ms: i64,
        end_utc_ms: i64,
        band: String,
        freq: Option<String>,
        mode: &str,
        rst_sent: &str,
        rst_rcvd: Option<&str>,
        gridsquare: Option<String>,
    ) -> (r: Self)
        requires
            representable(start_utc_ms as int),
            representable(end_utc_ms as int),
        ensures
            r@ == (QsoRecordView {
                call: call@,
                operator: operator@,
                qso_date: date_text(fields_of(start_utc_ms as int)),
                time_on: time_text(fields_of(start_utc_ms as int)),
                time_off: time_text(fields_of(end_utc_ms as int)),
                band: band@,
                freq: opt_text(freq),
                mode: mode@,
                rst_sent: rst_sent@,
                rst_rcvd: match rst_rcvd {
                    Some(s) => s@,
                    None => Seq::empty(),
                },
                gridsquare: opt_text(gridsquare),
            }),
    {
        let start = utc_fields(start_utc_ms);
        let end = utc_fields(end_utc_ms);
        QsoRecord {
            call,
            operator,
            qso_date: format_date(&start),
            time_on: format_time_of_day(&start),
            time_off: format_time_of_day(&end),
            band,
            freq,
            mode: mode.to_owned(),
            rst_sent: rst_sent.to_owned(),
            rst_rcvd: match rst_rcvd {
                Some(s) => s.to_owned(),
                None => String::new(),
            },
            gridsquare,
        }
    }

    /// The line that the record is written as.
    pub fn to_adif(&self) -> (r: String)
        ensures
            r@ == self@.line(),
    {
        let mut s = String::new();
        let ghost none: Seq<(Seq<char>, Seq<char>)> = seq![];
        assert(s@ =~= fields_text(none));
        push_field(&mut s, "CALL", self.call.as_str(), Ghost(none));
        let ghost f = none.push(("CALL"@, self.call@));
        push_field(&mut s, "OPERATOR", self.operator.as_str(), Ghost(f));
        let ghost f = f.push(("OPERATOR"@, self.operator@));
        push_field(&mut s, "QSO_DATE", self.qso_date.as_str(), Ghost(f));
        let ghost f = f.push(("QSO_DATE"@, self.qso_date@));
        push_field(&mut s, "TIME_ON", self.time_on.as_str(), Ghost(f));
        let ghost f = f.push(("TIME_ON"@, self.time_on@));
        push_field(&mut s, "TIME_OFF", self.time_off.as_str(), Ghost(f));
        let ghost f = f.push(("TIME_OFF"@, self.time_off@));
        push_field(&mut s, "BAND", self.band.as_str(), Ghost(f));
        let ghost f = f.push(("BAND"@, self.band@));
        let ghost mut g = f;
        if let Some(freq) = &self.freq {
            let text = with_six_decimals(freq.as_str());
            push_field(&mut s, "FREQ", text.as_str(), Ghost(f));
            proof {
                g = f.push(("FREQ"@, text@));
            }
        }
        let ghost f = g;
        push_field(&mut s, "MODE", self.mode.as_str(), Ghost(f));
        let ghost f = f.push(("MODE"@, self.mode@));
        push_field(&mut s, "RST_SENT", self.rst_sent.as_str(), Ghost(f));
        let ghost f = f.push(("RST_SENT"@, self.rst_sent@));
        let ghost mut g = f;
        if !self.rst_rcvd.as_str().is_empty() {
            push_field(&mut s, "RST_RCVD", self.rst_rcvd.as_str(), Ghost(f));
            proof {
                g = f.push(("RST_RCVD"@, self.rst_rcvd@));
            }
        }
        let ghost f = g;
        let ghost mut g = f;
        if let Some(grid) = &self.gridsquare {
            push_field(&mut s, "GRIDSQUARE", grid.as_str(), Ghost(f));
            proof {
                g = f.push(("GRIDSQUARE"@, grid@));
            }
        }
        assert(g =~= self@.fields());
        s.append("<EOR>");
        s
    }
}

/// What a field starts with.
pub open spec fn opener(name: Seq<char>) -> Seq<char> {
    "<"@ + name + ":"@
}

/// The first `n` bytes of a text, or the whole of it where it is not longer;
/// `None` where the cut would fall inside a character.
pub open spec fn first_bytes(s: Seq<char>, n: nat) -> Option<Seq<char>> {
    if byte_len(s) <= n {
        Some(s)
    } else {
        match chars_in_bytes(s, n) {
            Some(k) => Some(s.subrange(0, k as int)),
            None => None,
        }
    }
}

/// The value of the first field of that name in a line.
pub open spec fn field_value(line: Seq<char>, name: Seq<char>) -> Option<Seq<char>> {
    match first_at(line, opener(name), 0) {
        None => None,
        Some(start) => {
            let after = start + opener(name).len();
            match first_at(line, ">"@, after) {
                None => None,
                Some(close) => match unsigned_value(line.subrange(after, close), usize::MAX as nat) {
                    None => None,
                    Some(n) => first_bytes(line.subrange(close + 1, line.len() as int), n),
                },
            }
        },
    }
}

/// Reads the value of the field `name` from a line.
///
/// There is none where the line has no such field, where its length is not a
/// number, or where the length ends inside a character. A length that reaches
/// past the end of the line ends with the line.
pub fn parse_field(line: &str, name: &str) -> (r: Option<String>)
    ensures
        opt_text(r) == field_value(line@, name@),
{
    let x = chars_of(line);
    let mut open = "<".to_owned();
    open.append(name);
    open.append(":");
    let pat = chars_of(open.as_str());
    let start: usize = match find_from(&x, &pat, 0) {
        Some(i) => i,
        None => {
            return None;
        },
    };
    assert(x.len() == x@.len());
    let after: usize = start + pat.len();
    let gt = chars_of(">");
    let close: usize = match find_from(&x, &gt, after) {
        Some(i) => i,
        None => {
            return None;
        },
    };
    proof {
        reveal_strlit(">");
    }
    let number = text_of(&x, after, close);
    let len: usize = match parse_unsigned(number.as_str(), usize::MAX as u64) {
        Some(n) => n as usize,
        None => {
            return None;
        },
    };
    let ghost rest = line@.subrange(close + 1, line@.len() as int);
    let whole = match bytes_from(&x, close + 1) {
        Some(total) => total <= len,
        None => false,
    };
    if whole {
        return Some(text_of(&x, close + 1, x.len()));
    }
    match cut_bytes(&x, close + 1, len) {
        Some(k) => {
            let value = text_of(&x, close + 1, close + 1 + k);
            assert(value@ =~= rest.subrange(0, k as int));
            Some(value)
        },
        None => None,
    }
}

/// Number of digits that a text starts with.
pub open spec fn digit_run(s: Seq<char>) -> nat
    decreases s.len(),
{
    if s.len() > 0 && '0' <= s[0] <= '9' {
        1 + digit_run(s.drop_first())
    } else {
        0
    }
}

/// The exponent of a floating-point number.
pub open spec fn is_exponent(s: Seq<char>) -> bool {
    s.len() > 0 && (s[0] == 'e' || s[0] == 'E') && {
        let t = s.drop_first();
        let digits = if t.len() > 0 && (t[0] == '+' || t[0] == '-') {
            t.drop_first()
        } else {
            t
        };
        digits.len() > 0 && digit_run(digits) == digits.len()
    }
}

/// A decimal number with at least one digit around an optional point, and an
/// optional exponent.
pub open spec fn is_number(s: Seq<char>) -> bool {
    let whole = digit_run(s);
    let tail = s.skip(whole as int);
    let frac = if tail.len() > 0 && tail[0] == '.' {
        digit_run(tail.drop_first())
    } else {
        0
    };
    let end = if tail.len() > 0 && tail[0] == '.' {
        tail.drop_first().skip(frac as int)
    } else {
        tail
    };
    whole + frac > 0 && (end.len() == 0 || is_exponent(end))
}

/// A text that writes a floating-point number: an optional sign, then a number
/// or one of the words inf, infinity and nan in any case.
pub open spec fn is_float(s: Seq<char>) -> bool {
    let t = if s.len() > 0 && (s[0] == '+' || s[0] == '-') {
        s.drop_first()
    } else {
        s
    };
    is_number(t) || ascii_lower(t) == "inf"@ || ascii_lower(t) == "infinity"@ || ascii_lower(t) == "nan"@
}

/// Number of digits from `from` on.
pub(crate) fn count_digits(x: &Vec<char>, from: usize) -> (n: usize)
    requires
        from <= x@.len(),
    ensures
        n == digit_run(x@.skip(from as int)),
        from + n <= x@.len(),
{
    let mut n: usize = 0;
    while from + n < x.len() && '0' <= x[from + n] && x[from + n] <= '9'
        invariant
            from + n <= x@.len() == x.len(),
            digit_run(x@.skip(from as int)) == n + digit_run(x@.skip(from + n)),
        decreases x.len() - n,
    {
        assert(x@.skip(from + n).drop_first() =~= x@.skip(from + n + 1));
        n = n + 1;
    }
    n
}

/// Whether `x[from..]` is an exponent.
fn exponent_at(x: &Vec<char>, from: usize) -> (r: bool)
    requires
        from <= x@.len(),
    ensures
        r == is_exponent(x@.skip(from as int)),
{
    if from == x.len() || (x[from] != 'e' && x[from] != 'E') {
        return false;
    }
    let mut at: usize = from + 1;
    assert(x@.skip(from as int).drop_first() =~= x@.skip(at as int));
    if at < x.len() && (x[at] == '+' || x[at] == '-') {
        assert(x@.skip(at as int).drop_first() =~= x@.skip(at + 1));
        at = at + 1;
    }
    at < x.len() && count_digits(x, at) == x.len() - at
}

/// Whether `x[from..]` is a number.
pub(crate) fn number_at(x: &Vec<char>, from: usize) -> (r: bool)
    requires
        from <= x@.len(),
    ensures
        r == is_number(x@.skip(from as int)),
{
    let ghost s = x@.skip(from as int);
    let whole: usize = count_digits(x, from);
    assert(x.len() == x@.len());
    let mut at: usize = from + whole;
    assert(s.skip(whole as int) =~= x@.skip(at as int));
    let mut frac: usize = 0;
    if at < x.len() && x[at] == '.' {
        assert(x@.skip(at as int).drop_first() =~= x@.skip(at + 1));
        frac = count_digits(x, at + 1);
        assert(x@.skip(at + 1).skip(frac as int) =~= x@.skip(at + 1 + frac));
        at = at + 1 + frac;
    }
    (whole > 0 || frac > 0) && (at == x.len() || exponent_at(x, at))
}

/// Whether a text writes a floating-point number.
pub fn is_float_text(s: &str) -> (r: bool)
    ensures
        r == is_float(s@),
{
    let x = chars_of(s);
    let n: usize = x.len();
    let from: usize = if n > 0 && (x[0] == '+' || x[0] == '-') {
        1
    } else {
        0
    };
    let ghost t = x@.skip(from as int);
    assert(from == 1 ==> t =~= s@.drop_first());
    assert(from == 0 ==> t =~= s@);
    if number_at(&x, from) {
        return true;
    }
    let body = text_of(&x, from, n);
    assert(body@ =~= t);
    let word = to_lower(body.as_str());
    same(word.as_str(), "inf") || same(word.as_str(), "infinity") || same(word.as_str(), "nan")
}

/// The value of a field, or nothing where there is none.
pub open spec fn value_or_empty(line: Seq<char>, name: Seq<char>) -> Seq<char> {
    match field_value(line, name) {
        Some(v) => v,
        None => Seq::empty(),
    }
}

/// What a line of the log says: nothing without a CALL field; every other field
/// may be missing.
pub open spec fn parsed_line(line: Seq<char>) -> Option<QsoRecordView> {
    match field_value(line, "CALL"@) {
        None => None,
        Some(call) => Some(
            QsoRecordView {
                call,
                operator: value_or_empty(line, "OPERATOR"@),
                qso_date: value_or_empty(line, "QSO_DATE"@),
                time_on: value_or_empty(line, "TIME_ON"@),
                time_off: value_or_empty(line, "TIME_OFF"@),
                band: value_or_empty(line, "BAND"@),
                freq: match field_value(line, "FREQ"@) {
                    Some(v) => if is_float(v) {
                        Some(v)
                    } else {
                        None
                    },
                    None => None,
                },
                mode: match field_value(line, "MODE"@) {
                    Some(v) => v,
                    None => "MSK144"@,
                },
                rst_sent: value_or_empty(line, "RST_SENT"@),
                rst_rcvd: value_or_empty(line, "RST_RCVD"@),
                gridsquare: field_value(line, "GRIDSQUARE"@),
            },
        ),
    }
}

fn field_or_empty(line: &str, name: &str) -> (r: String)
    ensures
        r@ == value_or_empty(line@, name@),
{
    match parse_field(line, name) {
        Some(v) => v,
        None => String::new(),
    }
}

/// What an optional record holds.
pub open spec fn opt_record(r: Option<QsoRecord>) -> Option<QsoRecordView> {
    match r {
        Some(q) => Some(q@),
        None => None,
    }
}

/// Reads one line of the log, as far as it goes. Without a CALL field it is not
/// a record.
pub fn parse_adif_line(line: &str) -> (r: Option<QsoRecord>)
    ensures
        opt_record(r) == parsed_line(line@),
{
    let call = match parse_field(line, "CALL") {
        Some(v) => v,
        None => {
            return None;
        },
    };
    let freq = match parse_field(line, "FREQ") {
        Some(v) => if is_float_text(v.as_str()) {
            Some(v)
        } else {
            None
        },
        None => None,
    };
    let mode = match parse_field(line, "MODE") {
        Some(v) => v,
        None => "MSK144".to_owned(),
    };
    Some(
        QsoRecord {
            call,
            operator: field_or_empty(line, "OPERATOR"),
            qso_date: field_or_empty(line, "QSO_DATE"),
            time_on: field_or_empty(line, "TIME_ON"),
            time_off: field_or_empty(line, "TIME_OFF"),
            band: field_or_empty(line, "BAND"),
            freq,
            mode,
            rst_sent: field_or_empty(line, "RST_SENT"),
            rst_rcvd: field_or_empty(line, "RST_RCVD"),
            gridsquare: parse_field(line, "GRIDSQUARE"),
        },
    )
}

/// The text from byte `from` to byte `to`, where both lie between characters.
pub open spec fn byte_range(s: Seq<char>, from: nat, to: nat) -> Option<Seq<char>> {
    match (chars_in_bytes(s, from), chars_in_bytes(s, to)) {
        (Some(a), Some(b)) => Some(s.subrange(a as int, b as int)),
        _ => None,
    }
}

/// Bytes `from` to `to` of a text, as characters.
fn slice_bytes(x: &Vec<char>, from: usize, to: usize) -> (r: String)
    requires
        from <= to,
        chars_in_bytes(x@, from as nat) is Some,
        chars_in_bytes(x@, to as nat) is Some,
    ensures
        Some(r@) == byte_range(x@, from as nat, to as nat),
{
    assert(x@.subrange(0, x@.len() as int) =~= x@);
    proof {
        lemma_cut_order(x@, from as nat, to as nat);
    }
    match (cut_bytes(x, 0, from), cut_bytes(x, 0, to)) {
        (Some(a), Some(b)) => text_of(x, a, b),
        _ => String::new(),
    }
}

proof fn lemma_cut_order(s: Seq<char>, a: nat, b: nat)
    requires
        a <= b,
        chars_in_bytes(s, a) is Some,
        chars_in_bytes(s, b) is Some,
    ensures
        chars_in_bytes(s, a)->0 <= chars_in_bytes(s, b)->0 <= s.len(),
    decreases s.len(),
{
    if a > 0 {
        let w = crate::text::char_width(s[0]);
        lemma_cut_order(s.drop_first(), (a - w) as nat, (b - w) as nat);
    } else if b > 0 {
        let w = crate::text::char_width(s[0]);
        lemma_cut_order(s.drop_first(), 0, (b - w) as nat);
    }
}

/// A date with dashes: YYYY-MM-DD where it has eight bytes, otherwise as it is.
pub open spec fn shown_date(d: Seq<char>) -> Seq<char> {
    if byte_len(d) == 8 {
        byte_range(d, 0, 4)->0 + "-"@ + byte_range(d, 4, 6)->0 + "-"@ + byte_range(d, 6, 8)->0
    } else {
        d
    }
}

/// A time with colons: HH:MM:SS or HH:MM by its number of bytes, otherwise as
/// it is.
pub open spec fn shown_time(t: Seq<char>) -> Seq<char> {
    if byte_len(t) >= 6 {
        byte_range(t, 0, 2)->0 + ":"@ + byte_range(t, 2, 4)->0 + ":"@ + byte_range(t, 4, 6)->0
    } else if byte_len(t) >= 4 {
        byte_range(t, 0, 2)->0 + ":"@ + byte_range(t, 2, 4)->0
    } else {
        t
    }
}

/// No cut of [`shown_date`] falls inside a character.
pub open spec fn date_cuts(d: Seq<char>) -> bool {
    byte_len(d) == 8 ==> chars_in_bytes(d, 4) is Some && chars_in_bytes(d, 6) is Some
}

/// No cut of [`shown_time`] falls inside a character.
pub open spec fn time_cuts(t: Seq<char>) -> bool {
    &&& byte_len(t) >= 4 ==> chars_in_bytes(t, 2) is Some && chars_in_bytes(t, 4) is Some
    &&& byte_len(t) >= 6 ==> chars_in_bytes(t, 6) is Some
}

/// A time for display.
pub fn format_time(t: &str) -> (r: String)
    requires
        time_cuts(t@),
    ensures
        r@ == shown_time(t@),
{
    let n: usize = byte_count(t);
    let x = chars_of(t);
    if n < 4 {
        return t.to_owned();
    }
    let mut s = slice_bytes(&x, 0, 2);
    let minutes = slice_bytes(&x, 2, 4);
    s.append(":");
    s.append(minutes.as_str());
    if n >= 6 {
        let seconds = slice_bytes(&x, 4, 6);
        s.append(":");
        s.append(seconds.as_str());
    }
    s
}

impl QsoRecord {
    /// The date for display, as YYYY-MM-DD.
    pub fn display_date(&self) -> (r: String)
        requires
            date_cuts(self.qso_date@),
        ensures
            r@ == shown_date(self.qso_date@),
    {
        if byte_count(self.qso_date.as_str()) != 8 {
            return self.qso_date.clone();
        }
        let x = chars_of(self.qso_date.as_str());
        proof {
            lemma_cut_whole(x@, Seq::empty());
            assert(x@ + Seq::<char>::empty() =~= x@);
        }
        let mut s = slice_bytes(&x, 0, 4);
        let month = slice_bytes(&x, 4, 6);
        let day = slice_bytes(&x, 6, 8);
        s.append("-");
        s.append(month.as_str());
        s.append("-");
        s.append(day.as_str());
        s
    }

    /// The start time for display.
    pub fn display_time_on(&self) -> (r: String)
        requires
            time_cuts(self.time_on@),
        ensures
            r@ == shown_time(self.time_on@),
    {
        format_time(self.time_on.as_str())
    }

    /// The end time for display.
    pub fn display_time_off(&self) -> (r: String)
        requires
            time_cuts(self.time_off@),
        ensures
            r@ == shown_time(self.time_off@),
    {
        format_time(self.time_off.as_str())
    }
}

/// A log file and the program that writes it.
#[derive(Debug)]
pub struct AdifLogger {
    pub path: String,
    pub program_id: String,
}

/// The lines that a log file starts with.
pub open spec fn header_text(program_id: Seq<char>) -> Seq<char> {
    "ADIF Export from "@ + program_id + "\n<ADIF_VER:5>3.1.4\n<PROGRAMID:"@ + decimal(
        byte_len(program_id),
    ) + ">"@ + program_id + "\n<EOH>\n\n"@
}

/// What is written when a record is logged: the header first where the file is
/// new or empty, then the record on a line of its own.
pub open spec fn logged_text(program_id: Seq<char>, fresh: bool, record: QsoRecordView) -> Seq<char> {
    if fresh {
        header_text(program_id) + record.line() + "\n"@
    } else {
        record.line() + "\n"@
    }
}

/// What a list of records holds.
pub open spec fn records(v: Seq<QsoRecord>) -> Seq<QsoRecordView> {
    v.map_values(|r: QsoRecord| r@)
}

/// A line without the carriage return that may end it.
pub open spec fn chomp(line: Seq<char>) -> Seq<char> {
    if line.len() > 0 && line.last() == '\r' {
        line.drop_last()
    } else {
        line
    }
}

/// The lines of `rest`, the first of which has begun with `line`. What follows
/// the last line break is a line only if it is not empty.
pub open spec fn lines_from(rest: Seq<char>, line: Seq<char>) -> Seq<Seq<char>>
    decreases rest.len(),
{
    if rest.len() == 0 {
        if line.len() == 0 {
            seq![]
        } else {
            seq![line]
        }
    } else if rest[0] == '\n' {
        seq![chomp(line)] + lines_from(rest.drop_first(), seq![])
    } else {
        lines_from(rest.drop_first(), line.push(rest[0]))
    }
}

/// The lines of a text.
pub open spec fn lines(s: Seq<char>) -> Seq<Seq<char>> {
    lines_from(s, seq![])
}

/// The records in the lines that follow the header.
pub open spec fn body_records(l: Seq<Seq<char>>) -> Seq<QsoRecordView>
    decreases l.len(),
{
    if l.len() == 0 {
        seq![]
    } else {
        let front = body_records(l.drop_last());
        if trim(l.last()).len() == 0 {
            front
        } else {
            match parsed_line(l.last()) {
                Some(r) => front.push(r),
                None => front,
            }
        }
    }
}

/// The records of a log file: those after the first line that holds `<EOH>`.
pub open spec fn file_records(l: Seq<Seq<char>>) -> Seq<QsoRecordView>
    decreases l.len(),
{
    if l.len() == 0 {
        seq![]
    } else if occurs(l[0], "<EOH>"@) {
        body_records(l.drop_first())
    } else {
        file_records(l.drop_first())
    }
}

/// The lines of a text, without their line breaks.
pub fn split_lines(s: &str) -> (r: Vec<String>)
    ensures
        texts(r@) == lines(s@),
{
    let x = chars_of(s);
    let mut out: Vec<String> = Vec::new();
    let mut from: usize = 0;
    let mut i: usize = 0;
    assert(s@.subrange(0, s@.len() as int) =~= s@);
    assert(s@.subrange(0, 0) =~= Seq::<char>::empty());
    assert(texts(out@) + lines(s@) =~= lines(s@));
    while i < x.len()
        invariant
            from <= i <= x@.len(),
            x@ == s@,
            lines(s@) == texts(out@) + lines_from(
                s@.subrange(i as int, s@.len() as int),
                s@.subrange(from as int, i as int),
            ),
        decreases x.len() - i,
    {
        let ghost rest = s@.subrange(i as int, s@.len() as int);
        let ghost line = s@.subrange(from as int, i as int);
        let ghost done = texts(out@);
        assert(rest.drop_first() =~= s@.subrange(i + 1, s@.len() as int));
        if x[i] == '\n' {
            let mut to: usize = i;
            if i > from && x[i - 1] == '\r' {
                to = i - 1;
                assert(line.drop_last() =~= s@.subrange(from as int, to as int));
            }
            let text = text_of(&x, from, to);
            assert(text@ == chomp(line));
            out.push(text);
            assert(texts(out@) =~= done.push(chomp(line)));
            assert(done + (seq![chomp(line)] + lines_from(rest.drop_first(), seq![])) =~= done.push(
                chomp(line),
            ) + lines_from(rest.drop_first(), seq![]));
            from = i + 1;
            assert(s@.subrange(from as int, i + 1) =~= Seq::<char>::empty());
        } else {
            assert(line.push(x@[i as int]) =~= s@.subrange(from as int, i + 1));
        }
        i = i + 1;
    }
    let ghost done = texts(out@);
    let ghost line = s@.subrange(from as int, i as int);
    assert(s@.subrange(i as int, s@.len() as int).len() == 0);
    if from < i {
        out.push(text_of(&x, from, i));
        assert(texts(out@) =~= done.push(line));
        assert(done + seq![line] =~= done.push(line));
    } else {
        assert(done + Seq::<Seq<char>>::empty() =~= done);
    }
    out
}

impl AdifLogger {
    /// A logger that writes to `path` and names `program_id` in the header.
    pub fn new(path: String, program_id: String) -> (r: Self)
        ensures
            r.path == path,
            r.program_id == program_id,
    {
        AdifLogger { path, program_id }
    }

    /// The path for display.
    pub fn path_display(&self) -> (r: String)
        ensures
            r@ == self.path@,
    {
        self.path.clone()
    }

    /// Whether a file needs its header first: it does not exist, or its length
    /// is zero or unknown.
    pub fn needs_header(present: bool, len: Option<u64>) -> (r: bool)
        ensures
            r == (!present || len is None || len == Some(0u64)),
    {
        match len {
            Some(n) => !present || n == 0,
            None => true,
        }
    }

    /// What to append to the file to log a record.
    pub fn log_text(&self, fresh: bool, record: &QsoRecord) -> (r: String)
        ensures
            r@ == logged_text(self.program_id@, fresh, record@),
    {
        let line = record.to_adif();
        let mut s = if fresh {
            let mut s = "ADIF Export from ".to_owned();
            s.append(self.program_id.as_str());
            s.append("\n<ADIF_VER:5>3.1.4\n<PROGRAMID:");
            push_decimal(&mut s, byte_count(self.program_id.as_str()) as u64);
            s.append(">");
            s.append(self.program_id.as_str());
            s.append("\n<EOH>\n\n");
            s.append(line.as_str());
            s
        } else {
            line
        };
        s.append("\n");
        s
    }

    /// The records in the text of a log file.
    pub fn read_text(text: &str) -> (r: Vec<QsoRecord>)
        ensures
            records(r@) == file_records(lines(text@)),
    {
        let l = split_lines(text);
        let ghost all = lines(text@);
        assert(texts(l@).len() == l@.len());
        let mut out: Vec<QsoRecord> = Vec::new();
        let mut i: usize = 0;
        assert(all.skip(0) =~= all);
        while i < l.len() && !contains(l[i].as_str(), "<EOH>")
            invariant
                i <= l@.len(),
                texts(l@) == all,
                file_records(all) == file_records(all.skip(i as int)),
            decreases l.len() - i,
        {
            assert(all[i as int] == l@[i as int]@);
            assert(all.skip(i as int).drop_first() =~= all.skip(i + 1));
            i = i + 1;
        }
        if i == l.len() {
            assert(records(out@) =~= file_records(all));
            return out;
        }
        assert(all[i as int] == l@[i as int]@);
        let ghost body = all.skip(i + 1);
        assert(all.skip(i as int).drop_first() =~= body);
        let ghost first = i + 1;
        i = i + 1;
        assert(body.take(0) =~= Seq::<Seq<char>>::empty());
        assert(records(out@) =~= body_records(body.take(0)));
        while i < l.len()
            invariant
                0 <= first <= i <= l@.len() == all.len(),
                texts(l@) == all,
                body == all.skip(first),
                records(out@) == body_records(body.take(i - first)),
            decreases l.len() - i,
        {
            let ghost done = out@;
            assert(all[i as int] == l@[i as int]@);
            assert(body.take(i + 1 - first).drop_last() =~= body.take(i - first));
            assert(body.take(i + 1 - first).last() == all[i as int]);
            let line = l[i].as_str();
            if !trimmed(line).is_empty() {
                if let Some(rec) = parse_adif_line(line) {
                    let ghost v = rec@;
                    out.push(rec);
                    assert(records(out@) =~= records(done).push(v));
                }
            }
            i = i + 1;
        }
        assert(body.take(i - first) =~= body);
        out
    }
}

/// A date of eight digits is shown with dashes behind the year and the month, and a
/// time of six or four with colons between its pairs; the digits stay in order.
pub proof fn law_dates_and_times_shown(t: Seq<char>)
    requires
        all_ascii(t),
    ensures
        t.len() == 8 ==> shown_date(t) == t.subrange(0, 4) + seq!['-'] + t.subrange(4, 6) + seq!['-'] + t.subrange(6, 8),
        t.len() != 8 ==> shown_date(t) == t,
        t.len() >= 6 ==> shown_time(t) == t.subrange(0, 2) + seq![':'] + t.subrange(2, 4) + seq![':'] + t.subrange(4, 6),
        4 <= t.len() < 6 ==> shown_time(t) == t.subrange(0, 2) + seq![':'] + t.subrange(2, 4),
        t.len() < 4 ==> shown_time(t) == t,
{
    reveal_strlit("-");
    reveal_strlit(":");
    assert("-"@ =~= seq!['-']);
    assert(":"@ =~= seq![':']);
    law_ascii_bytes(t, 0);
    if t.len() >= 4 {
        law_ascii_bytes(t, 2);
        law_ascii_bytes(t, 4);
    }
    if t.len() >= 6 {
        law_ascii_bytes(t, 6);
    }
    if t.len() == 8 {
        law_ascii_bytes(t, 8);
    }
}

} // verus!
