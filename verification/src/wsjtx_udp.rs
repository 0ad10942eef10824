//! Datagrams that tell logging programs of a completed contact, in the format of
//! WSJT-X: a structured one (QSOLogged) and one that carries an ADIF record
//! (LoggedADIF).
//!
//! Numbers are big-endian. A text is its length in bytes and its UTF-8; the
//! empty text is the length `0xffffffff` alone.
use vstd::prelude::*;
use vstd::string::*;

use crate::bytes::{be32, be64, push_all, write_u32, write_u64};
use crate::clock::{
    date_text, fields_of, format_date, format_time_of_day, julian_day, representable, time_text, utc_fields,
    UtcFields,
};
use crate::digits::{digits_of, ten};
use crate::double::{as_double, double_text, law_near_millionths, low_digits, to_double, unit, write_double};
use crate::text::{byte_count, byte_len, decimal, digit_char, push_decimal};

verus! {

pub const MAGIC: u32 = 0xadbccbda;

pub const SCHEMA: u32 = 3;

pub const TYPE_QSO_LOGGED: u32 = 5;

pub const TYPE_LOGGED_ADIF: u32 = 12;

/// A completed contact. Texts that are not known are empty.
#[derive(Debug, Clone)]
pub struct LogRecord {
    pub my_call: String,
    pub my_grid: String,
    pub dx_call: String,
    pub dx_grid: String,
    /// Frequency in hertz.
    pub freq_hz: u64,
    pub mode: String,
    pub rst_sent: String,
    pub rst_rcvd: String,
    /// Start, in milliseconds since 1970-01-01 00:00:00 UTC.
    pub time_on: i64,
    /// End, in milliseconds since 1970-01-01 00:00:00 UTC.
    pub time_off: i64,
    pub comment: String,
    /// "MS" for meteor scatter.
    pub prop_mode: String,
}

/// A number of bytes as it stands in front of them.
pub open spec fn length_prefix(n: nat) -> Seq<u8> {
    be32(n % 0x1_0000_0000)
}

/// Bytes with their length in front.
pub open spec fn counted(b: Seq<u8>) -> Seq<u8> {
    if b.len() == 0 {
        be32(0xffff_ffff)
    } else {
        length_prefix(b.len()) + b
    }
}

/// A text with its length in front.
pub open spec fn counted_text(s: Seq<char>) -> Seq<u8> {
    counted(vstd::utf8::encode_utf8(s))
}

/// Appends bytes with their length in front.
pub fn write_bytes(buf: &mut Vec<u8>, bytes: &[u8])
    ensures
        final(buf)@ == old(buf)@ + counted(bytes@),
{
    if bytes.len() == 0 {
        write_u32(buf, 0xffff_ffff);
    } else {
        let n: u32 = (bytes.len() as u64 % 0x1_0000_0000) as u32;
        write_u32(buf, n);
        push_all(buf, bytes);
        assert(buf@ =~= old(buf)@ + counted(bytes@));
    }
}

/// Appends a text with its length in front.
pub fn write_utf8(buf: &mut Vec<u8>, s: &str)
    ensures
        final(buf)@ == old(buf)@ + counted_text(s@),
{
    write_bytes(buf, s.as_bytes());
}

/// The header of a datagram.
pub open spec fn header(app_id: Seq<char>, msg_type: nat) -> Seq<u8> {
    be32(MAGIC as nat) + be32(SCHEMA as nat) + be32(msg_type) + counted_text(app_id)
}

/// Appends the header of a datagram.
pub fn write_header(buf: &mut Vec<u8>, app_id: &str, msg_type: u32)
    ensures
        final(buf)@ == old(buf)@ + header(app_id@, msg_type as nat),
{
    write_u32(buf, MAGIC);
    write_u32(buf, SCHEMA);
    write_u32(buf, msg_type);
    write_utf8(buf, app_id);
    assert(buf@ =~= old(buf)@ + header(app_id@, msg_type as nat));
}

/// A number with its sign as eight bytes in two's complement.
pub open spec fn signed_be64(v: int) -> Seq<u8> {
    be64(
        (if v >= 0 {
            v
        } else {
            v + 0x1_0000_0000_0000_0000
        }) as nat,
    )
}

/// A date and time: the Julian day number, the milliseconds since midnight, and
/// a one for UTC.
pub open spec fn qdatetime(f: UtcFields) -> Seq<u8> {
    signed_be64(julian_day(f.year as int, f.month as int, f.day as int)) + be32(f.ms_of_day() as nat)
        + seq![1u8]
}

/// Division that rounds toward zero.
fn div_down(a: i64, b: i64) -> (r: i64)
    requires
        b > 0,
        a > i64::MIN,
    ensures
        r == crate::clock::div_to_zero(a as int, b as int),
{
    if a >= 0 {
        a / b
    } else {
        -((-a) / b)
    }
}

/// The Julian day number of a date.
fn julian(f: &UtcFields) -> (jdn: i64)
    requires
        f.valid(),
    ensures
        jdn == julian_day(f.year as int, f.month as int, f.day as int),
        -1_000_000_000 < jdn < 1_000_000_000,
{
    let y: i64 = f.year as i64;
    let m: i64 = f.month as i64;
    let d: i64 = f.day as i64;
    let shift: i64 = div_down(m - 14, 12);
    assert(-2 < shift < 1);
    let a: i64 = div_down(1461 * (y + 4800 + shift), 4);
    let b: i64 = div_down(367 * (m - 2 - 12 * shift), 12);
    let c: i64 = div_down(3 * div_down(y + 4900 + shift, 100), 4);
    a + b - c + d - 32075
}

/// Appends an instant as a date and time.
pub fn write_qdatetime(buf: &mut Vec<u8>, ms: i64)
    requires
        representable(ms as int),
    ensures
        final(buf)@ == old(buf)@ + qdatetime(fields_of(ms as int)),
{
    let f = utc_fields(ms);
    let jdn: i64 = julian(&f);
    let day: u64 = if jdn >= 0 {
        jdn as u64
    } else {
        (jdn as i128 + 0x1_0000_0000_0000_0000i128) as u64
    };
    let of_day: u32 = f.hour * 3_600_000 + f.minute * 60_000 + f.second * 1_000 + f.milli;
    write_u64(buf, day);
    write_u32(buf, of_day);
    buf.push(1u8);
    assert(buf@ =~= old(buf)@ + qdatetime(f));
}

/// The instants of a record have a calendar date.
pub open spec fn dated(rec: LogRecord) -> bool {
    representable(rec.time_on as int) && representable(rec.time_off as int)
}

/// The structured datagram.
pub open spec fn qso_logged(app_id: Seq<char>, rec: LogRecord) -> Seq<u8> {
    let empty = counted_text(""@);
    header(app_id, TYPE_QSO_LOGGED as nat) + qdatetime(fields_of(rec.time_off as int)) + counted_text(
        rec.dx_call@,
    ) + counted_text(rec.dx_grid@) + be64(rec.freq_hz as nat) + counted_text(rec.mode@) + counted_text(
        rec.rst_sent@,
    ) + counted_text(rec.rst_rcvd@) + empty + counted_text(rec.comment@) + empty + qdatetime(
        fields_of(rec.time_on as int),
    ) + empty + counted_text(rec.my_call@) + counted_text(rec.my_grid@) + empty + empty + counted_text(
        rec.prop_mode@,
    )
}

/// Builds the structured datagram.
pub fn build_qso_logged(app_id: &str, rec: &LogRecord) -> (r: Vec<u8>)
    requires
        dated(*rec),
    ensures
        r@ == qso_logged(app_id@, *rec),
{
    let mut buf: Vec<u8> = Vec::new();
    write_header(&mut buf, app_id, TYPE_QSO_LOGGED);
    assert(buf@ =~= header(app_id@, TYPE_QSO_LOGGED as nat));
    write_qdatetime(&mut buf, rec.time_off);
    write_utf8(&mut buf, rec.dx_call.as_str());
    write_utf8(&mut buf, rec.dx_grid.as_str());
    write_u64(&mut buf, rec.freq_hz);
    write_utf8(&mut buf, rec.mode.as_str());
    write_utf8(&mut buf, rec.rst_sent.as_str());
    write_utf8(&mut buf, rec.rst_rcvd.as_str());
    // Transmit power.
    write_utf8(&mut buf, "");
    write_utf8(&mut buf, rec.comment.as_str());
    // Name.
    write_utf8(&mut buf, "");
    write_qdatetime(&mut buf, rec.time_on);
    // Operator.
    write_utf8(&mut buf, "");
    write_utf8(&mut buf, rec.my_call.as_str());
    write_utf8(&mut buf, rec.my_grid.as_str());
    // Exchange sent and received.
    write_utf8(&mut buf, "");
    write_utf8(&mut buf, "");
    write_utf8(&mut buf, rec.prop_mode.as_str());
    buf
}

/// A field of the ADIF record; nothing where its value is empty.
pub open spec fn field(tag: Seq<char>, val: Seq<char>) -> Seq<char> {
    if val.len() == 0 {
        Seq::empty()
    } else {
        crate::adif::field_text(tag, val)
    }
}

/// Writes a field of the ADIF record.
pub fn af(tag: &str, val: &str) -> (r: String)
    ensures
        r@ == field(tag@, val@),
{
    if val.is_empty() {
        return String::new();
    }
    crate::adif::adif_field(tag, val)
}

/// The name of the band that a frequency is in.
pub open spec fn band_name(hz: nat) -> Seq<char> {
    let mhz = hz / 1_000_000;
    if 1 <= mhz <= 2 {
        "160m"@
    } else if 3 <= mhz <= 4 {
        "80m"@
    } else if mhz == 5 {
        "60m"@
    } else if 7 <= mhz <= 8 {
        "40m"@
    } else if mhz == 10 {
        "30m"@
    } else if 14 <= mhz <= 15 {
        "20m"@
    } else if 18 <= mhz <= 19 {
        "17m"@
    } else if 21 <= mhz <= 22 {
        "15m"@
    } else if 24 <= mhz <= 25 {
        "12m"@
    } else if 28 <= mhz <= 30 {
        "10m"@
    } else if 50 <= mhz <= 54 {
        "6m"@
    } else if 70 <= mhz <= 71 {
        "4m"@
    } else if 144 <= mhz <= 148 {
        "2m"@
    } else if 430 <= mhz <= 440 {
        "70cm"@
    } else {
        "other"@
    }
}

/// The name of the band that a frequency in hertz is in.
pub fn freq_to_band(hz: u64) -> (r: String)
    ensures
        r@ == band_name(hz as nat),
{
    let mhz: u64 = hz / 1_000_000;
    let name = if 1 <= mhz && mhz <= 2 {
        "160m"
    } else if 3 <= mhz && mhz <= 4 {
        "80m"
    } else if mhz == 5 {
        "60m"
    } else if 7 <= mhz && mhz <= 8 {
        "40m"
    } else if mhz == 10 {
        "30m"
    } else if 14 <= mhz && mhz <= 15 {
        "20m"
    } else if 18 <= mhz && mhz <= 19 {
        "17m"
    } else if 21 <= mhz && mhz <= 22 {
        "15m"
    } else if 24 <= mhz && mhz <= 25 {
        "12m"
    } else if 28 <= mhz && mhz <= 30 {
        "10m"
    } else if 50 <= mhz && mhz <= 54 {
        "6m"
    } else if 70 <= mhz && mhz <= 71 {
        "4m"
    } else if 144 <= mhz && mhz <= 148 {
        "2m"
    } else if 430 <= mhz && mhz <= 440 {
        "70cm"
    } else {
        "other"
    };
    name.to_owned()
}

/// The last six digits of a number.
pub open spec fn six_digits(n: nat) -> Seq<char> {
    seq![
        digit_char(n / 100_000 % 10),
        digit_char(n / 10_000 % 10),
        digit_char(n / 1_000 % 10),
        digit_char(n / 100 % 10),
        digit_char(n / 10 % 10),
        digit_char(n % 10),
    ]
}

/// A frequency in hertz, written in megahertz with six decimals. Beyond 10 to the 15
/// double precision shows.
pub open spec fn mhz_text(hz: nat) -> Seq<char> {
    if hz < 1_000_000_000_000_000 {
        decimal(hz / 1_000_000) + "."@ + six_digits(hz)
    } else {
        double_text(as_double(hz), 6)
    }
}

proof fn lemma_six_digits(n: nat)
    ensures
        low_digits(n, 6) == six_digits(n),
{
    let (a, b, c, d, e) = (n / 10, n / 100, n / 1_000, n / 10_000, n / 100_000);
    assert(low_digits(e / 10, 0) =~= seq![]);
    assert(low_digits(e, 1) =~= seq![digit_char(e % 10)]);
    assert(d / 10 == e && c / 10 == d && b / 10 == c && a / 10 == b);
    assert(low_digits(d, 2) =~= seq![digit_char(e % 10), digit_char(d % 10)]);
    assert(low_digits(c, 3) =~= seq![digit_char(e % 10), digit_char(d % 10), digit_char(c % 10)]);
    assert(low_digits(b, 4) =~= seq![
        digit_char(e % 10),
        digit_char(d % 10),
        digit_char(c % 10),
        digit_char(b % 10),
    ]);
    assert(low_digits(a, 5) =~= low_digits(b, 4).push(digit_char(a % 10)));
    assert(low_digits(n, 6) =~= low_digits(a, 5).push(digit_char(n % 10)));
    assert(low_digits(n, 6) =~= six_digits(n));
}

/// A frequency is written as the double nearest to it, over a million, is.
pub proof fn law_mhz_is_double(hz: nat)
    ensures
        mhz_text(hz) == double_text(as_double(hz), 6),
{
    if hz < 1_000_000_000_000_000 {
        assert(ten(6) == 1_000_000) by {
            reveal_with_fuel(ten, 7);
        }
        assert(unit(hz) == 1);
        assert(hz / 1 == hz && hz % 1 == 0 && hz * 1 == hz);
        assert(as_double(hz) == hz);
        law_near_millionths(hz, 6, hz);
        lemma_six_digits(hz);
    }
}

/// Writes a frequency in megahertz with six decimals.
pub fn format_mhz(hz: u64) -> (r: String)
    ensures
        r@ == mhz_text(hz as nat),
{
    proof {
        law_mhz_is_double(hz as nat);
    }
    write_double(&digits_of(to_double(hz)), 6)
}

/// The ADIF record of a contact. Empty fields are left out.
pub open spec fn adif_text(rec: LogRecord) -> Seq<char> {
    let on = fields_of(rec.time_on as int);
    let off = fields_of(rec.time_off as int);
    field("STATION_CALLSIGN"@, rec.my_call@) + field("MY_GRIDSQUARE"@, rec.my_grid@) + field(
        "CALL"@,
        rec.dx_call@,
    ) + field("GRIDSQUARE"@, rec.dx_grid@) + field("MODE"@, rec.mode@) + field("RST_SENT"@, rec.rst_sent@)
        + field("RST_RCVD"@, rec.rst_rcvd@) + field("QSO_DATE"@, date_text(on)) + field(
        "TIME_ON"@,
        time_text(on),
    ) + field("QSO_DATE_OFF"@, date_text(off)) + field("TIME_OFF"@, time_text(off)) + field(
        "FREQ"@,
        mhz_text(rec.freq_hz as nat),
    ) + field("BAND"@, band_name(rec.freq_hz as nat)) + field("PROP_MODE"@, rec.prop_mode@) + field(
        "COMMENT"@,
        rec.comment@,
    )
}

fn push_af(s: &mut String, tag: &str, val: &str)
    ensures
        final(s)@ == old(s)@ + field(tag@, val@),
{
    let f = af(tag, val);
    s.append(f.as_str());
}

/// Writes the ADIF record of a contact.
pub fn adif_record(rec: &LogRecord) -> (r: String)
    requires
        dated(*rec),
    ensures
        r@ == adif_text(*rec),
{
    let on = utc_fields(rec.time_on);
    let off = utc_fields(rec.time_off);
    let mut s = af("STATION_CALLSIGN", rec.my_call.as_str());
    push_af(&mut s, "MY_GRIDSQUARE", rec.my_grid.as_str());
    push_af(&mut s, "CALL", rec.dx_call.as_str());
    push_af(&mut s, "GRIDSQUARE", rec.dx_grid.as_str());
    push_af(&mut s, "MODE", rec.mode.as_str());
    push_af(&mut s, "RST_SENT", rec.rst_sent.as_str());
    push_af(&mut s, "RST_RCVD", rec.rst_rcvd.as_str());
    push_af(&mut s, "QSO_DATE", format_date(&on).as_str());
    push_af(&mut s, "TIME_ON", format_time_of_day(&on).as_str());
    push_af(&mut s, "QSO_DATE_OFF", format_date(&off).as_str());
    push_af(&mut s, "TIME_OFF", format_time_of_day(&off).as_str());
    push_af(&mut s, "FREQ", format_mhz(rec.freq_hz).as_str());
    push_af(&mut s, "BAND", freq_to_band(rec.freq_hz).as_str());
    push_af(&mut s, "PROP_MODE", rec.prop_mode.as_str());
    push_af(&mut s, "COMMENT", rec.comment.as_str());
    s
}

/// The text that the second datagram carries.
pub open spec fn logged_adif_text(app_id: Seq<char>, rec: LogRecord) -> Seq<char> {
    "\n<ADIF_VER:5>3.1.0\n<PROGRAMID:"@ + decimal(byte_len(app_id)) + ">"@ + app_id + "\n<EOH>\n"@
        + adif_text(rec) + "<EOR>"@
}

/// Builds the datagram that carries an ADIF record.
pub fn build_logged_adif(app_id: &str, rec: &LogRecord) -> (r: Vec<u8>)
    requires
        dated(*rec),
    ensures
        r@ == header(app_id@, TYPE_LOGGED_ADIF as nat) + counted_text(logged_adif_text(app_id@, *rec)),
{
    let mut text = "\n<ADIF_VER:5>3.1.0\n<PROGRAMID:".to_owned();
    push_decimal(&mut text, byte_count(app_id) as u64);
    text.append(">");
    text.append(app_id);
    text.append("\n<EOH>\n");
    text.append(adif_record(rec).as_str());
    text.append("<EOR>");
    let mut buf: Vec<u8> = Vec::new();
    write_header(&mut buf, app_id, TYPE_LOGGED_ADIF);
    assert(buf@ =~= header(app_id@, TYPE_LOGGED_ADIF as nat));
    write_utf8(&mut buf, text.as_str());
    buf
}

/// The bytes of a text tell their number, as long as four bytes can, and give the
/// text back.
pub proof fn law_counted_text(s: Seq<char>)
    requires
        0 < vstd::utf8::encode_utf8(s).len() < 0xffff_ffff,
    ensures
        counted_text(s).subrange(0, 4) == be32(vstd::utf8::encode_utf8(s).len()),
        vstd::utf8::decode_utf8(counted_text(s).subrange(4, counted_text(s).len() as int)) == s,
{
    let b = vstd::utf8::encode_utf8(s);
    assert(counted_text(s).subrange(0, 4) =~= be32(b.len()));
    assert(counted_text(s).subrange(4, counted_text(s).len() as int) =~= b);
    vstd::utf8::encode_utf8_decode_utf8(s);
}

/// From the year -4799 on the date that is sent counts days as the instant does.
pub proof fn law_qdatetime_counts_days(f: UtcFields)
    requires
        f.valid(),
        f.year >= -4799,
    ensures
        qdatetime(f) == signed_be64(f.unix_day() + 2440588) + be32(f.ms_of_day() as nat) + seq![1u8],
{
    crate::clock::law_julian_day_counts_days(f.year as int, f.month as int, f.day as int);
}

/// The bands by whole megahertz: a band reaches to the end of its last megahertz.
pub proof fn law_band_names(hz: nat)
    ensures
        1_000_000 <= hz < 3_000_000 ==> band_name(hz) == seq!['1', '6', '0', 'm'],
        3_000_000 <= hz < 5_000_000 ==> band_name(hz) == seq!['8', '0', 'm'],
        5_000_000 <= hz < 6_000_000 ==> band_name(hz) == seq!['6', '0', 'm'],
        7_000_000 <= hz < 9_000_000 ==> band_name(hz) == seq!['4', '0', 'm'],
        10_000_000 <= hz < 11_000_000 ==> band_name(hz) == seq!['3', '0', 'm'],
        14_000_000 <= hz < 16_000_000 ==> band_name(hz) == seq!['2', '0', 'm'],
        18_000_000 <= hz < 20_000_000 ==> band_name(hz) == seq!['1', '7', 'm'],
        21_000_000 <= hz < 23_000_000 ==> band_name(hz) == seq!['1', '5', 'm'],
        24_000_000 <= hz < 26_000_000 ==> band_name(hz) == seq!['1', '2', 'm'],
        28_000_000 <= hz < 31_000_000 ==> band_name(hz) == seq!['1', '0', 'm'],
        50_000_000 <= hz < 55_000_000 ==> band_name(hz) == seq!['6', 'm'],
        70_000_000 <= hz < 72_000_000 ==> band_name(hz) == seq!['4', 'm'],
        144_000_000 <= hz < 149_000_000 ==> band_name(hz) == seq!['2', 'm'],
        430_000_000 <= hz < 441_000_000 ==> band_name(hz) == seq!['7', '0', 'c', 'm'],
        !({
            ||| 1_000_000 <= hz < 3_000_000
            ||| 3_000_000 <= hz < 5_000_000
            ||| 5_000_000 <= hz < 6_000_000
            ||| 7_000_000 <= hz < 9_000_000
            ||| 10_000_000 <= hz < 11_000_000
            ||| 14_000_000 <= hz < 16_000_000
            ||| 18_000_000 <= hz < 20_000_000
            ||| 21_000_000 <= hz < 23_000_000
            ||| 24_000_000 <= hz < 26_000_000
            ||| 28_000_000 <= hz < 31_000_000
            ||| 50_000_000 <= hz < 55_000_000
            ||| 70_000_000 <= hz < 72_000_000
            ||| 144_000_000 <= hz < 149_000_000
            ||| 430_000_000 <= hz < 441_000_000
        }) ==> band_name(hz) == seq!['o', 't', 'h', 'e', 'r'],
{
    reveal_strlit("160m");
    assert("160m"@ =~= seq!['1', '6', '0', 'm']);
    reveal_strlit("80m");
    assert("80m"@ =~= seq!['8', '0', 'm']);
    reveal_strlit("60m");
    assert("60m"@ =~= seq!['6', '0', 'm']);
    reveal_strlit("40m");
    assert("40m"@ =~= seq!['4', '0', 'm']);
    reveal_strlit("30m");
    assert("30m"@ =~= seq!['3', '0', 'm']);
    reveal_strlit("20m");
    assert("20m"@ =~= seq!['2', '0', 'm']);
    reveal_strlit("17m");
    assert("17m"@ =~= seq!['1', '7', 'm']);
    reveal_strlit("15m");
    assert("15m"@ =~= seq!['1', '5', 'm']);
    reveal_strlit("12m");
    assert("12m"@ =~= seq!['1', '2', 'm']);
    reveal_strlit("10m");
    assert("10m"@ =~= seq!['1', '0', 'm']);
    reveal_strlit("6m");
    assert("6m"@ =~= seq!['6', 'm']);
    reveal_strlit("4m");
    assert("4m"@ =~= seq!['4', 'm']);
    reveal_strlit("2m");
    assert("2m"@ =~= seq!['2', 'm']);
    reveal_strlit("70cm");
    assert("70cm"@ =~= seq!['7', '0', 'c', 'm']);
    reveal_strlit("other");
    assert("other"@ =~= seq!['o', 't', 'h', 'e', 'r']);
}

} // verus!
