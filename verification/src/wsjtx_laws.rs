//! What a logging program reads out of the datagrams about a completed contact,
//! when it takes them apart field by field.
use vstd::prelude::*;
use vstd::string::*;

use crate::bytes::{be32, be64, law_be32_read_back, law_be64_read_back, number_be};
use crate::clock::{days_before_month, fields_of, law_instant_injective, UtcFields};
use crate::wsjtx_udp::{
    counted_text, header, law_qdatetime_counts_days, logged_adif_text, qdatetime, qso_logged, signed_be64,
    LogRecord, MAGIC, SCHEMA, TYPE_LOGGED_ADIF, TYPE_QSO_LOGGED,
};

verus! {

/// Reads a number of `n` bytes; the bytes after it follow.
pub open spec fn read_number(b: Seq<u8>, n: int) -> (nat, Seq<u8>) {
    (number_be(b.subrange(0, n)), b.subrange(n, b.len() as int))
}

/// Reads a text: four bytes that count it, all ones where there is none, then
/// its UTF-8; the bytes after it follow.
pub open spec fn read_text(b: Seq<u8>) -> (Seq<char>, Seq<u8>) {
    let n = number_be(b.subrange(0, 4)) as int;
    if n == 0xffff_ffff {
        (Seq::empty(), b.subrange(4, b.len() as int))
    } else {
        (vstd::utf8::decode_utf8(b.subrange(4, 4 + n)), b.subrange(4 + n, b.len() as int))
    }
}

/// Reads an instant in milliseconds since 1970 (eight bytes of Julian day, whose
/// 2440588th was 1970-01-01, four of milliseconds since midnight) and the byte
/// that says what clock it goes by; the bytes after it follow.
pub open spec fn read_instant(b: Seq<u8>) -> (int, u8, Seq<u8>) {
    let day = number_be(b.subrange(0, 8)) as int;
    let signed = if day < 0x8000_0000_0000_0000 {
        day
    } else {
        day - 0x1_0000_0000_0000_0000
    };
    (
        (signed - 2440588) * 86_400_000 + number_be(b.subrange(8, 12)) as int,
        b[12],
        b.subrange(13, b.len() as int),
    )
}

/// What stands at the beginning of every datagram.
pub ghost struct ReadHeader {
    pub magic: nat,
    pub schema: nat,
    pub kind: nat,
    pub app_id: Seq<char>,
}

/// Reads what stands at the beginning; the bytes after it follow.
pub open spec fn read_header(b: Seq<u8>) -> (ReadHeader, Seq<u8>) {
    let (magic, b) = read_number(b, 4);
    let (schema, b) = read_number(b, 4);
    let (kind, b) = read_number(b, 4);
    let (app_id, b) = read_text(b);
    (ReadHeader { magic, schema, kind, app_id }, b)
}

/// The fields of the structured datagram in the order in which they are sent.
pub ghost struct ReadLogged {
    pub head: ReadHeader,
    pub end: int,
    pub end_clock: u8,
    pub dx_call: Seq<char>,
    pub dx_grid: Seq<char>,
    pub frequency: nat,
    pub mode: Seq<char>,
    pub report_sent: Seq<char>,
    pub report_received: Seq<char>,
    pub power: Seq<char>,
    pub comment: Seq<char>,
    pub name: Seq<char>,
    pub start: int,
    pub start_clock: u8,
    pub operator: Seq<char>,
    pub my_call: Seq<char>,
    pub my_grid: Seq<char>,
    pub exchange_sent: Seq<char>,
    pub exchange_received: Seq<char>,
    pub propagation: Seq<char>,
    pub rest: Seq<u8>,
}

/// Takes the structured datagram apart.
pub open spec fn read_logged(b: Seq<u8>) -> ReadLogged {
    let (head, b) = read_header(b);
    let (end, end_clock, b) = read_instant(b);
    let (dx_call, b) = read_text(b);
    let (dx_grid, b) = read_text(b);
    let (frequency, b) = read_number(b, 8);
    let (mode, b) = read_text(b);
    let (report_sent, b) = read_text(b);
    let (report_received, b) = read_text(b);
    let (power, b) = read_text(b);
    let (comment, b) = read_text(b);
    let (name, b) = read_text(b);
    let (start, start_clock, b) = read_instant(b);
    let (operator, b) = read_text(b);
    let (my_call, b) = read_text(b);
    let (my_grid, b) = read_text(b);
    let (exchange_sent, b) = read_text(b);
    let (exchange_received, b) = read_text(b);
    let (propagation, rest) = read_text(b);
    ReadLogged {
        head,
        end,
        end_clock,
        dx_call,
        dx_grid,
        frequency,
        mode,
        report_sent,
        report_received,
        power,
        comment,
        name,
        start,
        start_clock,
        operator,
        my_call,
        my_grid,
        exchange_sent,
        exchange_received,
        propagation,
        rest,
    }
}

/// The length of a text's UTF-8 fits in front of it.
pub open spec fn countable(s: Seq<char>) -> bool {
    vstd::utf8::encode_utf8(s).len() < 0xffff_ffff
}

proof fn lemma_read_text(s: Seq<char>, rest: Seq<u8>)
    requires
        countable(s),
    ensures
        read_text(counted_text(s) + rest) == (s, rest),
{
    let e = vstd::utf8::encode_utf8(s);
    let b = counted_text(s) + rest;
    vstd::utf8::encode_utf8_decode_utf8(s);
    law_be32_read_back(e.len());
    law_be32_read_back(0xffff_ffff);
    if e.len() == 0 {
        assert(e =~= Seq::<u8>::empty());
        assert(vstd::utf8::encode_utf8(Seq::<char>::empty()) =~= e);
        vstd::utf8::encode_utf8_decode_utf8(Seq::<char>::empty());
        assert(b.subrange(0, 4) =~= be32(0xffff_ffff));
        assert(b.subrange(4, b.len() as int) =~= rest);
    } else {
        assert(b.subrange(0, 4) =~= be32(e.len()));
        assert(b.subrange(4, 4 + e.len() as int) =~= e);
        assert(b.subrange(4 + e.len() as int, b.len() as int) =~= rest);
    }
}

proof fn lemma_read_be32(v: nat, rest: Seq<u8>)
    requires
        v < 0x1_0000_0000,
    ensures
        read_number(be32(v) + rest, 4) == (v, rest),
{
    let b = be32(v) + rest;
    law_be32_read_back(v);
    assert(b.subrange(0, 4) =~= be32(v));
    assert(b.subrange(4, b.len() as int) =~= rest);
}

proof fn lemma_read_be64(v: nat, rest: Seq<u8>)
    requires
        v < 0x1_0000_0000_0000_0000,
    ensures
        read_number(be64(v) + rest, 8) == (v, rest),
{
    let b = be64(v) + rest;
    law_be64_read_back(v);
    assert(b.subrange(0, 8) =~= be64(v));
    assert(b.subrange(8, b.len() as int) =~= rest);
}

proof fn lemma_read_instant(f: UtcFields, rest: Seq<u8>)
    requires
        f.valid(),
        f.year >= -4799,
    ensures
        read_instant(qdatetime(f) + rest) == (f.unix_ms(), 1u8, rest),
{
    law_qdatetime_counts_days(f);
    lemma_day_range(f);
    lemma_read_day(f.unix_day() + 2440588, f.ms_of_day() as nat, rest);
}

proof fn lemma_read_day(day: int, ms: nat, rest: Seq<u8>)
    requires
        -0x2_0000_0000_0000 < day < 0x2_0000_0000_0000,
        ms < 86_400_000,
    ensures
        read_instant(signed_be64(day) + be32(ms) + seq![1u8] + rest) == (
            (day - 2440588) * 86_400_000 + ms as int,
            1u8,
            rest,
        ),
{
    let bits = (if day >= 0 {
        day
    } else {
        day + 0x1_0000_0000_0000_0000
    }) as nat;
    law_be64_read_back(bits);
    law_be32_read_back(ms);
    assert(signed_be64(day) == be64(bits));
    lemma_three_parts(be64(bits), be32(ms), 1u8, rest);
    lemma_read_parts(be64(bits), be32(ms), rest, day, ms);
}

proof fn lemma_read_parts(p: Seq<u8>, q: Seq<u8>, rest: Seq<u8>, day: int, ms: nat)
    requires
        p.len() == 8,
        q.len() == 4,
        number_be(q) == ms,
        -0x2_0000_0000_0000 < day < 0x2_0000_0000_0000,
        number_be(p) == if day >= 0 {
            day
        } else {
            day + 0x1_0000_0000_0000_0000
        },
    ensures
        read_instant(p + q + seq![1u8] + rest) == ((day - 2440588) * 86_400_000 + ms as int, 1u8, rest),
{
    lemma_three_parts(p, q, 1u8, rest);
}

proof fn lemma_three_parts(p: Seq<u8>, q: Seq<u8>, x: u8, rest: Seq<u8>)
    requires
        p.len() == 8,
        q.len() == 4,
    ensures
        ({
            let b = p + q + seq![x] + rest;
            &&& b.subrange(0, 8) == p
            &&& b.subrange(8, 12) == q
            &&& b[12] == x
            &&& b.subrange(13, b.len() as int) == rest
        }),
{
    let b = p + q + seq![x] + rest;
    assert(b.subrange(0, 8) =~= p);
    assert(b.subrange(8, 12) =~= q);
    assert(b.subrange(13, b.len() as int) =~= rest);
}

proof fn lemma_day_range(f: UtcFields)
    requires
        f.valid(),
    ensures
        -0x1_0000_0000_0000 < f.unix_day() < 0x1_0000_0000_0000,
        0 <= f.ms_of_day() < 86_400_000,
{
    reveal_with_fuel(days_before_month, 13);
}

proof fn lemma_assoc(a: Seq<u8>, b: Seq<u8>, c: Seq<u8>)
    ensures
        (a + b) + c == a + (b + c),
{
    assert((a + b) + c =~= a + (b + c));
}

proof fn lemma_read_header(app_id: Seq<char>, kind: nat, rest: Seq<u8>)
    requires
        countable(app_id),
        kind < 0x1_0000_0000,
    ensures
        read_header(header(app_id, kind) + rest) == (
            ReadHeader { magic: 0xadbc_cbda, schema: 3, kind, app_id },
            rest,
        ),
{
    let (p0, p1, p2, p3) = (be32(MAGIC as nat), be32(SCHEMA as nat), be32(kind), counted_text(app_id));
    lemma_assoc(p0 + p1 + p2, p3, rest);
    lemma_assoc(p0 + p1, p2, p3 + rest);
    lemma_assoc(p0, p1, p2 + (p3 + rest));
    lemma_read_be32(MAGIC as nat, p1 + (p2 + (p3 + rest)));
    lemma_read_be32(SCHEMA as nat, p2 + (p3 + rest));
    lemma_read_be32(kind, p3 + rest);
    lemma_read_text(app_id, rest);
}

/// A logging program that takes the structured datagram apart gets every field of
/// the record, each in its own place: the end of the contact before its start, the
/// other station before one's own, the report sent before the one received. What
/// the record does not know is empty.
#[verifier::rlimit(40)]
pub proof fn law_qso_logged_reads_back(app_id: Seq<char>, rec: LogRecord, on: UtcFields, off: UtcFields)
    requires
        on.valid() && on.unix_ms() == rec.time_on && on.year >= -4799,
        off.valid() && off.unix_ms() == rec.time_off && off.year >= -4799,
        countable(app_id),
        countable(rec.dx_call@) && countable(rec.dx_grid@) && countable(rec.mode@),
        countable(rec.rst_sent@) && countable(rec.rst_rcvd@) && countable(rec.comment@),
        countable(rec.my_call@) && countable(rec.my_grid@) && countable(rec.prop_mode@),
    ensures
        read_logged(qso_logged(app_id, rec)) == (ReadLogged {
            head: ReadHeader { magic: 0xadbc_cbda, schema: 3, kind: 5, app_id },
            end: rec.time_off as int,
            end_clock: 1,
            dx_call: rec.dx_call@,
            dx_grid: rec.dx_grid@,
            frequency: rec.freq_hz as nat,
            mode: rec.mode@,
            report_sent: rec.rst_sent@,
            report_received: rec.rst_rcvd@,
            power: Seq::empty(),
            comment: rec.comment@,
            name: Seq::empty(),
            start: rec.time_on as int,
            start_clock: 1,
            operator: Seq::empty(),
            my_call: rec.my_call@,
            my_grid: rec.my_grid@,
            exchange_sent: Seq::empty(),
            exchange_received: Seq::empty(),
            propagation: rec.prop_mode@,
            rest: Seq::empty(),
        }),
{
    law_instant_injective(on, fields_of(rec.time_on as int));
    law_instant_injective(off, fields_of(rec.time_off as int));
    reveal_strlit("");
    let nothing = Seq::<char>::empty();
    assert(""@ =~= nothing);
    assert(vstd::utf8::encode_utf8(nothing) =~= Seq::<u8>::empty());
    let e = counted_text(nothing);
    let p0 = header(app_id, TYPE_QSO_LOGGED as nat);
    let p1 = qdatetime(off);
    let p2 = counted_text(rec.dx_call@);
    let p3 = counted_text(rec.dx_grid@);
    let p4 = be64(rec.freq_hz as nat);
    let p5 = counted_text(rec.mode@);
    let p6 = counted_text(rec.rst_sent@);
    let p7 = counted_text(rec.rst_rcvd@);
    let p9 = counted_text(rec.comment@);
    let p11 = qdatetime(on);
    let p13 = counted_text(rec.my_call@);
    let p14 = counted_text(rec.my_grid@);
    let p17 = counted_text(rec.prop_mode@);
    let l1 = p0 + p1;
    let l2 = l1 + p2;
    let l3 = l2 + p3;
    let l4 = l3 + p4;
    let l5 = l4 + p5;
    let l6 = l5 + p6;
    let l7 = l6 + p7;
    let l8 = l7 + e;
    let l9 = l8 + p9;
    let l10 = l9 + e;
    let l11 = l10 + p11;
    let l12 = l11 + e;
    let l13 = l12 + p13;
    let l14 = l13 + p14;
    let l15 = l14 + e;
    let l16 = l15 + e;
    assert(qso_logged(app_id, rec) == l16 + p17);
    let none = Seq::<u8>::empty();
    assert(p17 + none =~= p17);
    let t17 = p17 + none;
    let t16 = e + t17;
    let t15 = e + t16;
    let t14 = p14 + t15;
    let t13 = p13 + t14;
    let t12 = e + t13;
    let t11 = p11 + t12;
    let t10 = e + t11;
    let t9 = p9 + t10;
    let t8 = e + t9;
    let t7 = p7 + t8;
    let t6 = p6 + t7;
    let t5 = p5 + t6;
    let t4 = p4 + t5;
    let t3 = p3 + t4;
    let t2 = p2 + t3;
    let t1 = p1 + t2;
    lemma_assoc(l15, e, t17);
    lemma_assoc(l14, e, t16);
    lemma_assoc(l13, p14, t15);
    lemma_assoc(l12, p13, t14);
    lemma_assoc(l11, e, t13);
    lemma_assoc(l10, p11, t12);
    lemma_assoc(l9, e, t11);
    lemma_assoc(l8, p9, t10);
    lemma_assoc(l7, e, t9);
    lemma_assoc(l6, p7, t8);
    lemma_assoc(l5, p6, t7);
    lemma_assoc(l4, p5, t6);
    lemma_assoc(l3, p4, t5);
    lemma_assoc(l2, p3, t4);
    lemma_assoc(l1, p2, t3);
    lemma_assoc(p0, p1, t2);
    assert(qso_logged(app_id, rec) == p0 + t1);
    lemma_read_header(app_id, TYPE_QSO_LOGGED as nat, t1);
    lemma_read_instant(off, t2);
    lemma_read_text(rec.dx_call@, t3);
    lemma_read_text(rec.dx_grid@, t4);
    lemma_read_be64(rec.freq_hz as nat, t5);
    lemma_read_text(rec.mode@, t6);
    lemma_read_text(rec.rst_sent@, t7);
    lemma_read_text(rec.rst_rcvd@, t8);
    lemma_read_text(nothing, t9);
    lemma_read_text(rec.comment@, t10);
    lemma_read_text(nothing, t11);
    lemma_read_instant(on, t12);
    lemma_read_text(nothing, t13);
    lemma_read_text(rec.my_call@, t14);
    lemma_read_text(rec.my_grid@, t15);
    lemma_read_text(nothing, t16);
    lemma_read_text(nothing, t17);
    lemma_read_text(rec.prop_mode@, none);
}

/// The datagram that carries an ADIF record is told from the structured one by its
/// type, and gives the record's text back whole.
pub proof fn law_logged_adif_reads_back(app_id: Seq<char>, rec: LogRecord)
    requires
        countable(app_id),
        countable(logged_adif_text(app_id, rec)),
    ensures
        ({
            let sent = header(app_id, TYPE_LOGGED_ADIF as nat) + counted_text(logged_adif_text(app_id, rec));
            let (head, body) = read_header(sent);
            &&& head == ReadHeader { magic: 0xadbc_cbda, schema: 3, kind: 12, app_id }
            &&& read_text(body) == (logged_adif_text(app_id, rec), Seq::<u8>::empty())
        }),
{
    let body = counted_text(logged_adif_text(app_id, rec));
    lemma_read_header(app_id, TYPE_LOGGED_ADIF as nat, body);
    lemma_read_text(logged_adif_text(app_id, rec), Seq::empty());
    assert(body + Seq::<u8>::empty() =~= body);
}

} // verus!
