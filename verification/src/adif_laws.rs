//! What the log gives back of what was written to it.
use vstd::prelude::*;

use crate::adif::{
    body_records, chomp, field_text, field_value, fields_text, file_records, header_text, is_float,
    lines, lines_from, logged_text, opener, parsed_line, value_or_empty, written_freq, QsoRecordView,
};
use crate::mhz::{law_written_is_plain, law_written_reads_back, six_decimals};
use crate::text::{
    byte_len, decimal, lemma_byte_len_add, lemma_cut_whole, lemma_decimal_value, lemma_first_at,
    lemma_first_is, occurs, occurs_at, trim, trim_end, trim_start, unsigned_value,
};

verus! {

/// A field name: capital letters and underscores.
pub open spec fn plain_name(n: Seq<char>) -> bool {
    forall|i: int| 0 <= i < n.len() ==> 'A' <= #[trigger] n[i] <= 'Z' || n[i] == '_'
}

/// One of the fields bears that name.
pub open spec fn named(f: Seq<(Seq<char>, Seq<char>)>, name: Seq<char>) -> bool {
    exists|k: int| 0 <= k < f.len() && #[trigger] f[k].0 == name
}

proof fn lemma_fields_add(a: Seq<(Seq<char>, Seq<char>)>, b: Seq<(Seq<char>, Seq<char>)>)
    ensures
        fields_text(a + b) == fields_text(a) + fields_text(b),
    decreases b.len(),
{
    if b.len() == 0 {
        assert(a + b =~= a);
        assert(fields_text(a) + fields_text(b) =~= fields_text(a));
    } else {
        lemma_fields_add(a, b.drop_last());
        assert((a + b).drop_last() =~= a + b.drop_last());
        assert((a + b).last() == b.last());
        assert(fields_text(a + b) =~= fields_text(a) + fields_text(b));
    }
}

/// The part of a field in front of its value.
spec fn head(name: Seq<char>, value: Seq<char>) -> Seq<char> {
    opener(name) + decimal(byte_len(value)) + ">"@
}

proof fn lemma_opener_chars(name: Seq<char>)
    requires
        plain_name(name),
    ensures
        opener(name).len() == name.len() + 2,
        opener(name)[0] == '<',
        forall|i: int| 0 <= i < name.len() ==> opener(name)[1 + i] == #[trigger] name[i],
        opener(name)[name.len() as int + 1] == ':',
        forall|i: int| 0 <= i < opener(name).len() ==> #[trigger] opener(name)[i] != ' ',
{
    reveal_strlit("<");
    reveal_strlit(":");
    let p = opener(name);
    assert forall|i: int| 0 <= i < p.len() implies #[trigger] p[i] != ' ' by {
        if 1 <= i <= name.len() {
            assert(p[i] == name[i - 1]);
        }
    }
}

/// No character of the head of a field but the first is an opening bracket.
proof fn lemma_head_chars(name: Seq<char>, value: Seq<char>)
    requires
        plain_name(name),
    ensures
        forall|i: int| 1 <= i < head(name, value).len() ==> #[trigger] head(name, value)[i] != '<',
        head(name, value).len() == name.len() + 3 + decimal(byte_len(value)).len(),
{
    reveal_strlit(">");
    let h = head(name, value);
    let d = decimal(byte_len(value));
    lemma_opener_chars(name);
    lemma_decimal_value(byte_len(value));
    assert forall|i: int| 1 <= i < h.len() implies #[trigger] h[i] != '<' by {
        if i <= name.len() {
            assert(h[i] == name[i - 1]);
        } else if i == name.len() + 1 {
        } else if i < name.len() + 2 + d.len() {
            assert(h[i] == d[i - name.len() - 2]);
        }
    }
}

/// Openers of different names do not stand at the same place.
proof fn lemma_openers_differ(a: Seq<char>, b: Seq<char>, s: Seq<char>)
    requires
        plain_name(a),
        plain_name(b),
        occurs_at(s, opener(a), 0),
        occurs_at(s, opener(b), 0),
    ensures
        a == b,
{
    let p = opener(a);
    let q = opener(b);
    lemma_opener_chars(a);
    lemma_opener_chars(b);
    assert(forall|i: int| 0 <= i < p.len() ==> s.subrange(0, p.len() as int)[i] == s[i]);
    assert(forall|i: int| 0 <= i < q.len() ==> s.subrange(0, q.len() as int)[i] == s[i]);
    if a.len() < b.len() {
        assert(s[a.len() as int + 1] == ':');
        assert(q[1 + a.len() as int] == b[a.len() as int]);
    } else if b.len() < a.len() {
        assert(s[b.len() as int + 1] == ':');
        assert(p[1 + b.len() as int] == a[b.len() as int]);
    } else {
        assert forall|i: int| 0 <= i < a.len() implies a[i] == b[i] by {
            assert(p[1 + i] == a[i]);
            assert(q[1 + i] == b[i]);
            assert(s[1 + i] == a[i]);
        }
        assert(a =~= b);
    }
}

/// In a field and the space behind it no other opener starts.
proof fn lemma_no_start_in_field(
    name: Seq<char>,
    value: Seq<char>,
    rest: Seq<char>,
    other: Seq<char>,
    j: int,
)
    requires
        plain_name(name),
        plain_name(other),
        name != other,
        !occurs(value, opener(other)),
        0 <= j < field_text(name, value).len() + 1,
    ensures
        !occurs_at(field_text(name, value) + seq![' '] + rest, opener(other), j),
{
    let s = field_text(name, value) + seq![' '] + rest;
    let p = opener(other);
    let h = head(name, value);
    lemma_opener_chars(other);
    lemma_head_chars(name, value);
    assert(field_text(name, value) =~= h + value);
    if occurs_at(s, p, j) {
        assert(s.subrange(j, j + p.len())[0] == s[j]);
        assert(s[j] == '<');
        if j == 0 {
            lemma_opener_chars(name);
            assert(s.subrange(0, opener(name).len() as int) =~= opener(name));
            lemma_openers_differ(name, other, s);
        } else if j < h.len() {
            assert(s[j] == h[j]);
        } else if j < h.len() + value.len() {
            let t = j - h.len();
            if t + p.len() <= value.len() {
                assert(value.subrange(t, t + p.len()) =~= s.subrange(j, j + p.len()));
                assert(occurs_at(value, p, t));
            } else {
                let e = value.len() - t;
                assert(s.subrange(j, j + p.len())[e] == s[j + e]);
                assert(s[j + e] == ' ');
                assert(p[e] != ' ');
            }
        } else {
            assert(s[j] == ' ');
        }
    }
}

/// No other opener starts in a row of fields.
proof fn lemma_no_start(f: Seq<(Seq<char>, Seq<char>)>, rest: Seq<char>, other: Seq<char>, i: int)
    requires
        plain_name(other),
        forall|k: int|
            0 <= k < f.len() ==> plain_name((#[trigger] f[k]).0) && f[k].0 != other && !occurs(
                f[k].1,
                opener(other),
            ),
        0 <= i < fields_text(f).len(),
    ensures
        !occurs_at(fields_text(f) + rest, opener(other), i),
    decreases f.len(),
{
    reveal_strlit(" ");
    let g = f.drop_last();
    let last = field_text(f.last().0, f.last().1);
    let tail = last + seq![' '] + rest;
    assert(" "@ =~= seq![' ']);
    assert(fields_text(f) + rest =~= fields_text(g) + tail);
    let s = fields_text(g) + tail;
    let p = opener(other);
    if i < fields_text(g).len() {
        assert forall|k: int| 0 <= k < g.len() implies plain_name((#[trigger] g[k]).0) && g[k].0 != other
            && !occurs(g[k].1, p) by {
            assert(f[k] == g[k]);
        }
        lemma_no_start(g, tail, other, i);
    } else {
        let j = i - fields_text(g).len();
        lemma_no_start_in_field(f.last().0, f.last().1, rest, other, j);
        if occurs_at(s, p, i) {
            assert(s.subrange(i, i + p.len()) =~= tail.subrange(j, j + p.len()));
        }
    }
}

proof fn lemma_no_bytes(s: Seq<char>)
    ensures
        s.len() <= byte_len(s),
    decreases s.len(),
{
    if s.len() > 0 {
        lemma_no_bytes(s.drop_last());
    }
}

/// A field that nothing foreshadows is read back.
proof fn lemma_field_read(front: Seq<char>, name: Seq<char>, value: Seq<char>, rest: Seq<char>)
    requires
        plain_name(name),
        byte_len(value) <= usize::MAX,
        forall|i: int|
            0 <= i < front.len() ==> !occurs_at(front + field_text(name, value) + rest, opener(name), i),
    ensures
        field_value(front + field_text(name, value) + rest, name) == Some(value),
{
    reveal_strlit(">");
    reveal_strlit("<");
    reveal_strlit(":");
    let s = front + field_text(name, value) + rest;
    let p = opener(name);
    let d = decimal(byte_len(value));
    let start = front.len() as int;
    let after = start + p.len();
    let close = after + d.len();
    lemma_opener_chars(name);
    lemma_decimal_value(byte_len(value));
    assert(s.subrange(start, after) =~= p);
    lemma_first_is(s, p, 0, start);
    assert forall|k: int| after <= k < close implies !occurs_at(s, ">"@, k) by {
        assert(s[k] == d[k - after]);
        assert('0' <= d[k - after] <= '9');
        if occurs_at(s, ">"@, k) {
            assert(s.subrange(k, k + 1)[0] == s[k]);
            assert(">"@[0] == '>');
        }
    }
    assert(s.subrange(close, close + 1) =~= ">"@);
    lemma_first_is(s, ">"@, after, close);
    assert(s.subrange(after, close) =~= d);
    assert('0' <= d[0] <= '9');
    assert(unsigned_value(d, usize::MAX as nat) == Some(byte_len(value)));
    let v = s.subrange(close + 1, s.len() as int);
    assert(v =~= value + rest);
    lemma_byte_len_add(value, rest);
    if byte_len(v) <= byte_len(value) {
        lemma_no_bytes(rest);
        assert(v =~= value);
    } else {
        lemma_cut_whole(value, rest);
        assert(v.subrange(0, value.len() as int) =~= value);
    }
}

/// The fields of a line: their names are plain, their lengths fit in a machine
/// word, and no value holds the opener of a field that has not been written by
/// then.
pub open spec fn readable_fields(f: Seq<(Seq<char>, Seq<char>)>) -> bool {
    &&& forall|k: int| 0 <= k < f.len() ==> plain_name((#[trigger] f[k]).0) && byte_len(f[k].1) <= usize::MAX
    &&& forall|k: int, name: Seq<char>|
        0 <= k < f.len() && is_field_name(name) && !named(f.take(k + 1), name) ==> !#[trigger] occurs(
            (#[trigger] f[k]).1,
            opener(name),
        )
}

/// The names of the fields of a record.
pub open spec fn is_field_name(n: Seq<char>) -> bool {
    n == "CALL"@ || n == "OPERATOR"@ || n == "QSO_DATE"@ || n == "TIME_ON"@ || n == "TIME_OFF"@ || n
        == "BAND"@ || n == "FREQ"@ || n == "MODE"@ || n == "RST_SENT"@ || n == "RST_RCVD"@ || n
        == "GRIDSQUARE"@
}

proof fn lemma_lookup(f: Seq<(Seq<char>, Seq<char>)>, name: Seq<char>, k: int)
    requires
        readable_fields(f),
        is_field_name(name),
        0 <= k < f.len(),
        f[k].0 == name,
        !named(f.take(k), name),
    ensures
        field_value(fields_text(f) + "<EOR>"@, name) == Some(f[k].1),
{
    let a = f.take(k);
    let b = f.skip(k + 1);
    let one = seq![f[k]];
    assert(f =~= a + (one + b));
    lemma_fields_add(a, one + b);
    lemma_fields_add(one, b);
    assert(one.drop_last() =~= Seq::<(Seq<char>, Seq<char>)>::empty());
    assert(fields_text(Seq::<(Seq<char>, Seq<char>)>::empty()) =~= Seq::<char>::empty());
    assert(fields_text(one) =~= field_text(name, f[k].1) + " "@);
    let rest = " "@ + fields_text(b) + "<EOR>"@;
    let line = fields_text(f) + "<EOR>"@;
    assert(line =~= fields_text(a) + field_text(name, f[k].1) + rest);
    let tail = field_text(name, f[k].1) + rest;
    assert(fields_text(a) + field_text(name, f[k].1) + rest =~= fields_text(a) + tail);
    assert forall|i: int| 0 <= i < fields_text(a).len() implies !occurs_at(line, opener(name), i) by {
        assert forall|j: int| 0 <= j < a.len() implies plain_name((#[trigger] a[j]).0) && a[j].0 != name
            && !occurs(a[j].1, opener(name)) by {
            assert(a[j] == f[j]);
            lemma_not_named_before(f, k, j, name);
        }
        lemma_no_start(a, tail, name, i);
    }
    lemma_field_read(fields_text(a), name, f[k].1, rest);
}

proof fn lemma_not_named_before(f: Seq<(Seq<char>, Seq<char>)>, k: int, j: int, name: Seq<char>)
    requires
        0 <= j < k <= f.len(),
        !named(f.take(k), name),
    ensures
        !named(f.take(j + 1), name),
        f[j].0 != name,
{
    assert(f.take(k)[j].0 != name);
    assert(f.take(k)[j] == f[j]);
    if named(f.take(j + 1), name) {
        let i = choose|i: int| 0 <= i < f.take(j + 1).len() && #[trigger] f.take(j + 1)[i].0 == name;
        assert(f.take(k)[i].0 == name);
    }
}

proof fn lemma_missing(f: Seq<(Seq<char>, Seq<char>)>, name: Seq<char>)
    requires
        readable_fields(f),
        is_field_name(name),
        plain_name(name),
        !named(f, name),
    ensures
        field_value(fields_text(f) + "<EOR>"@, name) is None,
{
    reveal_strlit("<EOR>");
    let p = opener(name);
    let line = fields_text(f) + "<EOR>"@;
    let n = fields_text(f).len() as int;
    lemma_opener_chars(name);
    assert(f.take(f.len() as int) =~= f);
    assert forall|i: int| 0 <= i implies !occurs_at(line, p, i) by {
        if i < n {
            assert forall|j: int| 0 <= j < f.len() implies plain_name((#[trigger] f[j]).0) && f[j].0 != name
                && !occurs(f[j].1, p) by {
                lemma_not_named_before(f, f.len() as int, j, name);
            }
            lemma_no_start(f, "<EOR>"@, name, i);
        } else if occurs_at(line, p, i) {
            let e = i + name.len() + 1;
            assert(line.subrange(i, i + p.len())[0] == line[i]);
            assert(line.subrange(i, i + p.len())[name.len() as int + 1] == line[e]);
            assert(line[e] == ':');
            assert(line[e] == "<EOR>"@[e - n]);
            let q = e - n;
            assert(q == 0 || q == 1 || q == 2 || q == 3 || q == 4);
        }
    }
    lemma_first_at(line, p, 0);
}

/// The field names are plain and no two are the same.
proof fn lemma_names()
    ensures
        plain_name("CALL"@),
        plain_name("OPERATOR"@),
        plain_name("QSO_DATE"@),
        plain_name("TIME_ON"@),
        plain_name("TIME_OFF"@),
        plain_name("BAND"@),
        plain_name("FREQ"@),
        plain_name("MODE"@),
        plain_name("RST_SENT"@),
        plain_name("RST_RCVD"@),
        plain_name("GRIDSQUARE"@),
        "CALL"@[0] == 'C',
        "OPERATOR"@[0] == 'O',
        "QSO_DATE"@[0] == 'Q',
        "TIME_ON"@[0] == 'T',
        "TIME_OFF"@[0] == 'T',
        "BAND"@[0] == 'B',
        "FREQ"@[0] == 'F',
        "MODE"@[0] == 'M',
        "RST_SENT"@[0] == 'R',
        "RST_RCVD"@[0] == 'R',
        "GRIDSQUARE"@[0] == 'G',
        "TIME_ON"@ != "TIME_OFF"@,
        "RST_SENT"@ != "RST_RCVD"@,
{
    reveal_strlit("CALL");
    reveal_strlit("OPERATOR");
    reveal_strlit("QSO_DATE");
    reveal_strlit("TIME_ON");
    reveal_strlit("TIME_OFF");
    reveal_strlit("BAND");
    reveal_strlit("FREQ");
    reveal_strlit("MODE");
    reveal_strlit("RST_SENT");
    reveal_strlit("RST_RCVD");
    reveal_strlit("GRIDSQUARE");
    assert("TIME_ON"@.len() == 7 && "TIME_OFF"@.len() == 8);
    assert("RST_SENT"@[4] == 'S' && "RST_RCVD"@[4] == 'R');
}

/// A record that can be read back from its line: no value holds the opener of a
/// field that has not been written by then, the lengths fit in a machine word,
/// and the frequency is a number.
pub open spec fn readable(r: QsoRecordView) -> bool {
    &&& forall|k: int| 0 <= k < r.fields().len() ==> byte_len((#[trigger] r.fields()[k]).1) <= usize::MAX
    &&& forall|k: int, name: Seq<char>|
        0 <= k < r.fields().len() && is_field_name(name) && !named(r.fields().take(k + 1), name)
            ==> !#[trigger] occurs((#[trigger] r.fields()[k]).1, opener(name))
    &&& r.freq matches Some(f) ==> is_float(f)
}

proof fn lemma_record_fields(r: QsoRecordView)
    requires
        readable(r),
    ensures
        readable_fields(r.fields()),
{
    lemma_names();
    let f = r.fields();
    assert forall|k: int| 0 <= k < f.len() implies plain_name((#[trigger] f[k]).0) by {
        assert(is_field_name(f[k].0));
    }
}

proof fn lemma_record_lookup(r: QsoRecordView, name: Seq<char>, k: int)
    requires
        readable(r),
        is_field_name(name),
        0 <= k < r.fields().len(),
        r.fields()[k].0 == name,
        forall|j: int| 0 <= j < k ==> (#[trigger] r.fields()[j]).0 != name,
    ensures
        field_value(r.line(), name) == Some(r.fields()[k].1),
{
    let f = r.fields();
    lemma_record_fields(r);
    if named(f.take(k), name) {
        let i = choose|i: int| 0 <= i < f.take(k).len() && #[trigger] f.take(k)[i].0 == name;
        assert(f[i].0 == name);
    }
    lemma_lookup(f, name, k);
}

proof fn lemma_record_missing(r: QsoRecordView, name: Seq<char>)
    requires
        readable(r),
        is_field_name(name),
        forall|j: int| 0 <= j < r.fields().len() ==> (#[trigger] r.fields()[j]).0 != name,
    ensures
        field_value(r.line(), name) is None,
{
    let f = r.fields();
    lemma_record_fields(r);
    lemma_names();
    lemma_missing(f, name);
}

/// Where the fields of a record stand.
proof fn lemma_positions(r: QsoRecordView, q: int, c: int)
    requires
        q == (if r.freq is Some {
            1int
        } else {
            0
        }),
        c == (if r.rst_rcvd.len() > 0 {
            1int
        } else {
            0
        }),
    ensures
        r.fields().len() == 8 + q + c + (if r.gridsquare is Some {
            1int
        } else {
            0
        }),
        r.fields()[0] == ("CALL"@, r.call),
        r.fields()[1] == ("OPERATOR"@, r.operator),
        r.fields()[2] == ("QSO_DATE"@, r.qso_date),
        r.fields()[3] == ("TIME_ON"@, r.time_on),
        r.fields()[4] == ("TIME_OFF"@, r.time_off),
        r.fields()[5] == ("BAND"@, r.band),
        r.freq matches Some(v) ==> r.fields()[6] == ("FREQ"@, six_decimals(v)),
        r.fields()[6 + q] == ("MODE"@, r.mode),
        r.fields()[7 + q] == ("RST_SENT"@, r.rst_sent),
        c == 1 ==> r.fields()[8 + q] == ("RST_RCVD"@, r.rst_rcvd),
        r.gridsquare matches Some(v) ==> r.fields()[8 + q + c] == ("GRIDSQUARE"@, v),
{
}

/// Looking up the six fields that every line starts with.
proof fn lemma_first_six(r: QsoRecordView)
    requires
        readable(r),
    ensures
        field_value(r.line(), "CALL"@) == Some(r.call),
        field_value(r.line(), "OPERATOR"@) == Some(r.operator),
        field_value(r.line(), "QSO_DATE"@) == Some(r.qso_date),
        field_value(r.line(), "TIME_ON"@) == Some(r.time_on),
        field_value(r.line(), "TIME_OFF"@) == Some(r.time_off),
        field_value(r.line(), "BAND"@) == Some(r.band),
{
    lemma_names();
    let q: int = if r.freq is Some { 1 } else { 0 };
    let c: int = if r.rst_rcvd.len() > 0 { 1 } else { 0 };
    lemma_positions(r, q, c);
    lemma_record_lookup(r, "CALL"@, 0);
    lemma_record_lookup(r, "OPERATOR"@, 1);
    lemma_record_lookup(r, "QSO_DATE"@, 2);
    lemma_record_lookup(r, "TIME_ON"@, 3);
    lemma_record_lookup(r, "TIME_OFF"@, 4);
    lemma_record_lookup(r, "BAND"@, 5);
}

/// Looking up the frequency and the fields behind it.
proof fn lemma_freq_and_mode(r: QsoRecordView)
    requires
        readable(r),
    ensures
        field_value(r.line(), "FREQ"@) == written_freq(r.freq),
        field_value(r.line(), "MODE"@) == Some(r.mode),
        field_value(r.line(), "RST_SENT"@) == Some(r.rst_sent),
{
    lemma_names();
    let q: int = if r.freq is Some { 1 } else { 0 };
    let c: int = if r.rst_rcvd.len() > 0 { 1 } else { 0 };
    lemma_positions(r, q, c);
    if r.freq is Some {
        lemma_record_lookup(r, "FREQ"@, 6);
    } else {
        lemma_record_missing(r, "FREQ"@);
    }
    lemma_record_lookup(r, "MODE"@, 6 + q);
    lemma_record_lookup(r, "RST_SENT"@, 7 + q);
}

/// Looking up the received report and the locator.
proof fn lemma_rcvd_and_grid(r: QsoRecordView)
    requires
        readable(r),
    ensures
        value_or_empty(r.line(), "RST_RCVD"@) == r.rst_rcvd,
        field_value(r.line(), "GRIDSQUARE"@) == r.gridsquare,
{
    lemma_names();
    let q: int = if r.freq is Some { 1 } else { 0 };
    let c: int = if r.rst_rcvd.len() > 0 { 1 } else { 0 };
    lemma_positions(r, q, c);
    if r.rst_rcvd.len() > 0 {
        lemma_record_lookup(r, "RST_RCVD"@, 8 + q);
    } else {
        lemma_record_missing(r, "RST_RCVD"@);
        assert(r.rst_rcvd =~= Seq::<char>::empty());
    }
    if r.gridsquare is Some {
        lemma_record_lookup(r, "GRIDSQUARE"@, 8 + q + c);
    } else {
        lemma_record_missing(r, "GRIDSQUARE"@);
    }
}

/// Reading the line that a record was written as gives the record back, its frequency
/// with six decimals.
pub proof fn law_record_round_trip(r: QsoRecordView)
    requires
        readable(r),
    ensures
        parsed_line(r.line()) == Some(r.normal()),
{
    lemma_first_six(r);
    lemma_freq_and_mode(r);
    lemma_rcvd_and_grid(r);
    if let Some(f) = r.freq {
        law_written_reads_back(f);
    }
    assert(parsed_line(r.line())->0 =~= r.normal());
}

/// Records with their frequencies as they are written.
pub open spec fn normals(recs: Seq<QsoRecordView>) -> Seq<QsoRecordView> {
    recs.map_values(|r: QsoRecordView| r.normal())
}

/// A log file after the records were logged one after the other, starting
/// with no file.
pub open spec fn log_file(program_id: Seq<char>, recs: Seq<QsoRecordView>) -> Seq<char>
    decreases recs.len(),
{
    if recs.len() == 0 {
        Seq::empty()
    } else {
        log_file(program_id, recs.drop_last()) + logged_text(program_id, recs.len() == 1, recs.last())
    }
}

/// The text has no line break.
pub open spec fn one_line(s: Seq<char>) -> bool {
    forall|i: int| 0 <= i < s.len() ==> #[trigger] s[i] != '\n'
}

/// No value of the record has a line break.
pub open spec fn one_line_record(r: QsoRecordView) -> bool {
    forall|k: int| 0 <= k < r.fields().len() ==> one_line((#[trigger] r.fields()[k]).1)
}

proof fn lemma_lines_append(x: Seq<char>, y: Seq<char>, begun: Seq<char>)
    requires
        x.len() > 0,
        x.last() == '\n',
    ensures
        lines_from(x + y, begun) == lines_from(x, begun) + lines(y),
    decreases x.len(),
{
    let s = x + y;
    let none: Seq<char> = seq![];
    assert(s[0] == x[0]);
    if x.len() == 1 {
        assert(s.drop_first() =~= y);
        assert(x.drop_first() =~= none);
        assert(lines_from(none, none) =~= seq![]);
        assert(lines_from(x, begun) =~= seq![chomp(begun)]);
    } else {
        assert(s.drop_first() =~= x.drop_first() + y);
        assert(x.drop_first().last() == '\n');
        if x[0] == '\n' {
            lemma_lines_append(x.drop_first(), y, none);
            assert(seq![chomp(begun)] + (lines_from(x.drop_first(), none) + lines(y)) =~= (seq![
                chomp(begun),
            ] + lines_from(x.drop_first(), none)) + lines(y));
        } else {
            lemma_lines_append(x.drop_first(), y, begun.push(x[0]));
        }
    }
}

proof fn lemma_one_line(a: Seq<char>, begun: Seq<char>)
    requires
        one_line(a),
    ensures
        lines_from(a + seq!['\n'], begun) == seq![chomp(begun + a)],
    decreases a.len(),
{
    let s = a + seq!['\n'];
    let none: Seq<char> = seq![];
    if a.len() == 0 {
        assert(s.drop_first() =~= none);
        assert(lines_from(none, none) =~= seq![]);
        assert(begun + a =~= begun);
        assert(lines_from(s, begun) =~= seq![chomp(begun)]);
    } else {
        assert(s[0] == a[0]);
        assert(a[0] != '\n');
        assert(s.drop_first() =~= a.drop_first() + seq!['\n']);
        assert(one_line(a.drop_first())) by {
            assert forall|i: int| 0 <= i < a.drop_first().len() implies #[trigger] a.drop_first()[i]
                != '\n' by {
                assert(a[i + 1] != '\n');
            }
        }
        lemma_one_line(a.drop_first(), begun.push(a[0]));
        assert(begun.push(a[0]) + a.drop_first() =~= begun + a);
    }
}

proof fn lemma_field_one_line(name: Seq<char>, value: Seq<char>)
    requires
        plain_name(name),
        one_line(value),
    ensures
        one_line(field_text(name, value)),
{
    reveal_strlit("<");
    reveal_strlit(":");
    reveal_strlit(">");
    let d = decimal(byte_len(value));
    let t = field_text(name, value);
    lemma_decimal_value(byte_len(value));
    assert forall|i: int| 0 <= i < t.len() implies #[trigger] t[i] != '\n' by {
        let n = name.len() as int;
        if i == 0 {
        } else if i <= n {
            assert(t[i] == name[i - 1]);
        } else if i == n + 1 {
        } else if i < n + 2 + d.len() {
            assert(t[i] == d[i - n - 2]);
        } else if i > n + 2 + d.len() {
            assert(t[i] == value[i - n - 3 - d.len()]);
        }
    }
}

proof fn lemma_fields_one_line(f: Seq<(Seq<char>, Seq<char>)>)
    requires
        forall|k: int| 0 <= k < f.len() ==> plain_name((#[trigger] f[k]).0) && one_line(f[k].1),
    ensures
        one_line(fields_text(f)),
        f.len() > 0 ==> fields_text(f).len() > 0 && fields_text(f)[0] == '<',
    decreases f.len(),
{
    if f.len() > 0 {
        reveal_strlit(" ");
        reveal_strlit("<");
        let g = f.drop_last();
        assert forall|k: int| 0 <= k < g.len() implies plain_name((#[trigger] g[k]).0) && one_line(
            g[k].1,
        ) by {
            assert(f[k] == g[k]);
        }
        lemma_fields_one_line(g);
        lemma_field_one_line(f.last().0, f.last().1);
        let a = fields_text(g);
        let b = field_text(f.last().0, f.last().1);
        let t = fields_text(f);
        assert forall|i: int| 0 <= i < t.len() implies #[trigger] t[i] != '\n' by {
            if i < a.len() {
                assert(t[i] == a[i]);
            } else if i < a.len() + b.len() {
                assert(t[i] == b[i - a.len()]);
            }
        }
        if g.len() == 0 {
            assert(a =~= Seq::<char>::empty());
            assert(t[0] == b[0]);
        }
    }
}

/// The line of a record is one line that trimming leaves alone.
proof fn lemma_record_line(r: QsoRecordView)
    requires
        one_line_record(r),
    ensures
        one_line(r.line()),
        chomp(r.line()) == r.line(),
        trim(r.line()).len() > 0,
{
    reveal_strlit("<EOR>");
    lemma_names();
    let f = r.fields();
    assert forall|k: int| 0 <= k < f.len() implies plain_name((#[trigger] f[k]).0) && one_line(f[k].1) by {
        assert(is_field_name(f[k].0));
    }
    lemma_fields_one_line(f);
    let a = fields_text(f);
    let t = r.line();
    assert forall|i: int| 0 <= i < t.len() implies #[trigger] t[i] != '\n' by {
        if i < a.len() {
            assert(t[i] == a[i]);
        } else {
            let q = i - a.len();
            assert(q == 0 || q == 1 || q == 2 || q == 3 || q == 4);
        }
    }
    assert(t.last() == '>');
    assert(t[0] == '<');
    assert(trim_start(t) == t);
    assert(trim_end(t) == t);
}

/// The lines that a record adds to the file.
proof fn lemma_record_lines(r: QsoRecordView)
    requires
        one_line_record(r),
    ensures
        lines(r.line() + "\n"@) == seq![r.line()],
{
    reveal_strlit("\n");
    assert("\n"@ =~= seq!['\n']);
    lemma_record_line(r);
    lemma_one_line(r.line(), seq![]);
    assert(Seq::<char>::empty() + r.line() =~= r.line());
}

spec fn has_end_of_header(l: Seq<Seq<char>>) -> bool {
    exists|k: int| 0 <= k < l.len() && occurs(#[trigger] l[k], "<EOH>"@)
}

/// A record line behind the header adds its record.
proof fn lemma_file_push(l: Seq<Seq<char>>, x: Seq<char>, r: QsoRecordView)
    requires
        has_end_of_header(l),
        trim(x).len() > 0,
        parsed_line(x) == Some(r),
    ensures
        file_records(l.push(x)) == file_records(l).push(r),
        has_end_of_header(l.push(x)),
    decreases l.len(),
{
    let m = l.push(x);
    let k = choose|k: int| 0 <= k < l.len() && occurs(#[trigger] l[k], "<EOH>"@);
    assert(m[k] == l[k]);
    assert(m[0] == l[0]);
    assert(m.drop_first() =~= l.drop_first().push(x));
    if occurs(l[0], "<EOH>"@) {
        let b = l.drop_first().push(x);
        assert(b.drop_last() =~= l.drop_first());
        assert(b.last() == x);
    } else {
        assert(l.drop_first()[k - 1] == l[k]);
        lemma_file_push(l.drop_first(), x, r);
    }
}

/// What starts a line with a bracket elsewhere than `<E` holds `<EOH>` only
/// behind that.
proof fn lemma_no_end_of_header(h: Seq<char>, v: Seq<char>)
    requires
        h.len() >= 2,
        h[0] == '<' ==> h[1] != 'E',
        forall|i: int| 1 <= i < h.len() ==> #[trigger] h[i] != '<',
        !occurs(v, "<EOH>"@),
    ensures
        !occurs(h + v, "<EOH>"@),
{
    reveal_strlit("<EOH>");
    let p = "<EOH>"@;
    let s = h + v;
    if occurs(s, p) {
        let i = choose|i: int| occurs_at(s, p, i);
        assert(s.subrange(i, i + 5)[0] == s[i] && s.subrange(i, i + 5)[1] == s[i + 1]);
        assert(p[0] == '<' && p[1] == 'E');
        if i == 0 {
            assert(s[0] == h[0] && s[1] == h[1]);
        } else if i < h.len() {
            assert(s[i] == h[i]);
        } else {
            assert(v.subrange(i - h.len(), i - h.len() + 5) =~= s.subrange(i, i + 5));
            assert(occurs_at(v, p, i - h.len()));
        }
    }
}

proof fn lemma_chomp_occurs(s: Seq<char>, p: Seq<char>)
    requires
        !occurs(s, p),
    ensures
        !occurs(chomp(s), p),
{
    let t = chomp(s);
    if occurs(t, p) {
        let i = choose|i: int| occurs_at(t, p, i);
        assert(s.subrange(i, i + p.len()) =~= t.subrange(i, i + p.len()));
        assert(occurs_at(s, p, i));
    }
}

/// The header ends where it should and holds no record.
proof fn lemma_header(program_id: Seq<char>)
    requires
        one_line(program_id),
        !occurs(program_id, "<EOH>"@),
    ensures
        header_text(program_id).len() > 0,
        header_text(program_id).last() == '\n',
        has_end_of_header(lines(header_text(program_id))),
        file_records(lines(header_text(program_id))) == Seq::<QsoRecordView>::empty(),
{
    reveal_strlit("ADIF Export from ");
    reveal_strlit("\n<ADIF_VER:5>3.1.4\n<PROGRAMID:");
    reveal_strlit(">");
    reveal_strlit("\n<EOH>\n\n");
    reveal_strlit("<EOH>");
    let nl = seq!['\n'];
    let none: Seq<char> = seq![];
    let h1 = "ADIF Export from "@;
    let a1 = h1 + program_id;
    let a2 = seq![
        '<', 'A', 'D', 'I', 'F', '_', 'V', 'E', 'R', ':', '5', '>', '3', '.', '1', '.', '4',
    ];
    let d = decimal(byte_len(program_id));
    let h3 = seq!['<', 'P', 'R', 'O', 'G', 'R', 'A', 'M', 'I', 'D', ':'] + d + seq!['>'];
    let a3 = h3 + program_id;
    let a4 = seq!['<', 'E', 'O', 'H', '>'];
    lemma_decimal_value(byte_len(program_id));
    assert("\n<ADIF_VER:5>3.1.4\n<PROGRAMID:"@ =~= nl + a2 + nl + seq![
        '<', 'P', 'R', 'O', 'G', 'R', 'A', 'M', 'I', 'D', ':',
    ]);
    assert("\n<EOH>\n\n"@ =~= nl + a4 + nl + none + nl);
    let t5 = none + nl;
    let t4 = a4 + nl + t5;
    let t3 = a3 + nl + t4;
    let t2 = a2 + nl + t3;
    let t1 = a1 + nl + t2;
    assert(header_text(program_id) =~= t1);
    assert forall|i: int| 1 <= i < h3.len() implies #[trigger] h3[i] != '<' by {
        if 11 <= i < 11 + d.len() {
            assert(h3[i] == d[i - 11]);
        }
    }
    assert forall|i: int| 0 <= i < a1.len() implies #[trigger] a1[i] != '\n' by {
        if i >= h1.len() {
            assert(a1[i] == program_id[i - h1.len()]);
        }
    }
    assert forall|i: int| 0 <= i < a3.len() implies #[trigger] a3[i] != '\n' by {
        if i >= h3.len() {
            assert(a3[i] == program_id[i - h3.len()]);
        } else if 11 <= i < 11 + d.len() {
            assert(h3[i] == d[i - 11]);
        }
    }
    lemma_one_line(a1, none);
    lemma_one_line(a2, none);
    lemma_one_line(a3, none);
    lemma_one_line(a4, none);
    lemma_one_line(none, none);
    assert(none + a1 =~= a1 && none + a2 =~= a2 && none + a3 =~= a3 && none + a4 =~= a4 && none + none
        =~= none);
    lemma_lines_append(a1 + nl, t2, none);
    lemma_lines_append(a2 + nl, t3, none);
    lemma_lines_append(a3 + nl, t4, none);
    lemma_lines_append(a4 + nl, t5, none);
    let l5 = lines(t5);
    assert(l5 == seq![none]);
    let l4 = lines(t4);
    assert(l4 == seq![a4] + l5);
    let l3 = lines(t3);
    assert(l3 == seq![chomp(a3)] + l4);
    let l2 = lines(t2);
    assert(l2 == seq![a2] + l3);
    let l1 = lines(t1);
    assert(l1 == seq![chomp(a1)] + l2);
    lemma_no_end_of_header(h1, program_id);
    lemma_no_end_of_header(h3, program_id);
    lemma_chomp_occurs(a1, "<EOH>"@);
    lemma_chomp_occurs(a3, "<EOH>"@);
    if occurs(none, "<EOH>"@) {
        let i = choose|i: int| occurs_at(none, "<EOH>"@, i);
    }
    lemma_no_end_of_header(a2, none);
    assert(a2 + none =~= a2);
    assert(a4 =~= "<EOH>"@);
    assert(a4.subrange(0, 5) =~= "<EOH>"@);
    assert(occurs_at(a4, "<EOH>"@, 0));
    lemma_header_lines(chomp(a1), a2, chomp(a3), a4);
    assert(l1 =~= seq![chomp(a1), a2, chomp(a3), a4, none]);
}

proof fn lemma_header_lines(a1: Seq<char>, a2: Seq<char>, a3: Seq<char>, a4: Seq<char>)
    requires
        !occurs(a1, "<EOH>"@),
        !occurs(a2, "<EOH>"@),
        !occurs(a3, "<EOH>"@),
        occurs(a4, "<EOH>"@),
    ensures
        has_end_of_header(seq![a1, a2, a3, a4, Seq::<char>::empty()]),
        file_records(seq![a1, a2, a3, a4, Seq::<char>::empty()]) == Seq::<QsoRecordView>::empty(),
{
    let none: Seq<char> = seq![];
    let l = seq![a1, a2, a3, a4, none];
    assert(l[3] == a4);
    assert(l.drop_first() =~= seq![a2, a3, a4, none]);
    assert(seq![a2, a3, a4, none].drop_first() =~= seq![a3, a4, none]);
    assert(seq![a3, a4, none].drop_first() =~= seq![a4, none]);
    assert(seq![a4, none].drop_first() =~= seq![none]);
    assert(file_records(seq![a4, none]) == body_records(seq![none]));
    assert(file_records(seq![a3, a4, none]) == file_records(seq![a4, none]));
    assert(file_records(seq![a2, a3, a4, none]) == file_records(seq![a3, a4, none]));
    assert(seq![none].drop_last() =~= Seq::<Seq<char>>::empty());
    assert(trim(none).len() == 0);
    assert(body_records(Seq::<Seq<char>>::empty()) =~= Seq::<QsoRecordView>::empty());
}

proof fn lemma_log_file(program_id: Seq<char>, recs: Seq<QsoRecordView>)
    requires
        recs.len() > 0,
        one_line(program_id),
        !occurs(program_id, "<EOH>"@),
        forall|k: int| 0 <= k < recs.len() ==> readable(#[trigger] recs[k]) && one_line_record(recs[k]),
    ensures
        log_file(program_id, recs).len() > 0,
        log_file(program_id, recs).last() == '\n',
        has_end_of_header(lines(log_file(program_id, recs))),
        file_records(lines(log_file(program_id, recs))) == normals(recs),
    decreases recs.len(),
{
    reveal_strlit("\n");
    let r = recs.last();
    let front = recs.drop_last();
    let before = if recs.len() == 1 {
        header_text(program_id)
    } else {
        log_file(program_id, front)
    };
    assert(recs[recs.len() - 1] == r);
    if recs.len() == 1 {
        lemma_header(program_id);
        assert(front =~= Seq::<QsoRecordView>::empty());
        assert(normals(front) =~= Seq::<QsoRecordView>::empty());
        assert(log_file(program_id, front) =~= Seq::<char>::empty());
        assert(log_file(program_id, recs) =~= before + (r.line() + "\n"@));
    } else {
        assert forall|k: int| 0 <= k < front.len() implies readable(#[trigger] front[k]) && one_line_record(
            front[k],
        ) by {
            assert(recs[k] == front[k]);
        }
        lemma_log_file(program_id, front);
        assert(log_file(program_id, recs) =~= before + (r.line() + "\n"@));
    }
    let none: Seq<char> = seq![];
    lemma_lines_append(before, r.line() + "\n"@, none);
    lemma_record_lines(r);
    lemma_record_line(r);
    law_record_round_trip(r);
    let l = lines(before);
    assert(lines(before + (r.line() + "\n"@)) =~= l.push(r.line()));
    lemma_file_push(l, r.line(), r.normal());
    assert(normals(front).push(r.normal()) =~= normals(recs));
}

/// Reading a log file gives back the records that were logged to it, in their
/// order, however many there are, their frequencies with six decimals.
pub proof fn law_log_round_trip(program_id: Seq<char>, recs: Seq<QsoRecordView>)
    requires
        one_line(program_id),
        !occurs(program_id, "<EOH>"@),
        forall|k: int| 0 <= k < recs.len() ==> readable(#[trigger] recs[k]) && one_line_record(recs[k]),
    ensures
        file_records(lines(log_file(program_id, recs))) == normals(recs),
{
    if recs.len() == 0 {
        assert(lines(Seq::<char>::empty()) =~= Seq::<Seq<char>>::empty());
        assert(file_records(Seq::<Seq<char>>::empty()) =~= normals(recs));
    } else {
        lemma_log_file(program_id, recs);
    }
}

/// The text has no opening bracket and no line break.
pub open spec fn plain_text(s: Seq<char>) -> bool {
    forall|i: int| 0 <= i < s.len() ==> #[trigger] s[i] != '<' && s[i] != '\n'
}

/// A record of plain texts, whose frequency is a number.
pub open spec fn plain_record(r: QsoRecordView) -> bool {
    &&& plain_text(r.call) && plain_text(r.operator) && plain_text(r.qso_date)
    &&& plain_text(r.time_on) && plain_text(r.time_off) && plain_text(r.band)
    &&& plain_text(r.mode) && plain_text(r.rst_sent) && plain_text(r.rst_rcvd)
    &&& r.gridsquare matches Some(g) ==> plain_text(g)
    &&& r.freq matches Some(f) ==> is_float(f)
    &&& forall|k: int| 0 <= k < r.fields().len() ==> byte_len((#[trigger] r.fields()[k]).1) <= usize::MAX
}

proof fn lemma_plain_holds_nothing(v: Seq<char>, p: Seq<char>)
    requires
        plain_text(v),
        p.len() > 0,
        p[0] == '<',
    ensures
        !occurs(v, p),
{
    if occurs(v, p) {
        let i = choose|i: int| occurs_at(v, p, i);
        assert(v.subrange(i, i + p.len())[0] == v[i]);
    }
}

proof fn lemma_plain_record(r: QsoRecordView)
    requires
        plain_record(r),
    ensures
        readable(r),
        one_line_record(r),
{
    reveal_strlit("<");
    let f = r.fields();
    if let Some(x) = r.freq {
        law_written_is_plain(x);
    }
    assert forall|k: int| 0 <= k < f.len() implies plain_text((#[trigger] f[k]).1) by {
        let q: int = if r.freq is Some { 1 } else { 0 };
        let c: int = if r.rst_rcvd.len() > 0 { 1 } else { 0 };
        lemma_positions(r, q, c);
        assert(f.len() == 8 + q + c + (if r.gridsquare is Some { 1int } else { 0 }));
    }
    assert forall|k: int, name: Seq<char>|
        0 <= k < f.len() && is_field_name(name) && !named(f.take(k + 1), name) implies !#[trigger] occurs(
        (#[trigger] f[k]).1,
        opener(name),
    ) by {
        assert(opener(name)[0] == '<');
        lemma_plain_holds_nothing(f[k].1, opener(name));
    }
}

/// A log of records without opening brackets and line breaks reads back as it was
/// logged: every record once, in its order, its frequency with six decimals. An empty
/// log gives none.
pub proof fn law_plain_log_round_trip(program_id: Seq<char>, recs: Seq<QsoRecordView>)
    requires
        plain_text(program_id),
        forall|k: int| 0 <= k < recs.len() ==> plain_record(#[trigger] recs[k]),
    ensures
        file_records(lines(log_file(program_id, recs))) == normals(recs),
        file_records(lines(log_file(program_id, recs))).len() == recs.len(),
{
    reveal_strlit("<EOH>");
    lemma_plain_holds_nothing(program_id, "<EOH>"@);
    assert forall|k: int| 0 <= k < recs.len() implies readable(#[trigger] recs[k]) && one_line_record(recs[k]) by {
        lemma_plain_record(recs[k]);
    }
    law_log_round_trip(program_id, recs);
}

} // verus!
