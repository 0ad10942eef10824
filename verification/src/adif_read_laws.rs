//! What another program reads out of an ADIF text, when it takes the fields one
//! after the other by the lengths that they tell.
use vstd::prelude::*;
use vstd::string::*;

use crate::adif::{field_text, fields_text, header_text, logged_text, written_freq, QsoRecordView};
use crate::clock::{date_text, fields_of, time_text};
use crate::text::{
    byte_len, chars_in_bytes, decimal, digits_value, lemma_cut_whole, lemma_decimal_value,
};
use crate::wsjtx_udp::{adif_text, band_name, field, logged_adif_text, mhz_text, LogRecord};

verus! {

/// The first place from `from` on at which a character stands.
pub open spec fn place_of(s: Seq<char>, c: char, from: int) -> Option<int>
    decreases s.len() - from,
{
    if from < 0 || from >= s.len() {
        None
    } else if s[from] == c {
        Some(from)
    } else {
        place_of(s, c, from + 1)
    }
}

/// Reads one field, whose name begins behind the first character: the name up to a
/// colon, the length up to a closing bracket, and as many bytes; what is behind it
/// follows. A mark without a colon, such as the one that ends a record, is none.
pub open spec fn read_field(s: Seq<char>) -> Option<(Seq<char>, Seq<char>, Seq<char>)> {
    match (place_of(s, ':', 1), place_of(s, '>', 1)) {
        (Some(colon), Some(close)) => if 1 <= colon < close < s.len() {
            let after = s.subrange(close + 1, s.len() as int);
            match chars_in_bytes(after, digits_value(s.subrange(colon + 1, close))) {
                Some(n) => Some(
                    (
                        s.subrange(1, colon),
                        after.subrange(0, n as int),
                        after.subrange(n as int, after.len() as int),
                    ),
                ),
                None => None,
            }
        } else {
            None
        },
        _ => None,
    }
}

/// Reads fields until a mark comes that is none.
pub open spec fn read_fields(s: Seq<char>) -> Seq<(Seq<char>, Seq<char>)>
    decreases s.len(),
{
    match place_of(s, '<', 0) {
        Some(at) => match read_field(s.subrange(at, s.len() as int)) {
            Some((name, value, rest)) => if rest.len() < s.len() {
                seq![(name, value)] + read_fields(rest)
            } else {
                seq![]
            },
            None => seq![],
        },
        None => seq![],
    }
}

/// The value of the first field of that name; empty where there is none.
pub open spec fn told(f: Seq<(Seq<char>, Seq<char>)>, name: Seq<char>) -> Seq<char>
    decreases f.len(),
{
    if f.len() == 0 {
        Seq::empty()
    } else if f[0].0 == name {
        f[0].1
    } else {
        told(f.drop_first(), name)
    }
}

/// The name of a field holds none of the characters that end it.
spec fn plain(name: Seq<char>) -> bool {
    forall|i: int| 0 <= i < name.len() ==> #[trigger] name[i] != ':' && name[i] != '>'
}

proof fn lemma_place(s: Seq<char>, c: char, from: int, i: int)
    requires
        0 <= from <= i < s.len(),
        s[i] == c,
        forall|k: int| from <= k < i ==> #[trigger] s[k] != c,
    ensures
        place_of(s, c, from) == Some(i),
    decreases i - from,
{
    if from < i {
        assert(s[from] != c);
        lemma_place(s, c, from + 1, i);
    }
}

proof fn lemma_read_field(name: Seq<char>, value: Seq<char>, rest: Seq<char>)
    requires
        plain(name),
    ensures
        read_field(field_text(name, value) + rest) == Some((name, value, rest)),
        (field_text(name, value) + rest)[0] == '<',
        rest.len() < (field_text(name, value) + rest).len(),
{
    reveal_strlit("<");
    reveal_strlit(":");
    reveal_strlit(">");
    let d = decimal(byte_len(value));
    lemma_decimal_value(byte_len(value));
    let s = field_text(name, value) + rest;
    let colon = 1 + name.len() as int;
    let close = colon + 1 + d.len() as int;
    assert(s.subrange(1, colon) =~= name);
    assert(s.subrange(colon + 1, close) =~= d);
    assert forall|k: int| 1 <= k < colon implies #[trigger] s[k] != ':' && s[k] != '>' by {
        assert(s[k] == name[k - 1]);
    }
    assert forall|k: int| colon < k < close implies #[trigger] s[k] != '>' by {
        assert(s[k] == d[k - colon - 1]);
    }
    assert(s[colon] == ':');
    assert(s[close] == '>');
    lemma_place(s, ':', 1, colon);
    lemma_place(s, '>', 1, close);
    let after = s.subrange(close + 1, s.len() as int);
    assert(after =~= value + rest);
    lemma_cut_whole(value, rest);
    let n = value.len() as int;
    assert(after.subrange(0, n) =~= value);
    assert(after.subrange(n, after.len() as int) =~= rest);
}

proof fn lemma_read_one(name: Seq<char>, value: Seq<char>, rest: Seq<char>)
    requires
        plain(name),
    ensures
        read_fields(field_text(name, value) + rest) == seq![(name, value)] + read_fields(rest),
{
    let s = field_text(name, value) + rest;
    lemma_read_field(name, value, rest);
    lemma_place(s, '<', 0, 0);
    assert(s.subrange(0, s.len() as int) =~= s);
}

proof fn lemma_rest_shorter(s: Seq<char>)
    requires
        read_field(s) is Some,
    ensures
        read_field(s) matches Some((name, value, rest)) && rest.len() < s.len(),
{
    let close = place_of(s, '>', 1)->0;
    let colon = place_of(s, ':', 1)->0;
    let after = s.subrange(close + 1, s.len() as int);
    lemma_cut_bounds(after, digits_value(s.subrange(colon + 1, close)));
}

proof fn lemma_cut_bounds(s: Seq<char>, n: nat)
    ensures
        chars_in_bytes(s, n) matches Some(k) ==> k <= s.len(),
    decreases s.len(),
{
    if n > 0 && s.len() > 0 && crate::text::char_width(s[0]) <= n {
        lemma_cut_bounds(s.drop_first(), (n - crate::text::char_width(s[0])) as nat);
    }
}

proof fn lemma_place_range(s: Seq<char>, c: char, from: int)
    requires
        0 <= from,
    ensures
        place_of(s, c, from) matches Some(i) ==> from <= i < s.len() && s[i] == c,
    decreases s.len() - from,
{
    if from < s.len() && s[from] != c {
        lemma_place_range(s, c, from + 1);
    }
}

/// Every field has a plain name.
spec fn plain_fields(f: Seq<(Seq<char>, Seq<char>)>) -> bool {
    forall|i: int| 0 <= i < f.len() ==> plain((#[trigger] f[i]).0)
}

proof fn lemma_read_fields_text(f: Seq<(Seq<char>, Seq<char>)>, rest: Seq<char>)
    requires
        plain_fields(f),
    ensures
        read_fields(fields_text(f) + rest) == f + read_fields(rest),
    decreases f.len(),
{
    reveal_strlit(" ");
    if f.len() == 0 {
        assert(fields_text(f) + rest =~= rest);
        assert(f + read_fields(rest) =~= read_fields(rest));
    } else {
        let front = f.drop_last();
        let (name, value) = f.last();
        let x = field_text(name, value);
        let spaced = seq![' '] + rest;
        assert(plain(f[f.len() - 1].0));
        assert forall|i: int| 0 <= i < front.len() implies plain((#[trigger] front[i]).0) by {
            assert(plain(f[i].0));
        }
        assert(" "@ =~= seq![' ']);
        assert(fields_text(f) + rest =~= fields_text(front) + (x + spaced));
        lemma_read_fields_text(front, x + spaced);
        lemma_read_one(name, value, spaced);
        lemma_skip_char(' ', rest);
        assert(front + (seq![(name, value)] + read_fields(rest)) =~= f + read_fields(rest));
    }
}

proof fn lemma_end_mark(mark: Seq<char>)
    requires
        mark == "<EOR>"@,
    ensures
        read_fields(mark) == Seq::<(Seq<char>, Seq<char>)>::empty(),
{
    reveal_strlit("<EOR>");
    reveal_with_fuel(place_of, 6);
    assert(mark.subrange(0, 5) =~= mark);
    assert(place_of(mark, '<', 0) == Some(0int));
    assert(place_of(mark, ':', 1) is None);
}

/// The name of field `k` of those that are used here.
#[verifier::opaque]
spec fn name_of(k: int) -> Seq<char> {
    if k == 0 {
        seq!['C', 'A', 'L', 'L']
    } else if k == 1 {
        seq!['O', 'P', 'E', 'R', 'A', 'T', 'O', 'R']
    } else if k == 2 {
        seq!['Q', 'S', 'O', '_', 'D', 'A', 'T', 'E']
    } else if k == 3 {
        seq!['T', 'I', 'M', 'E', '_', 'O', 'N']
    } else if k == 4 {
        seq!['T', 'I', 'M', 'E', '_', 'O', 'F', 'F']
    } else if k == 5 {
        seq!['B', 'A', 'N', 'D']
    } else if k == 6 {
        seq!['F', 'R', 'E', 'Q']
    } else if k == 7 {
        seq!['M', 'O', 'D', 'E']
    } else if k == 8 {
        seq!['R', 'S', 'T', '_', 'S', 'E', 'N', 'T']
    } else if k == 9 {
        seq!['R', 'S', 'T', '_', 'R', 'C', 'V', 'D']
    } else if k == 10 {
        seq!['G', 'R', 'I', 'D', 'S', 'Q', 'U', 'A', 'R', 'E']
    } else if k == 11 {
        seq!['S', 'T', 'A', 'T', 'I', 'O', 'N', '_', 'C', 'A', 'L', 'L', 'S', 'I', 'G', 'N']
    } else if k == 12 {
        seq!['M', 'Y', '_', 'G', 'R', 'I', 'D', 'S', 'Q', 'U', 'A', 'R', 'E']
    } else if k == 13 {
        seq!['Q', 'S', 'O', '_', 'D', 'A', 'T', 'E', '_', 'O', 'F', 'F']
    } else if k == 14 {
        seq!['P', 'R', 'O', 'P', '_', 'M', 'O', 'D', 'E']
    } else if k == 15 {
        seq!['C', 'O', 'M', 'M', 'E', 'N', 'T']
    } else if k == 16 {
        seq!['A', 'D', 'I', 'F', '_', 'V', 'E', 'R']
    } else if k == 17 {
        seq!['P', 'R', 'O', 'G', 'R', 'A', 'M', 'I', 'D']
    } else {
        seq![]
    }
}

proof fn lemma_names()
    ensures
        "CALL"@ == name_of(0),
        name_of(0) == seq!['C', 'A', 'L', 'L'],
        "OPERATOR"@ == name_of(1),
        name_of(1) == seq!['O', 'P', 'E', 'R', 'A', 'T', 'O', 'R'],
        "QSO_DATE"@ == name_of(2),
        name_of(2) == seq!['Q', 'S', 'O', '_', 'D', 'A', 'T', 'E'],
        "TIME_ON"@ == name_of(3),
        name_of(3) == seq!['T', 'I', 'M', 'E', '_', 'O', 'N'],
        "TIME_OFF"@ == name_of(4),
        name_of(4) == seq!['T', 'I', 'M', 'E', '_', 'O', 'F', 'F'],
        "BAND"@ == name_of(5),
        name_of(5) == seq!['B', 'A', 'N', 'D'],
        "FREQ"@ == name_of(6),
        name_of(6) == seq!['F', 'R', 'E', 'Q'],
        "MODE"@ == name_of(7),
        name_of(7) == seq!['M', 'O', 'D', 'E'],
        "RST_SENT"@ == name_of(8),
        name_of(8) == seq!['R', 'S', 'T', '_', 'S', 'E', 'N', 'T'],
        "RST_RCVD"@ == name_of(9),
        name_of(9) == seq!['R', 'S', 'T', '_', 'R', 'C', 'V', 'D'],
        "GRIDSQUARE"@ == name_of(10),
        name_of(10) == seq!['G', 'R', 'I', 'D', 'S', 'Q', 'U', 'A', 'R', 'E'],
        "STATION_CALLSIGN"@ == name_of(11),
        name_of(11) == seq!['S', 'T', 'A', 'T', 'I', 'O', 'N', '_', 'C', 'A', 'L', 'L', 'S', 'I', 'G', 'N'],
        "MY_GRIDSQUARE"@ == name_of(12),
        name_of(12) == seq!['M', 'Y', '_', 'G', 'R', 'I', 'D', 'S', 'Q', 'U', 'A', 'R', 'E'],
        "QSO_DATE_OFF"@ == name_of(13),
        name_of(13) == seq!['Q', 'S', 'O', '_', 'D', 'A', 'T', 'E', '_', 'O', 'F', 'F'],
        "PROP_MODE"@ == name_of(14),
        name_of(14) == seq!['P', 'R', 'O', 'P', '_', 'M', 'O', 'D', 'E'],
        "COMMENT"@ == name_of(15),
        name_of(15) == seq!['C', 'O', 'M', 'M', 'E', 'N', 'T'],
        forall|k: int| 0 <= k < 16 ==> plain(#[trigger] name_of(k)),
        forall|j: int, k: int| 0 <= j < k < 16 ==> #[trigger] name_of(j) != #[trigger] name_of(k),
{
    reveal(name_of);
    reveal_strlit("CALL");
    assert("CALL"@ =~= name_of(0));
    reveal_strlit("OPERATOR");
    assert("OPERATOR"@ =~= name_of(1));
    reveal_strlit("QSO_DATE");
    assert("QSO_DATE"@ =~= name_of(2));
    reveal_strlit("TIME_ON");
    assert("TIME_ON"@ =~= name_of(3));
    reveal_strlit("TIME_OFF");
    assert("TIME_OFF"@ =~= name_of(4));
    reveal_strlit("BAND");
    assert("BAND"@ =~= name_of(5));
    reveal_strlit("FREQ");
    assert("FREQ"@ =~= name_of(6));
    reveal_strlit("MODE");
    assert("MODE"@ =~= name_of(7));
    reveal_strlit("RST_SENT");
    assert("RST_SENT"@ =~= name_of(8));
    reveal_strlit("RST_RCVD");
    assert("RST_RCVD"@ =~= name_of(9));
    reveal_strlit("GRIDSQUARE");
    assert("GRIDSQUARE"@ =~= name_of(10));
    reveal_strlit("STATION_CALLSIGN");
    assert("STATION_CALLSIGN"@ =~= name_of(11));
    reveal_strlit("MY_GRIDSQUARE");
    assert("MY_GRIDSQUARE"@ =~= name_of(12));
    reveal_strlit("QSO_DATE_OFF");
    assert("QSO_DATE_OFF"@ =~= name_of(13));
    reveal_strlit("PROP_MODE");
    assert("PROP_MODE"@ =~= name_of(14));
    reveal_strlit("COMMENT");
    assert("COMMENT"@ =~= name_of(15));
    assert forall|k: int| 0 <= k < 16 implies plain(#[trigger] name_of(k)) by {}
    assert forall|j: int, k: int| 0 <= j < k < 16 implies #[trigger] name_of(j) != #[trigger] name_of(k) by {
        if name_of(j).len() == name_of(k).len() {
            lemma_names_differ(j, k);
        }
    }
}

proof fn lemma_names_differ(j: int, k: int)
    requires
        0 <= j < k < 16,
        name_of(j).len() == name_of(k).len(),
    ensures
        name_of(j) != name_of(k),
{
    reveal(name_of);
    assert(name_of(0)[0] != name_of(5)[0]);
    assert(name_of(0)[0] != name_of(6)[0]);
    assert(name_of(0)[0] != name_of(7)[0]);
    assert(name_of(1)[0] != name_of(2)[0]);
    assert(name_of(1)[0] != name_of(4)[0]);
    assert(name_of(1)[0] != name_of(8)[0]);
    assert(name_of(1)[0] != name_of(9)[0]);
    assert(name_of(2)[0] != name_of(4)[0]);
    assert(name_of(2)[0] != name_of(8)[0]);
    assert(name_of(2)[0] != name_of(9)[0]);
    assert(name_of(3)[0] != name_of(15)[0]);
    assert(name_of(4)[0] != name_of(8)[0]);
    assert(name_of(4)[0] != name_of(9)[0]);
    assert(name_of(5)[0] != name_of(6)[0]);
    assert(name_of(5)[0] != name_of(7)[0]);
    assert(name_of(6)[0] != name_of(7)[0]);
    assert(name_of(8)[4] != name_of(9)[4]);
}

/// No name comes twice.
spec fn distinct(f: Seq<(Seq<char>, Seq<char>)>) -> bool {
    forall|i: int, j: int| 0 <= i < j < f.len() ==> (#[trigger] f[i]).0 != (#[trigger] f[j]).0
}

proof fn lemma_told(f: Seq<(Seq<char>, Seq<char>)>, k: int)
    requires
        0 <= k < f.len(),
        distinct(f),
    ensures
        told(f, f[k].0) == f[k].1,
    decreases f.len(),
{
    if k > 0 {
        assert(f[0].0 != f[k].0);
        let t = f.drop_first();
        assert(t[k - 1] == f[k]);
        assert(distinct(t)) by {
            assert forall|i: int, j: int| 0 <= i < j < t.len() implies (#[trigger] t[i]).0 != (#[trigger] t[j]).0 by {
                assert(f[i + 1].0 != f[j + 1].0);
            }
        }
        lemma_told(t, k - 1);
    }
}

proof fn lemma_not_told(f: Seq<(Seq<char>, Seq<char>)>, name: Seq<char>)
    requires
        forall|i: int| 0 <= i < f.len() ==> (#[trigger] f[i]).0 != name,
    ensures
        told(f, name) == Seq::<char>::empty(),
    decreases f.len(),
{
    if f.len() > 0 {
        assert(f[0].0 != name);
        let t = f.drop_first();
        assert forall|i: int| 0 <= i < t.len() implies (#[trigger] t[i]).0 != name by {
            assert(t[i] == f[i + 1]);
        }
        lemma_not_told(t, name);
    }
}

/// The fields that have a value.
spec fn with_value(f: Seq<(Seq<char>, Seq<char>)>) -> Seq<(Seq<char>, Seq<char>)>
    decreases f.len(),
{
    if f.len() == 0 {
        seq![]
    } else if f[0].1.len() == 0 {
        with_value(f.drop_first())
    } else {
        seq![f[0]] + with_value(f.drop_first())
    }
}

/// Fields one behind the other, nothing for those without a value.
spec fn in_a_row(f: Seq<(Seq<char>, Seq<char>)>) -> Seq<char>
    decreases f.len(),
{
    if f.len() == 0 {
        seq![]
    } else {
        field(f[0].0, f[0].1) + in_a_row(f.drop_first())
    }
}

proof fn lemma_read_row(f: Seq<(Seq<char>, Seq<char>)>, rest: Seq<char>)
    requires
        plain_fields(f),
    ensures
        read_fields(in_a_row(f) + rest) == with_value(f) + read_fields(rest),
    decreases f.len(),
{
    if f.len() == 0 {
        assert(in_a_row(f) + rest =~= rest);
        assert(with_value(f) + read_fields(rest) =~= read_fields(rest));
    } else {
        let t = f.drop_first();
        assert(plain(f[0].0));
        assert forall|i: int| 0 <= i < t.len() implies plain((#[trigger] t[i]).0) by {
            assert(t[i] == f[i + 1]);
        }
        lemma_read_row(t, rest);
        let more = in_a_row(t) + rest;
        if f[0].1.len() == 0 {
            assert(in_a_row(f) + rest =~= more);
        } else {
            assert(in_a_row(f) + rest =~= field_text(f[0].0, f[0].1) + more);
            lemma_read_one(f[0].0, f[0].1, more);
            assert(seq![(f[0].0, f[0].1)] + (with_value(t) + read_fields(rest)) =~= with_value(f) + read_fields(
                rest,
            ));
        }
    }
}

proof fn lemma_told_with_value(f: Seq<(Seq<char>, Seq<char>)>, name: Seq<char>)
    requires
        distinct(f),
    ensures
        told(with_value(f), name) == told(f, name),
    decreases f.len(),
{
    if f.len() > 0 {
        let t = f.drop_first();
        assert(distinct(t)) by {
            assert forall|i: int, j: int| 0 <= i < j < t.len() implies (#[trigger] t[i]).0 != (#[trigger] t[j]).0 by {
                assert(f[i + 1].0 != f[j + 1].0);
            }
        }
        lemma_told_with_value(t, name);
        if f[0].1.len() == 0 {
            if f[0].0 == name {
                assert forall|i: int| 0 <= i < t.len() implies (#[trigger] t[i]).0 != name by {
                    assert(f[0].0 != f[i + 1].0);
                }
                lemma_not_told(t, name);
                assert(f[0].1 =~= Seq::<char>::empty());
            }
        } else {
            let w = with_value(f);
            assert(w[0] == f[0]);
            assert(w.drop_first() =~= with_value(t));
        }
    }
}

/// The fields of the record that logging programs are told of.
#[verifier::opaque]
spec fn sent_fields(rec: LogRecord) -> Seq<(Seq<char>, Seq<char>)> {
    seq![
        (name_of(11), rec.my_call@),
        (name_of(12), rec.my_grid@),
        (name_of(0), rec.dx_call@),
        (name_of(10), rec.dx_grid@),
        (name_of(7), rec.mode@),
        (name_of(8), rec.rst_sent@),
        (name_of(9), rec.rst_rcvd@),
        (name_of(2), date_text(fields_of(rec.time_on as int))),
        (name_of(3), time_text(fields_of(rec.time_on as int))),
        (name_of(13), date_text(fields_of(rec.time_off as int))),
        (name_of(4), time_text(fields_of(rec.time_off as int))),
        (name_of(6), mhz_text(rec.freq_hz as nat)),
        (name_of(5), band_name(rec.freq_hz as nat)),
        (name_of(14), rec.prop_mode@),
        (name_of(15), rec.comment@),
    ]
}

/// Which name field `k` of them bears.
spec fn sent_order(k: int) -> int {
    seq![11int, 12int, 0int, 10int, 7int, 8int, 9int, 2int, 3int, 13int, 4int, 6int, 5int, 14int, 15int][k]
}

proof fn lemma_sent_names(rec: LogRecord)
    ensures
        sent_fields(rec).len() == 15,
        forall|k: int| 0 <= k < 15 ==> (#[trigger] sent_fields(rec)[k]).0 == name_of(sent_order(k)),
        forall|k: int| 0 <= k < 15 ==> 0 <= #[trigger] sent_order(k) < 16,
        forall|j: int, k: int| 0 <= j < k < 15 ==> #[trigger] sent_order(j) != #[trigger] sent_order(k),
{
    reveal(sent_fields);
}

proof fn lemma_sent_distinct(rec: LogRecord)
    ensures
        distinct(sent_fields(rec)),
        plain_fields(sent_fields(rec)),
{
    let f = sent_fields(rec);
    lemma_names();
    lemma_sent_names(rec);
    assert forall|i: int, j: int| 0 <= i < j < f.len() implies (#[trigger] f[i]).0 != (#[trigger] f[j]).0 by {
        assert(sent_order(i) != sent_order(j));
    }
    assert forall|i: int| 0 <= i < f.len() implies plain((#[trigger] f[i]).0) by {
        assert(0 <= sent_order(i));
    }
}

proof fn lemma_row_push(f: Seq<(Seq<char>, Seq<char>)>, x: (Seq<char>, Seq<char>))
    ensures
        in_a_row(f.push(x)) == in_a_row(f) + field(x.0, x.1),
    decreases f.len(),
{
    let g = f.push(x);
    if f.len() == 0 {
        assert(g.drop_first() =~= f);
        assert(in_a_row(f) =~= Seq::<char>::empty());
        assert(in_a_row(g) =~= in_a_row(f) + field(x.0, x.1));
    } else {
        assert(g.drop_first() =~= f.drop_first().push(x));
        lemma_row_push(f.drop_first(), x);
        assert(in_a_row(g) =~= in_a_row(f) + field(x.0, x.1));
    }
}

proof fn lemma_row_grows(f: Seq<(Seq<char>, Seq<char>)>, i: int, done: Seq<char>)
    requires
        0 <= i < f.len(),
        in_a_row(f.take(i)) == done,
    ensures
        in_a_row(f.take(i + 1)) == done + field(f[i].0, f[i].1),
{
    assert(f.take(i + 1) =~= f.take(i).push(f[i]));
    lemma_row_push(f.take(i), f[i]);
}

proof fn lemma_sent_row(rec: LogRecord)
    ensures
        adif_text(rec) == in_a_row(sent_fields(rec)),
{
    reveal(sent_fields);
    let f = sent_fields(rec);
    lemma_names();
    let none = Seq::<char>::empty();
    assert(f.take(0) =~= Seq::<(Seq<char>, Seq<char>)>::empty());
    lemma_row_grows(f, 0, none);
    let l0 = field(f[0].0, f[0].1);
    assert(none + l0 =~= l0);
    let l1 = l0 + field(f[1].0, f[1].1);
    lemma_row_grows(f, 1, l0);
    let l2 = l1 + field(f[2].0, f[2].1);
    lemma_row_grows(f, 2, l1);
    let l3 = l2 + field(f[3].0, f[3].1);
    lemma_row_grows(f, 3, l2);
    let l4 = l3 + field(f[4].0, f[4].1);
    lemma_row_grows(f, 4, l3);
    let l5 = l4 + field(f[5].0, f[5].1);
    lemma_row_grows(f, 5, l4);
    let l6 = l5 + field(f[6].0, f[6].1);
    lemma_row_grows(f, 6, l5);
    let l7 = l6 + field(f[7].0, f[7].1);
    lemma_row_grows(f, 7, l6);
    let l8 = l7 + field(f[8].0, f[8].1);
    lemma_row_grows(f, 8, l7);
    let l9 = l8 + field(f[9].0, f[9].1);
    lemma_row_grows(f, 9, l8);
    let l10 = l9 + field(f[10].0, f[10].1);
    lemma_row_grows(f, 10, l9);
    let l11 = l10 + field(f[11].0, f[11].1);
    lemma_row_grows(f, 11, l10);
    let l12 = l11 + field(f[12].0, f[12].1);
    lemma_row_grows(f, 12, l11);
    let l13 = l12 + field(f[13].0, f[13].1);
    lemma_row_grows(f, 13, l12);
    let l14 = l13 + field(f[14].0, f[14].1);
    lemma_row_grows(f, 14, l13);
    assert(f.take(15) =~= f);
    assert(adif_text(rec) == l14);
}

proof fn lemma_sent_told(rec: LogRecord, k: int)
    requires
        0 <= k < 15,
    ensures
        told(read_fields(adif_text(rec) + "<EOR>"@), name_of(sent_order(k))) == sent_fields(rec)[k].1,
{
    let f = sent_fields(rec);
    lemma_sent_names(rec);
    lemma_sent_distinct(rec);
    lemma_sent_row(rec);
    lemma_end_mark("<EOR>"@);
    lemma_read_row(f, "<EOR>"@);
    assert(with_value(f) + Seq::<(Seq<char>, Seq<char>)>::empty() =~= with_value(f));
    lemma_told_with_value(f, f[k].0);
    lemma_told(f, k);
}

/// Under each name stands what the name means: our own station and the other one,
/// the report sent and the one received, the day and time of the start and of the end.
pub open spec fn tells_contact(f: Seq<(Seq<char>, Seq<char>)>, rec: LogRecord) -> bool {
    &&& told(f, seq!['S', 'T', 'A', 'T', 'I', 'O', 'N', '_', 'C', 'A', 'L', 'L', 'S', 'I', 'G', 'N']) == rec.my_call@
    &&& told(f, seq!['M', 'Y', '_', 'G', 'R', 'I', 'D', 'S', 'Q', 'U', 'A', 'R', 'E']) == rec.my_grid@
    &&& told(f, seq!['C', 'A', 'L', 'L']) == rec.dx_call@
    &&& told(f, seq!['G', 'R', 'I', 'D', 'S', 'Q', 'U', 'A', 'R', 'E']) == rec.dx_grid@
    &&& told(f, seq!['M', 'O', 'D', 'E']) == rec.mode@
    &&& told(f, seq!['R', 'S', 'T', '_', 'S', 'E', 'N', 'T']) == rec.rst_sent@
    &&& told(f, seq!['R', 'S', 'T', '_', 'R', 'C', 'V', 'D']) == rec.rst_rcvd@
    &&& told(f, seq!['Q', 'S', 'O', '_', 'D', 'A', 'T', 'E']) == date_text(fields_of(rec.time_on as int))
    &&& told(f, seq!['T', 'I', 'M', 'E', '_', 'O', 'N']) == time_text(fields_of(rec.time_on as int))
    &&& told(f, seq!['Q', 'S', 'O', '_', 'D', 'A', 'T', 'E', '_', 'O', 'F', 'F']) == date_text(fields_of(rec.time_off as int))
    &&& told(f, seq!['T', 'I', 'M', 'E', '_', 'O', 'F', 'F']) == time_text(fields_of(rec.time_off as int))
    &&& told(f, seq!['F', 'R', 'E', 'Q']) == mhz_text(rec.freq_hz as nat)
    &&& told(f, seq!['B', 'A', 'N', 'D']) == band_name(rec.freq_hz as nat)
    &&& told(f, seq!['P', 'R', 'O', 'P', '_', 'M', 'O', 'D', 'E']) == rec.prop_mode@
    &&& told(f, seq!['C', 'O', 'M', 'M', 'E', 'N', 'T']) == rec.comment@
}

/// A program that reads the record which logging programs are told of finds under
/// each name what the name means. What is empty is not there.
pub proof fn law_sent_record_reads_back(rec: LogRecord)
    ensures
        tells_contact(read_fields(adif_text(rec) + "<EOR>"@), rec),
{
    let f = read_fields(adif_text(rec) + "<EOR>"@);
    assert forall|k: int| 0 <= k < 15 implies told(f, (#[trigger] sent_fields(rec)[k]).0) == sent_fields(rec)[k].1 by {
        lemma_sent_names(rec);
        lemma_sent_told(rec, k);
    }
    lemma_tells_contact(f, rec);
}

proof fn lemma_tells_contact(f: Seq<(Seq<char>, Seq<char>)>, rec: LogRecord)
    requires
        forall|k: int| 0 <= k < 15 ==> told(f, (#[trigger] sent_fields(rec)[k]).0) == sent_fields(rec)[k].1,
    ensures
        tells_contact(f, rec),
{
    lemma_sent_values(rec);
}

proof fn lemma_sent_values(rec: LogRecord)
    ensures
        sent_fields(rec)[0] == (seq!['S', 'T', 'A', 'T', 'I', 'O', 'N', '_', 'C', 'A', 'L', 'L', 'S', 'I', 'G', 'N'], rec.my_call@),
        sent_fields(rec)[1] == (seq!['M', 'Y', '_', 'G', 'R', 'I', 'D', 'S', 'Q', 'U', 'A', 'R', 'E'], rec.my_grid@),
        sent_fields(rec)[2] == (seq!['C', 'A', 'L', 'L'], rec.dx_call@),
        sent_fields(rec)[3] == (seq!['G', 'R', 'I', 'D', 'S', 'Q', 'U', 'A', 'R', 'E'], rec.dx_grid@),
        sent_fields(rec)[4] == (seq!['M', 'O', 'D', 'E'], rec.mode@),
        sent_fields(rec)[5] == (seq!['R', 'S', 'T', '_', 'S', 'E', 'N', 'T'], rec.rst_sent@),
        sent_fields(rec)[6] == (seq!['R', 'S', 'T', '_', 'R', 'C', 'V', 'D'], rec.rst_rcvd@),
        sent_fields(rec)[7] == (seq!['Q', 'S', 'O', '_', 'D', 'A', 'T', 'E'], date_text(fields_of(rec.time_on as int))),
        sent_fields(rec)[8] == (seq!['T', 'I', 'M', 'E', '_', 'O', 'N'], time_text(fields_of(rec.time_on as int))),
        sent_fields(rec)[9] == (seq!['Q', 'S', 'O', '_', 'D', 'A', 'T', 'E', '_', 'O', 'F', 'F'], date_text(fields_of(rec.time_off as int))),
        sent_fields(rec)[10] == (seq!['T', 'I', 'M', 'E', '_', 'O', 'F', 'F'], time_text(fields_of(rec.time_off as int))),
        sent_fields(rec)[11] == (seq!['F', 'R', 'E', 'Q'], mhz_text(rec.freq_hz as nat)),
        sent_fields(rec)[12] == (seq!['B', 'A', 'N', 'D'], band_name(rec.freq_hz as nat)),
        sent_fields(rec)[13] == (seq!['P', 'R', 'O', 'P', '_', 'M', 'O', 'D', 'E'], rec.prop_mode@),
        sent_fields(rec)[14] == (seq!['C', 'O', 'M', 'M', 'E', 'N', 'T'], rec.comment@),
{
    reveal(sent_fields);
    lemma_names();
}

/// The fields of a record of the log, those without a value too.
spec fn log_fields(r: QsoRecordView) -> Seq<(Seq<char>, Seq<char>)> {
    seq![
        (name_of(0), r.call),
        (name_of(1), r.operator),
        (name_of(2), r.qso_date),
        (name_of(3), r.time_on),
        (name_of(4), r.time_off),
        (name_of(5), r.band),
        (name_of(6), opt_value(written_freq(r.freq))),
        (name_of(7), r.mode),
        (name_of(8), r.rst_sent),
        (name_of(9), r.rst_rcvd),
        (name_of(10), opt_value(r.gridsquare)),
    ]
}

/// An optional value, empty where there is none.
pub open spec fn opt_value(v: Option<Seq<char>>) -> Seq<char> {
    match v {
        Some(t) => t,
        None => Seq::empty(),
    }
}

/// A program that reads a line of the log finds under each name what the name means;
/// the report received, the frequency and the locator only where they are known.
pub proof fn law_log_line_reads_back(r: QsoRecordView)
    ensures
        ({
            let f = read_fields(r.line());
            &&& told(f, seq!['C', 'A', 'L', 'L']) == r.call
            &&& told(f, seq!['O', 'P', 'E', 'R', 'A', 'T', 'O', 'R']) == r.operator
            &&& told(f, seq!['Q', 'S', 'O', '_', 'D', 'A', 'T', 'E']) == r.qso_date
            &&& told(f, seq!['T', 'I', 'M', 'E', '_', 'O', 'N']) == r.time_on
            &&& told(f, seq!['T', 'I', 'M', 'E', '_', 'O', 'F', 'F']) == r.time_off
            &&& told(f, seq!['B', 'A', 'N', 'D']) == r.band
            &&& told(f, seq!['F', 'R', 'E', 'Q']) == opt_value(written_freq(r.freq))
            &&& told(f, seq!['M', 'O', 'D', 'E']) == r.mode
            &&& told(f, seq!['R', 'S', 'T', '_', 'S', 'E', 'N', 'T']) == r.rst_sent
            &&& told(f, seq!['R', 'S', 'T', '_', 'R', 'C', 'V', 'D']) == r.rst_rcvd
            &&& told(f, seq!['G', 'R', 'I', 'D', 'S', 'Q', 'U', 'A', 'R', 'E']) == opt_value(r.gridsquare)
        }),
{
    lemma_names();
    lemma_end_mark("<EOR>"@);
    let f = r.fields();
    assert forall|i: int| 0 <= i < f.len() implies plain((#[trigger] f[i]).0) by {
        lemma_field_names(r, i);
    }
    lemma_read_fields_text(f, "<EOR>"@);
    assert(f + Seq::<(Seq<char>, Seq<char>)>::empty() =~= f);
    lemma_log_told(r);
}

/// The number of a field's name in the order of a line.
spec fn place_in_line(r: QsoRecordView, i: int) -> int {
    let a: int = if r.freq is Some {
        1
    } else {
        0
    };
    let b: int = if r.rst_rcvd.len() > 0 {
        1
    } else {
        0
    };
    if i < 6 {
        i
    } else if i < 6 + a {
        6
    } else if i < 8 + a {
        i + 1 - a
    } else if i < 8 + a + b {
        9
    } else {
        10
    }
}

proof fn lemma_field_names(r: QsoRecordView, i: int)
    requires
        0 <= i < r.fields().len(),
    ensures
        r.fields()[i].0 == name_of(place_in_line(r, i)),
        0 <= place_in_line(r, i) <= 10,
        r.fields()[i] == log_fields(r)[place_in_line(r, i)],
{
    lemma_names();
}

proof fn lemma_log_told(r: QsoRecordView)
    ensures
        forall|k: int| 0 <= k <= 10 ==> told(r.fields(), #[trigger] name_of(k)) == log_fields(r)[k].1,
{
    lemma_names();
    let f = r.fields();
    assert(distinct(f)) by {
        assert forall|i: int, j: int| 0 <= i < j < f.len() implies (#[trigger] f[i]).0 != (#[trigger] f[j]).0 by {
            lemma_field_names(r, i);
            lemma_field_names(r, j);
        }
    }
    assert forall|k: int| 0 <= k <= 10 implies told(f, #[trigger] name_of(k)) == log_fields(r)[k].1 by {
        if exists|i: int| 0 <= i < f.len() && #[trigger] place_in_line(r, i) == k {
            let i = choose|i: int| 0 <= i < f.len() && #[trigger] place_in_line(r, i) == k;
            lemma_field_names(r, i);
            lemma_told(f, i);
        } else {
            assert forall|i: int| 0 <= i < f.len() implies (#[trigger] f[i]).0 != name_of(k) by {
                lemma_field_names(r, i);
                assert(place_in_line(r, i) != k);
            }
            lemma_not_told(f, name_of(k));
            lemma_missing(r, k);
        }
    }
}

proof fn lemma_missing(r: QsoRecordView, k: int)
    requires
        0 <= k <= 10,
        forall|i: int| 0 <= i < r.fields().len() ==> #[trigger] place_in_line(r, i) != k,
    ensures
        log_fields(r)[k].1 == Seq::<char>::empty(),
{
    let a: int = if r.freq is Some {
        1
    } else {
        0
    };
    let b: int = if r.rst_rcvd.len() > 0 {
        1
    } else {
        0
    };
    if k < 6 {
        assert(place_in_line(r, k) == k);
    } else if k == 6 {
        if a == 1 {
            assert(place_in_line(r, 6) == k);
        }
    } else if k < 9 {
        assert(place_in_line(r, k - 1 + a) == k);
    } else if k == 9 {
        if b == 1 {
            assert(place_in_line(r, 8 + a) == k);
        }
        assert(r.rst_rcvd =~= Seq::<char>::empty());
    } else if r.gridsquare is Some {
        assert(place_in_line(r, 8 + a + b) == k);
    }
}


proof fn lemma_skip_char(c: char, s: Seq<char>)
    requires
        c != '<',
    ensures
        read_fields(seq![c] + s) == read_fields(s),
{
    let t = seq![c] + s;
    lemma_place_moves(c, s, 0);
    assert(t[0] == c);
    assert(place_of(t, '<', 0) == place_of(t, '<', 1));
    match place_of(s, '<', 0) {
        Some(at) => {
            lemma_place_range(s, '<', 0);
            assert(t.subrange(at + 1, t.len() as int) =~= s.subrange(at, s.len() as int));
            if let Some((name, value, rest)) = read_field(s.subrange(at, s.len() as int)) {
                lemma_rest_shorter(s.subrange(at, s.len() as int));
            }
        },
        None => {},
    }
}

proof fn lemma_place_moves(c: char, s: Seq<char>, from: int)
    requires
        0 <= from,
    ensures
        place_of(seq![c] + s, '<', from + 1) == match place_of(s, '<', from) {
            Some(i) => Some(i + 1),
            None => None,
        },
    decreases s.len() - from,
{
    let t = seq![c] + s;
    if from < s.len() {
        assert(t[from + 1] == s[from]);
        if s[from] != '<' {
            lemma_place_moves(c, s, from + 1);
        }
    }
}

proof fn lemma_skip_text(a: Seq<char>, s: Seq<char>)
    requires
        forall|i: int| 0 <= i < a.len() ==> #[trigger] a[i] != '<',
    ensures
        read_fields(a + s) == read_fields(s),
    decreases a.len(),
{
    if a.len() == 0 {
        assert(a + s =~= s);
    } else {
        let t = a.drop_first();
        assert forall|i: int| 0 <= i < t.len() implies #[trigger] t[i] != '<' by {
            assert(a[i + 1] != '<');
        }
        lemma_skip_text(t, s);
        lemma_skip_char(a[0], t + s);
        assert(a + s =~= seq![a[0]] + (t + s));
    }
}

proof fn lemma_header_mark(rest: Seq<char>)
    ensures
        read_fields(seq!['\n', '<', 'E', 'O', 'H', '>'] + rest) == Seq::<(Seq<char>, Seq<char>)>::empty(),
{
    let mark = seq!['<', 'E', 'O', 'H', '>'];
    let s = mark + rest;
    lemma_skip_char('\n', s);
    assert(seq!['\n', '<', 'E', 'O', 'H', '>'] + rest =~= seq!['\n'] + s);
    lemma_place(s, '<', 0, 0);
    lemma_place(s, '>', 1, 4);
    assert(s.subrange(0, s.len() as int) =~= s);
    lemma_place_late(s, 1);
}

proof fn lemma_place_late(s: Seq<char>, from: int)
    requires
        1 <= from <= 5,
        s.len() >= 5,
        s[1] == 'E' && s[2] == 'O' && s[3] == 'H' && s[4] == '>',
    ensures
        place_of(s, ':', from) matches Some(i) ==> i >= 5,
    decreases 5 - from,
{
    if from < 5 {
        lemma_place_late(s, from + 1);
    } else {
        lemma_place_range(s, ':', 5);
    }
}

proof fn lemma_version_bytes(v: Seq<char>)
    requires
        v == seq!['3', '.', '1', '.', '4'] || v == seq!['3', '.', '1', '.', '0'],
    ensures
        byte_len(v) == 5,
        decimal(5) == seq!['5'],
{
    reveal_with_fuel(byte_len, 6);
}

proof fn lemma_head(before: Seq<char>, version: Seq<char>, program_id: Seq<char>, rest: Seq<char>)
    requires
        forall|i: int| 0 <= i < before.len() ==> #[trigger] before[i] != '<',
    ensures
        ({
            let (v, p) = (field_text(name_of(16), version), field_text(name_of(17), program_id));
            read_fields(before + v + seq!['\n'] + p + (seq!['\n', '<', 'E', 'O', 'H', '>'] + rest)) == seq![
                (name_of(16), version),
                (name_of(17), program_id),
            ]
        }),
{
    lemma_head_names();
    let mark = seq!['\n', '<', 'E', 'O', 'H', '>'] + rest;
    let (v, p) = (field_text(name_of(16), version), field_text(name_of(17), program_id));
    let b = p + mark;
    let a = seq!['\n'] + b;
    assert(before + v + seq!['\n'] + p + mark =~= before + (v + a));
    lemma_skip_text(before, v + a);
    lemma_read_one(name_of(16), version, a);
    lemma_skip_char('\n', b);
    lemma_read_one(name_of(17), program_id, mark);
    lemma_header_mark(rest);
    let none = Seq::<(Seq<char>, Seq<char>)>::empty();
    assert(seq![(name_of(16), version)] + (seq![(name_of(17), program_id)] + none) =~= seq![
        (name_of(16), version),
        (name_of(17), program_id),
    ]);
}

proof fn lemma_head_names()
    ensures
        name_of(16) == seq!['A', 'D', 'I', 'F', '_', 'V', 'E', 'R'],
        name_of(17) == seq!['P', 'R', 'O', 'G', 'R', 'A', 'M', 'I', 'D'],
        plain(name_of(16)),
        plain(name_of(17)),
{
    reveal(name_of);
}

/// A new log begins with the version of the format and the program that writes it,
/// and its header ends before the first record.
pub proof fn law_log_header_reads_back(program_id: Seq<char>, rest: Seq<char>)
    requires
        forall|i: int| 0 <= i < program_id.len() ==> #[trigger] program_id[i] != '<',
    ensures
        read_fields(header_text(program_id) + rest) == seq![
            (seq!['A', 'D', 'I', 'F', '_', 'V', 'E', 'R'], seq!['3', '.', '1', '.', '4']),
            (seq!['P', 'R', 'O', 'G', 'R', 'A', 'M', 'I', 'D'], program_id),
        ],
{
    reveal_strlit("ADIF Export from ");
    reveal_strlit("\n<ADIF_VER:5>3.1.4\n<PROGRAMID:");
    reveal_strlit(">");
    reveal_strlit("<");
    reveal_strlit(":");
    reveal_strlit("\n<EOH>\n\n");
    let version = seq!['3', '.', '1', '.', '4'];
    let before = "ADIF Export from "@ + program_id + seq!['\n'];
    let more = seq!['\n', '\n'] + rest;
    lemma_version_bytes(version);
    lemma_head_names();
    lemma_head(before, version, program_id, more);
    let (v, p) = (field_text(name_of(16), version), field_text(name_of(17), program_id));
    assert(header_text(program_id) + rest =~= before + v + seq!['\n'] + p + (seq!['\n', '<', 'E', 'O', 'H', '>']
        + more));
}

/// So does the text that logging programs are told of.
pub proof fn law_sent_header_reads_back(app_id: Seq<char>, rec: LogRecord)
    ensures
        read_fields(logged_adif_text(app_id, rec)) == seq![
            (seq!['A', 'D', 'I', 'F', '_', 'V', 'E', 'R'], seq!['3', '.', '1', '.', '0']),
            (seq!['P', 'R', 'O', 'G', 'R', 'A', 'M', 'I', 'D'], app_id),
        ],
        logged_adif_text(app_id, rec).len() >= adif_text(rec).len() + 6,
        ({
            let t = logged_adif_text(app_id, rec);
            let (a, b) = (t.len() - 5 - adif_text(rec).len(), t.len() - 5);
            &&& t.subrange(a, b) == adif_text(rec)
            &&& t.subrange(b, t.len() as int) == seq!['<', 'E', 'O', 'R', '>']
            &&& t.subrange(a - 6, a) == seq!['<', 'E', 'O', 'H', '>', '\n']
        }),
{
    lemma_sent_text(app_id, adif_text(rec));
}

proof fn lemma_sent_text(app_id: Seq<char>, x: Seq<char>)
    ensures
        ({
            let t = "\n<ADIF_VER:5>3.1.0\n<PROGRAMID:"@ + decimal(byte_len(app_id)) + ">"@ + app_id + "\n<EOH>\n"@ + x
                + "<EOR>"@;
            let (a, b) = (t.len() - 5 - x.len(), t.len() - 5);
            &&& read_fields(t) == seq![
                (seq!['A', 'D', 'I', 'F', '_', 'V', 'E', 'R'], seq!['3', '.', '1', '.', '0']),
                (seq!['P', 'R', 'O', 'G', 'R', 'A', 'M', 'I', 'D'], app_id),
            ]
            &&& t.len() >= x.len() + 6
            &&& t.subrange(a, b) == x
            &&& t.subrange(b, t.len() as int) == seq!['<', 'E', 'O', 'R', '>']
            &&& t.subrange(a - 6, a) == seq!['<', 'E', 'O', 'H', '>', '\n']
        }),
{
    reveal_strlit("\n<ADIF_VER:5>3.1.0\n<PROGRAMID:");
    reveal_strlit(">");
    reveal_strlit("<");
    reveal_strlit(":");
    reveal_strlit("\n<EOH>\n");
    reveal_strlit("<EOR>");
    let version = seq!['3', '.', '1', '.', '0'];
    let before = seq!['\n'];
    let more = seq!['\n'] + x + "<EOR>"@;
    lemma_version_bytes(version);
    lemma_head_names();
    lemma_head(before, version, app_id, more);
    let (v, p) = (field_text(name_of(16), version), field_text(name_of(17), app_id));
    let t = "\n<ADIF_VER:5>3.1.0\n<PROGRAMID:"@ + decimal(byte_len(app_id)) + ">"@ + app_id + "\n<EOH>\n"@ + x
        + "<EOR>"@;
    assert(t =~= before + v + seq!['\n'] + p + (seq!['\n', '<', 'E', 'O', 'H', '>'] + more));
    let (a, b) = (t.len() - 5 - x.len(), t.len() - 5);
    assert(t.subrange(a, b) =~= x);
    assert(t.subrange(b, t.len() as int) =~= seq!['<', 'E', 'O', 'R', '>']);
    assert(t.subrange(a - 6, a) =~= seq!['<', 'E', 'O', 'H', '>', '\n']);
}

/// What is added to a log is one line with the record, behind the header where the
/// log is new.
pub proof fn law_record_on_its_own_line(program_id: Seq<char>, r: QsoRecordView)
    ensures
        logged_text(program_id, false, r) == r.line().push('\n'),
        logged_text(program_id, true, r) == header_text(program_id) + logged_text(program_id, false, r),
{
    reveal_strlit("\n");
    assert(logged_text(program_id, false, r) =~= r.line().push('\n'));
    assert(logged_text(program_id, true, r) =~= header_text(program_id) + logged_text(program_id, false, r));
}

} // verus!
