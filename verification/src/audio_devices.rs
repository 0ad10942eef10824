//! Names of sound devices: how they are shown, and which device a shown name
//! means.
use vstd::prelude::*;
use vstd::string::*;

use crate::rigctld::{lex_le, not_after};
use crate::text::{
    all_digits, chars_of, contains, decimal, occurs, occurs_at, push_decimal, same, text_of, texts, trim, trimmed,
};

verus! {

/// A device and what it can do.
#[derive(Debug)]
pub struct DeviceCaps {
    pub name: String,
    pub has_in: bool,
    pub has_out: bool,
}

/// The mathematical content of [`DeviceCaps`].
#[verifier::ext_equal]
pub struct CapsView {
    pub name: Seq<char>,
    pub has_in: bool,
    pub has_out: bool,
}

impl View for DeviceCaps {
    type V = CapsView;

    open spec fn view(&self) -> CapsView {
        CapsView { name: self.name@, has_in: self.has_in, has_out: self.has_out }
    }
}

/// What a list of devices holds.
pub open spec fn caps(v: Seq<DeviceCaps>) -> Seq<CapsView> {
    v.map_values(|d: DeviceCaps| d@)
}

/// A list with one more device, behind all whose name does not come after its.
pub open spec fn placed(s: Seq<CapsView>, d: CapsView) -> Seq<CapsView>
    decreases s.len(),
{
    if s.len() == 0 {
        seq![d]
    } else if lex_le(s.last().name, d.name) {
        s.push(d)
    } else {
        placed(s.drop_last(), d).push(s.last())
    }
}

/// The devices sorted by name; those of one name stay in their order.
pub open spec fn by_name(s: Seq<CapsView>) -> Seq<CapsView>
    decreases s.len(),
{
    if s.len() == 0 {
        seq![]
    } else {
        placed(by_name(s.drop_last()), s.last())
    }
}

/// Number of devices of that name.
pub open spec fn count_named(s: Seq<CapsView>, name: Seq<char>) -> nat
    decreases s.len(),
{
    if s.len() == 0 {
        0
    } else if s.last().name == name {
        count_named(s.drop_last(), name) + 1
    } else {
        count_named(s.drop_last(), name)
    }
}

/// One of the devices of that name can record.
pub open spec fn named_in(s: Seq<CapsView>, name: Seq<char>) -> bool {
    exists|k: int| 0 <= k < s.len() && (#[trigger] s[k]).name == name && s[k].has_in
}

/// One of the devices of that name can play.
pub open spec fn named_out(s: Seq<CapsView>, name: Seq<char>) -> bool {
    exists|k: int| 0 <= k < s.len() && (#[trigger] s[k]).name == name && s[k].has_out
}

/// What tells a device from others of its name: what it can do, or, where it
/// seems to do nothing, what only its namesakes cannot, or its number.
pub open spec fn label(s: Seq<CapsView>, i: int) -> Seq<char> {
    let d = s[i];
    if d.has_in && d.has_out {
        "RX/TX"@
    } else if d.has_in {
        "RX"@
    } else if d.has_out {
        "TX"@
    } else if named_in(s, d.name) && !named_out(s, d.name) {
        "TX"@
    } else if named_out(s, d.name) && !named_in(s, d.name) {
        "RX"@
    } else {
        decimal(count_named(s.take(i + 1), d.name))
    }
}

/// The name that a device is shown by: its own, with a label where others bear it
/// too.
pub open spec fn shown(s: Seq<CapsView>, i: int) -> Seq<char> {
    if count_named(s, s[i].name) > 1 {
        labelled(s[i].name, label(s, i))
    } else {
        s[i].name
    }
}

/// A name with a label.
pub open spec fn labelled(name: Seq<char>, label: Seq<char>) -> Seq<char> {
    name + " ("@ + label + ")"@
}

/// The names that devices are shown by, sorted by their own names.
pub open spec fn shown_names(s: Seq<CapsView>) -> Seq<Seq<char>> {
    let sorted = by_name(s);
    Seq::new(sorted.len(), |i: int| shown(sorted, i))
}

fn place(list: &mut Vec<DeviceCaps>, d: DeviceCaps)
    ensures
        caps(final(list)@) == placed(caps(old(list)@), d@),
{
    let ghost all = caps(list@);
    let mut k: usize = list.len();
    assert(all.take(k as int) =~= all);
    assert(placed(all, d@) =~= placed(all.take(k as int), d@) + all.skip(k as int));
    while k > 0 && !not_after(list[k - 1].name.as_str(), d.name.as_str())
        invariant
            k <= list@.len(),
            all == caps(list@),
            placed(all, d@) == placed(all.take(k as int), d@) + all.skip(k as int),
        decreases k,
    {
        proof {
            let s = all.take(k as int);
            assert(s.last() == list@[k - 1]@);
            assert(s.drop_last() =~= all.take(k - 1));
            assert(placed(all.take(k - 1), d@).push(s.last()) + all.skip(k as int) =~= placed(
                all.take(k - 1),
                d@,
            ) + all.skip(k - 1));
        }
        k = k - 1;
    }
    proof {
        let s = all.take(k as int);
        if k > 0 {
            assert(s.last() == list@[k - 1]@);
        }
        assert(placed(s, d@) =~= s.push(d@));
    }
    let ghost v = d@;
    list.insert(k, d);
    assert(caps(list@) =~= all.take(k as int).push(v) + all.skip(k as int));
}

/// Sorts devices by name.
fn sort_devices(devices: Vec<DeviceCaps>) -> (r: Vec<DeviceCaps>)
    ensures
        caps(r@) == by_name(caps(devices@)),
{
    let ghost all = caps(devices@);
    let n: usize = devices.len();
    let mut rest = devices;
    let mut out: Vec<DeviceCaps> = Vec::new();
    let mut i: usize = 0;
    assert(all.take(0) =~= Seq::<CapsView>::empty());
    assert(caps(out@) =~= by_name(all.take(0)));
    assert(caps(rest@) =~= all.skip(0));
    while i < n
        invariant
            i <= n == all.len(),
            caps(rest@) == all.skip(i as int),
            caps(out@) == by_name(all.take(i as int)),
        decreases n - i,
    {
        assert(rest@.len() == caps(rest@).len());
        assert(rest@[0]@ == caps(rest@)[0]);
        let ghost before = caps(rest@);
        let d = rest.remove(0);
        assert(caps(rest@) =~= before.drop_first());
        assert(before.drop_first() =~= all.skip(i + 1));
        assert(all.take(i + 1).drop_last() =~= all.take(i as int));
        assert(all.take(i + 1).last() == d@);
        place(&mut out, d);
        i = i + 1;
    }
    assert(all.take(i as int) =~= all);
    out
}

/// Counts the devices of a name among the first `n`.
fn count_among(devices: &Vec<DeviceCaps>, n: usize, name: &str) -> (r: usize)
    requires
        n <= devices@.len(),
    ensures
        r == count_named(caps(devices@).take(n as int), name@),
        r <= n,
{
    let ghost all = caps(devices@);
    let mut c: usize = 0;
    let mut i: usize = 0;
    assert(all.take(0) =~= Seq::<CapsView>::empty());
    while i < n
        invariant
            i <= n <= devices@.len(),
            all == caps(devices@),
            c == count_named(all.take(i as int), name@),
            c <= i,
        decreases n - i,
    {
        assert(all.take(i + 1).drop_last() =~= all.take(i as int));
        assert(all.take(i + 1).last() == devices@[i as int]@);
        if same(devices[i].name.as_str(), name) {
            c = c + 1;
        }
        i = i + 1;
    }
    c
}

/// Whether a device of that name can record, and whether one can play.
fn namesakes(devices: &Vec<DeviceCaps>, name: &str) -> (r: (bool, bool))
    ensures
        r.0 == named_in(caps(devices@), name@),
        r.1 == named_out(caps(devices@), name@),
{
    let ghost all = caps(devices@);
    let mut has_in = false;
    let mut has_out = false;
    let mut i: usize = 0;
    while i < devices.len()
        invariant
            i <= devices@.len(),
            all == caps(devices@),
            has_in == exists|k: int| 0 <= k < i && (#[trigger] all[k]).name == name@ && all[k].has_in,
            has_out == exists|k: int| 0 <= k < i && (#[trigger] all[k]).name == name@ && all[k].has_out,
        decreases devices.len() - i,
    {
        assert(all[i as int] == devices@[i as int]@);
        if same(devices[i].name.as_str(), name) {
            has_in = has_in || devices[i].has_in;
            has_out = has_out || devices[i].has_out;
        }
        i = i + 1;
    }
    (has_in, has_out)
}

fn label_of(devices: &Vec<DeviceCaps>, i: usize) -> (r: String)
    requires
        i < devices@.len(),
    ensures
        r@ == label(caps(devices@), i as int),
{
    let d = &devices[i];
    assert(caps(devices@)[i as int] == d@);
    if d.has_in && d.has_out {
        return "RX/TX".to_owned();
    }
    if d.has_in {
        return "RX".to_owned();
    }
    if d.has_out {
        return "TX".to_owned();
    }
    let (rx, tx) = namesakes(devices, d.name.as_str());
    if rx && !tx {
        return "TX".to_owned();
    }
    if tx && !rx {
        return "RX".to_owned();
    }
    let mut s = String::new();
    assert(devices.len() == devices@.len());
    push_decimal(&mut s, count_among(devices, i + 1, d.name.as_str()) as u64);
    assert(s@ =~= label(caps(devices@), i as int));
    s
}

/// The names that devices are shown by. Devices that share a name are told apart
/// by `(RX)`, `(TX)`, `(RX/TX)` or a number.
pub fn enumerate_displays(devices: Vec<DeviceCaps>) -> (r: Vec<String>)
    ensures
        texts(r@) == shown_names(caps(devices@)),
{
    let ghost input = caps(devices@);
    let sorted = sort_devices(devices);
    let ghost s = caps(sorted@);
    let mut out: Vec<String> = Vec::new();
    let mut i: usize = 0;
    assert(texts(out@) =~= shown_names(input).take(0));
    while i < sorted.len()
        invariant
            i <= sorted@.len(),
            s == caps(sorted@),
            s == by_name(input),
            texts(out@) == shown_names(input).take(i as int),
        decreases sorted.len() - i,
    {
        assert(s[i as int] == sorted@[i as int]@);
        assert(s.take(s.len() as int) =~= s);
        let mut name = sorted[i].name.clone();
        if count_among(&sorted, sorted.len(), sorted[i].name.as_str()) > 1 {
            let l = label_of(&sorted, i);
            name.append(" (");
            name.append(l.as_str());
            name.append(")");
        }
        let ghost v = name@;
        assert(v == shown(s, i as int));
        let ghost done = texts(out@);
        out.push(name);
        assert(texts(out@) =~= done.push(v));
        assert(shown_names(input).take(i + 1) =~= shown_names(input).take(i as int).push(v));
        i = i + 1;
    }
    assert(shown_names(input).take(i as int) =~= shown_names(input));
    out
}

/// The names to choose an input from.
pub fn list_input_displays(devices: Vec<DeviceCaps>) -> (r: Vec<String>)
    ensures
        texts(r@) == shown_names(caps(devices@)),
{
    enumerate_displays(devices)
}

/// The names to choose an output from: the same as for an input.
pub fn list_output_displays(devices: Vec<DeviceCaps>) -> (r: Vec<String>)
    ensures
        texts(r@) == shown_names(caps(devices@)),
{
    enumerate_displays(devices)
}

/// The last position at which a space and an opening bracket stand.
pub open spec fn last_bracket(s: Seq<char>, to: int) -> Option<int>
    decreases to,
{
    if to <= 0 {
        None
    } else if occurs_at(s, " ("@, to - 1) {
        Some(to - 1)
    } else {
        last_bracket(s, to - 1)
    }
}

/// A label that the names shown can have.
pub open spec fn is_label(l: Seq<char>) -> bool {
    l == "RX"@ || l == "TX"@ || l == "RX/TX"@ || all_digits(l)
}

/// A name that is shown, taken apart into the device's own name and the label.
pub open spec fn unlabelled(display: Seq<char>) -> (Seq<char>, Seq<char>) {
    match last_bracket(display, display.len() as int) {
        Some(pos) => {
            let inner = trim(display.subrange(pos + 2, display.len() - 1));
            if display.last() == ')' && is_label(inner) {
                (display.subrange(0, pos), inner)
            } else {
                (display, Seq::empty())
            }
        },
        None => (display, Seq::empty()),
    }
}

fn digits_only(s: &str) -> (r: bool)
    ensures
        r == all_digits(s@),
{
    let x = chars_of(s);
    let mut i: usize = 0;
    while i < x.len()
        invariant
            i <= x@.len(),
            x@ == s@,
            forall|k: int| 0 <= k < i ==> '0' <= #[trigger] x@[k] <= '9',
        decreases x.len() - i,
    {
        if !('0' <= x[i] && x[i] <= '9') {
            return false;
        }
        i = i + 1;
    }
    true
}

/// Takes a name that is shown apart into the device's own name and the label. A
/// name without a label is taken whole, with an empty label.
pub fn parse_device_suffix(display_name: &str) -> (r: (String, String))
    ensures
        (r.0@, r.1@) == unlabelled(display_name@),
{
    let x = chars_of(display_name);
    let n: usize = x.len();
    let mut to: usize = n;
    proof {
        reveal_strlit(" (");
    }
    while to > 0
        invariant
            to <= n == x@.len(),
            x@ == display_name@,
            " ("@.len() == 2,
            " ("@[0] == ' ',
            " ("@[1] == '(',
            last_bracket(x@, n as int) == last_bracket(x@, to as int),
        decreases to,
    {
        let here = to < n && x[to - 1] == ' ' && x[to] == '(';
        proof {
            if here {
                assert(x@.subrange(to - 1, to + 1) =~= " ("@);
            } else if occurs_at(x@, " ("@, to - 1) {
                assert(x@.subrange(to - 1, to + 1)[0] == x@[to - 1]);
                assert(x@.subrange(to - 1, to + 1)[1] == x@[to as int]);
            }
        }
        if here {
            if x[n - 1] == ')' {
                let inner = text_of(&x, to + 1, n - 1);
                let l = trimmed(inner.as_str());
                if same(l, "RX") || same(l, "TX") || same(l, "RX/TX") || digits_only(l) {
                    return (text_of(&x, 0, to - 1), l.to_owned());
                }
            }
            return (display_name.to_owned(), String::new());
        }
        to = to - 1;
    }
    (display_name.to_owned(), String::new())
}

/// A recording device is meant by a shown name: its own name holds the shown one,
/// with or without its label.
pub open spec fn input_meant(name: Seq<char>, display: Seq<char>) -> bool {
    occurs(name, unlabelled(display).0) || occurs(name, display)
}

/// A playing device is meant by a shown name: its own name holds the shown one
/// without its label, or is held by it.
pub open spec fn output_meant(name: Seq<char>, display: Seq<char>) -> bool {
    occurs(name, unlabelled(display).0) || occurs(unlabelled(display).0, name)
}

/// The first recording device that a shown name means.
pub fn find_input_device(names: &Vec<String>, display_name: &str) -> (r: Option<usize>)
    ensures
        match r {
            Some(i) => i < names@.len() && input_meant(names@[i as int]@, display_name@) && forall|k: int|
                0 <= k < i ==> !input_meant((#[trigger] names@[k])@, display_name@),
            None => forall|k: int|
                0 <= k < names@.len() ==> !input_meant((#[trigger] names@[k])@, display_name@),
        },
{
    let (base, _) = parse_device_suffix(display_name);
    let mut i: usize = 0;
    while i < names.len()
        invariant
            i <= names@.len(),
            base@ == unlabelled(display_name@).0,
            forall|k: int| 0 <= k < i ==> !input_meant((#[trigger] names@[k])@, display_name@),
        decreases names.len() - i,
    {
        if contains(names[i].as_str(), base.as_str()) || contains(names[i].as_str(), display_name) {
            return Some(i);
        }
        i = i + 1;
    }
    None
}

/// The first playing device that a shown name means.
pub fn find_output_device(names: &Vec<String>, display_name: &str) -> (r: Option<usize>)
    ensures
        match r {
            Some(i) => i < names@.len() && output_meant(names@[i as int]@, display_name@) && forall|k: int|
                0 <= k < i ==> !output_meant((#[trigger] names@[k])@, display_name@),
            None => forall|k: int|
                0 <= k < names@.len() ==> !output_meant((#[trigger] names@[k])@, display_name@),
        },
{
    let (base, _) = parse_device_suffix(display_name);
    let mut i: usize = 0;
    while i < names.len()
        invariant
            i <= names@.len(),
            base@ == unlabelled(display_name@).0,
            forall|k: int| 0 <= k < i ==> !output_meant((#[trigger] names@[k])@, display_name@),
        decreases names.len() - i,
    {
        if contains(names[i].as_str(), base.as_str()) || contains(base.as_str(), names[i].as_str()) {
            return Some(i);
        }
        i = i + 1;
    }
    None
}

proof fn lemma_label_chars(l: Seq<char>)
    requires
        is_label(l),
    ensures
        trim(l) == l,
        forall|i: int| 0 <= i < l.len() ==> #[trigger] l[i] != '(',
{
    reveal_strlit("RX");
    reveal_strlit("TX");
    reveal_strlit("RX/TX");
    assert forall|i: int| 0 <= i < l.len() implies #[trigger] l[i] != '(' && !crate::text::is_white(l[i]) by {
        if l == "RX/TX"@ {
            assert(i == 0 || i == 1 || i == 2 || i == 3 || i == 4);
        } else if l == "RX"@ || l == "TX"@ {
            assert(i == 0 || i == 1);
        }
    }
    assert(crate::text::trim_start(l) == l);
    assert(crate::text::trim_end(l) == l);
}

proof fn lemma_last_bracket(s: Seq<char>, pos: int, to: int)
    requires
        occurs_at(s, " ("@, pos),
        pos < to,
        forall|k: int| pos < k < to ==> !occurs_at(s, " ("@, k),
    ensures
        last_bracket(s, to) == Some(pos),
    decreases to,
{
    if pos < to - 1 {
        lemma_last_bracket(s, pos, to - 1);
    }
}

/// Taking a labelled name apart gives the name and the label, whatever the name
/// is.
pub proof fn law_suffix_undoes_label(name: Seq<char>, l: Seq<char>)
    requires
        is_label(l),
    ensures
        unlabelled(labelled(name, l)) == (name, l),
{
    reveal_strlit(" (");
    reveal_strlit(")");
    lemma_label_chars(l);
    let s = labelled(name, l);
    let pos = name.len() as int;
    assert(s.subrange(pos, pos + 2) =~= " ("@);
    assert forall|k: int| pos < k < s.len() implies !occurs_at(s, " ("@, k) by {
        if occurs_at(s, " ("@, k) {
            assert(s.subrange(k, k + 2)[1] == s[k + 1]);
            assert(" ("@[1] == '(');
            if k + 1 < pos + 2 + l.len() {
                assert(s[k + 1] == l[k + 1 - pos - 2]);
            }
        }
    }
    lemma_last_bracket(s, pos, s.len() as int);
    assert(s.subrange(pos + 2, s.len() - 1) =~= l);
    assert(s.subrange(0, pos) =~= name);
}

/// A name that is shown leads back to the device's own name, for every device
/// that shares its name with another.
pub proof fn law_shown_name_leads_back(s: Seq<CapsView>, i: int)
    requires
        0 <= i < s.len(),
        count_named(s, s[i].name) > 1,
    ensures
        unlabelled(shown(s, i)).0 == s[i].name,
{
    crate::text::lemma_decimal_value(count_named(s.take(i + 1), s[i].name));
    law_suffix_undoes_label(s[i].name, label(s, i));
}

/// Sorting loses and adds no device.
pub proof fn law_all_devices_shown(s: Seq<CapsView>)
    ensures
        shown_names(s).len() == s.len(),
        by_name(s).to_multiset() == s.to_multiset(),
    decreases s.len(),
{
    broadcast use vstd::seq_lib::group_to_multiset_ensures;

    if s.len() > 0 {
        law_all_devices_shown(s.drop_last());
        lemma_placed(by_name(s.drop_last()), s.last());
        assert(s.drop_last().push(s.last()) =~= s);
    } else {
        assert(by_name(s) =~= s);
    }
}

proof fn lemma_placed(s: Seq<CapsView>, d: CapsView)
    ensures
        placed(s, d).len() == s.len() + 1,
        placed(s, d).to_multiset() == s.to_multiset().insert(d),
    decreases s.len(),
{
    broadcast use vstd::seq_lib::group_to_multiset_ensures;

    if s.len() == 0 {
        assert(placed(s, d) =~= s.push(d));
    } else if !lex_le(s.last().name, d.name) {
        lemma_placed(s.drop_last(), d);
        assert(s.drop_last().push(s.last()) =~= s);
        assert(s.drop_last().to_multiset().insert(d).insert(s.last()) =~= s.drop_last().to_multiset().insert(
            s.last(),
        ).insert(d));
    }
}

/// Neighbours stand in the order of their names.
pub open spec fn in_name_order(s: Seq<CapsView>) -> bool {
    forall|i: int| 0 <= i < s.len() - 1 ==> lex_le((#[trigger] s[i]).name, s[i + 1].name)
}

proof fn lemma_placed_order(s: Seq<CapsView>, d: CapsView)
    requires
        in_name_order(s),
    ensures
        in_name_order(placed(s, d)),
        placed(s, d).len() == s.len() + 1,
        placed(s, d).last() == d || (s.len() > 0 && placed(s, d).last() == s.last()),
    decreases s.len(),
{
    if s.len() > 0 && !lex_le(s.last().name, d.name) {
        let t = s.drop_last();
        assert forall|i: int| 0 <= i < t.len() - 1 implies lex_le((#[trigger] t[i]).name, t[i + 1].name) by {
            assert(lex_le(s[i].name, s[i + 1].name));
        }
        lemma_placed_order(t, d);
        crate::rigctld::lemma_lex_total(s.last().name, d.name);
        let u = placed(t, d);
        if t.len() > 0 {
            assert(lex_le(s[s.len() - 2].name, s[s.len() - 1].name));
        }
        let v = u.push(s.last());
        assert forall|i: int| 0 <= i < v.len() - 1 implies lex_le((#[trigger] v[i]).name, v[i + 1].name) by {
            if i < u.len() - 1 {
                assert(lex_le(u[i].name, u[i + 1].name));
            }
        }
    } else if s.len() > 0 {
        let v = s.push(d);
        assert forall|i: int| 0 <= i < v.len() - 1 implies lex_le((#[trigger] v[i]).name, v[i + 1].name) by {
            if i < s.len() - 1 {
                assert(lex_le(s[i].name, s[i + 1].name));
            }
        }
    }
}

proof fn lemma_placed_behind(s: Seq<CapsView>, d: CapsView, name: Seq<char>)
    ensures
        placed(s, d).filter(|c: CapsView| c.name == name) == s.push(d).filter(|c: CapsView| c.name == name),
    decreases s.len(),
{
    reveal(Seq::filter);
    let p = |c: CapsView| c.name == name;
    assert(s.push(d).drop_last() =~= s);
    if s.len() == 0 {
        assert(placed(s, d) =~= s.push(d));
    } else if !lex_le(s.last().name, d.name) {
        let t = s.drop_last();
        lemma_placed_behind(t, d, name);
        assert(t.push(d).drop_last() =~= t);
        let u = placed(t, d);
        assert(u.push(s.last()).drop_last() =~= u);
        let kept = t.filter(p);
        assert(s.filter(p) == if p(s.last()) {
            kept.push(s.last())
        } else {
            kept
        });
        assert(t.push(d).filter(p) == if p(d) {
            kept.push(d)
        } else {
            kept
        });
        assert(s.push(d).filter(p) == if p(d) {
            s.filter(p).push(d)
        } else {
            s.filter(p)
        });
        assert(s.last().name != d.name) by {
            crate::rigctld::lemma_lex_total(d.name, d.name);
        }
    }
}

/// The devices are shown in the order of their names, and those that share a name
/// in the order in which the system tells of them.
pub proof fn law_devices_in_order(s: Seq<CapsView>, name: Seq<char>)
    ensures
        in_name_order(by_name(s)),
        by_name(s).filter(|c: CapsView| c.name == name) == s.filter(|c: CapsView| c.name == name),
    decreases s.len(),
{
    reveal(Seq::filter);
    if s.len() > 0 {
        let t = s.drop_last();
        law_devices_in_order(t, name);
        lemma_placed_order(by_name(t), s.last());
        lemma_placed_behind(by_name(t), s.last(), name);
        let u = by_name(t).push(s.last());
        assert(u.drop_last() =~= by_name(t));
    }
}

/// A label says what a device does: it records, it plays, or both. A device that
/// seems to do neither takes the part that its namesakes leave, and its place among
/// them where they leave both or none.
pub proof fn law_label_says_what_it_does(s: Seq<CapsView>, i: int)
    requires
        0 <= i < s.len(),
    ensures
        ({
            let d = s[i];
            let others_record = exists|k: int| 0 <= k < s.len() && (#[trigger] s[k]).name == d.name && s[k].has_in;
            let others_play = exists|k: int| 0 <= k < s.len() && (#[trigger] s[k]).name == d.name && s[k].has_out;
            let silent = !d.has_in && !d.has_out;
            &&& d.has_in && d.has_out ==> label(s, i) == seq!['R', 'X', '/', 'T', 'X']
            &&& d.has_in && !d.has_out ==> label(s, i) == seq!['R', 'X']
            &&& !d.has_in && d.has_out ==> label(s, i) == seq!['T', 'X']
            &&& silent && others_record && !others_play ==> label(s, i) == seq!['T', 'X']
            &&& silent && !others_record && others_play ==> label(s, i) == seq!['R', 'X']
            &&& silent && others_record == others_play ==> all_digits(label(s, i)) && crate::text::digits_value(
                label(s, i),
            ) == s.take(i + 1).filter(|c: CapsView| c.name == d.name).len()
        }),
{
    reveal_strlit("RX");
    reveal_strlit("TX");
    reveal_strlit("RX/TX");
    assert("RX"@ =~= seq!['R', 'X']);
    assert("TX"@ =~= seq!['T', 'X']);
    assert("RX/TX"@ =~= seq!['R', 'X', '/', 'T', 'X']);
    let n = count_named(s.take(i + 1), s[i].name);
    lemma_count_filter(s.take(i + 1), s[i].name);
    crate::text::lemma_decimal_value(n);
}

proof fn lemma_count_filter(s: Seq<CapsView>, name: Seq<char>)
    ensures
        count_named(s, name) == s.filter(|c: CapsView| c.name == name).len(),
    decreases s.len(),
{
    reveal(Seq::filter);
    if s.len() > 0 {
        lemma_count_filter(s.drop_last(), name);
    }
}

/// A device is shown with a label exactly where another bears its name, and the name
/// it is shown by means it, for recording and for playing.
pub proof fn law_shown_name_means_device(s: Seq<CapsView>, i: int)
    requires
        0 <= i < s.len(),
        s.filter(|c: CapsView| c.name == s[i].name).len() > 1,
    ensures
        shown(s, i) == s[i].name + seq![' ', '('] + label(s, i) + seq![')'],
        input_meant(s[i].name, shown(s, i)),
        output_meant(s[i].name, shown(s, i)),
{
    reveal_strlit(" (");
    reveal_strlit(")");
    assert(" ("@ =~= seq![' ', '(']);
    assert(")"@ =~= seq![')']);
    lemma_count_filter(s, s[i].name);
    law_shown_name_leads_back(s, i);
    let n = s[i].name;
    assert(n.subrange(0, n.len() as int) =~= n);
    assert(occurs_at(n, n, 0));
}

/// A device whose name no other bears is shown by it.
pub proof fn law_single_name_is_shown(s: Seq<CapsView>, i: int)
    requires
        0 <= i < s.len(),
        s.filter(|c: CapsView| c.name == s[i].name).len() <= 1,
    ensures
        shown(s, i) == s[i].name,
{
    lemma_count_filter(s, s[i].name);
}

/// A name without a bracket behind a space has no label and is taken whole.
pub proof fn law_no_label_to_take(display: Seq<char>)
    requires
        !occurs(display, seq![' ', '(']),
    ensures
        unlabelled(display) == (display, Seq::<char>::empty()),
{
    reveal_strlit(" (");
    assert(" ("@ =~= seq![' ', '(']);
    lemma_no_bracket(display, display.len() as int);
}

proof fn lemma_no_bracket(s: Seq<char>, to: int)
    requires
        !occurs(s, " ("@),
    ensures
        last_bracket(s, to) is None,
    decreases to,
{
    if to > 0 {
        assert(!occurs_at(s, " ("@, to - 1));
        lemma_no_bracket(s, to - 1);
    }
}

/// What stands in brackets at the end is a label only where it is RX, TX, RX/TX or a
/// number; otherwise it belongs to the name.
pub proof fn law_other_brackets_stay(name: Seq<char>, inner: Seq<char>)
    requires
        trim(inner) != seq!['R', 'X'] && trim(inner) != seq!['T', 'X'] && trim(inner) != seq!['R', 'X', '/', 'T', 'X'],
        !all_digits(trim(inner)),
        !occurs(inner + seq![')'], seq![' ', '(']),
    ensures
        ({
            let display = name + seq![' ', '('] + inner + seq![')'];
            unlabelled(display) == (display, Seq::<char>::empty())
        }),
{
    reveal_strlit(" (");
    reveal_strlit("RX");
    reveal_strlit("TX");
    reveal_strlit("RX/TX");
    assert(" ("@ =~= seq![' ', '(']);
    assert("RX"@ =~= seq!['R', 'X']);
    assert("TX"@ =~= seq!['T', 'X']);
    assert("RX/TX"@ =~= seq!['R', 'X', '/', 'T', 'X']);
    let end = inner + seq![')'];
    let s = name + seq![' ', '('] + inner + seq![')'];
    let pos = name.len() as int;
    assert(s.subrange(pos, pos + 2) =~= seq![' ', '(']);
    assert(occurs_at(s, " ("@, pos));
    assert forall|k: int| pos < k < s.len() implies !occurs_at(s, " ("@, k) by {
        if occurs_at(s, " ("@, k) {
            let p = s.subrange(k, k + 2);
            assert(p[0] == s[k] && p[1] == s[k + 1]);
            if k == pos + 1 {
                assert(s[k] == '(');
            } else {
                let j = k - pos - 2;
                assert(end.subrange(j, j + 2) =~= p);
                assert(occurs_at(end, seq![' ', '('], j));
            }
        }
    }
    lemma_last_bracket(s, pos, s.len() as int);
    assert(s.subrange(pos + 2, s.len() - 1) =~= inner);
}

/// Which device a name means: a recording one whose name holds the name shown, with
/// its label or without; a playing one whose name holds it without its label, or that
/// it holds.
pub proof fn law_which_device_is_meant(name: Seq<char>, display: Seq<char>)
    ensures
        ({
            let own = unlabelled(display).0;
            &&& occurs(name, own) ==> input_meant(name, display) && output_meant(name, display)
            &&& occurs(name, display) ==> input_meant(name, display)
            &&& occurs(own, name) ==> output_meant(name, display)
            &&& input_meant(name, display) ==> occurs(name, own) || occurs(name, display)
            &&& output_meant(name, display) ==> occurs(name, own) || occurs(own, name)
        }),
{
}

} // verus!
