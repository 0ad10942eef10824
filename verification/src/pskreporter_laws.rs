//! What a collector reads out of the packets, when it takes them apart by the
//! templates that they carry.
use vstd::prelude::*;

use crate::bytes::{
    be16, be32, be40, law_be16_read_back, law_be32_read_back, law_bytes_read_back, number_be,
};
use crate::pskreporter::{
    enterprise_field, packet, packet_body, padding, receiver_record, receiver_template, sender_records,
    sender_template, set_block, signed_byte, spot_record, spot_records, varlen, ReceiverView, SpotView,
};

verus! {

/// An information element as a template declares it: whose it is (zero where it is
/// not an enterprise's), its number, and its length, 65535 where every value tells
/// its own.
pub ghost struct Element {
    pub enterprise: nat,
    pub id: nat,
    pub len: nat,
}

/// A template: its number and its elements, in the order in which a record has them.
#[verifier::ext_equal]
pub ghost struct Template {
    /// It is an options template.
    pub options: bool,
    pub id: nat,
    pub elements: Seq<Element>,
}

/// The values of one record by enterprise and element.
pub type Values = Map<(nat, nat), Seq<u8>>;

/// Reads two bytes; what is behind them follows.
pub open spec fn read16(b: Seq<u8>) -> (nat, Seq<u8>) {
    (number_be(b.subrange(0, 2)), b.subrange(2, b.len() as int))
}

/// Reads four bytes; what is behind them follows.
pub open spec fn read32(b: Seq<u8>) -> (nat, Seq<u8>) {
    (number_be(b.subrange(0, 4)), b.subrange(4, b.len() as int))
}

/// Reads one element of a template: the highest bit of its number says that the
/// number of an enterprise stands behind its length.
pub open spec fn read_element(b: Seq<u8>) -> (Element, Seq<u8>) {
    let (id, b) = read16(b);
    let (len, b) = read16(b);
    if id >= 0x8000 {
        let (enterprise, b) = read32(b);
        (Element { enterprise, id: (id - 0x8000) as nat, len }, b)
    } else {
        (Element { enterprise: 0, id, len }, b)
    }
}

/// Reads `n` elements of a template.
pub open spec fn read_elements(b: Seq<u8>, n: nat) -> (Seq<Element>, Seq<u8>)
    decreases n,
{
    if n == 0 {
        (Seq::empty(), b)
    } else {
        let (e, b) = read_element(b);
        let (more, b) = read_elements(b, (n - 1) as nat);
        (seq![e] + more, b)
    }
}

/// Reads a set: its number, what it holds with the zeros that fill it up, and what
/// is behind it.
pub open spec fn read_set(b: Seq<u8>) -> (nat, Seq<u8>, Seq<u8>) {
    let id = number_be(b.subrange(0, 2));
    let len = number_be(b.subrange(2, 4)) as int;
    (id, b.subrange(4, len), b.subrange(len, b.len() as int))
}

/// Reads a template out of a set of templates: set 3 holds options templates, which
/// tell the number of their scope fields too.
pub open spec fn read_template(b: Seq<u8>) -> (Template, Seq<u8>) {
    let (set, content, rest) = read_set(b);
    let (id, content) = read16(content);
    let (n, content) = read16(content);
    let content = if set == 3 {
        read16(content).1
    } else {
        content
    };
    (Template { options: set == 3, id, elements: read_elements(content, n).0 }, rest)
}

/// Reads one value: as many bytes as the template says, or as the byte in front says.
pub open spec fn read_value(len: nat, b: Seq<u8>) -> (Seq<u8>, Seq<u8>) {
    let (from, n) = if len == 0xFFFF {
        (1int, b[0] as int)
    } else {
        (0int, len as int)
    };
    (b.subrange(from, from + n), b.subrange(from + n, b.len() as int))
}

/// Reads one record.
pub open spec fn read_record(elements: Seq<Element>, b: Seq<u8>) -> (Values, Seq<u8>)
    decreases elements.len(),
{
    if elements.len() == 0 {
        (Map::empty(), b)
    } else {
        let (v, b) = read_value(elements[0].len, b);
        let (more, b) = read_record(elements.drop_first(), b);
        (more.insert((elements[0].enterprise, elements[0].id), v), b)
    }
}

/// Reads records until fewer than four bytes are left, which fill up the set.
pub open spec fn read_records(elements: Seq<Element>, b: Seq<u8>) -> Seq<Values>
    decreases b.len(),
{
    let (first, rest) = read_record(elements, b);
    if b.len() < 4 || rest.len() >= b.len() {
        Seq::empty()
    } else {
        seq![first] + read_records(elements, rest)
    }
}

/// What a packet says of the receiver and of the stations heard.
#[verifier::ext_equal]
pub ghost struct Told {
    pub receiver: Seq<Values>,
    pub heard: Seq<Values>,
}

/// Reads the set that is behind the templates and the one behind that, if there is
/// one; a set bears the number of its template.
pub open spec fn read_data(b: Seq<u8>, t: Template, u: Template) -> Option<Told> {
    let (id, content, rest) = read_set(b);
    if id != t.id {
        None
    } else if rest.len() == 0 {
        Some(Told { receiver: read_records(t.elements, content), heard: Seq::empty() })
    } else {
        let (second, heard, end) = read_set(rest);
        if second != u.id || end.len() != 0 {
            None
        } else {
            Some(
                Told {
                    receiver: read_records(t.elements, content),
                    heard: read_records(u.elements, heard),
                },
            )
        }
    }
}

/// The bytes of a text that a packet has room for: the first 254 of its UTF-8.
pub open spec fn sent_text(s: Seq<char>) -> Seq<u8> {
    let b = vstd::utf8::encode_utf8(s);
    if b.len() <= 254 {
        b
    } else {
        b.subrange(0, 254)
    }
}

/// The values tell the receiver: of the enterprise 30351, element 2 is the
/// callsign, 4 the locator, 8 the program, 9 the antenna and 13 the radio.
pub open spec fn tells_receiver(v: Values, info: ReceiverView) -> bool {
    &&& v.dom() == set![(30351nat, 2nat), (30351nat, 4nat), (30351nat, 8nat), (30351nat, 9nat), (30351nat, 13nat)]
    &&& v[(30351, 2)] == sent_text(info.rx_call)
    &&& v[(30351, 4)] == sent_text(info.rx_grid)
    &&& v[(30351, 8)] == sent_text(info.program_id)
    &&& v[(30351, 9)] == sent_text(info.antenna)
    &&& v[(30351, 13)] == sent_text(info.rig_info)
}

/// The values tell a station heard: of the enterprise 30351, element 1 is the
/// callsign, 3 the locator, empty where it is not known, 5 the frequency as far as
/// five bytes reach, 6 the signal-to-noise ratio in two's complement, 10 the mode and
/// 11 that the report is automatic; the standard element 150 is the time in seconds.
pub open spec fn tells_spot(v: Values, s: SpotView) -> bool {
    &&& v.dom() == set![
        (30351nat, 1nat),
        (30351nat, 3nat),
        (30351nat, 5nat),
        (30351nat, 6nat),
        (30351nat, 10nat),
        (30351nat, 11nat),
        (0nat, 150nat),
    ]
    &&& v[(30351, 1)] == sent_text(s.heard_call)
    &&& v[(30351, 3)] == match s.heard_grid {
        Some(g) => sent_text(g),
        None => Seq::empty(),
    }
    &&& v[(30351, 5)].len() == 5 && number_be(v[(30351, 5)]) == s.freq_hz as nat % 0x100_0000_0000
    &&& v[(30351, 6)].len() == 1 && (v[(30351, 6)][0] < 128 ==> s.snr_db == v[(30351, 6)][0]) && (v[(
        30351,
        6,
    )][0] >= 128 ==> s.snr_db == v[(30351, 6)][0] - 256)
    &&& v[(30351, 10)] == sent_text(s.mode)
    &&& v[(30351, 11)] == seq![1u8]
    &&& v[(0, 150)].len() == 4 && number_be(v[(0, 150)]) == s.utc_secs
}

/// What the template of receiver records declares.
pub open spec fn receiver_elements() -> Seq<Element> {
    seq![
        Element { enterprise: 30351, id: 2, len: 0xFFFF },
        Element { enterprise: 30351, id: 4, len: 0xFFFF },
        Element { enterprise: 30351, id: 8, len: 0xFFFF },
        Element { enterprise: 30351, id: 9, len: 0xFFFF },
        Element { enterprise: 30351, id: 13, len: 0xFFFF },
    ]
}

/// What the template of sender records declares.
pub open spec fn sender_elements() -> Seq<Element> {
    seq![
        Element { enterprise: 30351, id: 1, len: 0xFFFF },
        Element { enterprise: 30351, id: 5, len: 5 },
        Element { enterprise: 30351, id: 6, len: 1 },
        Element { enterprise: 30351, id: 10, len: 0xFFFF },
        Element { enterprise: 30351, id: 3, len: 0xFFFF },
        Element { enterprise: 30351, id: 11, len: 1 },
        Element { enterprise: 0, id: 150, len: 4 },
    ]
}

proof fn lemma_assoc(a: Seq<u8>, b: Seq<u8>, c: Seq<u8>)
    ensures
        (a + b) + c == a + (b + c),
{
    assert((a + b) + c =~= a + (b + c));
}

proof fn lemma_split(a: Seq<u8>, b: Seq<u8>)
    ensures
        (a + b).subrange(0, a.len() as int) == a,
        (a + b).subrange(a.len() as int, (a + b).len() as int) == b,
{
    assert((a + b).subrange(0, a.len() as int) =~= a);
    assert((a + b).subrange(a.len() as int, (a + b).len() as int) =~= b);
}

proof fn lemma_read16(v: nat, rest: Seq<u8>)
    requires
        v < 0x1_0000,
    ensures
        read16(be16(v) + rest) == (v, rest),
{
    law_be16_read_back(v);
    lemma_split(be16(v), rest);
}

proof fn lemma_read32(v: nat, rest: Seq<u8>)
    requires
        v < 0x1_0000_0000,
    ensures
        read32(be32(v) + rest) == (v, rest),
{
    law_be32_read_back(v);
    lemma_split(be32(v), rest);
}

/// An element as a template writes it.
spec fn element_bytes(e: Element) -> Seq<u8> {
    if e.enterprise == 30351 {
        enterprise_field(e.id, e.len)
    } else {
        be16(e.id) + be16(e.len)
    }
}

spec fn elements_bytes(es: Seq<Element>) -> Seq<u8>
    decreases es.len(),
{
    if es.len() == 0 {
        Seq::empty()
    } else {
        element_bytes(es[0]) + elements_bytes(es.drop_first())
    }
}

spec fn element_ok(e: Element) -> bool {
    (e.enterprise == 30351 || e.enterprise == 0) && e.id < 0x8000 && e.len < 0x1_0000
}

proof fn lemma_read_element(e: Element, rest: Seq<u8>)
    requires
        element_ok(e),
    ensures
        read_element(element_bytes(e) + rest) == (e, rest),
{
    let (l, n) = (be16(e.len), be32(30351));
    if e.enterprise == 30351 {
        let i = be16(e.id + 0x8000);
        lemma_assoc(i + l, n, rest);
        lemma_assoc(i, l, n + rest);
        lemma_read16(e.id + 0x8000, l + (n + rest));
        lemma_read16(e.len, n + rest);
        lemma_read32(30351, rest);
    } else {
        lemma_assoc(be16(e.id), l, rest);
        lemma_read16(e.id, l + rest);
        lemma_read16(e.len, rest);
    }
}

proof fn lemma_read_elements(es: Seq<Element>, rest: Seq<u8>)
    requires
        forall|i: int| 0 <= i < es.len() ==> element_ok(#[trigger] es[i]),
    ensures
        read_elements(elements_bytes(es) + rest, es.len()) == (es, rest),
    decreases es.len(),
{
    if es.len() == 0 {
        assert(elements_bytes(es) + rest =~= rest);
        assert(es =~= Seq::<Element>::empty());
    } else {
        let tail = es.drop_first();
        assert forall|i: int| 0 <= i < tail.len() implies element_ok(#[trigger] tail[i]) by {
            assert(element_ok(es[i + 1]));
        }
        lemma_read_elements(tail, rest);
        lemma_assoc(element_bytes(es[0]), elements_bytes(tail), rest);
        lemma_read_element(es[0], elements_bytes(tail) + rest);
        assert(seq![es[0]] + tail =~= es);
    }
}

/// The zeros that fill up a set.
spec fn filling(body: Seq<u8>) -> Seq<u8> {
    Seq::new(padding(body.len()), |i: int| 0u8)
}

proof fn lemma_read_set(id: nat, body: Seq<u8>, rest: Seq<u8>)
    requires
        id < 0x1_0000,
        4 + body.len() + padding(body.len()) < 0x1_0000,
    ensures
        read_set(set_block(id, body) + rest) == (id, body + filling(body), rest),
        set_block(id, body).len() == 4 + body.len() + padding(body.len()),
{
    let n = 4 + body.len() + padding(body.len());
    let (p, q, z) = (be16(id), be16(n), filling(body));
    law_be16_read_back(id);
    law_be16_read_back(n);
    let s = set_block(id, body);
    assert(s == p + q + body + z);
    let b = s + rest;
    assert(b.subrange(0, 2) =~= p);
    assert(b.subrange(2, 4) =~= q);
    assert(b.subrange(4, n as int) =~= body + z);
    assert(b.subrange(n as int, b.len() as int) =~= rest);
}

proof fn lemma_receiver_bytes()
    ensures
        receiver_template() == set_block(
            3,
            be16(0x50e2) + (be16(5) + (be16(0) + elements_bytes(receiver_elements()))),
        ),
        elements_bytes(receiver_elements()).len() == 40,
{
    reveal(receiver_template);
    let es = receiver_elements();
    let f = |i: int| element_bytes(es[i]);
    lemma_five(es);
    let h = be16(0x50e2) + be16(5) + be16(0);
    lemma_assoc(h + f(0) + f(1) + f(2), f(3), f(4));
    lemma_assoc(h + f(0) + f(1), f(2), f(3) + f(4));
    lemma_assoc(h + f(0), f(1), f(2) + (f(3) + f(4)));
    lemma_assoc(h, f(0), f(1) + (f(2) + (f(3) + f(4))));
    let e = elements_bytes(es);
    lemma_assoc(be16(0x50e2) + be16(5), be16(0), e);
    lemma_assoc(be16(0x50e2), be16(5), be16(0) + e);
}

proof fn lemma_five(es: Seq<Element>)
    requires
        es.len() == 5,
    ensures
        elements_bytes(es) == element_bytes(es[0]) + (element_bytes(es[1]) + (element_bytes(es[2]) + (
        element_bytes(es[3]) + element_bytes(es[4])))),
{
    reveal_with_fuel(elements_bytes, 6);
    let last = element_bytes(es[4]);
    assert(last + Seq::<u8>::empty() =~= last);
}

proof fn lemma_seven(es: Seq<Element>)
    requires
        es.len() == 7,
    ensures
        elements_bytes(es) == element_bytes(es[0]) + (element_bytes(es[1]) + (element_bytes(es[2]) + (
        element_bytes(es[3]) + (element_bytes(es[4]) + (element_bytes(es[5]) + element_bytes(es[6])))))),
{
    reveal_with_fuel(elements_bytes, 8);
    let last = element_bytes(es[6]);
    assert(last + Seq::<u8>::empty() =~= last);
}

proof fn lemma_sender_bytes()
    ensures
        sender_template() == set_block(2, be16(0x50e3) + (be16(7) + elements_bytes(sender_elements()))),
        elements_bytes(sender_elements()).len() == 52,
{
    reveal(sender_template);
    let es = sender_elements();
    let f = |i: int| element_bytes(es[i]);
    lemma_seven(es);
    let h = be16(0x50e3) + be16(7);
    let g = h + f(0) + f(1) + f(2) + f(3) + f(4) + f(5);
    lemma_assoc(g, be16(150), be16(4));
    assert(f(6) == be16(150) + be16(4));
    lemma_assoc(h + f(0) + f(1) + f(2) + f(3) + f(4), f(5), f(6));
    lemma_assoc(h + f(0) + f(1) + f(2) + f(3), f(4), f(5) + f(6));
    lemma_assoc(h + f(0) + f(1) + f(2), f(3), f(4) + (f(5) + f(6)));
    lemma_assoc(h + f(0) + f(1), f(2), f(3) + (f(4) + (f(5) + f(6))));
    lemma_assoc(h + f(0), f(1), f(2) + (f(3) + (f(4) + (f(5) + f(6)))));
    lemma_assoc(h, f(0), f(1) + (f(2) + (f(3) + (f(4) + (f(5) + f(6))))));
    lemma_assoc(be16(0x50e3), be16(7), elements_bytes(es));
}

/// The first template of a packet declares receiver records as records of options
/// with the callsign, the locator, the program, the antenna and the radio.
pub proof fn law_receiver_template(rest: Seq<u8>)
    ensures
        read_template(receiver_template() + rest) == (
            Template { options: true, id: 0x50e2, elements: receiver_elements() },
            rest,
        ),
{
    let e = elements_bytes(receiver_elements());
    lemma_receiver_bytes();
    let body = be16(0x50e2) + (be16(5) + (be16(0) + e));
    let z = filling(body);
    lemma_read_set(3, body, rest);
    lemma_assoc(be16(0x50e2), be16(5) + (be16(0) + e), z);
    lemma_assoc(be16(5), be16(0) + e, z);
    lemma_assoc(be16(0), e, z);
    lemma_read16(0x50e2, be16(5) + (be16(0) + (e + z)));
    lemma_read16(5, be16(0) + (e + z));
    lemma_read16(0, e + z);
    lemma_read_elements(receiver_elements(), z);
}

/// The second template of a packet declares sender records with the callsign, the
/// frequency, the signal-to-noise ratio, the mode, the locator, the source and the time.
pub proof fn law_sender_template(rest: Seq<u8>)
    ensures
        read_template(sender_template() + rest) == (
            Template { options: false, id: 0x50e3, elements: sender_elements() },
            rest,
        ),
{
    let e = elements_bytes(sender_elements());
    lemma_sender_bytes();
    let body = be16(0x50e3) + (be16(7) + e);
    let z = filling(body);
    lemma_read_set(2, body, rest);
    lemma_assoc(be16(0x50e3), be16(7) + e, z);
    lemma_assoc(be16(7), e, z);
    lemma_read16(0x50e3, be16(7) + (e + z));
    lemma_read16(7, e + z);
    lemma_read_elements(sender_elements(), z);
}

proof fn lemma_read_text(s: Seq<char>, rest: Seq<u8>)
    ensures
        read_value(0xFFFF, varlen(s) + rest) == (sent_text(s), rest),
{
    let t = sent_text(s);
    let n = t.len() as int;
    let e = vstd::utf8::encode_utf8(s);
    assert(e.subrange(0, n) =~= t);
    assert(varlen(s) == seq![n as u8] + t);
    let b = varlen(s) + rest;
    assert(b[0] == n as u8);
    assert(b.subrange(1, 1 + n) =~= t);
    assert(b.subrange(1 + n, b.len() as int) =~= rest);
}

proof fn lemma_read_fixed(v: Seq<u8>, rest: Seq<u8>)
    requires
        v.len() < 0xFFFF,
    ensures
        read_value(v.len(), v + rest) == (v, rest),
{
    lemma_split(v, rest);
}

/// The values of a record in the order of its elements.
spec fn values(es: Seq<Element>, vs: Seq<Seq<u8>>) -> Values
    decreases es.len(),
{
    if es.len() == 0 {
        Map::empty()
    } else {
        values(es.drop_first(), vs.drop_first()).insert((es[0].enterprise, es[0].id), vs[0])
    }
}

proof fn lemma_read_receiver(info: ReceiverView, z: Seq<u8>)
    ensures
        ({
            let b = varlen(info.rx_call) + varlen(info.rx_grid) + varlen(info.program_id) + varlen(
                info.antenna,
            ) + varlen(info.rig_info) + z;
            read_record(receiver_elements(), b) == (
                values(
                    receiver_elements(),
                    seq![
                        sent_text(info.rx_call),
                        sent_text(info.rx_grid),
                        sent_text(info.program_id),
                        sent_text(info.antenna),
                        sent_text(info.rig_info),
                    ],
                ),
                z,
            )
        }),
{
    let p0 = varlen(info.rx_call);
    let p1 = varlen(info.rx_grid);
    let p2 = varlen(info.program_id);
    let p3 = varlen(info.antenna);
    let p4 = varlen(info.rig_info);
    lemma_assoc(p0 + p1 + p2 + p3, p4, z);
    lemma_assoc(p0 + p1 + p2, p3, p4 + z);
    lemma_assoc(p0 + p1, p2, p3 + (p4 + z));
    lemma_assoc(p0, p1, p2 + (p3 + (p4 + z)));
    lemma_read_text(info.rx_call, p1 + (p2 + (p3 + (p4 + z))));
    lemma_read_text(info.rx_grid, p2 + (p3 + (p4 + z)));
    lemma_read_text(info.program_id, p3 + (p4 + z));
    lemma_read_text(info.antenna, p4 + z);
    lemma_read_text(info.rig_info, z);
    reveal_with_fuel(read_record, 6);
    reveal_with_fuel(values, 6);
}

proof fn lemma_receiver_values(info: ReceiverView, vs: Seq<Seq<u8>>)
    requires
        vs == seq![
            sent_text(info.rx_call),
            sent_text(info.rx_grid),
            sent_text(info.program_id),
            sent_text(info.antenna),
            sent_text(info.rig_info),
        ],
    ensures
        tells_receiver(values(receiver_elements(), vs), info),
{
    reveal_with_fuel(values, 6);
    let m = values(receiver_elements(), vs);
    assert(m.dom() =~= set![
        (30351nat, 2nat),
        (30351nat, 4nat),
        (30351nat, 8nat),
        (30351nat, 9nat),
        (30351nat, 13nat),
    ]);
}

/// The text of a locator, empty where it is not known.
spec fn grid_text(s: SpotView) -> Seq<char> {
    match s.heard_grid {
        Some(g) => g,
        None => Seq::empty(),
    }
}

spec fn spot_values(s: SpotView) -> Seq<Seq<u8>> {
    seq![
        sent_text(s.heard_call),
        be40(s.freq_hz as nat),
        seq![signed_byte(s.snr_db as int)],
        sent_text(s.mode),
        sent_text(grid_text(s)),
        seq![1u8],
        be32(s.utc_secs as nat),
    ]
}

proof fn lemma_read_spot(s: SpotView, z: Seq<u8>)
    ensures
        read_record(sender_elements(), spot_record(s) + z) == (values(sender_elements(), spot_values(s)), z),
{
    let p0 = varlen(s.heard_call);
    let p1 = be40(s.freq_hz as nat);
    let p2 = seq![signed_byte(s.snr_db as int)];
    let p3 = varlen(s.mode);
    let p4 = varlen(grid_text(s));
    let p5 = seq![1u8];
    let p6 = be32(s.utc_secs as nat);
    assert(spot_record(s) == p0 + p1 + p2 + p3 + p4 + p5 + p6);
    let t6 = p6 + z;
    let t5 = p5 + t6;
    let t4 = p4 + t5;
    let t3 = p3 + t4;
    let t2 = p2 + t3;
    let t1 = p1 + t2;
    let t0 = p0 + t1;
    lemma_assoc(p0 + p1 + p2 + p3 + p4 + p5, p6, z);
    lemma_assoc(p0 + p1 + p2 + p3 + p4, p5, t6);
    lemma_assoc(p0 + p1 + p2 + p3, p4, t5);
    lemma_assoc(p0 + p1 + p2, p3, t4);
    lemma_assoc(p0 + p1, p2, t3);
    lemma_assoc(p0, p1, t2);
    let es = sender_elements();
    let vs = spot_values(s);
    let bs = seq![t0, t1, t2, t3, t4, t5, t6, z];
    assert forall|i: int| 0 <= i < 7 implies value_follows(es, vs, bs, i) by {
        if i == 0 {
            lemma_read_text(s.heard_call, t1);
        } else if i == 1 {
            law_bytes_read_back(s.freq_hz as nat);
            lemma_read_fixed(p1, t2);
        } else if i == 2 {
            lemma_read_fixed(p2, t3);
        } else if i == 3 {
            lemma_read_text(s.mode, t4);
        } else if i == 4 {
            lemma_read_text(grid_text(s), t5);
        } else if i == 5 {
            lemma_read_fixed(p5, t6);
        } else {
            law_be32_read_back(s.utc_secs as nat);
            lemma_read_fixed(p6, z);
        }
    }
    lemma_chain(es, vs, bs);
}

/// The value `vs[i]` stands at the beginning of `bs[i]`, and `bs[i + 1]` is behind it.
spec fn value_follows(es: Seq<Element>, vs: Seq<Seq<u8>>, bs: Seq<Seq<u8>>, i: int) -> bool {
    read_value(es[i].len, bs[i]) == (vs[i], bs[i + 1])
}

/// Values that follow each other are a record.
proof fn lemma_chain(es: Seq<Element>, vs: Seq<Seq<u8>>, bs: Seq<Seq<u8>>)
    requires
        vs.len() == es.len(),
        bs.len() == es.len() + 1,
        forall|i: int| 0 <= i < es.len() ==> value_follows(es, vs, bs, i),
    ensures
        read_record(es, bs[0]) == (values(es, vs), bs.last()),
    decreases es.len(),
{
    if es.len() > 0 {
        let (e2, v2, b2) = (es.drop_first(), vs.drop_first(), bs.drop_first());
        assert forall|i: int| 0 <= i < e2.len() implies value_follows(e2, v2, b2, i) by {
            assert(value_follows(es, vs, bs, i + 1));
        }
        lemma_chain(e2, v2, b2);
        assert(value_follows(es, vs, bs, 0));
    }
}

proof fn lemma_spot_values(s: SpotView)
    ensures
        tells_spot(values(sender_elements(), spot_values(s)), s),
{
    reveal_with_fuel(values, 8);
    let m = values(sender_elements(), spot_values(s));
    assert(m.dom() =~= set![
        (30351nat, 1nat),
        (30351nat, 3nat),
        (30351nat, 5nat),
        (30351nat, 6nat),
        (30351nat, 10nat),
        (30351nat, 11nat),
        (0nat, 150nat),
    ]);
    law_bytes_read_back(s.freq_hz as nat);
    law_be32_read_back(s.utc_secs as nat);
    let nothing = vstd::utf8::encode_utf8(Seq::<char>::empty());
    assert(nothing =~= Seq::<u8>::empty());
}

/// The records of the spots, read from the first on.
proof fn lemma_records_first(spots: Seq<SpotView>)
    requires
        spots.len() > 0,
    ensures
        spot_records(spots) == spot_record(spots[0]) + spot_records(spots.drop_first()),
    decreases spots.len(),
{
    let tail = spots.drop_first();
    if spots.len() == 1 {
        assert(spots.drop_last() =~= Seq::<SpotView>::empty());
        assert(spot_records(spots.drop_last()) =~= Seq::<u8>::empty());
        assert(spot_records(tail) =~= Seq::<u8>::empty());
        assert(spot_records(spots) =~= spot_record(spots[0]) + spot_records(tail));
    } else {
        let front = spots.drop_last();
        lemma_records_first(front);
        assert(front.drop_first() =~= tail.drop_last());
        lemma_assoc(spot_record(spots[0]), spot_records(tail.drop_last()), spot_record(spots.last()));
    }
}

proof fn lemma_spot_len(s: SpotView)
    ensures
        spot_record(s).len() >= 14,
{
    law_bytes_read_back(s.freq_hz as nat);
}

proof fn lemma_read_spots(spots: Seq<SpotView>, z: Seq<u8>)
    requires
        z.len() < 4,
    ensures
        ({
            let r = read_records(sender_elements(), spot_records(spots) + z);
            &&& r.len() == spots.len()
            &&& forall|i: int| 0 <= i < spots.len() ==> tells_spot(#[trigger] r[i], spots[i])
        }),
    decreases spots.len(),
{
    let b = spot_records(spots) + z;
    let es = sender_elements();
    if spots.len() == 0 {
        assert(b =~= z);
    } else {
        let tail = spots.drop_first();
        lemma_records_first(spots);
        lemma_assoc(spot_record(spots[0]), spot_records(tail), z);
        let rest = spot_records(tail) + z;
        lemma_read_spot(spots[0], rest);
        lemma_spot_values(spots[0]);
        lemma_spot_len(spots[0]);
        lemma_read_spots(tail, z);
        let more = read_records(es, rest);
        let first = values(es, spot_values(spots[0]));
        let r = read_records(es, b);
        assert(b.len() == spot_record(spots[0]).len() + rest.len());
        assert(r == seq![first] + more);
        assert forall|i: int| 0 <= i < spots.len() implies tells_spot(#[trigger] r[i], spots[i]) by {
            if i > 0 {
                assert(tells_spot(more[i - 1], tail[i - 1]));
            }
        }
    }
}

/// The bytes of the receiver record.
spec fn receiver_bytes(info: ReceiverView) -> Seq<u8> {
    varlen(info.rx_call) + varlen(info.rx_grid) + varlen(info.program_id) + varlen(info.antenna) + varlen(
        info.rig_info,
    )
}

proof fn lemma_read_receivers(info: ReceiverView, z: Seq<u8>)
    requires
        z.len() < 4,
    ensures
        ({
            let r = read_records(receiver_elements(), receiver_bytes(info) + z);
            r.len() == 1 && tells_receiver(r[0], info)
        }),
{
    let b = receiver_bytes(info) + z;
    let es = receiver_elements();
    let vs = seq![
        sent_text(info.rx_call),
        sent_text(info.rx_grid),
        sent_text(info.program_id),
        sent_text(info.antenna),
        sent_text(info.rig_info),
    ];
    lemma_read_receiver(info, z);
    lemma_receiver_values(info, vs);
    assert(receiver_bytes(info).len() >= 5);
    assert(read_records(es, z) == Seq::<Values>::empty());
    assert(read_records(es, b) == seq![values(es, vs)] + read_records(es, z));
}

/// What is told of a receiver and of stations heard is true and complete.
pub open spec fn tells(t: Told, info: ReceiverView, spots: Seq<SpotView>) -> bool {
    &&& t.receiver.len() == 1
    &&& tells_receiver(t.receiver[0], info)
    &&& t.heard.len() == spots.len()
    &&& forall|i: int| 0 <= i < spots.len() ==> tells_spot(#[trigger] t.heard[i], spots[i])
}

proof fn lemma_read_data(info: ReceiverView, spots: Seq<SpotView>, t: Template, u: Template)
    requires
        (receiver_record(info) + sender_records(spots)).len() < 0x1_0000,
        t.id == 0x50e2 && t.elements == receiver_elements(),
        u.id == 0x50e3 && u.elements == sender_elements(),
    ensures
        read_data(receiver_record(info) + sender_records(spots), t, u) matches Some(told) && tells(
            told,
            info,
            spots,
        ),
{
    reveal(receiver_record);
    reveal(sender_records);
    let body = receiver_bytes(info);
    assert(receiver_record(info) == set_block(0x50e2, body));
    crate::pskreporter::law_set_length(0x50e2, body);
    lemma_read_set(0x50e2, body, sender_records(spots));
    lemma_read_receivers(info, filling(body));
    if spots.len() > 0 {
        let senders = spot_records(spots);
        assert(sender_records(spots) == set_block(0x50e3, senders));
        crate::pskreporter::law_set_length(0x50e3, senders);
        let none = Seq::<u8>::empty();
        assert(sender_records(spots) + none =~= sender_records(spots));
        lemma_read_set(0x50e3, senders, none);
        lemma_read_spots(spots, filling(senders));
    }
}

/// What stands at the beginning of a packet.
pub ghost struct ReadHeader {
    pub version: nat,
    pub length: nat,
    pub export_time: nat,
    pub sequence_num: nat,
    pub observation_id: nat,
}

/// Reads what stands at the beginning of a packet; what is behind it follows.
pub open spec fn read_header(b: Seq<u8>) -> (ReadHeader, Seq<u8>) {
    let (version, b) = read16(b);
    let (length, b) = read16(b);
    let (export_time, b) = read32(b);
    let (sequence_num, b) = read32(b);
    let (observation_id, b) = read32(b);
    (ReadHeader { version, length, export_time, sequence_num, observation_id }, b)
}

proof fn lemma_read_header(
    info: ReceiverView,
    spots: Seq<SpotView>,
    sequence_num: u32,
    observation_id: u32,
    export_time: u32,
    include_templates: bool,
)
    ensures
        ({
            let p = packet(info, spots, sequence_num, observation_id, export_time, include_templates);
            let (head, body) = read_header(p);
            &&& body == packet_body(info, spots, include_templates)
            &&& p.len() == 16 + body.len()
            &&& head == ReadHeader {
                version: 10,
                length: (p.len() % 0x1_0000) as nat,
                export_time: export_time as nat,
                sequence_num: sequence_num as nat,
                observation_id: observation_id as nat,
            }
        }),
{
    let body = packet_body(info, spots, include_templates);
    let n = (16 + body.len()) % 0x1_0000;
    let (p0, p1, p2, p3, p4) = (
        be16(10),
        be16(n as nat),
        be32(export_time as nat),
        be32(sequence_num as nat),
        be32(observation_id as nat),
    );
    law_be16_read_back(10);
    law_be16_read_back(n as nat);
    lemma_assoc(p0 + p1 + p2 + p3, p4, body);
    lemma_assoc(p0 + p1 + p2, p3, p4 + body);
    lemma_assoc(p0 + p1, p2, p3 + (p4 + body));
    lemma_assoc(p0, p1, p2 + (p3 + (p4 + body)));
    lemma_read16(10, p1 + (p2 + (p3 + (p4 + body))));
    lemma_read16(n as nat, p2 + (p3 + (p4 + body)));
    lemma_read32(export_time as nat, p3 + (p4 + body));
    lemma_read32(sequence_num as nat, p4 + body);
    lemma_read32(observation_id as nat, body);
}

/// The template of receiver records as a collector knows it.
pub open spec fn known_receiver() -> Template {
    Template { options: true, id: 0x50e2, elements: receiver_elements() }
}

/// The template of sender records as a collector knows it.
pub open spec fn known_sender() -> Template {
    Template { options: false, id: 0x50e3, elements: sender_elements() }
}

/// A body begins with the two templates, and by them tells the receiver and the
/// stations heard.
#[verifier::opaque]
pub open spec fn reads_by_own_templates(body: Seq<u8>, info: ReceiverView, spots: Seq<SpotView>) -> bool {
    let (t, after) = read_template(body);
    let (u, data) = read_template(after);
    t == known_receiver() && u == known_sender() && (read_data(data, t, u) matches Some(told) && tells(
        told,
        info,
        spots,
    ))
}

/// A body tells by templates known before the receiver and the stations heard.
#[verifier::opaque]
pub open spec fn reads_by_known_templates(body: Seq<u8>, info: ReceiverView, spots: Seq<SpotView>) -> bool {
    read_data(body, known_receiver(), known_sender()) matches Some(told) && tells(told, info, spots)
}

proof fn lemma_body_with(info: ReceiverView, spots: Seq<SpotView>)
    requires
        packet_body(info, spots, true).len() < 0x1_0000,
    ensures
        reads_by_own_templates(packet_body(info, spots, true), info, spots),
{
    reveal(reads_by_own_templates);
    let data = receiver_record(info) + sender_records(spots);
    let (a, b) = (receiver_template(), sender_template());
    lemma_assoc(a + b, receiver_record(info), sender_records(spots));
    lemma_assoc(a, b, data);
    assert(packet_body(info, spots, true) == a + (b + data));
    law_receiver_template(b + data);
    law_sender_template(data);
    lemma_read_data(info, spots, known_receiver(), known_sender());
}

proof fn lemma_body_without(info: ReceiverView, spots: Seq<SpotView>)
    requires
        packet_body(info, spots, false).len() < 0x1_0000,
    ensures
        reads_by_known_templates(packet_body(info, spots, false), info, spots),
{
    reveal(reads_by_known_templates);
    let data = receiver_record(info) + sender_records(spots);
    assert(packet_body(info, spots, false) =~= data);
    lemma_read_data(info, spots, known_receiver(), known_sender());
}

/// A collector that takes a packet apart gets its number, its time and the
/// observer out of the header, and by the templates (those of the packet, or the
/// ones of a packet before it) the receiver and each station heard, every value
/// under its own element, in the order of the spots.
pub proof fn law_packet_reads_back(
    info: ReceiverView,
    spots: Seq<SpotView>,
    sequence_num: u32,
    observation_id: u32,
    export_time: u32,
    include_templates: bool,
)
    requires
        packet(info, spots, sequence_num, observation_id, export_time, include_templates).len() < 0x1_0000,
    ensures
        ({
            let p = packet(info, spots, sequence_num, observation_id, export_time, include_templates);
            let (head, body) = read_header(p);
            &&& head == ReadHeader {
                version: 10,
                length: p.len(),
                export_time: export_time as nat,
                sequence_num: sequence_num as nat,
                observation_id: observation_id as nat,
            }
            &&& include_templates ==> reads_by_own_templates(body, info, spots)
            &&& !include_templates ==> reads_by_known_templates(body, info, spots)
        }),
{
    lemma_read_header(info, spots, sequence_num, observation_id, export_time, include_templates);
    if include_templates {
        lemma_body_with(info, spots);
    } else {
        lemma_body_without(info, spots);
    }
}

/// A text of at most 254 bytes is sent whole.
pub proof fn law_short_text_is_whole(s: Seq<char>)
    requires
        vstd::utf8::encode_utf8(s).len() <= 254,
    ensures
        vstd::utf8::decode_utf8(sent_text(s)) == s,
{
    vstd::utf8::encode_utf8_decode_utf8(s);
}

} // verus!
