//! Starting `rigctld` and finding what it needs.
use vstd::prelude::*;
use vstd::string::*;

use crate::paths::{join, joined};
use crate::text::{chars_of, decimal, occurs_at, push_decimal, strip_prefix, texts};

verus! {

/// How `rigctld` is started.
#[derive(Debug, Clone)]
pub struct RigctldOpts {
    /// Hamlib's number of the radio, such as "3081".
    pub model: String,
    /// Serial device.
    pub port: String,
    /// Serial speed.
    pub baud: u32,
    /// TCP port to listen on.
    pub listen_port: u16,
}

/// Starts `rigctld`.
#[derive(Debug)]
pub struct RigctldLauncher;

fn number(n: u64) -> (r: String)
    ensures
        r@ == decimal(n as nat),
{
    let mut s = String::new();
    push_decimal(&mut s, n);
    assert(s@ =~= decimal(n as nat));
    s
}

impl RigctldLauncher {
    /// The arguments that `rigctld` is started with; it keys the radio by command.
    pub fn arguments(opts: &RigctldOpts) -> (r: Vec<String>)
        ensures
            texts(r@) == seq![
                "-m"@,
                opts.model@,
                "-r"@,
                opts.port@,
                "-s"@,
                decimal(opts.baud as nat),
                "-t"@,
                decimal(opts.listen_port as nat),
                "-P"@,
                "RIG"@,
            ],
    {
        let r = vec![
            "-m".to_owned(),
            opts.model.clone(),
            "-r".to_owned(),
            opts.port.clone(),
            "-s".to_owned(),
            number(opts.baud as u64),
            "-t".to_owned(),
            number(opts.listen_port as u64),
            "-P".to_owned(),
            "RIG".to_owned(),
        ];
        assert(texts(r@) =~= seq![
            "-m"@,
            opts.model@,
            "-r"@,
            opts.port@,
            "-s"@,
            decimal(opts.baud as nat),
            "-t"@,
            decimal(opts.listen_port as nat),
            "-P"@,
            "RIG"@,
        ]);
        r
    }

    /// The arguments of `stty` that keep the serial lines quiet when the port is
    /// opened.
    pub fn quiet_arguments(opts: &RigctldOpts) -> (r: Vec<String>)
        ensures
            texts(r@) == seq!["-F"@, opts.port@, "-hupcl"@, "-crtscts"@, decimal(opts.baud as nat)],
    {
        let r = vec![
            "-F".to_owned(),
            opts.port.clone(),
            "-hupcl".to_owned(),
            "-crtscts".to_owned(),
            number(opts.baud as u64),
        ];
        assert(texts(r@) =~= seq![
            "-F"@,
            opts.port@,
            "-hupcl"@,
            "-crtscts"@,
            decimal(opts.baud as nat),
        ]);
        r
    }
}

/// The places where a bundled program may lie, in the order in which they are
/// tried: beside our own program, then in `tools` below it.
pub fn bundled_places(exe_dir: &str, binary: &str) -> (r: (String, String))
    ensures
        r.0@ == joined(exe_dir@, binary@),
        r.1@ == joined(joined(exe_dir@, "tools"@), binary@),
{
    let tools = join(exe_dir, "tools");
    (join(exe_dir, binary), join(tools.as_str(), binary))
}

/// The program to start: the first bundled one that exists, else the one that the
/// system finds by its name.
pub fn choose_binary(
    places: &(String, String),
    beside_exists: bool,
    tools_exists: bool,
    binary: &str,
) -> (r: String)
    ensures
        r@ == (if beside_exists {
            places.0@
        } else if tools_exists {
            places.1@
        } else {
            binary@
        }),
{
    if beside_exists {
        places.0.clone()
    } else if tools_exists {
        places.1.clone()
    } else {
        binary.to_owned()
    }
}

/// The systems whose serial ports are files in `/dev`.
#[derive(Debug, Clone, Copy, PartialEq, Eq, Structural)]
pub enum DeviceTree {
    Linux,
    MacOs,
}

/// The name is that of a serial port.
pub open spec fn is_serial(tree: DeviceTree, name: Seq<char>) -> bool {
    match tree {
        DeviceTree::Linux => occurs_at(name, "ttyUSB"@, 0) || occurs_at(name, "ttyACM"@, 0),
        DeviceTree::MacOs => occurs_at(name, "cu."@, 0),
    }
}

/// Whether a name in `/dev` is that of a serial port.
pub fn serial_port_name(tree: DeviceTree, name: &str) -> (r: bool)
    ensures
        r == is_serial(tree, name@),
{
    match tree {
        DeviceTree::Linux => strip_prefix(name, "ttyUSB").is_some() || strip_prefix(
            name,
            "ttyACM",
        ).is_some(),
        DeviceTree::MacOs => strip_prefix(name, "cu.").is_some(),
    }
}

/// `a` comes before `b` in the order of their characters, or is the same.
pub open spec fn lex_le(a: Seq<char>, b: Seq<char>) -> bool
    decreases a.len(),
{
    if a.len() == 0 {
        true
    } else if b.len() == 0 {
        false
    } else if a[0] != b[0] {
        a[0] < b[0]
    } else {
        lex_le(a.drop_first(), b.drop_first())
    }
}

/// Whether `a` comes before `b` in the order of their characters, or is the same.
pub fn not_after(a: &str, b: &str) -> (r: bool)
    ensures
        r == lex_le(a@, b@),
{
    let x = chars_of(a);
    let y = chars_of(b);
    let mut i: usize = 0;
    assert(x@.skip(0) =~= x@);
    assert(y@.skip(0) =~= y@);
    while i < x.len() && i < y.len() && x[i] == y[i]
        invariant
            i <= x@.len(),
            i <= y@.len(),
            lex_le(x@, y@) == lex_le(x@.skip(i as int), y@.skip(i as int)),
        decreases x.len() - i,
    {
        assert(x@.skip(i as int).drop_first() =~= x@.skip(i + 1));
        assert(y@.skip(i as int).drop_first() =~= y@.skip(i + 1));
        i = i + 1;
    }
    if i == x.len() {
        true
    } else if i == y.len() {
        false
    } else {
        x[i] < y[i]
    }
}

/// A list with one more text, behind all that do not come after it.
pub open spec fn inserted(s: Seq<Seq<char>>, x: Seq<char>) -> Seq<Seq<char>>
    decreases s.len(),
{
    if s.len() == 0 {
        seq![x]
    } else if lex_le(s.last(), x) {
        s.push(x)
    } else {
        inserted(s.drop_last(), x).push(s.last())
    }
}

/// The serial ports among the names in `/dev`, sorted.
pub open spec fn serial_ports(tree: DeviceTree, names: Seq<Seq<char>>) -> Seq<Seq<char>>
    decreases names.len(),
{
    if names.len() == 0 {
        seq![]
    } else {
        let front = serial_ports(tree, names.drop_last());
        if is_serial(tree, names.last()) {
            inserted(front, "/dev/"@ + names.last())
        } else {
            front
        }
    }
}

/// Inserts a text into a sorted list.
fn insert_sorted(list: &mut Vec<String>, x: String)
    ensures
        texts(final(list)@) == inserted(texts(old(list)@), x@),
{
    let ghost all = texts(list@);
    let mut k: usize = list.len();
    assert(all.take(k as int) =~= all);
    assert(inserted(all, x@) =~= inserted(all.take(k as int), x@) + all.skip(k as int));
    while k > 0 && !not_after(list[k - 1].as_str(), x.as_str())
        invariant
            k <= list@.len(),
            all == texts(list@),
            inserted(all, x@) == inserted(all.take(k as int), x@) + all.skip(k as int),
        decreases k,
    {
        proof {
            let s = all.take(k as int);
            assert(s.last() == list@[k - 1]@);
            assert(s.drop_last() =~= all.take(k - 1));
            assert(inserted(s, x@) == inserted(s.drop_last(), x@).push(s.last()));
            assert(inserted(all.take(k - 1), x@).push(s.last()) + all.skip(k as int) =~= inserted(
                all.take(k - 1),
                x@,
            ) + all.skip(k - 1));
        }
        k = k - 1;
    }
    proof {
        let s = all.take(k as int);
        if k > 0 {
            assert(s.last() == list@[k - 1]@);
        }
        assert(inserted(s, x@) =~= s.push(x@));
    }
    let ghost xv = x@;
    list.insert(k, x);
    assert(texts(list@) =~= all.take(k as int).push(xv) + all.skip(k as int));
}

/// The serial ports among the names in `/dev`, sorted.
pub fn list_serial_ports(tree: DeviceTree, names: &Vec<String>) -> (r: Vec<String>)
    ensures
        texts(r@) == serial_ports(tree, texts(names@)),
{
    let ghost all = texts(names@);
    let mut out: Vec<String> = Vec::new();
    let mut i: usize = 0;
    assert(all.take(0) =~= Seq::<Seq<char>>::empty());
    assert(texts(out@) =~= serial_ports(tree, all.take(0)));
    while i < names.len()
        invariant
            i <= names@.len(),
            all == texts(names@),
            texts(out@) == serial_ports(tree, all.take(i as int)),
        decreases names.len() - i,
    {
        assert(all.take(i + 1).drop_last() =~= all.take(i as int));
        assert(all.take(i + 1).last() == names@[i as int]@);
        if serial_port_name(tree, names[i].as_str()) {
            let mut path = "/dev/".to_owned();
            path.append(names[i].as_str());
            insert_sorted(&mut out, path);
        }
        i = i + 1;
    }
    assert(all.take(i as int) =~= all);
    out
}

/// Neighbours are in order.
pub open spec fn in_order(s: Seq<Seq<char>>) -> bool {
    forall|i: int| 0 <= i < s.len() - 1 ==> lex_le(#[trigger] s[i], s[i + 1])
}

/// Of two texts one does not come after the other.
pub proof fn lemma_lex_total(a: Seq<char>, b: Seq<char>)
    ensures
        lex_le(a, b) || lex_le(b, a),
    decreases a.len(),
{
    if a.len() > 0 && b.len() > 0 {
        if a[0] == b[0] {
            lemma_lex_total(a.drop_first(), b.drop_first());
        }
    }
}

proof fn lemma_insert_keeps_order(s: Seq<Seq<char>>, x: Seq<char>)
    requires
        in_order(s),
    ensures
        in_order(inserted(s, x)),
        inserted(s, x).len() == s.len() + 1,
        s.len() > 0 ==> inserted(s, x).last() == (if lex_le(s.last(), x) {
            x
        } else {
            s.last()
        }),
        s.len() == 0 ==> inserted(s, x).last() == x,
    decreases s.len(),
{
    if s.len() > 0 && !lex_le(s.last(), x) {
        let t = s.drop_last();
        assert forall|i: int| 0 <= i < t.len() - 1 implies lex_le(#[trigger] t[i], t[i + 1]) by {
            assert(s[i] == t[i] && s[i + 1] == t[i + 1]);
            assert(lex_le(s[i], s[i + 1]));
        }
        lemma_insert_keeps_order(t, x);
        lemma_lex_total(s.last(), x);
        let u = inserted(t, x);
        assert(lex_le(u.last(), s.last())) by {
            if t.len() > 0 {
                assert(lex_le(s[s.len() - 2], s[s.len() - 1]));
            }
        }
        let v = u.push(s.last());
        assert forall|i: int| 0 <= i < v.len() - 1 implies lex_le(#[trigger] v[i], v[i + 1]) by {
            if i < u.len() - 1 {
                assert(lex_le(u[i], u[i + 1]));
            }
        }
    } else if s.len() > 0 {
        let v = s.push(x);
        assert forall|i: int| 0 <= i < v.len() - 1 implies lex_le(#[trigger] v[i], v[i + 1]) by {
            if i < s.len() - 1 {
                assert(lex_le(s[i], s[i + 1]));
            }
        }
    }
}

/// The list of serial ports is sorted, however the names come.
pub proof fn law_serial_ports_sorted(tree: DeviceTree, names: Seq<Seq<char>>)
    ensures
        in_order(serial_ports(tree, names)),
    decreases names.len(),
{
    if names.len() > 0 {
        law_serial_ports_sorted(tree, names.drop_last());
        lemma_insert_keeps_order(serial_ports(tree, names.drop_last()), "/dev/"@ + names.last());
    }
}

/// Radios with their Hamlib numbers.
pub open spec fn rig_models() -> Seq<(Seq<char>, Seq<char>)> {
    seq![
        ("3073"@, "Icom IC-7300"@),
        ("3081"@, "Icom IC-9700"@),
        ("3079"@, "Icom IC-705"@),
        ("3061"@, "Icom IC-7100"@),
        ("3041"@, "Icom IC-7610"@),
        ("1042"@, "Yaesu FT-991/A"@),
        ("1043"@, "Yaesu FT-DX10"@),
        ("1037"@, "Yaesu FT-DX101D/MP"@),
        ("1035"@, "Yaesu FT-450"@),
        ("2055"@, "Kenwood TS-590S/SG"@),
        ("2057"@, "Kenwood TS-890S"@),
        ("2052"@, "Kenwood TS-2000"@),
        ("3081"@, "Elecraft K3/K3S"@),
        ("1"@, "Hamlib dummy (testing)"@),
        ("2"@, "rigctld NET (already running)"@),
    ]
}

/// Common radios: Hamlib's number and a name for display.
pub fn common_rig_models() -> (r: Vec<(&'static str, &'static str)>)
    ensures
        r@.map_values(|p: (&'static str, &'static str)| (p.0@, p.1@)) == rig_models(),
{
    let r = vec![
        ("3073", "Icom IC-7300"),
        ("3081", "Icom IC-9700"),
        ("3079", "Icom IC-705"),
        ("3061", "Icom IC-7100"),
        ("3041", "Icom IC-7610"),
        ("1042", "Yaesu FT-991/A"),
        ("1043", "Yaesu FT-DX10"),
        ("1037", "Yaesu FT-DX101D/MP"),
        ("1035", "Yaesu FT-450"),
        ("2055", "Kenwood TS-590S/SG"),
        ("2057", "Kenwood TS-890S"),
        ("2052", "Kenwood TS-2000"),
        ("3081", "Elecraft K3/K3S"),
        ("1", "Hamlib dummy (testing)"),
        ("2", "rigctld NET (already running)"),
    ];
    assert(r@.map_values(|p: (&'static str, &'static str)| (p.0@, p.1@)) =~= rig_models());
    r
}

/// Texts are ordered by the first character in which they differ; one that another
/// begins with comes before it.
pub proof fn law_order_of_texts(a: Seq<char>, b: Seq<char>, i: int)
    requires
        0 <= i <= a.len(),
        i <= b.len(),
        a.subrange(0, i) == b.subrange(0, i),
    ensures
        i == a.len() ==> lex_le(a, b),
        i == b.len() && i < a.len() ==> !lex_le(a, b),
        i < a.len() && i < b.len() && a[i] != b[i] ==> (lex_le(a, b) <==> a[i] < b[i]),
    decreases i,
{
    if i > 0 {
        assert(a.subrange(0, i)[0] == a[0]);
        assert(b.subrange(0, i)[0] == b[0]);
        let (x, y) = (a.drop_first(), b.drop_first());
        assert(x.subrange(0, i - 1) =~= a.subrange(0, i).drop_first());
        assert(y.subrange(0, i - 1) =~= b.subrange(0, i).drop_first());
        law_order_of_texts(x, y, i - 1);
    }
}

/// Serial ports are the files that Linux names `ttyUSB` or `ttyACM` and macOS `cu.`,
/// whatever follows.
pub proof fn law_serial_names(name: Seq<char>)
    ensures
        is_serial(DeviceTree::Linux, seq!['t', 't', 'y', 'U', 'S', 'B'] + name),
        is_serial(DeviceTree::Linux, seq!['t', 't', 'y', 'A', 'C', 'M'] + name),
        is_serial(DeviceTree::MacOs, seq!['c', 'u', '.'] + name),
        is_serial(DeviceTree::MacOs, name) ==> name.len() >= 3 && name[0] == 'c' && name[1] == 'u' && name[2]
            == '.',
        is_serial(DeviceTree::Linux, name) ==> name.len() >= 6 && name.subrange(0, 3) == seq!['t', 't', 'y']
            && (name.subrange(3, 6) == seq!['U', 'S', 'B'] || name.subrange(3, 6) == seq!['A', 'C', 'M']),
{
    reveal_strlit("ttyUSB");
    reveal_strlit("ttyACM");
    reveal_strlit("cu.");
    assert((seq!['t', 't', 'y', 'U', 'S', 'B'] + name).subrange(0, 6) =~= "ttyUSB"@);
    assert((seq!['t', 't', 'y', 'A', 'C', 'M'] + name).subrange(0, 6) =~= "ttyACM"@);
    assert((seq!['c', 'u', '.'] + name).subrange(0, 3) =~= "cu."@);
    if is_serial(DeviceTree::MacOs, name) {
        let p = name.subrange(0, 3);
        assert(p[0] == name[0] && p[1] == name[1] && p[2] == name[2]);
    }
    if is_serial(DeviceTree::Linux, name) {
        let p = name.subrange(0, 6);
        assert(name.subrange(0, 3) =~= p.subrange(0, 3));
        assert(name.subrange(3, 6) =~= p.subrange(3, 6));
        if occurs_at(name, "ttyUSB"@, 0) {
            assert(p.subrange(0, 3) =~= seq!['t', 't', 'y']);
            assert(p.subrange(3, 6) =~= seq!['U', 'S', 'B']);
        } else {
            assert(p.subrange(0, 3) =~= seq!['t', 't', 'y']);
            assert(p.subrange(3, 6) =~= seq!['A', 'C', 'M']);
        }
    }
}

/// The list holds the paths of the serial ports among the names, each as often as
/// its name comes, and nothing else.
pub proof fn law_serial_ports_complete(tree: DeviceTree, names: Seq<Seq<char>>)
    ensures
        serial_ports(tree, names).to_multiset() == names.filter(|n: Seq<char>| is_serial(tree, n)).map_values(
            |n: Seq<char>| seq!['/', 'd', 'e', 'v', '/'] + n,
        ).to_multiset(),
    decreases names.len(),
{
    broadcast use vstd::seq_lib::group_to_multiset_ensures;

    reveal(Seq::filter);
    reveal_strlit("/dev/");
    assert("/dev/"@ =~= seq!['/', 'd', 'e', 'v', '/']);
    let serial = |n: Seq<char>| is_serial(tree, n);
    let path = |n: Seq<char>| seq!['/', 'd', 'e', 'v', '/'] + n;
    if names.len() == 0 {
        assert(names.filter(serial).map_values(path) =~= Seq::<Seq<char>>::empty());
    } else {
        let front = names.drop_last();
        law_serial_ports_complete(tree, front);
        if is_serial(tree, names.last()) {
            lemma_inserted_holds(serial_ports(tree, front), path(names.last()));
            assert(names.filter(serial).map_values(path) =~= front.filter(serial).map_values(path).push(
                path(names.last()),
            ));
        } else {
            assert(names.filter(serial) =~= front.filter(serial));
        }
    }
}

proof fn lemma_inserted_holds(s: Seq<Seq<char>>, x: Seq<char>)
    ensures
        inserted(s, x).to_multiset() == s.to_multiset().insert(x),
    decreases s.len(),
{
    broadcast use vstd::seq_lib::group_to_multiset_ensures;

    if s.len() == 0 {
        assert(inserted(s, x) =~= s.push(x));
    } else if !lex_le(s.last(), x) {
        let t = s.drop_last();
        lemma_inserted_holds(t, x);
        assert(t.push(s.last()) =~= s);
        assert(t.to_multiset().insert(x).insert(s.last()) =~= t.to_multiset().insert(s.last()).insert(x));
    }
}

/// The radios with their numbers, a row each.
pub proof fn law_rig_numbers()
    ensures
        rig_models().len() == 15,
        rig_models()[0].0 == seq!['3', '0', '7', '3'],
        rig_models()[0].1 == seq!['I', 'c', 'o', 'm', ' ', 'I', 'C', '-', '7', '3', '0', '0'],
        rig_models()[1].0 == seq!['3', '0', '8', '1'],
        rig_models()[1].1 == seq!['I', 'c', 'o', 'm', ' ', 'I', 'C', '-', '9', '7', '0', '0'],
        rig_models()[2].0 == seq!['3', '0', '7', '9'],
        rig_models()[2].1 == seq!['I', 'c', 'o', 'm', ' ', 'I', 'C', '-', '7', '0', '5'],
        rig_models()[3].0 == seq!['3', '0', '6', '1'],
        rig_models()[3].1 == seq!['I', 'c', 'o', 'm', ' ', 'I', 'C', '-', '7', '1', '0', '0'],
        rig_models()[4].0 == seq!['3', '0', '4', '1'],
        rig_models()[4].1 == seq!['I', 'c', 'o', 'm', ' ', 'I', 'C', '-', '7', '6', '1', '0'],
        rig_models()[5].0 == seq!['1', '0', '4', '2'],
        rig_models()[5].1 == seq!['Y', 'a', 'e', 's', 'u', ' ', 'F', 'T', '-', '9', '9', '1', '/', 'A'],
        rig_models()[6].0 == seq!['1', '0', '4', '3'],
        rig_models()[6].1 == seq!['Y', 'a', 'e', 's', 'u', ' ', 'F', 'T', '-', 'D', 'X', '1', '0'],
        rig_models()[7].0 == seq!['1', '0', '3', '7'],
        rig_models()[7].1 == seq!['Y', 'a', 'e', 's', 'u', ' ', 'F', 'T', '-', 'D', 'X', '1', '0', '1', 'D', '/', 'M', 'P'],
        rig_models()[8].0 == seq!['1', '0', '3', '5'],
        rig_models()[8].1 == seq!['Y', 'a', 'e', 's', 'u', ' ', 'F', 'T', '-', '4', '5', '0'],
        rig_models()[9].0 == seq!['2', '0', '5', '5'],
        rig_models()[9].1 == seq!['K', 'e', 'n', 'w', 'o', 'o', 'd', ' ', 'T', 'S', '-', '5', '9', '0', 'S', '/', 'S', 'G'],
        rig_models()[10].0 == seq!['2', '0', '5', '7'],
        rig_models()[10].1 == seq!['K', 'e', 'n', 'w', 'o', 'o', 'd', ' ', 'T', 'S', '-', '8', '9', '0', 'S'],
        rig_models()[11].0 == seq!['2', '0', '5', '2'],
        rig_models()[11].1 == seq!['K', 'e', 'n', 'w', 'o', 'o', 'd', ' ', 'T', 'S', '-', '2', '0', '0', '0'],
        rig_models()[12].0 == seq!['3', '0', '8', '1'],
        rig_models()[12].1 == seq!['E', 'l', 'e', 'c', 'r', 'a', 'f', 't', ' ', 'K', '3', '/', 'K', '3', 'S'],
        rig_models()[13].0 == seq!['1'],
        rig_models()[13].1 == seq!['H', 'a', 'm', 'l', 'i', 'b', ' ', 'd', 'u', 'm', 'm', 'y', ' ', '(', 't', 'e', 's', 't', 'i', 'n', 'g', ')'],
        rig_models()[14].0 == seq!['2'],
        rig_models()[14].1 == seq!['r', 'i', 'g', 'c', 't', 'l', 'd', ' ', 'N', 'E', 'T', ' ', '(', 'a', 'l', 'r', 'e', 'a', 'd', 'y', ' ', 'r', 'u', 'n', 'n', 'i', 'n', 'g', ')'],
{
    reveal_strlit("3073");
    reveal_strlit("Icom IC-7300");
    assert(rig_models()[0].0 =~= seq!['3', '0', '7', '3']);
    assert(rig_models()[0].1 =~= seq!['I', 'c', 'o', 'm', ' ', 'I', 'C', '-', '7', '3', '0', '0']);
    reveal_strlit("3081");
    reveal_strlit("Icom IC-9700");
    assert(rig_models()[1].0 =~= seq!['3', '0', '8', '1']);
    assert(rig_models()[1].1 =~= seq!['I', 'c', 'o', 'm', ' ', 'I', 'C', '-', '9', '7', '0', '0']);
    reveal_strlit("3079");
    reveal_strlit("Icom IC-705");
    assert(rig_models()[2].0 =~= seq!['3', '0', '7', '9']);
    assert(rig_models()[2].1 =~= seq!['I', 'c', 'o', 'm', ' ', 'I', 'C', '-', '7', '0', '5']);
    reveal_strlit("3061");
    reveal_strlit("Icom IC-7100");
    assert(rig_models()[3].0 =~= seq!['3', '0', '6', '1']);
    assert(rig_models()[3].1 =~= seq!['I', 'c', 'o', 'm', ' ', 'I', 'C', '-', '7', '1', '0', '0']);
    reveal_strlit("3041");
    reveal_strlit("Icom IC-7610");
    assert(rig_models()[4].0 =~= seq!['3', '0', '4', '1']);
    assert(rig_models()[4].1 =~= seq!['I', 'c', 'o', 'm', ' ', 'I', 'C', '-', '7', '6', '1', '0']);
    reveal_strlit("1042");
    reveal_strlit("Yaesu FT-991/A");
    assert(rig_models()[5].0 =~= seq!['1', '0', '4', '2']);
    assert(rig_models()[5].1 =~= seq!['Y', 'a', 'e', 's', 'u', ' ', 'F', 'T', '-', '9', '9', '1', '/', 'A']);
    reveal_strlit("1043");
    reveal_strlit("Yaesu FT-DX10");
    assert(rig_models()[6].0 =~= seq!['1', '0', '4', '3']);
    assert(rig_models()[6].1 =~= seq!['Y', 'a', 'e', 's', 'u', ' ', 'F', 'T', '-', 'D', 'X', '1', '0']);
    reveal_strlit("1037");
    reveal_strlit("Yaesu FT-DX101D/MP");
    assert(rig_models()[7].0 =~= seq!['1', '0', '3', '7']);
    assert(rig_models()[7].1 =~= seq!['Y', 'a', 'e', 's', 'u', ' ', 'F', 'T', '-', 'D', 'X', '1', '0', '1', 'D', '/', 'M', 'P']);
    reveal_strlit("1035");
    reveal_strlit("Yaesu FT-450");
    assert(rig_models()[8].0 =~= seq!['1', '0', '3', '5']);
    assert(rig_models()[8].1 =~= seq!['Y', 'a', 'e', 's', 'u', ' ', 'F', 'T', '-', '4', '5', '0']);
    reveal_strlit("2055");
    reveal_strlit("Kenwood TS-590S/SG");
    assert(rig_models()[9].0 =~= seq!['2', '0', '5', '5']);
    assert(rig_models()[9].1 =~= seq!['K', 'e', 'n', 'w', 'o', 'o', 'd', ' ', 'T', 'S', '-', '5', '9', '0', 'S', '/', 'S', 'G']);
    reveal_strlit("2057");
    reveal_strlit("Kenwood TS-890S");
    assert(rig_models()[10].0 =~= seq!['2', '0', '5', '7']);
    assert(rig_models()[10].1 =~= seq!['K', 'e', 'n', 'w', 'o', 'o', 'd', ' ', 'T', 'S', '-', '8', '9', '0', 'S']);
    reveal_strlit("2052");
    reveal_strlit("Kenwood TS-2000");
    assert(rig_models()[11].0 =~= seq!['2', '0', '5', '2']);
    assert(rig_models()[11].1 =~= seq!['K', 'e', 'n', 'w', 'o', 'o', 'd', ' ', 'T', 'S', '-', '2', '0', '0', '0']);
    reveal_strlit("3081");
    reveal_strlit("Elecraft K3/K3S");
    assert(rig_models()[12].0 =~= seq!['3', '0', '8', '1']);
    assert(rig_models()[12].1 =~= seq!['E', 'l', 'e', 'c', 'r', 'a', 'f', 't', ' ', 'K', '3', '/', 'K', '3', 'S']);
    reveal_strlit("1");
    reveal_strlit("Hamlib dummy (testing)");
    assert(rig_models()[13].0 =~= seq!['1']);
    assert(rig_models()[13].1 =~= seq!['H', 'a', 'm', 'l', 'i', 'b', ' ', 'd', 'u', 'm', 'm', 'y', ' ', '(', 't', 'e', 's', 't', 'i', 'n', 'g', ')']);
    reveal_strlit("2");
    reveal_strlit("rigctld NET (already running)");
    assert(rig_models()[14].0 =~= seq!['2']);
    assert(rig_models()[14].1 =~= seq!['r', 'i', 'g', 'c', 't', 'l', 'd', ' ', 'N', 'E', 'T', ' ', '(', 'a', 'l', 'r', 'e', 'a', 'd', 'y', ' ', 'r', 'u', 'n', 'n', 'i', 'n', 'g', ')']);
}

} // verus!
