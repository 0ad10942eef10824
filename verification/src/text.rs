//! Text as sequences of characters, and the small string operations that the
//! rest of the library is built from.
use vstd::prelude::*;
use vstd::string::*;

verus! {

/// Appends one character ([`String::push`]): the old text followed by it.
pub assume_specification[ String::push ](s: &mut String, c: char)
    ensures
        final(s)@ == old(s)@.push(c),
;

/// What [`str::to_uppercase`] returns for a text that is not all ASCII.
/// Unicode case mapping depends on the text alone and can change its length.
pub uninterp spec fn uppercased(s: Seq<char>) -> Seq<char>;

/// Unicode upper case ([`str::to_uppercase`]). On ASCII text it maps `a` to `z`
/// onto `A` to `Z` and leaves everything else alone.
pub assume_specification[ str::to_uppercase ](s: &str) -> (r: String)
    ensures
        all_ascii(s@) ==> r@ == ascii_upper(s@),
        !all_ascii(s@) ==> r@ == uppercased(s@),
;

/// A text in upper case.
pub open spec fn upper(s: Seq<char>) -> Seq<char> {
    if all_ascii(s) {
        ascii_upper(s)
    } else {
        uppercased(s)
    }
}

/// Every character is ASCII.
pub open spec fn all_ascii(s: Seq<char>) -> bool {
    forall|i: int| 0 <= i < s.len() ==> (#[trigger] s[i] as u32) < 128
}

/// ASCII upper case of one character.
pub open spec fn upper_char(c: char) -> char {
    if 'a' <= c <= 'z' {
        ((c as u32 - 32) as u32) as char
    } else {
        c
    }
}

/// ASCII lower case of one character.
pub open spec fn lower_char(c: char) -> char {
    if 'A' <= c <= 'Z' {
        ((c as u32 + 32) as u32) as char
    } else {
        c
    }
}

/// ASCII upper case of a text.
pub open spec fn ascii_upper(s: Seq<char>) -> Seq<char> {
    Seq::new(s.len(), |i: int| upper_char(s[i]))
}

/// ASCII lower case of a text.
pub open spec fn ascii_lower(s: Seq<char>) -> Seq<char> {
    Seq::new(s.len(), |i: int| lower_char(s[i]))
}

/// The characters with the Unicode property `White_Space`.
pub open spec fn is_white(c: char) -> bool {
    let n = c as u32;
    ||| 0x9 <= n <= 0xD
    ||| n == 0x20
    ||| n == 0x85
    ||| n == 0xA0
    ||| n == 0x1680
    ||| 0x2000 <= n <= 0x200A
    ||| n == 0x2028
    ||| n == 0x2029
    ||| n == 0x202F
    ||| n == 0x205F
    ||| n == 0x3000
}

pub fn white(c: char) -> (r: bool)
    ensures
        r == is_white(c),
{
    let n: u32 = c as u32;
    (0x9 <= n && n <= 0xD) || n == 0x20 || n == 0x85 || n == 0xA0 || n == 0x1680 || (0x2000 <= n && n
        <= 0x200A) || n == 0x2028 || n == 0x2029 || n == 0x202F || n == 0x205F || n == 0x3000
}

/// The characters of a text.
pub fn chars_of(s: &str) -> (r: Vec<char>)
    ensures
        r@ == s@,
{
    let mut out: Vec<char> = Vec::new();
    for c in it: s.chars()
        invariant
            it.seq() == s@,
            out@ == s@.subrange(0, it.index() as int),
    {
        out.push(c);
    }
    assert(s@.subrange(0, s@.len() as int) =~= s@);
    out
}

/// The characters `from..to` as a text of their own.
pub fn text_of(chars: &Vec<char>, from: usize, to: usize) -> (r: String)
    requires
        from <= to <= chars@.len(),
    ensures
        r@ == chars@.subrange(from as int, to as int),
{
    let mut out = String::new();
    let mut i: usize = from;
    while i < to
        invariant
            from <= i <= to <= chars@.len(),
            out@ == chars@.subrange(from as int, i as int),
        decreases to - i,
    {
        out.push(chars[i]);
        assert(chars@.subrange(from as int, i + 1) =~= chars@.subrange(from as int, i as int).push(
            chars@[i as int],
        ));
        i = i + 1;
    }
    out
}

/// Whether two texts are the same.
pub fn same(a: &str, b: &str) -> (r: bool)
    ensures
        r == (a@ == b@),
{
    let x = chars_of(a);
    let y = chars_of(b);
    if x.len() != y.len() {
        return false;
    }
    let mut i: usize = 0;
    while i < x.len()
        invariant
            i <= x@.len() == y@.len(),
            x@ == a@,
            y@ == b@,
            forall|k: int| 0 <= k < i ==> x@[k] == y@[k],
        decreases x.len() - i,
    {
        if x[i] != y[i] {
            return false;
        }
        i = i + 1;
    }
    assert(a@ =~= b@);
    true
}

/// ASCII lower case of one character.
fn lower(c: char) -> (r: char)
    ensures
        r == lower_char(c),
{
    if 'A' <= c && c <= 'Z' {
        ((c as u8) + 32) as char
    } else {
        c
    }
}

/// ASCII lower case of a text.
pub fn to_lower(s: &str) -> (r: String)
    ensures
        r@ == ascii_lower(s@),
{
    let x = chars_of(s);
    let mut out = String::new();
    let mut i: usize = 0;
    while i < x.len()
        invariant
            i <= x@.len(),
            x@ == s@,
            out@ == ascii_lower(s@).subrange(0, i as int),
        decreases x.len() - i,
    {
        out.push(lower(x[i]));
        assert(ascii_lower(s@).subrange(0, i + 1) =~= ascii_lower(s@).subrange(0, i as int).push(
            lower_char(s@[i as int]),
        ));
        i = i + 1;
    }
    assert(ascii_lower(s@).subrange(0, i as int) =~= ascii_lower(s@));
    out
}

/// Whether two texts are the same but for the case of their ASCII letters.
pub fn same_ignoring_case(a: &str, b: &str) -> (r: bool)
    ensures
        r == (ascii_lower(a@) == ascii_lower(b@)),
{
    let x = to_lower(a);
    let y = to_lower(b);
    same(x.as_str(), y.as_str())
}

/// A text without its leading white space.
pub open spec fn trim_start(s: Seq<char>) -> Seq<char>
    decreases s.len(),
{
    if s.len() > 0 && is_white(s[0]) {
        trim_start(s.drop_first())
    } else {
        s
    }
}

/// A text without its trailing white space.
pub open spec fn trim_end(s: Seq<char>) -> Seq<char>
    decreases s.len(),
{
    if s.len() > 0 && is_white(s.last()) {
        trim_end(s.drop_last())
    } else {
        s
    }
}

/// A text without the white space around it.
pub open spec fn trim(s: Seq<char>) -> Seq<char> {
    trim_end(trim_start(s))
}

/// A text without the white space around it.
pub fn trimmed(s: &str) -> (r: &str)
    ensures
        r@ == trim(s@),
{
    let x = chars_of(s);
    let mut from: usize = 0;
    assert(s@.subrange(0, s@.len() as int) =~= s@);
    while from < x.len() && white(x[from])
        invariant
            from <= x@.len(),
            x@ == s@,
            trim_start(s@) == trim_start(s@.subrange(from as int, s@.len() as int)),
        decreases x.len() - from,
    {
        assert(s@.subrange(from as int, s@.len() as int).drop_first() =~= s@.subrange(
            from + 1,
            s@.len() as int,
        ));
        from = from + 1;
    }
    let ghost head = s@.subrange(from as int, s@.len() as int);
    assert(trim_start(s@) == head);
    let mut to: usize = x.len();
    while from < to && white(x[to - 1])
        invariant
            from <= to <= x@.len(),
            x@ == s@,
            trim_start(s@) == head,
            trim_end(head) == trim_end(s@.subrange(from as int, to as int)),
        decreases to,
    {
        assert(s@.subrange(from as int, to as int).drop_last() =~= s@.subrange(from as int, to - 1));
        to = to - 1;
    }
    s.substring_char(from, to)
}

/// The words of `rest`, the first of which has begun with `word`.
pub open spec fn words_from(rest: Seq<char>, word: Seq<char>) -> Seq<Seq<char>>
    decreases rest.len(),
{
    if rest.len() == 0 {
        if word.len() == 0 {
            seq![]
        } else {
            seq![word]
        }
    } else if is_white(rest[0]) {
        if word.len() == 0 {
            words_from(rest.drop_first(), seq![])
        } else {
            seq![word] + words_from(rest.drop_first(), seq![])
        }
    } else {
        words_from(rest.drop_first(), word.push(rest[0]))
    }
}

/// The words of a text: its longest stretches without white space.
pub open spec fn words(s: Seq<char>) -> Seq<Seq<char>> {
    words_from(s, seq![])
}

/// What a list of texts holds.
pub open spec fn texts(v: Seq<String>) -> Seq<Seq<char>> {
    v.map_values(|s: String| s@)
}

/// The words of a text.
pub fn split_words(s: &str) -> (r: Vec<String>)
    ensures
        texts(r@) == words(s@),
{
    let x = chars_of(s);
    let mut out: Vec<String> = Vec::new();
    let mut word = String::new();
    let mut started = false;
    let mut i: usize = 0;
    assert(s@.subrange(0, s@.len() as int) =~= s@);
    assert(texts(out@) + words_from(s@, seq![]) =~= words(s@));
    assert(word@ =~= seq![]);
    while i < x.len()
        invariant
            i <= x@.len(),
            x@ == s@,
            started == (word@.len() > 0),
            words(s@) == texts(out@) + words_from(s@.subrange(i as int, s@.len() as int), word@),
        decreases x.len() - i,
    {
        let c = x[i];
        let ghost rest = s@.subrange(i as int, s@.len() as int);
        let ghost done = texts(out@);
        let ghost had = word@;
        assert(rest.drop_first() =~= s@.subrange(i + 1, s@.len() as int));
        if white(c) {
            if started {
                out.push(word);
                word = String::new();
                started = false;
                assert(texts(out@) =~= done.push(had));
                assert(word@ =~= seq![]);
                assert(done + (seq![had] + words_from(rest.drop_first(), seq![])) =~= done.push(had)
                    + words_from(rest.drop_first(), seq![]));
            } else {
                assert(had =~= seq![]);
            }
        } else {
            word.push(c);
            started = true;
        }
        i = i + 1;
    }
    assert(s@.subrange(i as int, s@.len() as int).len() == 0);
    let ghost done = texts(out@);
    if started {
        let ghost had = word@;
        out.push(word);
        assert(texts(out@) =~= done.push(had));
        assert(done + seq![had] =~= done.push(had));
    } else {
        assert(done + Seq::<Seq<char>>::empty() =~= done);
    }
    out
}

/// The character of a decimal digit.
pub open spec fn digit_char(d: nat) -> char {
    (('0' as u32 + d) as u32) as char
}

/// A number in decimal, without leading zeros.
pub open spec fn decimal(n: nat) -> Seq<char>
    decreases n,
{
    if n < 10 {
        seq![digit_char(n)]
    } else {
        decimal(n / 10).push(digit_char(n % 10))
    }
}

/// Appends a number in decimal.
pub fn push_decimal(out: &mut String, n: u64)
    ensures
        final(out)@ == old(out)@ + decimal(n as nat),
    decreases n,
{
    if n >= 10 {
        push_decimal(out, n / 10);
    }
    let d: u8 = (n % 10) as u8;
    out.push((48 + d) as char);
    proof {
        let before = if n >= 10 {
            old(out)@ + decimal((n / 10) as nat)
        } else {
            old(out)@
        };
        assert(out@ == before.push(digit_char((n % 10) as nat)));
        assert(out@ =~= old(out)@ + decimal(n as nat));
    }
}

/// A number in decimal with leading zeros up to two digits.
pub open spec fn decimal2(n: nat) -> Seq<char> {
    if n < 10 {
        seq!['0'] + decimal(n)
    } else {
        decimal(n)
    }
}

/// Appends a number in decimal with leading zeros up to two digits.
pub fn push_decimal2(out: &mut String, n: u64)
    ensures
        final(out)@ == old(out)@ + decimal2(n as nat),
{
    if n < 10 {
        out.push('0');
        assert(out@ =~= old(out)@ + seq!['0']);
    }
    push_decimal(out, n);
    assert(out@ =~= old(out)@ + decimal2(n as nat));
}

/// Every character is a decimal digit.
pub open spec fn all_digits(s: Seq<char>) -> bool {
    forall|i: int| 0 <= i < s.len() ==> '0' <= #[trigger] s[i] <= '9'
}

/// The number that a sequence of decimal digits writes.
pub open spec fn digits_value(s: Seq<char>) -> nat
    decreases s.len(),
{
    if s.len() == 0 {
        0
    } else {
        10 * digits_value(s.drop_last()) + (s.last() as u32 - '0' as u32) as nat
    }
}

/// The number that a text writes: an optional plus sign, then decimal digits,
/// at most `max`.
pub open spec fn unsigned_value(s: Seq<char>, max: nat) -> Option<nat> {
    let digits = if s.len() > 0 && s[0] == '+' {
        s.drop_first()
    } else {
        s
    };
    if digits.len() > 0 && all_digits(digits) && digits_value(digits) <= max {
        Some(digits_value(digits))
    } else {
        None
    }
}

/// The number that `chars[from..]` writes with decimal digits alone, at most
/// `max`.
fn digits_at(chars: &Vec<char>, from: usize, max: u64) -> (r: Option<u64>)
    requires
        from <= chars@.len(),
    ensures
        match r {
            Some(v) => {
                let d = chars@.subrange(from as int, chars@.len() as int);
                d.len() > 0 && all_digits(d) && digits_value(d) == v && v <= max
            },
            None => {
                let d = chars@.subrange(from as int, chars@.len() as int);
                !(d.len() > 0 && all_digits(d) && digits_value(d) <= max)
            },
        },
{
    if from == chars.len() {
        return None;
    }
    let ghost d = chars@.subrange(from as int, chars@.len() as int);
    let mut v: u64 = 0;
    let mut i: usize = from;
    assert(d.subrange(0, 0).len() == 0);
    while i < chars.len()
        invariant
            from <= i <= chars@.len(),
            d == chars@.subrange(from as int, chars@.len() as int),
            v <= max,
            all_digits(d.subrange(0, i - from)),
            v == digits_value(d.subrange(0, i - from)),
        decreases chars.len() - i,
    {
        let c = chars[i];
        assert(c == d[i - from]);
        if !('0' <= c && c <= '9') {
            return None;
        }
        let next: u128 = v as u128 * 10 + ((c as u8) - 48) as u128;
        proof {
            let upto = d.subrange(0, i + 1 - from);
            assert(upto.drop_last() =~= d.subrange(0, i - from));
            assert(digits_value(upto) == next);
            assert forall|k: int| 0 <= k < upto.len() implies '0' <= #[trigger] upto[k] <= '9' by {
                if k < i - from {
                    assert(d.subrange(0, i - from)[k] == upto[k]);
                }
            }
            if next > max {
                lemma_value_grows(d, i + 1 - from);
            }
        }
        if next > max as u128 {
            return None;
        }
        v = next as u64;
        i = i + 1;
    }
    assert(d.subrange(0, i - from) =~= d);
    Some(v)
}

/// More digits write no smaller number.
proof fn lemma_value_grows(d: Seq<char>, n: int)
    requires
        0 <= n <= d.len(),
    ensures
        all_digits(d) ==> digits_value(d) >= digits_value(d.subrange(0, n)),
    decreases d.len() - n,
{
    if n < d.len() {
        lemma_value_grows(d, n + 1);
        assert(d.subrange(0, n + 1).drop_last() =~= d.subrange(0, n));
        if all_digits(d) {
            assert('0' <= d[n] <= '9');
        }
    } else {
        assert(d.subrange(0, n) =~= d);
    }
}

/// The number that a text writes: an optional plus sign, then decimal digits,
/// at most `max`.
pub fn parse_unsigned(s: &str, max: u64) -> (r: Option<u64>)
    ensures
        match r {
            Some(v) => unsigned_value(s@, max as nat) == Some(v as nat),
            None => unsigned_value(s@, max as nat) is None,
        },
{
    let x = chars_of(s);
    if x.len() > 0 && x[0] == '+' {
        assert(x@.subrange(1, x@.len() as int) =~= s@.drop_first());
        digits_at(&x, 1, max)
    } else {
        assert(x@.subrange(0, x@.len() as int) =~= s@);
        digits_at(&x, 0, max)
    }
}

/// The number that a text writes: an optional sign, then decimal digits,
/// between `-max - 1` and `max`.
pub open spec fn signed_value(s: Seq<char>, max: nat) -> Option<int> {
    let signed = s.len() > 0 && (s[0] == '+' || s[0] == '-');
    let negative = s.len() > 0 && s[0] == '-';
    let digits = if signed {
        s.drop_first()
    } else {
        s
    };
    let limit = if negative {
        max + 1
    } else {
        max
    };
    if digits.len() > 0 && all_digits(digits) && digits_value(digits) <= limit {
        if negative {
            Some(-(digits_value(digits) as int))
        } else {
            Some(digits_value(digits) as int)
        }
    } else {
        None
    }
}

/// The 16-bit number that a text writes.
pub fn parse_i16(s: &str) -> (r: Option<i16>)
    ensures
        match r {
            Some(v) => signed_value(s@, 32767) == Some(v as int),
            None => signed_value(s@, 32767) is None,
        },
{
    let x = chars_of(s);
    assert(x@.len() > 0 ==> x@.subrange(1, x@.len() as int) =~= s@.drop_first());
    assert(x@.subrange(0, x@.len() as int) =~= s@);
    if x.len() > 0 && x[0] == '-' {
        match digits_at(&x, 1, 32768) {
            Some(v) => Some((-(v as i32)) as i16),
            None => None,
        }
    } else if x.len() > 0 && x[0] == '+' {
        match digits_at(&x, 1, 32767) {
            Some(v) => Some(v as i16),
            None => None,
        }
    } else {
        match digits_at(&x, 0, 32767) {
            Some(v) => Some(v as i16),
            None => None,
        }
    }
}

/// The 32-bit number that a text writes.
pub fn parse_i32(s: &str) -> (r: Option<i32>)
    ensures
        match r {
            Some(v) => signed_value(s@, 0x7fff_ffff) == Some(v as int),
            None => signed_value(s@, 0x7fff_ffff) is None,
        },
{
    let x = chars_of(s);
    assert(x@.len() > 0 ==> x@.subrange(1, x@.len() as int) =~= s@.drop_first());
    assert(x@.subrange(0, x@.len() as int) =~= s@);
    if x.len() > 0 && x[0] == '-' {
        match digits_at(&x, 1, 0x8000_0000) {
            Some(v) => Some((-(v as i64)) as i32),
            None => None,
        }
    } else if x.len() > 0 && x[0] == '+' {
        match digits_at(&x, 1, 0x7fff_ffff) {
            Some(v) => Some(v as i32),
            None => None,
        }
    } else {
        match digits_at(&x, 0, 0x7fff_ffff) {
            Some(v) => Some(v as i32),
            None => None,
        }
    }
}

/// Whether `s` starts with `pat`; if so, what follows it.
pub fn strip_prefix<'a>(s: &'a str, pat: &str) -> (r: Option<&'a str>)
    ensures
        match r {
            Some(t) => occurs_at(s@, pat@, 0) && t@ == s@.skip(pat@.len() as int),
            None => !occurs_at(s@, pat@, 0),
        },
{
    let x = chars_of(s);
    let y = chars_of(pat);
    if y.len() <= x.len() && stands_at(&x, &y, 0) {
        let t = s.substring_char(y.len(), x.len());
        assert(t@ =~= s@.skip(pat@.len() as int));
        Some(t)
    } else {
        None
    }
}

/// A non-empty stretch of text without white space.
pub open spec fn is_word(s: Seq<char>) -> bool {
    s.len() > 0 && forall|i: int| 0 <= i < s.len() ==> !is_white(#[trigger] s[i])
}

/// A word read to its end stands in front of what follows it.
proof fn lemma_words_from(w: Seq<char>, rest: Seq<char>, begun: Seq<char>)
    requires
        forall|i: int| 0 <= i < w.len() ==> !is_white(#[trigger] w[i]),
    ensures
        words_from(w + rest, begun) == words_from(rest, begun + w),
    decreases w.len(),
{
    if w.len() == 0 {
        assert(w + rest =~= rest);
        assert(begun + w =~= begun);
    } else {
        let s = w + rest;
        assert(s[0] == w[0]);
        assert(s.drop_first() =~= w.drop_first() + rest);
        lemma_words_from(w.drop_first(), rest, begun.push(w[0]));
        assert(begun.push(w[0]) + w.drop_first() =~= begun + w);
    }
}

/// A single word is its own list of words.
pub proof fn lemma_words_one(a: Seq<char>)
    requires
        is_word(a),
    ensures
        words(a) == seq![a],
{
    lemma_words_from(a, seq![], seq![]);
    assert(a + Seq::<char>::empty() =~= a);
    assert(Seq::<char>::empty() + a =~= a);
}

/// A word, a space and more text: the word, then the words of the text.
pub proof fn lemma_words_cons(a: Seq<char>, rest: Seq<char>)
    requires
        is_word(a),
    ensures
        words(a + seq![' '] + rest) == seq![a] + words(rest),
{
    let tail = seq![' '] + rest;
    assert(a + seq![' '] + rest =~= a + tail);
    lemma_words_from(a, tail, seq![]);
    assert(Seq::<char>::empty() + a =~= a);
    assert(tail[0] == ' ');
    assert(tail.drop_first() =~= rest);
}

/// Reading a number back from its decimal form gives the number.
pub proof fn lemma_decimal_value(n: nat)
    ensures
        decimal(n).len() > 0,
        all_digits(decimal(n)),
        digits_value(decimal(n)) == n,
    decreases n,
{
    if n < 10 {
        assert(decimal(n).drop_last() =~= Seq::<char>::empty());
        assert(digits_value(Seq::<char>::empty()) == 0);
    } else {
        lemma_decimal_value(n / 10);
        assert(decimal(n).drop_last() =~= decimal(n / 10));
    }
}

/// Reading a number back from its two-digit form gives the number.
pub proof fn lemma_decimal2_value(n: nat)
    ensures
        decimal2(n).len() > 0,
        all_digits(decimal2(n)),
        digits_value(decimal2(n)) == n,
{
    lemma_decimal_value(n);
    if n < 10 {
        assert(decimal2(n) =~= seq!['0', digit_char(n)]);
        assert(decimal2(n).drop_last() =~= seq!['0']);
        assert(seq!['0'].drop_last() =~= Seq::<char>::empty());
        assert(digits_value(Seq::<char>::empty()) == 0);
        assert(digits_value(seq!['0']) == 0);
    }
}

/// Number of bytes of a character in UTF-8.
pub open spec fn char_width(c: char) -> nat {
    let n = c as u32;
    if n < 0x80 {
        1
    } else if n < 0x800 {
        2
    } else if n < 0x10000 {
        3
    } else {
        4
    }
}

/// Number of bytes of a text in UTF-8.
pub open spec fn byte_len(s: Seq<char>) -> nat
    decreases s.len(),
{
    if s.len() == 0 {
        0
    } else {
        byte_len(s.drop_last()) + char_width(s.last())
    }
}

proof fn lemma_encoded_len(s: Seq<char>)
    ensures
        vstd::utf8::encode_utf8(s).len() == byte_len(s),
    decreases s.len(),
{
    if s.len() > 0 {
        lemma_encoded_len(s.drop_first());
        lemma_byte_len_first(s);
        vstd::utf8::char_is_scalar(s[0]);
    }
}

pub proof fn lemma_byte_len_first(s: Seq<char>)
    requires
        s.len() > 0,
    ensures
        byte_len(s) == char_width(s[0]) + byte_len(s.drop_first()),
    decreases s.len(),
{
    if s.len() == 1 {
        assert(s.drop_last() =~= Seq::<char>::empty());
        assert(s.drop_first() =~= Seq::<char>::empty());
        assert(byte_len(Seq::<char>::empty()) == 0);
    } else {
        lemma_byte_len_first(s.drop_last());
        assert(s.drop_last().drop_first() =~= s.drop_first().drop_last());
    }
}

/// The bytes of two texts one after the other add up.
pub proof fn lemma_byte_len_add(a: Seq<char>, b: Seq<char>)
    ensures
        byte_len(a + b) == byte_len(a) + byte_len(b),
    decreases b.len(),
{
    if b.len() == 0 {
        assert(a + b =~= a);
    } else {
        lemma_byte_len_add(a, b.drop_last());
        assert((a + b).drop_last() =~= a + b.drop_last());
    }
}

/// Number of bytes of a text.
pub fn byte_count(s: &str) -> (n: usize)
    ensures
        n == byte_len(s@),
{
    let bytes = s.as_bytes();
    proof {
        lemma_encoded_len(s@);
    }
    bytes.len()
}

fn width(c: char) -> (n: usize)
    ensures
        n == char_width(c),
{
    let v: u32 = c as u32;
    if v < 0x80 {
        1
    } else if v < 0x800 {
        2
    } else if v < 0x10000 {
        3
    } else {
        4
    }
}

/// How many characters make up the first `n` bytes of a text; `None` where the
/// text is shorter or byte `n` lies inside a character.
pub open spec fn chars_in_bytes(s: Seq<char>, n: nat) -> Option<nat>
    decreases s.len(),
{
    if n == 0 {
        Some(0)
    } else if s.len() == 0 || char_width(s[0]) > n {
        None
    } else {
        match chars_in_bytes(s.drop_first(), (n - char_width(s[0])) as nat) {
            Some(k) => Some(k + 1),
            None => None,
        }
    }
}

/// How many characters from `from` on make up `n` bytes.
pub fn cut_bytes(chars: &Vec<char>, from: usize, n: usize) -> (r: Option<usize>)
    requires
        from <= chars@.len(),
    ensures
        match r {
            Some(k) => from + k <= chars@.len() && chars_in_bytes(
                chars@.subrange(from as int, chars@.len() as int),
                n as nat,
            ) == Some(k as nat),
            None => chars_in_bytes(chars@.subrange(from as int, chars@.len() as int), n as nat) is None,
        },
{
    let ghost tail = chars@.subrange(from as int, chars@.len() as int);
    let mut at: usize = from;
    let mut left: usize = n;
    while left > 0
        invariant
            from <= at <= chars@.len(),
            tail == chars@.subrange(from as int, chars@.len() as int),
            chars_in_bytes(tail, n as nat) == (match chars_in_bytes(
                chars@.subrange(at as int, chars@.len() as int),
                left as nat,
            ) {
                Some(k) => Some((k + (at - from)) as nat),
                None => None,
            }),
        decreases left,
    {
        if at == chars.len() {
            return None;
        }
        let w: usize = width(chars[at]);
        if w > left {
            return None;
        }
        assert(chars@.subrange(at as int, chars@.len() as int).drop_first() =~= chars@.subrange(
            at + 1,
            chars@.len() as int,
        ));
        at = at + 1;
        left = left - w;
    }
    Some(at - from)
}

/// The bytes of a text can be cut at its end.
pub proof fn lemma_cut_whole(s: Seq<char>, rest: Seq<char>)
    ensures
        chars_in_bytes(s + rest, byte_len(s)) == Some(s.len()),
    decreases s.len(),
{
    if s.len() == 0 {
        assert(s + rest =~= rest);
    } else {
        lemma_byte_len_first(s);
        lemma_cut_whole(s.drop_first(), rest);
        assert((s + rest).drop_first() =~= s.drop_first() + rest);
    }
}

/// Number of bytes of `chars[from..]`, or `None` where a machine word cannot
/// hold it.
pub fn bytes_from(chars: &Vec<char>, from: usize) -> (r: Option<usize>)
    requires
        from <= chars@.len(),
    ensures
        match r {
            Some(n) => n == byte_len(chars@.subrange(from as int, chars@.len() as int)),
            None => byte_len(chars@.subrange(from as int, chars@.len() as int)) > usize::MAX,
        },
{
    let mut at: usize = chars.len();
    let mut n: usize = 0;
    while at > from
        invariant
            from <= at <= chars@.len(),
            n == byte_len(chars@.subrange(at as int, chars@.len() as int)),
        decreases at,
    {
        let ghost tail = chars@.subrange(at - 1, chars@.len() as int);
        proof {
            lemma_byte_len_first(tail);
            assert(tail.drop_first() =~= chars@.subrange(at as int, chars@.len() as int));
        }
        let w: usize = width(chars[at - 1]);
        if n > usize::MAX - w {
            proof {
                let front = chars@.subrange(from as int, at - 1);
                assert(chars@.subrange(from as int, chars@.len() as int) =~= front + tail);
                lemma_byte_len_add(front, tail);
            }
            return None;
        }
        n = n + w;
        at = at - 1;
    }
    Some(n)
}

/// `pat` stands in `s` at position `i`.
pub open spec fn occurs_at(s: Seq<char>, pat: Seq<char>, i: int) -> bool {
    0 <= i && i + pat.len() <= s.len() && s.subrange(i, i + pat.len()) == pat
}

/// `pat` stands somewhere in `s`.
pub open spec fn occurs(s: Seq<char>, pat: Seq<char>) -> bool {
    exists|i: int| occurs_at(s, pat, i)
}

/// The first position from `from` on at which `pat` stands in `s`.
pub open spec fn first_at(s: Seq<char>, pat: Seq<char>, from: int) -> Option<int>
    decreases s.len() + 1 - from,
{
    if from + pat.len() > s.len() {
        None
    } else if occurs_at(s, pat, from) {
        Some(from)
    } else {
        first_at(s, pat, from + 1)
    }
}

fn stands_at(s: &Vec<char>, pat: &Vec<char>, i: usize) -> (r: bool)
    requires
        i + pat@.len() <= s@.len(),
    ensures
        r == occurs_at(s@, pat@, i as int),
{
    let mut k: usize = 0;
    while k < pat.len()
        invariant
            k <= pat@.len(),
            i + pat@.len() <= s@.len() == s.len(),
            forall|j: int| 0 <= j < k ==> s@[i + j] == #[trigger] pat@[j],
        decreases pat.len() - k,
    {
        if s[i + k] != pat[k] {
            assert(s@.subrange(i as int, i + pat@.len())[k as int] != pat@[k as int]);
            return false;
        }
        k = k + 1;
    }
    assert(s@.subrange(i as int, i + pat@.len()) =~= pat@);
    true
}

/// The first position from `from` on at which `pat` stands in `s`.
pub fn find_from(s: &Vec<char>, pat: &Vec<char>, from: usize) -> (r: Option<usize>)
    requires
        from <= s@.len(),
    ensures
        match r {
            Some(i) => first_at(s@, pat@, from as int) == Some(i as int) && from <= i && i + pat@.len()
                <= s@.len(),
            None => first_at(s@, pat@, from as int) is None,
        },
{
    let mut i: usize = from;
    while pat.len() <= s.len() - i
        invariant
            from <= i <= s@.len(),
            first_at(s@, pat@, from as int) == first_at(s@, pat@, i as int),
        decreases s.len() - i,
    {
        if stands_at(s, pat, i) {
            return Some(i);
        }
        if i == s.len() {
            assert(first_at(s@, pat@, i + 1) is None);
            return None;
        }
        i = i + 1;
    }
    None
}

/// Searching finds an occurrence exactly where there is one.
pub proof fn lemma_first_at(s: Seq<char>, pat: Seq<char>, from: int)
    requires
        0 <= from,
    ensures
        match first_at(s, pat, from) {
            Some(i) => from <= i && occurs_at(s, pat, i) && forall|k: int|
                from <= k < i ==> !occurs_at(s, pat, k),
            None => forall|k: int| from <= k ==> !occurs_at(s, pat, k),
        },
    decreases s.len() + 1 - from,
{
    if from + pat.len() <= s.len() && !occurs_at(s, pat, from) {
        lemma_first_at(s, pat, from + 1);
    }
}

/// Where nothing occurs before `i` and `pat` stands at `i`, the search ends
/// there.
pub proof fn lemma_first_is(s: Seq<char>, pat: Seq<char>, from: int, i: int)
    requires
        0 <= from <= i,
        occurs_at(s, pat, i),
        forall|k: int| from <= k < i ==> !occurs_at(s, pat, k),
    ensures
        first_at(s, pat, from) == Some(i),
{
    lemma_first_at(s, pat, from);
}

/// Whether `pat` stands somewhere in `s`.
pub fn contains(s: &str, pat: &str) -> (r: bool)
    ensures
        r == occurs(s@, pat@),
{
    let x = chars_of(s);
    let y = chars_of(pat);
    proof {
        lemma_first_at(s@, pat@, 0);
    }
    match find_from(&x, &y, 0) {
        Some(_) => true,
        None => false,
    }
}

/// A leading zero does not change the number that digits write.
pub proof fn lemma_leading_zero(s: Seq<char>)
    ensures
        digits_value(seq!['0'] + s) == digits_value(s),
        all_digits(s) ==> all_digits(seq!['0'] + s),
    decreases s.len(),
{
    let t = seq!['0'] + s;
    if s.len() == 0 {
        assert(t =~= seq!['0']);
        assert(seq!['0'].drop_last() =~= Seq::<char>::empty());
        assert(digits_value(Seq::<char>::empty()) == 0);
        assert(digits_value(s) == 0);
    } else {
        lemma_leading_zero(s.drop_last());
        assert(t.drop_last() =~= seq!['0'] + s.drop_last());
        assert(t.last() == s.last());
    }
}

/// Below a hundred the two-digit form has two digits.
pub proof fn lemma_decimal2_len(n: nat)
    requires
        n < 100,
    ensures
        decimal2(n).len() == 2,
{
    reveal_with_fuel(decimal, 2);
}

/// White space: around a text it is what trimming takes away, and nothing else.
pub proof fn law_trim_takes_white_space(s: Seq<char>)
    ensures
        ({
            let t = trim(s);
            &&& t.len() > 0 ==> !is_white(t[0]) && !is_white(t.last())
            &&& exists|a: int, b: int|
                0 <= a <= b <= s.len() && t == #[trigger] s.subrange(a, b) && (forall|i: int|
                    0 <= i < a || b <= i < s.len() ==> is_white(#[trigger] s[i]))
        }),
{
    let a = lemma_trim_start_cut(s);
    let u = trim_start(s);
    let n = lemma_trim_end_cut(u);
    let b = a + n;
    assert(trim(s) =~= s.subrange(a, b));
    assert forall|i: int| 0 <= i < a || b <= i < s.len() implies is_white(#[trigger] s[i]) by {
        if i >= b {
            assert(u[i - a] == s[i]);
        }
    }
}

proof fn lemma_trim_start_cut(s: Seq<char>) -> (a: int)
    ensures
        0 <= a <= s.len(),
        trim_start(s) == s.subrange(a, s.len() as int),
        forall|i: int| 0 <= i < a ==> is_white(#[trigger] s[i]),
        a < s.len() ==> !is_white(s[a]),
    decreases s.len(),
{
    if s.len() > 0 && is_white(s[0]) {
        let t = s.drop_first();
        let a = lemma_trim_start_cut(t);
        assert(t.subrange(a, t.len() as int) =~= s.subrange(a + 1, s.len() as int));
        assert forall|i: int| 0 <= i < a + 1 implies is_white(#[trigger] s[i]) by {
            if i > 0 {
                assert(is_white(t[i - 1]));
            }
        }
        if a + 1 < s.len() {
            assert(s[a + 1] == t[a]);
        }
        a + 1
    } else {
        assert(s.subrange(0, s.len() as int) =~= s);
        0
    }
}

proof fn lemma_trim_end_cut(s: Seq<char>) -> (n: int)
    ensures
        0 <= n <= s.len(),
        trim_end(s) == s.subrange(0, n),
        forall|i: int| n <= i < s.len() ==> is_white(#[trigger] s[i]),
        n > 0 ==> !is_white(s[n - 1]),
    decreases s.len(),
{
    if s.len() > 0 && is_white(s.last()) {
        let t = s.drop_last();
        let n = lemma_trim_end_cut(t);
        assert(t.subrange(0, n) =~= s.subrange(0, n));
        assert forall|i: int| n <= i < s.len() implies is_white(#[trigger] s[i]) by {
            if i < t.len() {
                assert(is_white(t[i]));
            }
        }
        if n > 0 {
            assert(s[n - 1] == t[n - 1]);
        }
        n
    } else {
        assert(s.subrange(0, s.len() as int) =~= s);
        s.len() as int
    }
}

/// The letters of ASCII come in pairs: upper case and lower case are the same number
/// of places into their alphabets. Every other character has no case.
pub proof fn law_ascii_case(c: char)
    ensures
        'a' <= c <= 'z' ==> 'A' <= upper_char(c) <= 'Z' && upper_char(c) as u32 - 'A' as u32 == c as u32 - 'a' as u32,
        'A' <= c <= 'Z' ==> 'a' <= lower_char(c) <= 'z' && lower_char(c) as u32 - 'a' as u32 == c as u32 - 'A' as u32,
        !('a' <= c <= 'z') ==> upper_char(c) == c,
        !('A' <= c <= 'Z') ==> lower_char(c) == c,
{
}

/// In ASCII, white space is the space, the tabs, the line breaks and the form feed.
pub proof fn law_ascii_white_space(c: char)
    requires
        (c as u32) < 0x80,
    ensures
        is_white(c) <==> c == ' ' || c == '\t' || c == '\n' || c == '\r' || c as u32 == 0xB || c as u32 == 0xC,
{
}

/// A text is numbered by its characters in bytes: ASCII takes one byte for each.
pub proof fn law_ascii_bytes(s: Seq<char>, n: nat)
    requires
        all_ascii(s),
        n <= s.len(),
    ensures
        byte_len(s) == s.len(),
        chars_in_bytes(s, n) == Some(n),
    decreases s.len(),
{
    if s.len() > 0 {
        let (front, tail) = (s.drop_last(), s.drop_first());
        assert(all_ascii(front)) by {
            assert forall|i: int| 0 <= i < front.len() implies (#[trigger] front[i] as u32) < 128 by {
                assert((s[i] as u32) < 128);
            }
        }
        assert(all_ascii(tail)) by {
            assert forall|i: int| 0 <= i < tail.len() implies (#[trigger] tail[i] as u32) < 128 by {
                assert((s[i + 1] as u32) < 128);
            }
        }
        assert((s[0] as u32) < 128);
        assert((s[s.len() - 1] as u32) < 128);
        law_ascii_bytes(front, 0);
        law_ascii_bytes(
            tail,
            if n > 0 {
                (n - 1) as nat
            } else {
                0
            },
        );
    }
}

/// A number that is written in decimal is read as it is, with a plus sign or without
/// one, up to the largest that is allowed; with a minus sign only where signs are.
pub proof fn law_numbers_are_read(n: nat, max: nat)
    ensures
        unsigned_value(decimal(n), max) == if n <= max {
            Some(n)
        } else {
            None
        },
        unsigned_value(seq!['+'] + decimal(n), max) == unsigned_value(decimal(n), max),
        unsigned_value(seq!['-'] + decimal(n), max) is None,
        signed_value(decimal(n), max) == if n <= max {
            Some(n as int)
        } else {
            None
        },
        signed_value(seq!['+'] + decimal(n), max) == signed_value(decimal(n), max),
        signed_value(seq!['-'] + decimal(n), max) == if n <= max + 1 {
            Some(-(n as int))
        } else {
            None
        },
        unsigned_value(Seq::empty(), max) is None,
        signed_value(Seq::empty(), max) is None,
{
    let d = decimal(n);
    lemma_decimal_value(n);
    assert('0' <= d[0] <= '9');
    assert((seq!['+'] + d).drop_first() =~= d);
    let m = seq!['-'] + d;
    assert(m.drop_first() =~= d);
    assert(m[0] == '-');
    assert(!all_digits(m));
}

/// A number with anything in it but digits behind its sign is none.
pub proof fn law_only_digits_are_read(s: Seq<char>, max: nat, i: int)
    requires
        0 < i < s.len(),
        !('0' <= s[i] <= '9'),
    ensures
        unsigned_value(s, max) is None,
        signed_value(s, max) is None,
{
    let t = s.drop_first();
    assert(t[i - 1] == s[i]);
}

/// White space of any kind parts words, and more of it makes no more of them.
pub proof fn law_white_space_parts_words(a: Seq<char>, c: char, rest: Seq<char>)
    requires
        is_word(a),
        is_white(c),
    ensures
        words(a) == seq![a],
        words(a + seq![c] + rest) == seq![a] + words(rest),
        words(seq![c] + rest) == words(rest),
        words(Seq::<char>::empty()) == Seq::<Seq<char>>::empty(),
{
    lemma_words_one(a);
    let tail = seq![c] + rest;
    assert(a + seq![c] + rest =~= a + tail);
    lemma_words_from(a, tail, seq![]);
    assert(Seq::<char>::empty() + a =~= a);
    assert(tail[0] == c);
    assert(tail.drop_first() =~= rest);
}

} // verus!
