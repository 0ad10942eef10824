//! Frequencies in megahertz as text. A text stands for the double-precision number
//! that it reads as; it is written with six decimals.
use vstd::prelude::*;
use vstd::string::*;

use crate::adif::{count_digits, digit_run, is_exponent as is_exponent_part, is_float, is_number, number_at};
use crate::digits::{
    are_digits, lemma_ten_adds, lemma_ten_grows, lemma_ten_positive, lemma_value_add, lemma_value_bound, ten,
    trimmed, value, zero_below,
};
use crate::double::{
    double_text, law_large_is_infinite, law_small_is_zero, low_digits, millionths, point_text, with_point,
    write_double,
};
use crate::text::{
    all_digits, ascii_lower, chars_of, decimal, digits_value, lemma_decimal_value, same, text_of, to_lower,
};

verus! {

/// A text without its sign, where it has one.
pub open spec fn magnitude(s: Seq<char>) -> Seq<char> {
    if s.len() > 0 && (s[0] == '+' || s[0] == '-') {
        s.drop_first()
    } else {
        s
    }
}

/// The digits before the point.
pub open spec fn whole_digits(t: Seq<char>) -> Seq<char> {
    t.take(digit_run(t) as int)
}

/// The digits behind the point.
pub open spec fn fraction_digits(t: Seq<char>) -> Seq<char> {
    let tail = t.skip(digit_run(t) as int);
    if tail.len() > 0 && tail[0] == '.' {
        tail.drop_first().take(digit_run(tail.drop_first()) as int)
    } else {
        Seq::empty()
    }
}

/// What follows the digits.
pub open spec fn behind_digits(t: Seq<char>) -> Seq<char> {
    let tail = t.skip(digit_run(t) as int);
    if tail.len() > 0 && tail[0] == '.' {
        tail.drop_first().skip(digit_run(tail.drop_first()) as int)
    } else {
        tail
    }
}

/// The power of ten that an exponent writes; none is zero.
pub open spec fn exponent_written(x: Seq<char>) -> int {
    if x.len() == 0 {
        0
    } else {
        let u = x.drop_first();
        if u.len() > 0 && u[0] == '-' {
            -(digits_value(u.drop_first()) as int)
        } else if u.len() > 0 && u[0] == '+' {
            digits_value(u.drop_first()) as int
        } else {
            digits_value(u) as int
        }
    }
}

/// All digits of a number as one whole number.
pub open spec fn all_of_digits(t: Seq<char>) -> nat {
    digits_value(whole_digits(t) + fraction_digits(t))
}

/// A number without its sign, read as a double and written with six decimals.
pub open spec fn number_text(t: Seq<char>) -> Seq<char> {
    let shift = exponent_written(behind_digits(t)) - fraction_digits(t).len();
    if shift >= 0 {
        double_text(all_of_digits(t) * ten(shift as nat), 0)
    } else {
        double_text(all_of_digits(t), (-shift) as nat)
    }
}

/// A text that writes a floating-point number, read as a double and written with six
/// decimals. Other texts stay as they are.
pub open spec fn six_decimals(s: Seq<char>) -> Seq<char> {
    let t = magnitude(s);
    let sign = if s.len() > 0 && s[0] == '-' {
        "-"@
    } else {
        ""@
    };
    if is_number(t) {
        sign + number_text(t)
    } else if ascii_lower(t) == "inf"@ || ascii_lower(t) == "infinity"@ {
        sign + "inf"@
    } else if ascii_lower(t) == "nan"@ {
        "NaN"@
    } else {
        s
    }
}

/// No exponent is read beyond this: 10 to the 30.
const CAP: u128 = 1_000_000_000_000_000_000_000_000_000_000;

/// Digits as numbers, the last one first.
spec fn reversed(s: Seq<char>) -> Seq<u8> {
    Seq::new(s.len(), |i: int| (s[s.len() - 1 - i] as u32 - '0' as u32) as u8)
}

proof fn lemma_reversed(s: Seq<char>)
    requires
        all_digits(s),
    ensures
        are_digits(reversed(s)),
        value(reversed(s)) == digits_value(s),
    decreases s.len(),
{
    let d = reversed(s);
    assert forall|i: int| 0 <= i < d.len() implies #[trigger] d[i] <= 9 by {
        assert('0' <= s[s.len() - 1 - i] <= '9');
    }
    if s.len() > 0 {
        let r = s.drop_last();
        assert(all_digits(r)) by {
            assert forall|i: int| 0 <= i < r.len() implies '0' <= #[trigger] r[i] <= '9' by {
                assert(s[i] == r[i]);
            }
        }
        lemma_reversed(r);
        assert(d.drop_first() =~= reversed(r));
        assert('0' <= s[s.len() - 1] <= '9');
        assert(d[0] == s.last() as u32 - '0' as u32);
    }
}

pub proof fn lemma_run_is_digits(t: Seq<char>)
    ensures
        digit_run(t) <= t.len(),
        all_digits(t.take(digit_run(t) as int)),
    decreases t.len(),
{
    if t.len() > 0 && '0' <= t[0] <= '9' {
        let rest = t.drop_first();
        lemma_run_is_digits(rest);
        let n = digit_run(rest) as int;
        assert forall|i: int| 0 <= i < n + 1 implies '0' <= #[trigger] t.take(n + 1)[i] <= '9' by {
            if i > 0 {
                assert(rest.take(n)[i - 1] == t[i]);
            }
        }
    }
}

/// Appends the digits of a part of a text, the last one first.
fn push_reversed(d: &mut Vec<u8>, x: &Vec<char>, lo: usize, hi: usize)
    requires
        lo <= hi <= x@.len(),
        all_digits(x@.subrange(lo as int, hi as int)),
    ensures
        final(d)@ == old(d)@ + reversed(x@.subrange(lo as int, hi as int)),
{
    let ghost part = x@.subrange(lo as int, hi as int);
    let mut i: usize = hi;
    assert(reversed(part).take(0) =~= seq![]);
    assert(d@ =~= old(d)@ + reversed(part).take(0));
    while i > lo
        invariant
            lo <= i <= hi <= x@.len(),
            part == x@.subrange(lo as int, hi as int),
            all_digits(part),
            d@ == old(d)@ + reversed(part).take(hi - i),
        decreases i,
    {
        i = i - 1;
        assert('0' <= part[i - lo] <= '9');
        let c: char = x[i];
        d.push((c as u32 - 48) as u8);
        assert(reversed(part)[hi - i - 1] == (c as u32 - 48) as u8);
        assert(reversed(part).take(hi - i) =~= reversed(part).take(hi - i - 1).push((c as u32 - 48) as u8));
        assert(d@ =~= old(d)@ + reversed(part).take(hi - i));
    }
    assert(reversed(part).take(hi - lo) =~= reversed(part));
}

/// The number that digits write, but no more than 10 to the 30.
fn capped_value(x: &Vec<char>, lo: usize) -> (e: u128)
    requires
        lo <= x@.len(),
        all_digits(x@.skip(lo as int)),
    ensures
        e <= CAP,
        e < CAP ==> e == digits_value(x@.skip(lo as int)),
        e == CAP ==> digits_value(x@.skip(lo as int)) >= e,
{
    let ghost all = x@.skip(lo as int);
    let mut e: u128 = 0;
    let mut i: usize = lo;
    assert(all.take(0) =~= Seq::<char>::empty());
    while i < x.len()
        invariant
            lo <= i <= x@.len(),
            all == x@.skip(lo as int),
            all_digits(all),
            e <= CAP,
            e < CAP ==> e == digits_value(all.take(i - lo)),
            e == CAP ==> digits_value(all.take(i - lo)) >= e,
        decreases x.len() - i,
    {
        let c: char = x[i];
        assert(all[i - lo] == c);
        assert('0' <= c <= '9');
        assert(all.take(i + 1 - lo).drop_last() =~= all.take(i - lo));
        assert(all.take(i + 1 - lo).last() == c);
        let next: u128 = e * 10 + (c as u32 - 48) as u128;
        e = if next < CAP {
            next
        } else {
            CAP
        };
        i = i + 1;
    }
    assert(all.take(i - lo) =~= all);
    e
}

proof fn lemma_shift_up(m: nat, shift: nat)
    requires
        m > 0,
        shift >= 400,
    ensures
        double_text(m * ten(shift), 0) == "inf"@,
{
    lemma_ten_grows(400, shift);
    let t = ten(shift);
    assert(m * t >= t) by (nonlinear_arith)
        requires
            m > 0,
    ;
    law_large_is_infinite(m * t);
}

proof fn lemma_shift_down(m: nat, nd: nat, f: nat)
    requires
        m < ten(nd),
        f >= nd + 8,
    ensures
        double_text(m, f) == with_point(0),
{
    lemma_ten_adds(nd, 8);
    lemma_ten_grows(nd + 8, f);
    lemma_ten_positive(8);
    let (a, b) = (ten(nd), ten(8));
    assert(m * b <= a * b) by (nonlinear_arith)
        requires
            m < a,
    ;
    law_small_is_zero(m, f);
}

proof fn lemma_zero(f: nat)
    ensures
        double_text(0, f) == with_point(0),
{
    lemma_ten_positive(f);
    assert(0 * ten(8) == 0);
    law_small_is_zero(0, f);
}

/// Writes the digits `d` shifted up by `shift` places.
fn write_up(d: &Vec<u8>, shift: u128) -> (r: String)
    requires
        are_digits(d@),
        value(d@) > 0,
    ensures
        r@ == double_text(value(d@) * ten(shift as nat), 0),
{
    if shift >= 400 {
        proof {
            lemma_shift_up(value(d@), shift as nat);
        }
        return "inf".to_owned();
    }
    let mut v: Vec<u8> = Vec::new();
    let mut i: u128 = 0;
    while i < shift
        invariant
            i <= shift,
            v@.len() == i,
            are_digits(v@),
            value(v@) == 0,
        decreases shift - i,
    {
        proof {
            crate::digits::lemma_value_push(v@, 0);
            assert(ten(v@.len()) * 0 == 0);
        }
        v.push(0);
        i = i + 1;
    }
    let ghost zeros = v@;
    let mut j: usize = 0;
    assert(d@.take(0) =~= seq![]);
    assert(v@ =~= zeros + d@.take(0));
    while j < d.len()
        invariant
            j <= d@.len(),
            are_digits(d@),
            are_digits(v@),
            v@ == zeros + d@.take(j as int),
        decreases d.len() - j,
    {
        assert(d@[j as int] <= 9);
        v.push(d[j]);
        assert(zeros + d@.take(j + 1) =~= (zeros + d@.take(j as int)).push(d@[j as int]));
        j = j + 1;
    }
    proof {
        assert(d@.take(j as int) =~= d@);
        lemma_value_add(zeros, d@);
        let (a, b) = (ten(shift as nat), value(d@));
        assert(a * b == b * a) by (nonlinear_arith);
    }
    write_double(&v, 0)
}

/// Writes the digits `d` over the power `f` of ten.
fn write_down(d: &Vec<u8>, f: u128) -> (r: String)
    requires
        are_digits(d@),
        f <= 0xffff_ffff_ffff_ffff_ffff_ffff_ffff,
    ensures
        r@ == double_text(value(d@), f as nat),
        f >= d@.len() + 8 ==> r@ == with_point(0),
{
    let nd: usize = d.len();
    proof {
        lemma_value_bound(d@);
        if f >= nd + 8 {
            lemma_shift_down(value(d@), nd as nat, f as nat);
        }
    }
    if f >= nd as u128 + 8 {
        let none: Vec<u8> = Vec::new();
        point_text(none)
    } else {
        write_double(d, f)
    }
}

/// Reads the digits of the number at `x[from..]`: the digits, how many of them stand
/// behind the point, and where what follows them starts.
fn read_digits(x: &Vec<char>, from: usize) -> (r: (Vec<u8>, usize, usize))
    requires
        from <= x@.len(),
    ensures
        ({
            let t = x@.skip(from as int);
            &&& are_digits(r.0@)
            &&& value(r.0@) == all_of_digits(t)
            &&& r.1 == fraction_digits(t).len()
            &&& r.2 <= x@.len()
            &&& behind_digits(t) == x@.skip(r.2 as int)
        }),
{
    let ghost t = x@.skip(from as int);
    let n: usize = x.len();
    let w: usize = count_digits(x, from);
    let at: usize = from + w;
    proof {
        lemma_run_is_digits(t);
        assert(t.skip(w as int) =~= x@.skip(at as int));
        assert(x@.subrange(from as int, at as int) =~= whole_digits(t));
    }
    let mut lo: usize = at;
    let mut hi: usize = at;
    if at < n && x[at] == '.' {
        lo = at + 1;
        assert(x@.skip(at as int).drop_first() =~= x@.skip(lo as int));
        let frac: usize = count_digits(x, lo);
        hi = lo + frac;
        proof {
            lemma_run_is_digits(x@.skip(lo as int));
            assert(x@.skip(lo as int).take(frac as int) =~= x@.subrange(lo as int, hi as int));
            assert(x@.skip(lo as int).skip(frac as int) =~= x@.skip(hi as int));
        }
    } else {
        assert(x@.subrange(lo as int, hi as int) =~= Seq::<char>::empty());
    }
    let ghost fr = fraction_digits(t);
    assert(x@.subrange(lo as int, hi as int) == fr);
    let mut d: Vec<u8> = Vec::new();
    push_reversed(&mut d, x, lo, hi);
    push_reversed(&mut d, x, from, at);
    proof {
        let s = whole_digits(t) + fr;
        assert(all_digits(s)) by {
            assert forall|i: int| 0 <= i < s.len() implies '0' <= #[trigger] s[i] <= '9' by {
                if i < w {
                    assert(whole_digits(t)[i] == s[i]);
                } else {
                    assert(fr[i - w] == s[i]);
                }
            }
        }
        lemma_reversed(s);
        assert(d@ =~= reversed(s));
    }
    (d, hi - lo, hi)
}

/// Reads the exponent at `x[at..]`: whether it is negative, and its size, capped.
fn read_exponent(x: &Vec<char>, at: usize) -> (r: (bool, u128))
    requires
        at <= x@.len(),
        at < x@.len() ==> is_exponent_part(x@.skip(at as int)),
    ensures
        ({
            let v = exponent_written(x@.skip(at as int));
            let size = if r.0 {
                -v
            } else {
                v
            };
            &&& r.1 <= CAP
            &&& r.1 < CAP ==> r.1 == size
            &&& r.1 == CAP ==> size >= CAP
        }),
{
    if at == x.len() {
        assert(x@.skip(at as int) =~= Seq::<char>::empty());
        return (false, 0);
    }
    let ghost part = x@.skip(at as int);
    let mut first: usize = at + 1;
    assert(part.drop_first() =~= x@.skip(first as int));
    assert(part.drop_first().len() > 0);
    let minus = x[first] == '-';
    if minus || x[first] == '+' {
        assert(x@.skip(first as int).drop_first() =~= x@.skip(first + 1));
        first = first + 1;
    }
    proof {
        let digits = x@.skip(first as int);
        lemma_run_is_digits(digits);
        assert(digits.take(digits.len() as int) =~= digits);
    }
    (minus, capped_value(x, first))
}

/// The digits `m` with `flen` of them behind the point and the exponent `v`.
spec fn shifted_text(m: nat, flen: int, v: int) -> Seq<char> {
    let shift = v - flen;
    if shift >= 0 {
        double_text(m * ten(shift as nat), 0)
    } else {
        double_text(m, (-shift) as nat)
    }
}

/// Writes digits of which `flen` stand behind the point, with an exponent.
fn write_shifted(d: &Vec<u8>, flen: usize, minus: bool, e: u128, Ghost(v): Ghost<int>) -> (r: String)
    requires
        are_digits(d@),
        value(d@) > 0,
        e <= CAP,
        e < CAP ==> v == (if minus {
            -(e as int)
        } else {
            e as int
        }),
        e == CAP ==> (if minus {
            v <= -CAP
        } else {
            v >= CAP
        }),
    ensures
        r@ == shifted_text(value(d@), flen as int, v),
{
    assert(d.len() == d@.len());
    proof {
        if e == CAP {
            if minus {
                lemma_value_bound(d@);
                lemma_shift_down(value(d@), d@.len(), (flen - v) as nat);
            } else {
                lemma_shift_up(value(d@), (v - flen) as nat);
                lemma_shift_up(value(d@), (e - flen) as nat);
            }
        }
    }
    let f: u128 = flen as u128;
    if minus {
        write_down_or_up(d, f + e)
    } else if e >= f {
        write_up(d, e - f)
    } else {
        write_down(d, f - e)
    }
}

/// Writes the number at `x[from..]`.
fn write_number(x: &Vec<char>, from: usize) -> (r: String)
    requires
        from <= x@.len(),
        is_number(x@.skip(from as int)),
    ensures
        r@ == number_text(x@.skip(from as int)),
{
    let ghost t = x@.skip(from as int);
    let (d, flen, hi) = read_digits(x, from);
    let ghost v = exponent_written(behind_digits(t));
    let all: usize = d.len();
    assert(d@.take(all as int) =~= d@);
    let zero = zero_below(&d, all);
    if zero {
        proof {
            let shift = v - flen;
            if shift >= 0 {
                assert(0 * ten(shift as nat) == 0);
                lemma_zero(0);
            } else {
                lemma_zero((-shift) as nat);
            }
        }
        let none: Vec<u8> = Vec::new();
        return point_text(none);
    }
    assert(x@.skip(hi as int).len() == x@.len() - hi);
    let (minus, e) = read_exponent(x, hi);
    write_shifted(&trimmed(d, 0), flen, minus, e, Ghost(v))
}

/// Writes the digits `d` over the power `f` of ten, which may be none.
fn write_down_or_up(d: &Vec<u8>, f: u128) -> (r: String)
    requires
        are_digits(d@),
        value(d@) > 0,
        f <= 0xffff_ffff_ffff_ffff_ffff_ffff_ffff,
    ensures
        f > 0 ==> r@ == double_text(value(d@), f as nat),
        f == 0 ==> r@ == double_text(value(d@) * ten(0), 0),
        f >= d@.len() + 8 ==> r@ == with_point(0),
{
    if f == 0 {
        write_up(d, 0)
    } else {
        write_down(d, f)
    }
}

/// A frequency read as a double and written with six decimals, where it is a number;
/// otherwise the text as it is.
pub fn with_six_decimals(s: &str) -> (r: String)
    ensures
        r@ == six_decimals(s@),
{
    let x = chars_of(s);
    let n: usize = x.len();
    let from: usize = if n > 0 && (x[0] == '+' || x[0] == '-') {
        1
    } else {
        0
    };
    let ghost t = magnitude(s@);
    assert(x@.skip(from as int) =~= t);
    proof {
        reveal_strlit("-");
        reveal_strlit("");
    }
    let mut r = if n > 0 && x[0] == '-' {
        "-".to_owned()
    } else {
        "".to_owned()
    };
    if number_at(&x, from) {
        let text = write_number(&x, from);
        r.append(text.as_str());
        return r;
    }
    let body = text_of(&x, from, n);
    assert(body@ =~= t);
    let word = to_lower(body.as_str());
    if same(word.as_str(), "inf") || same(word.as_str(), "infinity") {
        r.append("inf");
        r
    } else if same(word.as_str(), "nan") {
        "NaN".to_owned()
    } else {
        s.to_owned()
    }
}

/// Digits in front are all counted, up to what is none.
proof fn lemma_run_of(a: Seq<char>, r: Seq<char>)
    requires
        all_digits(a),
        r.len() == 0 || !('0' <= r[0] <= '9'),
    ensures
        digit_run(a + r) == a.len(),
    decreases a.len(),
{
    if a.len() == 0 {
        assert(a + r =~= r);
    } else {
        assert((a + r).drop_first() =~= a.drop_first() + r);
        assert(a[0] == (a + r)[0]);
        assert forall|i: int| 0 <= i < a.drop_first().len() implies '0' <= #[trigger] a.drop_first()[i] <= '9' by {
            assert(a[i + 1] == a.drop_first()[i]);
        }
        lemma_run_of(a.drop_first(), r);
    }
}

proof fn lemma_low_digits(n: nat, k: nat)
    ensures
        low_digits(n, k).len() == k,
        all_digits(low_digits(n, k)),
    decreases k,
{
    if k > 0 {
        lemma_low_digits(n / 10, (k - 1) as nat);
    }
}

proof fn lemma_point_is_number(n: nat)
    ensures
        is_number(with_point(n)),
        with_point(n).len() > 0,
        '0' <= with_point(n)[0] <= '9',
{
    reveal_strlit(".");
    let d = decimal(n / 1_000_000);
    let g = low_digits(n, 6);
    lemma_decimal_value(n / 1_000_000);
    lemma_low_digits(n, 6);
    let u = with_point(n);
    assert(u =~= d + ("."@ + g));
    assert('0' <= d[0] <= '9');
    lemma_run_of(d, "."@ + g);
    let tail = u.skip(d.len() as int);
    assert(tail =~= "."@ + g);
    assert(tail.drop_first() =~= g);
    lemma_run_of(g, Seq::empty());
    assert(g + Seq::<char>::empty() =~= g);
    assert(g.skip(6) =~= Seq::<char>::empty());
}

/// What is written reads as a floating-point number again.
pub proof fn law_written_reads_back(s: Seq<char>)
    requires
        is_float(s),
    ensures
        is_float(six_decimals(s)),
{
    reveal_strlit("-");
    reveal_strlit("");
    reveal_strlit("inf");
    reveal_strlit("nan");
    reveal_strlit("NaN");
    let t = magnitude(s);
    let sign = if s.len() > 0 && s[0] == '-' {
        "-"@
    } else {
        ""@
    };
    let r = six_decimals(s);
    if is_number(t) {
        let shift = exponent_written(behind_digits(t)) - fraction_digits(t).len();
        let (n, f) = if shift >= 0 {
            (all_of_digits(t) * ten(shift as nat), 0)
        } else {
            (all_of_digits(t), (-shift) as nat)
        };
        let u = double_text(n, f);
        lemma_point_is_number(millionths(n, f));
        assert(ascii_lower("inf"@) =~= "inf"@);
        assert(u[0] != '+' && u[0] != '-');
        if s[0] == '-' {
            assert(r.drop_first() =~= u);
        } else {
            assert(r =~= u);
        }
    } else if ascii_lower(t) == "inf"@ || ascii_lower(t) == "infinity"@ {
        assert(ascii_lower("inf"@) =~= "inf"@);
        if s.len() > 0 && s[0] == '-' {
            assert(r.drop_first() =~= "inf"@);
        } else {
            assert(r =~= "inf"@);
        }
    } else {
        assert(ascii_lower("NaN"@) =~= "nan"@);
    }
}

/// What is written holds no opening bracket and no line break.
pub proof fn law_written_is_plain(s: Seq<char>)
    requires
        is_float(s),
    ensures
        forall|i: int|
            0 <= i < six_decimals(s).len() ==> #[trigger] six_decimals(s)[i] != '<' && six_decimals(s)[i] != '\n',
{
    reveal_strlit("-");
    reveal_strlit("");
    reveal_strlit(".");
    reveal_strlit("inf");
    reveal_strlit("NaN");
    let t = magnitude(s);
    if is_number(t) {
        let shift = exponent_written(behind_digits(t)) - fraction_digits(t).len();
        let (n, f) = if shift >= 0 {
            (all_of_digits(t) * ten(shift as nat), 0)
        } else {
            (all_of_digits(t), (-shift) as nat)
        };
        let c = millionths(n, f);
        let d = decimal(c / 1_000_000);
        let g = low_digits(c, 6);
        lemma_decimal_value(c / 1_000_000);
        lemma_low_digits(c, 6);
        let u = with_point(c);
        assert forall|i: int| 0 <= i < u.len() implies #[trigger] u[i] != '<' && u[i] != '\n' by {
            if i < d.len() {
                assert(u[i] == d[i]);
            } else if i > d.len() {
                assert(u[i] == g[i - d.len() - 1]);
            }
        }
        assert forall|i: int| 0 <= i < six_decimals(s).len() implies #[trigger] six_decimals(s)[i] != '<'
            && six_decimals(s)[i] != '\n' by {
            let sign: int = if s[0] == '-' {
                1
            } else {
                0
            };
            let v = double_text(n, f);
            if i >= sign {
                assert(six_decimals(s)[i] == v[i - sign]);
            }
        }
    }
}

} // verus!
