//! Decimal numbers as double-precision floating point holds them, by whole numbers
//! alone: `n` over a power of ten becomes the nearest number with 53 significant
//! bits, and that is written with six decimals.
//!
//! Everything is counted in units of the least positive double, 2 to the -1074.
use vstd::arithmetic::power2::{
    lemma2_to64, lemma2_to64_rest, lemma_pow2_adds, lemma_pow2_pos, lemma_pow2_strictly_increases, pow2,
};
use vstd::prelude::*;
use vstd::string::*;

use crate::digits::{
    are_digits, below, lemma_cut, lemma_round_is, lemma_round_near, lemma_round_ratio, lemma_ten_grows,
    lemma_ten_positive, lemma_value_add, lemma_value_bound, round_even, rounded, tail, ten, times, trimmed, value,
};
use crate::text::{decimal, digit_char};

verus! {

/// The double nearest to `n / 10^f` has the exponent `k`: the least one with which 53
/// bits suffice.
pub open spec fn is_exponent(n: nat, f: nat, k: nat) -> bool {
    &&& n * pow2(1074) < pow2(53) * pow2(k) * ten(f)
    &&& k > 0 ==> n * pow2(1074) >= pow2(53) * pow2((k - 1) as nat) * ten(f)
}

/// The exponent of the double nearest to `n / 10^f`.
pub open spec fn exponent(n: nat, f: nat) -> nat {
    choose|k: nat| is_exponent(n, f, k)
}

/// Its significant bits: `n / 10^f` in units of the exponent, rounded to a whole
/// number.
pub open spec fn significand(n: nat, f: nat) -> nat {
    round_even(n * pow2(1074), pow2(exponent(n, f)) * ten(f))
}

/// The number is too large for a double.
pub open spec fn is_infinite(n: nat, f: nat) -> bool {
    significand(n, f) * pow2(exponent(n, f)) >= pow2(2098)
}

/// The double nearest to `n / 10^f` in millionths, rounded to a whole number.
pub open spec fn millionths(n: nat, f: nat) -> nat {
    round_even(significand(n, f) * pow2(exponent(n, f)) * 1_000_000, pow2(1074))
}

/// The last `k` digits of a number.
pub open spec fn low_digits(n: nat, k: nat) -> Seq<char>
    decreases k,
{
    if k == 0 {
        seq![]
    } else {
        low_digits(n / 10, (k - 1) as nat).push(digit_char(n % 10))
    }
}

/// Millionths as a number with six decimals.
pub open spec fn with_point(n: nat) -> Seq<char> {
    decimal(n / 1_000_000) + "."@ + low_digits(n, 6)
}

/// `n / 10^f`, read as a double and written with six decimals.
pub open spec fn double_text(n: nat, f: nat) -> Seq<char> {
    if is_infinite(n, f) {
        "inf"@
    } else {
        with_point(millionths(n, f))
    }
}

/// The unit in which a whole number fits in 53 bits: a power of two.
pub open spec fn unit(n: nat) -> nat
    decreases n,
{
    if n < 0x20_0000_0000_0000 {
        1
    } else {
        2 * unit(n / 2)
    }
}

/// The double nearest to a whole number.
pub open spec fn as_double(n: nat) -> nat {
    round_even(n, unit(n)) * unit(n)
}

/// A number has no more than one exponent.
pub proof fn law_exponent_is_unique(n: nat, f: nat, k: nat)
    requires
        is_exponent(n, f, k),
    ensures
        exponent(n, f) == k,
{
    let e = exponent(n, f);
    assert(is_exponent(n, f, e));
    if e < k {
        lemma_exponents_apart(n, f, e, k);
    } else if k < e {
        lemma_exponents_apart(n, f, k, e);
    }
}

proof fn lemma_exponents_apart(n: nat, f: nat, a: nat, b: nat)
    requires
        is_exponent(n, f, a),
        a < b,
    ensures
        !is_exponent(n, f, b),
{
    let c = (b - 1) as nat;
    if a < c {
        lemma_pow2_strictly_increases(a, c);
    }
    lemma_pow2_pos(53);
    lemma_ten_positive(f);
    let (x, y, z, t) = (pow2(53), pow2(a), pow2(c), ten(f));
    assert(x * y * t <= x * z * t) by (nonlinear_arith)
        requires
            y <= z,
            x > 0,
            t > 0,
    ;
}

/// What is as large as 2 to the 1100 is too large.
proof fn lemma_huge(n: nat, f: nat, k: nat)
    requires
        is_exponent(n, f, k),
        k >= 2046,
    ensures
        is_infinite(n, f),
{
    law_exponent_is_unique(n, f, k);
    lemma_significand_floor(n, f, k);
    let m = significand(n, f);
    lemma_pow2_adds(52, k);
    if 2098 < 52 + k {
        lemma_pow2_strictly_increases(2098, 52 + k);
    }
    lemma_pow2_pos(k);
    let (x, y) = (pow2(52), pow2(k));
    assert(m * y >= x * y) by (nonlinear_arith)
        requires
            m >= x,
    ;
}

/// All but the least numbers use all their bits.
proof fn lemma_significand_floor(n: nat, f: nat, k: nat)
    requires
        is_exponent(n, f, k),
        k > 0,
    ensures
        significand(n, f) >= pow2(52),
{
    law_exponent_is_unique(n, f, k);
    lemma_pow2_pos(k);
    lemma_ten_positive(f);
    let p = n * pow2(1074);
    let (y, t, z) = (pow2(k), ten(f), pow2((k - 1) as nat));
    let q = y * t;
    lemma_pow2_adds(1, (k - 1) as nat);
    lemma_pow2_adds(1, 52);
    lemma2_to64();
    let x = pow2(52);
    assert(q > 0) by (nonlinear_arith)
        requires
            y > 0,
            t > 0,
            q == y * t,
    ;
    assert((2 * x) * z * t == x * q) by (nonlinear_arith)
        requires
            y == 2 * z,
            q == y * t,
    ;
    assert(p >= x * q);
    lemma_round_near(p, q);
    assert(p / q >= x) by (nonlinear_arith)
        requires
            p >= x * q,
            q > 0,
    ;
}

/// A significand fits in 53 bits, or is one more than that.
proof fn lemma_significand_ceiling(n: nat, f: nat, k: nat)
    requires
        is_exponent(n, f, k),
    ensures
        significand(n, f) <= pow2(53),
{
    law_exponent_is_unique(n, f, k);
    lemma_pow2_pos(k);
    lemma_ten_positive(f);
    let p = n * pow2(1074);
    let (y, t, x) = (pow2(k), ten(f), pow2(53));
    let q = y * t;
    let m = significand(n, f);
    assert(q > 0) by (nonlinear_arith)
        requires
            y > 0,
            t > 0,
            q == y * t,
    ;
    assert(p < x * q) by (nonlinear_arith)
        requires
            p < x * y * t,
            q == y * t,
    ;
    lemma_round_near(p, q);
    assert(m <= x) by (nonlinear_arith)
        requires
            2 * (m * q) <= 2 * p + q,
            p < x * q,
            q > 0,
    ;
}

/// Every number has an exponent: the scaled number `v / 10^g` shows it.
proof fn lemma_scaled_exponent(n: nat, f: nat, k: nat, v: nat, g: nat)
    requires
        v * ten(f) * pow2(k) == n * ten(g) * pow2(1074),
        v < pow2(53) * ten(g),
        k > 0 ==> v >= pow2(52) * ten(g),
    ensures
        is_exponent(n, f, k),
        significand(n, f) == round_even(v, ten(g)),
{
    lemma_ten_positive(f);
    lemma_ten_positive(g);
    lemma_pow2_pos(k);
    let (t, s, y, u, x) = (ten(f), ten(g), pow2(k), pow2(1074), pow2(53));
    let p = n * u;
    assert(p * s == v * (y * t)) by (nonlinear_arith)
        requires
            v * t * y == n * s * u,
            p == n * u,
    ;
    let q = y * t;
    assert(q > 0) by (nonlinear_arith)
        requires
            y > 0,
            t > 0,
            q == y * t,
    ;
    assert(p < x * y * t) by (nonlinear_arith)
        requires
            p * s == v * q,
            v < x * s,
            q == y * t,
            q > 0,
            s > 0,
    ;
    if k > 0 {
        let z = pow2((k - 1) as nat);
        let h = pow2(52);
        lemma_pow2_adds(1, (k - 1) as nat);
        lemma_pow2_adds(1, 52);
        lemma2_to64();
        assert(p >= h * q) by (nonlinear_arith)
            requires
                p * s == v * q,
                v >= h * s,
                q > 0,
                s > 0,
        ;
        assert(h * q == x * z * t) by (nonlinear_arith)
            requires
                x == 2 * h,
                y == 2 * z,
                q == y * t,
        ;
    }
    law_exponent_is_unique(n, f, k);
    assert(p * s == v * q);
    lemma_round_ratio(p, q, v, s);
}

proof fn lemma_pow2_exceeds(n: nat)
    ensures
        n < pow2(n),
    decreases n,
{
    if n == 0 {
        lemma2_to64();
    } else {
        lemma_pow2_exceeds((n - 1) as nat);
        lemma_pow2_adds(1, (n - 1) as nat);
        lemma2_to64();
    }
}

proof fn lemma_exponent_below(n: nat, f: nat, k: nat)
    requires
        n * pow2(1074) < pow2(53) * pow2(k) * ten(f),
    ensures
        exists|e: nat| e <= k && is_exponent(n, f, e),
    decreases k,
{
    if k > 0 && n * pow2(1074) < pow2(53) * pow2((k - 1) as nat) * ten(f) {
        lemma_exponent_below(n, f, (k - 1) as nat);
    } else {
        assert(is_exponent(n, f, k));
    }
}

/// Every number has an exponent.
pub proof fn law_exponent_exists(n: nat, f: nat)
    ensures
        is_exponent(n, f, exponent(n, f)),
{
    let k = n + 1074;
    lemma_pow2_exceeds(n);
    lemma_pow2_adds(n, 1074);
    lemma_pow2_pos(1074);
    lemma_pow2_pos(53);
    lemma_ten_positive(f);
    let (u, w, x, t) = (pow2(1074), pow2(n), pow2(53), ten(f));
    assert(n * u < x * (w * u) * t) by (nonlinear_arith)
        requires
            n < w,
            u > 0,
            x > 0,
            t > 0,
    ;
    lemma_exponent_below(n, f, k);
}

/// What still has a whole part of 53 bits at the greatest exponent is too large.
proof fn lemma_overflow(n: nat, f: nat, v: nat, g: nat)
    requires
        v * ten(f) * pow2(2045) == n * ten(g) * pow2(1074),
        v >= pow2(53) * ten(g),
    ensures
        is_infinite(n, f),
{
    law_exponent_exists(n, f);
    let e = exponent(n, f);
    lemma_ten_positive(f);
    lemma_ten_positive(g);
    lemma_pow2_pos(2045);
    let (t, s, y, u, x) = (ten(f), ten(g), pow2(2045), pow2(1074), pow2(53));
    let p = n * u;
    let q = y * t;
    assert(p * s == v * q) by (nonlinear_arith)
        requires
            v * t * y == n * s * u,
            p == n * u,
            q == y * t,
    ;
    assert(q > 0) by (nonlinear_arith)
        requires
            y > 0,
            t > 0,
            q == y * t,
    ;
    assert(p >= x * q) by (nonlinear_arith)
        requires
            p * s == v * q,
            v >= x * s,
            q > 0,
            s > 0,
    ;
    if e <= 2045 {
        if e < 2045 {
            lemma_pow2_strictly_increases(e, 2045);
        }
        let z = pow2(e);
        lemma_pow2_pos(53);
        assert(x * z * t <= x * q) by (nonlinear_arith)
            requires
                z <= y,
                q == y * t,
                x > 0,
                t > 0,
        ;
    }
    lemma_huge(n, f, e);
}

/// What is at least a power of ten beyond all doubles is too large.
pub proof fn law_large_is_infinite(n: nat)
    requires
        n >= ten(400),
    ensures
        is_infinite(n, 0),
{
    law_exponent_exists(n, 0);
    let e = exponent(n, 0);
    lemma_ten_pow2(400);
    lemma_pow2_adds(1200, 1074);
    lemma_pow2_adds(53, e);
    lemma_pow2_pos(1074);
    let (u, w) = (pow2(1074), pow2(1200));
    assert(n * u >= w * u) by (nonlinear_arith)
        requires
            n >= w,
    ;
    assert(ten(0) == 1);
    let whole = pow2(53) * pow2(e);
    assert(whole * 1 == whole);
    assert(whole == pow2(53 + e));
    if e < 2046 {
        lemma_pow2_strictly_increases(53 + e, 2274);
    }
    lemma_huge(n, 0, e);
}

proof fn lemma_ten_pow2(n: nat)
    ensures
        ten(n) >= pow2(3 * n),
    decreases n,
{
    if n == 0 {
        lemma2_to64();
    } else {
        lemma_ten_pow2((n - 1) as nat);
        lemma_pow2_adds(3, (3 * (n - 1)) as nat);
        lemma2_to64();
    }
}

/// What is less than a hundredth of a millionth is written as zero.
pub proof fn law_small_is_zero(n: nat, f: nat)
    requires
        n * ten(8) <= ten(f),
    ensures
        !is_infinite(n, f),
        millionths(n, f) == 0,
{
    law_exponent_exists(n, f);
    let e = exponent(n, f);
    let m = significand(n, f);
    lemma_ten_positive(f);
    lemma_pow2_pos(e);
    lemma_pow2_pos(1074);
    lemma_pow2_strictly_increases(64, 1074);
    lemma_pow2_strictly_increases(1074, 2098);
    lemma2_to64();
    assert(ten(8) == 100_000_000) by {
        reveal_with_fuel(ten, 9);
    }
    let (t, u, y) = (ten(f), pow2(1074), pow2(e));
    let p = n * u;
    let q = y * t;
    assert(q > 0) by (nonlinear_arith)
        requires
            y > 0,
            t > 0,
            q == y * t,
    ;
    lemma_round_near(p, q);
    assert(100_000_000 * p <= u * t) by (nonlinear_arith)
        requires
            n * 100_000_000 <= t,
            p == n * u,
    ;
    assert((2 * p + q) * 1_000_000 < u * t) by {
        if e == 0 {
            assert(q == t) by (nonlinear_arith)
                requires
                    q == y * t,
                    y == 1,
            ;
            assert(2 * t * 1_000_000 < u * t) by (nonlinear_arith)
                requires
                    t > 0,
                    u > 2_000_000,
            ;
            assert(u * t >= 0) by (nonlinear_arith);
        } else {
            lemma_pow2_adds(1, (e - 1) as nat);
            let z = pow2((e - 1) as nat);
            let x = pow2(53);
            lemma_pow2_strictly_increases(1, 53);
            assert(x >= 2);
            assert(x * z * t >= q) by (nonlinear_arith)
                requires
                    x >= 2,
                    y == 2 * z,
                    q == y * t,
            ;
            assert(p >= q);
            assert(u * t > 0) by (nonlinear_arith)
                requires
                    u > 0,
                    t > 0,
            ;
        }
    }
    let a = m * y;
    assert(m * q == a * t) by (nonlinear_arith)
        requires
            q == y * t,
            a == m * y,
    ;
    assert(2 * (a * 1_000_000) < u) by (nonlinear_arith)
        requires
            2 * (a * t) <= 2 * p + q,
            (2 * p + q) * 1_000_000 < u * t,
            t > 0,
    ;
    lemma_round_is(a * 1_000_000, u, 0);
}

/// Below a thousand million, what lies within a quarter of a millionth of a
/// whole number of millionths is written as that number: in particular every decimal
/// number with up to nine digits before the point and six behind it is written as it
/// is.
pub proof fn law_near_millionths(n: nat, f: nat, c: nat)
    requires
        n < 1_000_000_000 * ten(f),
        4 * (n * 1_000_000) < 4 * (c * ten(f)) + ten(f),
        4 * (c * ten(f)) < 4 * (n * 1_000_000) + ten(f),
    ensures
        !is_infinite(n, f),
        millionths(n, f) == c,
{
    law_exponent_exists(n, f);
    let e = exponent(n, f);
    let m = significand(n, f);
    lemma_ten_positive(f);
    lemma_pow2_pos(e);
    lemma_pow2_pos(1074);
    lemma2_to64();
    let (t, u, y) = (ten(f), pow2(1074), pow2(e));
    let p = n * u;
    let q = y * t;
    assert(q > 0) by (nonlinear_arith)
        requires
            y > 0,
            t > 0,
            q == y * t,
    ;
    lemma_round_near(p, q);
    assert(e <= 1051) by {
        if e > 1051 {
            let z = pow2((e - 1) as nat);
            lemma_pow2_adds(53, (e - 1) as nat);
            lemma_pow2_adds(30, 1074);
            if e > 1052 {
                lemma_pow2_strictly_increases(1104, (53 + e - 1) as nat);
            }
            let w = pow2(1104);
            let x = pow2(53);
            assert(x * z >= w);
            assert(w == 1_073_741_824 * u);
            assert(p < w * t) by (nonlinear_arith)
                requires
                    n < 1_000_000_000 * t,
                    p == n * u,
                    w == 1_073_741_824 * u,
                    u > 0,
            ;
            assert(x * z * t >= w * t) by (nonlinear_arith)
                requires
                    x * z >= w,
            ;
        }
    }
    assert(8 * (y * 1_048_576) <= u) by {
        lemma_pow2_adds(20, e);
        lemma_pow2_adds(3, 20 + e);
        if 23 + e < 1074 {
            lemma_pow2_strictly_increases(23 + e, 1074);
        }
        assert(y * 1_048_576 == pow2(20 + e)) by (nonlinear_arith)
            requires
                pow2(20 + e) == 1_048_576 * y,
        ;
    }
    let a = m * y * 1_000_000;
    assert(m * q * 1_000_000 == a * t) by (nonlinear_arith)
        requires
            q == y * t,
            a == m * y * 1_000_000,
    ;
    let ut = u * t;
    assert(8 * (q * 1_000_000) <= ut) by (nonlinear_arith)
        requires
            8 * (y * 1_048_576) <= u,
            q == y * t,
            ut == u * t,
    ;
    let ctu = c * ut;
    assert(4 * (p * 1_000_000) <= 4 * ctu + ut && 4 * ctu <= 4 * (p * 1_000_000) + ut) by (nonlinear_arith)
        requires
            4 * (n * 1_000_000) < 4 * (c * t) + t,
            4 * (c * t) < 4 * (n * 1_000_000) + t,
            p == n * u,
            ut == u * t,
            ctu == c * ut,
            u > 0,
    ;
    let mq = m * q;
    assert(a * t == mq * 1_000_000);
    assert(ut > 0) by (nonlinear_arith)
        requires
            ut == u * t,
            u > 0,
            t > 0,
    ;
    assert(2 * (a * t) < 2 * ctu + ut);
    assert(2 * ctu < 2 * (a * t) + ut);
    assert(2 * a < 2 * (c * u) + u && 2 * (c * u) < 2 * a + u) by (nonlinear_arith)
        requires
            2 * (a * t) < 2 * ctu + ut,
            2 * ctu < 2 * (a * t) + ut,
            ctu == c * ut,
            ut == u * t,
            t > 0,
    ;
    lemma_round_is(a, u, c);
    assert(m * y < pow2(2098)) by {
        lemma_significand_ceiling(n, f, e);
        lemma_pow2_adds(53, e);
        lemma_pow2_strictly_increases(53 + e, 2098);
        let x = pow2(53);
        assert(m * y <= x * y) by (nonlinear_arith)
            requires
                m <= x,
        ;
    }
}

/// The digits of a number as characters, the most significant one first.
spec fn chars(d: Seq<u8>) -> Seq<char> {
    Seq::new(d.len(), |i: int| digit_char(d[d.len() - 1 - i] as nat))
}

proof fn lemma_rest_digits(d: Seq<u8>)
    requires
        are_digits(d),
        d.len() > 0,
    ensures
        are_digits(d.drop_first()),
        d[0] <= 9,
        value(d) % 10 == d[0],
        value(d) / 10 == value(d.drop_first()),
{
    assert forall|i: int| 0 <= i < d.drop_first().len() implies #[trigger] d.drop_first()[i] <= 9 by {
        assert(d[i + 1] <= 9);
    }
}

proof fn lemma_decimal_chars(d: Seq<u8>)
    requires
        are_digits(d),
        d.len() > 0,
        d.len() > 1 ==> d.last() != 0,
    ensures
        decimal(value(d)) == chars(d),
        d.len() > 1 ==> value(d) >= 10,
        d.last() != 0 ==> value(d) > 0,
    decreases d.len(),
{
    lemma_rest_digits(d);
    let r = d.drop_first();
    if d.len() == 1 {
        assert(r =~= Seq::<u8>::empty());
        assert(value(r) == 0);
        assert(chars(d) =~= seq![digit_char(d[0] as nat)]);
    } else {
        assert(r.last() == d.last());
        lemma_decimal_chars(r);
        assert(chars(d) =~= chars(r).push(digit_char(d[0] as nat)));
    }
}

proof fn lemma_low_chars(d: Seq<u8>, k: nat)
    requires
        are_digits(d),
        k <= d.len(),
    ensures
        low_digits(value(d), k) == chars(d.take(k as int)),
    decreases k,
{
    if k == 0 {
        assert(chars(d.take(0)) =~= seq![]);
    } else {
        lemma_rest_digits(d);
        let r = d.drop_first();
        lemma_low_chars(r, (k - 1) as nat);
        assert(chars(d.take(k as int)) =~= chars(r.take(k - 1)).push(digit_char(d[0] as nat)));
    }
}

/// Appends the digits from place `to` down to place `from`.
fn push_digits(out: &mut String, d: &Vec<u8>, from: usize, to: usize)
    requires
        are_digits(d@),
        from <= to <= d@.len(),
    ensures
        final(out)@ == old(out)@ + chars(d@.subrange(from as int, to as int)),
{
    let mut i: usize = to;
    let ghost part = chars(d@.subrange(from as int, to as int));
    assert(part.take(0) =~= seq![]);
    assert(out@ + part.take(0) =~= out@);
    while i > from
        invariant
            from <= i <= to <= d@.len(),
            are_digits(d@),
            part == chars(d@.subrange(from as int, to as int)),
            out@ == old(out)@ + part.take(to - i),
        decreases i,
    {
        i = i - 1;
        assert(d@[i as int] <= 9);
        let x: u8 = d[i];
        let ghost before = out@;
        out.push((48 + x) as char);
        assert(part[to - i - 1] == digit_char(x as nat));
        assert(part.take(to - i) =~= part.take(to - i - 1).push(digit_char(x as nat)));
        assert(out@ =~= old(out)@ + part.take(to - i));
    }
    assert(part.take(to - from) =~= part);
}

/// Writes millionths with six decimals.
pub fn point_text(d: Vec<u8>) -> (r: String)
    requires
        are_digits(d@),
    ensures
        r@ == with_point(value(d@)),
{
    let mut p = d;
    while p.len() < 7
        invariant
            are_digits(p@),
            value(p@) == value(d@),
        decreases 7 - p.len(),
    {
        proof {
            crate::digits::lemma_value_push(p@, 0);
            assert(ten(p@.len()) * 0 == 0);
        }
        p.push(0);
    }
    let t = trimmed(p, 7);
    let n: usize = t.len();
    let mut r = String::new();
    proof {
        lemma_cut(t@, 6);
        assert(ten(6) == 1_000_000) by {
            reveal_with_fuel(ten, 7);
        }
        let high = t@.skip(6);
        assert forall|i: int| 0 <= i < high.len() implies #[trigger] high[i] <= 9 by {
            assert(t@[i + 6] <= 9);
        }
        assert(high.len() > 1 ==> high.last() == t@.last());
        lemma_decimal_chars(high);
        lemma_low_chars(t@, 6);
        assert(t@.subrange(6, n as int) =~= high);
        assert(t@.subrange(0, 6) =~= t@.take(6));
    }
    push_digits(&mut r, &t, 6, n);
    r.append(".");
    push_digits(&mut r, &t, 0, 6);
    assert(r@ =~= with_point(value(d@)));
    r
}

/// The whole part of a number over a power of ten.
fn whole(d: &Vec<u8>, g: u128) -> (r: Vec<u8>)
    requires
        are_digits(d@),
    ensures
        are_digits(r@),
        value(r@) == value(d@) / ten(g as nat),
{
    let n: usize = d.len();
    if g >= n as u128 {
        proof {
            lemma_value_bound(d@);
            lemma_ten_grows(n as nat, g as nat);
            vstd::arithmetic::div_mod::lemma_basic_div(value(d@) as int, ten(g as nat) as int);
        }
        return Vec::new();
    }
    proof {
        lemma_cut(d@, g as int);
    }
    tail(d, g as usize)
}

proof fn lemma_whole_below(v: nat, s: nat, b: nat)
    requires
        s > 0,
    ensures
        v / s < b <==> v < b * s,
{
    vstd::arithmetic::div_mod::lemma_fundamental_div_mod(v as int, s as int);
    let w = v / s;
    let r = v % s;
    assert(v == s * w + r);
    assert(w < b <==> v < b * s) by (nonlinear_arith)
        requires
            v == s * w + r,
            0 <= r < s,
    ;
}

/// Halving keeps the number: five times the digits, one more decimal, one more in the
/// exponent.
proof fn lemma_halved(v: nat, t: nat, y: nat, n: nat, s: nat, u: nat)
    requires
        v * t * y == n * s * u,
    ensures
        (5 * v) * t * (2 * y) == n * (10 * s) * u,
{
    assert((5 * v) * t * (2 * y) == 10 * (v * t * y)) by (nonlinear_arith);
    assert(n * (10 * s) * u == 10 * (n * s * u)) by (nonlinear_arith);
}

/// Doubling keeps the number: twice the digits, one less in the exponent.
proof fn lemma_doubled(v: nat, t: nat, y: nat, n: nat, s: nat, u: nat)
    requires
        v * t * (2 * y) == n * s * u,
    ensures
        (2 * v) * t * y == n * s * u,
{
    assert((2 * v) * t * y == v * t * (2 * y)) by (nonlinear_arith);
}

/// A number scaled to its exponent: its digits over a power of ten, and the exponent;
/// none where it is too large.
fn scaled(n: &Vec<u8>, f: u128) -> (r: Option<(Vec<u8>, u128, u64)>)
    requires
        are_digits(n@),
        f <= 0xffff_ffff_ffff_ffff_ffff,
    ensures
        match r {
            Some((d, g, k)) => {
                &&& are_digits(d@)
                &&& k <= 2045
                &&& is_exponent(value(n@), f as nat, k as nat)
                &&& significand(value(n@), f as nat) == round_even(value(d@), ten(g as nat))
            },
            None => is_infinite(value(n@), f as nat),
        },
{
    let mut d = tail(n, 0);
    assert(n@.skip(0) =~= n@);
    let mut g: u128 = f;
    let mut k: u64 = 1074;
    let ghost (v0, t, u) = (value(n@), ten(f as nat), pow2(1074));
    proof {
        lemma2_to64_rest();
    }
    loop
        invariant_except_break
            v0 == value(n@),
            t == ten(f as nat),
            u == pow2(1074),
            are_digits(d@),
            1074 <= k <= 2045,
            g == f + (k - 1074),
            f <= 0xffff_ffff_ffff_ffff_ffff,
            value(d@) * t * pow2(k as nat) == v0 * ten(g as nat) * u,
            pow2(53) == 9_007_199_254_740_992,
        ensures
            are_digits(d@),
            1074 <= k <= 2045,
            value(d@) * t * pow2(k as nat) == v0 * ten(g as nat) * u,
            value(d@) < pow2(53) * ten(g as nat),
        decreases 2045 - k,
    {
        let w = whole(&d, g);
        proof {
            lemma_ten_positive(g as nat);
            lemma_whole_below(value(d@), ten(g as nat), pow2(53));
        }
        if below(&w, 9_007_199_254_740_992) {
            break;
        }
        if k == 2045 {
            proof {
                lemma_overflow(v0, f as nat, value(d@), g as nat);
            }
            return None;
        }
        proof {
            lemma_pow2_adds(1, k as nat);
            lemma2_to64();
            lemma_halved(value(d@), t, pow2(k as nat), v0, ten(g as nat), u);
        }
        d = times(&d, 5);
        g = g + 1;
        k = k + 1;
    }
    loop
        invariant_except_break
            v0 == value(n@),
            are_digits(d@),
            k <= 2045,
            value(d@) * t * pow2(k as nat) == v0 * ten(g as nat) * u,
            value(d@) < pow2(53) * ten(g as nat),
            pow2(53) == 9_007_199_254_740_992,
            pow2(52) == 4_503_599_627_370_496,
        ensures
            are_digits(d@),
            k <= 2045,
            value(d@) * t * pow2(k as nat) == v0 * ten(g as nat) * u,
            value(d@) < pow2(53) * ten(g as nat),
            k > 0 ==> value(d@) >= pow2(52) * ten(g as nat),
        decreases k,
    {
        let w = whole(&d, g);
        proof {
            lemma_ten_positive(g as nat);
            lemma_whole_below(value(d@), ten(g as nat), pow2(52));
        }
        if k == 0 || !below(&w, 4_503_599_627_370_496) {
            break;
        }
        proof {
            lemma_pow2_adds(1, (k - 1) as nat);
            lemma2_to64();
            lemma_doubled(value(d@), t, pow2((k - 1) as nat), v0, ten(g as nat), u);
        }
        d = times(&d, 2);
        k = k - 1;
    }
    proof {
        lemma_scaled_exponent(v0, f as nat, k as nat, value(d@), g as nat);
    }
    Some((d, g, k))
}

/// Digits of the millionths of a double: `m` units of the exponent `k`.
fn in_millionths(m: &Vec<u8>, k: u64) -> (r: Vec<u8>)
    requires
        are_digits(m@),
        k <= 2045,
    ensures
        are_digits(r@),
        value(r@) == round_even(value(m@) * pow2(k as nat) * 1_000_000, pow2(1074)),
{
    let mut d: Vec<u8> = vec![0, 0, 0, 0, 0, 0];
    let ghost zeros = d@;
    let mut i: usize = 0;
    assert(m@.take(0) =~= seq![]);
    assert(d@ =~= zeros + m@.take(0));
    while i < m.len()
        invariant
            i <= m@.len(),
            are_digits(m@),
            are_digits(d@),
            d@ == zeros + m@.take(i as int),
        decreases m.len() - i,
    {
        assert(m@[i as int] <= 9);
        d.push(m[i]);
        assert(zeros + m@.take(i + 1) =~= (zeros + m@.take(i as int)).push(m@[i as int]));
        i = i + 1;
    }
    let ghost start = value(m@) * 1_000_000;
    proof {
        assert(m@.take(i as int) =~= m@);
        lemma_value_add(zeros, m@);
        reveal_with_fuel(value, 7);
        assert(value(zeros) == 0);
        assert(ten(6) == 1_000_000) by {
            reveal_with_fuel(ten, 7);
        }
        lemma2_to64();
        lemma_pow2_pos(1074);
        assert(ten(6) * value(m@) == start) by (nonlinear_arith)
            requires
                ten(6) == 1_000_000,
                start == value(m@) * 1_000_000,
        ;
        assert(start * 1 == start);
    }
    let ghost u = pow2(1074);
    let mut g: u128 = 0;
    let mut j: u64 = 0;
    let a: u64 = if k >= 1074 {
        k - 1074
    } else {
        0
    };
    while j < a
        invariant
            j <= a,
            are_digits(d@),
            value(d@) == start * pow2(j as nat),
        decreases a - j,
    {
        proof {
            lemma_pow2_adds(1, j as nat);
            lemma2_to64();
            let x = pow2(j as nat);
            assert(2 * (start * x) == start * (2 * x)) by (nonlinear_arith);
        }
        d = times(&d, 2);
        j = j + 1;
    }
    let b: u128 = if k < 1074 {
        (1074 - k) as u128
    } else {
        0
    };
    proof {
        let x = pow2(a as nat);
        assert(value(d@) * 1 == start * x * 1);
    }
    while g < b
        invariant
            g <= b <= 1074,
            are_digits(d@),
            value(d@) * pow2(g as nat) == start * pow2(a as nat) * ten(g as nat),
        decreases b - g,
    {
        proof {
            lemma_pow2_adds(1, g as nat);
            lemma2_to64();
            let (v, x, s) = (value(d@), pow2(g as nat), ten(g as nat));
            let z = start * pow2(a as nat);
            assert((5 * v) * (2 * x) == z * (10 * s)) by (nonlinear_arith)
                requires
                    v * x == z * s,
            ;
        }
        d = times(&d, 5);
        g = g + 1;
    }
    proof {
        let (v, s, y) = (value(d@), ten(g as nat), pow2(k as nat));
        lemma_ten_positive(g as nat);
        let p = value(m@) * y * 1_000_000;
        assert(p == start * y) by (nonlinear_arith)
            requires
                p == value(m@) * y * 1_000_000,
                start == value(m@) * 1_000_000,
        ;
        if k >= 1074 {
            lemma_pow2_adds(a as nat, 1074);
            let x = pow2(a as nat);
            assert(v * 1 == start * x * 1);
            assert(v * u == p * s) by (nonlinear_arith)
                requires
                    v == start * x,
                    y == x * u,
                    p == start * y,
                    s == 1,
            ;
        } else {
            lemma_pow2_adds(b as nat, k as nat);
            let x = pow2(b as nat);
            assert(start * 1 == start);
            assert(v * u == p * s) by (nonlinear_arith)
                requires
                    v * x == start * s,
                    u == x * y,
                    p == start * y,
            ;
        }
        lemma_round_ratio(v, s, p, u);
    }
    rounded(&d, g)
}

/// The double nearest to a whole number.
pub fn to_double(n: u64) -> (r: u128)
    ensures
        r == as_double(n as nat),
{
    let mut q: u64 = n;
    let mut p: u64 = 1;
    while q >= 0x20_0000_0000_0000
        invariant
            unit(n as nat) == p * unit(q as nat),
            p * q <= n,
            p >= 1,
        decreases q,
    {
        assert(2 * p * (q / 2) <= p * q) by (nonlinear_arith);
        assert(p < 0x1000) by (nonlinear_arith)
            requires
                p * q <= 0xffff_ffff_ffff_ffff,
                q >= 0x20_0000_0000_0000,
        ;
        let ghost w = unit((q / 2) as nat);
        assert(p * (2 * w) == (2 * p) * w) by (nonlinear_arith);
        q = q / 2;
        p = p * 2;
    }
    assert(p * 1 == p);
    let w: u64 = n / p;
    let rest: u64 = n % p;
    let up = rest > p - rest || (rest == p - rest && w % 2 == 1);
    let m: u128 = if up {
        w as u128 + 1
    } else {
        w as u128
    };
    assert(m * p <= 0x1_0000_0000_0000_0000 * 0x1_0000_0000_0000_0000 - 1) by (nonlinear_arith)
        requires
            m <= 0x1_0000_0000_0000_0000,
            p <= 0xffff_ffff_ffff_ffff,
    ;
    m * p as u128
}

/// `n / 10^f`, read as a double and written with six decimals.
pub fn write_double(n: &Vec<u8>, f: u128) -> (r: String)
    requires
        are_digits(n@),
        f <= 0xffff_ffff_ffff_ffff_ffff,
    ensures
        r@ == double_text(value(n@), f as nat),
{
    let (d, g, k) = match scaled(n, f) {
        Some(x) => x,
        None => {
            return "inf".to_owned();
        },
    };
    let m = rounded(&d, g);
    proof {
        law_exponent_is_unique(value(n@), f as nat, k as nat);
        lemma_significand_ceiling(value(n@), f as nat, k as nat);
        lemma2_to64_rest();
        lemma_pow2_adds(53, k as nat);
        lemma_pow2_pos(k as nat);
        let (a, x, y) = (value(m@), pow2(53), pow2(k as nat));
        assert(a * y <= x * y) by (nonlinear_arith)
            requires
                a <= x,
        ;
        assert(a < x ==> a * y < x * y) by (nonlinear_arith)
            requires
                y > 0,
        ;
        if k < 2045 {
            lemma_pow2_strictly_increases((53 + k) as nat, 2098);
        }
    }
    if k == 2045 && !below(&m, 9_007_199_254_740_992) {
        return "inf".to_owned();
    }
    point_text(in_millionths(&m, k))
}

} // verus!
