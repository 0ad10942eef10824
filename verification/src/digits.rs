//! Whole numbers of any size as decimal digits, the least significant one first.
use vstd::prelude::*;

verus! {

/// A power of ten.
pub open spec fn ten(n: nat) -> nat
    decreases n,
{
    if n == 0 {
        1
    } else {
        10 * ten((n - 1) as nat)
    }
}

/// The number that digits write, the least significant one first.
pub open spec fn value(d: Seq<u8>) -> nat
    decreases d.len(),
{
    if d.len() == 0 {
        0
    } else {
        d[0] as nat + 10 * value(d.drop_first())
    }
}

/// Every element is a decimal digit.
pub open spec fn are_digits(d: Seq<u8>) -> bool {
    forall|i: int| 0 <= i < d.len() ==> #[trigger] d[i] <= 9
}

/// The whole number nearest to `p / q`, the even one where two are as near.
pub open spec fn round_even(p: nat, q: nat) -> nat {
    let whole = p / q;
    let rest = p % q;
    if 2 * rest < q {
        whole
    } else if 2 * rest > q || whole % 2 == 1 {
        whole + 1
    } else {
        whole
    }
}

pub proof fn lemma_ten_positive(n: nat)
    ensures
        ten(n) > 0,
    decreases n,
{
    if n > 0 {
        lemma_ten_positive((n - 1) as nat);
    }
}

pub proof fn lemma_ten_adds(a: nat, b: nat)
    ensures
        ten(a + b) == ten(a) * ten(b),
    decreases a,
{
    if a > 0 {
        lemma_ten_adds((a - 1) as nat, b);
        assert(((a - 1) as nat) + b == (a + b - 1) as nat);
        assert(ten(a + b) == 10 * ten((a + b - 1) as nat));
        assert(10 * (ten((a - 1) as nat) * ten(b)) == (10 * ten((a - 1) as nat)) * ten(b)) by (nonlinear_arith);
    } else {
        assert(1 * ten(b) == ten(b));
    }
}

pub proof fn lemma_ten_grows(a: nat, b: nat)
    requires
        a <= b,
    ensures
        ten(a) <= ten(b),
    decreases b,
{
    if a < b {
        lemma_ten_grows(a, (b - 1) as nat);
    }
}

/// Digits behind digits: the value of the higher ones is shifted.
pub proof fn lemma_value_add(a: Seq<u8>, b: Seq<u8>)
    ensures
        value(a + b) == value(a) + ten(a.len()) * value(b),
    decreases a.len(),
{
    if a.len() == 0 {
        assert(a + b =~= b);
        assert(1 * value(b) == value(b));
    } else {
        let r = a.drop_first();
        assert((a + b).drop_first() =~= r + b);
        assert((a + b)[0] == a[0]);
        lemma_value_add(r, b);
        assert(ten(a.len()) == 10 * ten(r.len()));
        assert(10 * (ten(r.len()) * value(b)) == (10 * ten(r.len())) * value(b)) by (nonlinear_arith);
    }
}

pub proof fn lemma_value_push(d: Seq<u8>, x: u8)
    ensures
        value(d.push(x)) == value(d) + ten(d.len()) * x,
{
    assert(d.push(x) =~= d + seq![x]);
    lemma_value_add(d, seq![x]);
    assert(seq![x].drop_first() =~= Seq::<u8>::empty());
    assert(value(Seq::<u8>::empty()) == 0);
    assert(value(seq![x]) == x);
}

pub proof fn lemma_value_bound(d: Seq<u8>)
    requires
        are_digits(d),
    ensures
        value(d) < ten(d.len()),
    decreases d.len(),
{
    if d.len() > 0 {
        let r = d.drop_first();
        assert forall|i: int| 0 <= i < r.len() implies #[trigger] r[i] <= 9 by {
            assert(d[i + 1] <= 9);
        }
        lemma_value_bound(r);
        assert(d[0] <= 9);
    }
}

/// Cut at a place, digits are a remainder and a quotient.
pub proof fn lemma_cut(d: Seq<u8>, f: int)
    requires
        are_digits(d),
        0 <= f <= d.len(),
    ensures
        value(d) == value(d.take(f)) + ten(f as nat) * value(d.skip(f)),
        value(d.take(f)) < ten(f as nat),
        value(d) / ten(f as nat) == value(d.skip(f)),
        value(d) % ten(f as nat) == value(d.take(f)),
{
    let low = d.take(f);
    let high = d.skip(f);
    assert(d =~= low + high);
    lemma_value_add(low, high);
    assert(are_digits(low)) by {
        assert forall|i: int| 0 <= i < low.len() implies #[trigger] low[i] <= 9 by {
            assert(d[i] <= 9);
        }
    }
    lemma_value_bound(low);
    lemma_ten_positive(f as nat);
    let t = ten(f as nat) as int;
    let q = value(high) as int;
    assert(t * q == q * t) by (nonlinear_arith);
    vstd::arithmetic::div_mod::lemma_fundamental_div_mod_converse(value(d) as int, t, q, value(low) as int);
}

/// Only the ratio counts where a number is rounded.
pub proof fn lemma_round_ratio(p1: nat, q1: nat, p2: nat, q2: nat)
    requires
        q1 > 0,
        q2 > 0,
        p1 * q2 == p2 * q1,
    ensures
        round_even(p1, q1) == round_even(p2, q2),
        p1 / q1 == p2 / q2,
{
    let w = p1 / q1;
    let r = p1 % q1;
    let v = p2 / q2;
    let s = p2 % q2;
    vstd::arithmetic::div_mod::lemma_fundamental_div_mod(p1 as int, q1 as int);
    vstd::arithmetic::div_mod::lemma_fundamental_div_mod(p2 as int, q2 as int);
    assert(p1 == q1 * w + r);
    assert(p2 == q2 * v + s);
    assert(q1 * q2 * w + r * q2 == q1 * q2 * v + s * q1) by (nonlinear_arith)
        requires
            p1 * q2 == p2 * q1,
            p1 == q1 * w + r,
            p2 == q2 * v + s,
    ;
    let q = q1 * q2;
    assert(r * q2 < q) by (nonlinear_arith)
        requires
            r < q1,
            q2 > 0,
            q == q1 * q2,
    ;
    assert(s * q1 < q) by (nonlinear_arith)
        requires
            s < q2,
            q1 > 0,
            q == q1 * q2,
    ;
    assert(w == v) by (nonlinear_arith)
        requires
            q * w + r * q2 == q * v + s * q1,
            0 <= r * q2 < q,
            0 <= s * q1 < q,
    ;
    assert(r * q2 == s * q1);
    assert(2 * r < q1 <==> 2 * s < q2) by (nonlinear_arith)
        requires
            r * q2 == s * q1,
            q1 > 0,
            q2 > 0,
    ;
    assert(2 * r > q1 <==> 2 * s > q2) by (nonlinear_arith)
        requires
            r * q2 == s * q1,
            q1 > 0,
            q2 > 0,
    ;
}

/// A rounded number is at most half away.
pub proof fn lemma_round_near(p: nat, q: nat)
    requires
        q > 0,
    ensures
        2 * p <= 2 * (round_even(p, q) * q) + q,
        2 * (round_even(p, q) * q) <= 2 * p + q,
        round_even(p, q) >= p / q,
{
    let w = p / q;
    let r = p % q;
    vstd::arithmetic::div_mod::lemma_fundamental_div_mod(p as int, q as int);
    assert(q * w == w * q) by (nonlinear_arith);
    assert((w + 1) * q == w * q + q) by (nonlinear_arith);
}

/// The whole number that is less than half away is the rounded one.
pub proof fn lemma_round_is(p: nat, q: nat, n: nat)
    requires
        q > 0,
        2 * p < 2 * (n * q) + q,
        2 * (n * q) < 2 * p + q,
    ensures
        round_even(p, q) == n,
{
    lemma_round_near(p, q);
    let m = round_even(p, q);
    assert(m == n) by (nonlinear_arith)
        requires
            q > 0,
            2 * p < 2 * (n * q) + q,
            2 * (n * q) < 2 * p + q,
            2 * p <= 2 * (m * q) + q,
            2 * (m * q) <= 2 * p + q,
    ;
}

/// Digits of a number.
pub fn digits_of(n: u128) -> (r: Vec<u8>)
    ensures
        are_digits(r@),
        value(r@) == n,
{
    let mut r: Vec<u8> = Vec::new();
    let mut rest: u128 = n;
    assert(value(r@) == 0 && ten(0) == 1 && 1 * n == n);
    while rest > 0
        invariant
            are_digits(r@),
            value(r@) + ten(r@.len()) * rest == n,
        decreases rest,
    {
        let x: u8 = (rest % 10) as u8;
        let ghost before = r@;
        let ghost was = rest;
        r.push(x);
        rest = rest / 10;
        proof {
            lemma_value_push(before, x);
            let p = ten(before.len());
            assert(p * x + (10 * p) * rest == p * was) by (nonlinear_arith)
                requires
                    was == 10 * rest + x,
            ;
        }
    }
    assert(ten(r@.len()) * 0 == 0);
    r
}

/// Digits of `c` times a number.
pub fn times(d: &Vec<u8>, c: u8) -> (r: Vec<u8>)
    requires
        are_digits(d@),
        c <= 9,
    ensures
        are_digits(r@),
        value(r@) == c * value(d@),
{
    let mut r: Vec<u8> = Vec::new();
    let mut carry: u8 = 0;
    let mut i: usize = 0;
    assert(d@.take(0) =~= Seq::<u8>::empty());
    assert(value(Seq::<u8>::empty()) == 0 && c * 0 == 0);
    assert(value(r@) == 0 && ten(0) * 0 == 0);
    while i < d.len()
        invariant
            i <= d@.len(),
            are_digits(d@),
            are_digits(r@),
            c <= 9,
            carry <= 8,
            r@.len() == i,
            value(r@) + ten(i as nat) * carry == c * value(d@.take(i as int)),
        decreases d.len() - i,
    {
        assert(d@[i as int] <= 9);
        let x: u8 = d[i];
        assert(c * x <= 81) by (nonlinear_arith)
            requires
                c <= 9,
                x <= 9,
        ;
        let t: u8 = c * x + carry;
        let ghost before = r@;
        let ghost was = carry;
        r.push(t % 10);
        carry = t / 10;
        proof {
            lemma_value_push(before, (t % 10) as u8);
            assert(d@.take(i + 1) =~= d@.take(i as int).push(x));
            lemma_value_push(d@.take(i as int), x);
            let p = ten(i as nat);
            let a = value(d@.take(i as int));
            assert(p * (t % 10) + (10 * p) * (t / 10) == p * was + c * (p * x)) by (nonlinear_arith)
                requires
                    t == c * x + was,
                    t == 10 * (t / 10) + t % 10,
            ;
            assert(c * (a + p * x) == c * a + c * (p * x)) by (nonlinear_arith);
        }
        i = i + 1;
    }
    assert(d@.take(i as int) =~= d@);
    let ghost before = r@;
    if carry > 0 {
        r.push(carry);
        proof {
            lemma_value_push(before, carry);
        }
    } else {
        assert(ten(i as nat) * 0 == 0);
    }
    r
}

/// Digits of a number and one.
pub fn increment(d: &Vec<u8>) -> (r: Vec<u8>)
    requires
        are_digits(d@),
    ensures
        are_digits(r@),
        value(r@) == value(d@) + 1,
{
    let mut r: Vec<u8> = Vec::new();
    let mut carry: u8 = 1;
    let mut i: usize = 0;
    assert(d@.take(0) =~= Seq::<u8>::empty());
    while i < d.len()
        invariant
            i <= d@.len(),
            are_digits(d@),
            are_digits(r@),
            carry <= 1,
            r@.len() == i,
            value(r@) + ten(i as nat) * carry == value(d@.take(i as int)) + 1,
        decreases d.len() - i,
    {
        assert(d@[i as int] <= 9);
        let x: u8 = d[i];
        let t: u8 = x + carry;
        let ghost before = r@;
        let ghost was = carry;
        r.push(t % 10);
        carry = t / 10;
        proof {
            lemma_value_push(before, (t % 10) as u8);
            assert(d@.take(i + 1) =~= d@.take(i as int).push(x));
            lemma_value_push(d@.take(i as int), x);
            let p = ten(i as nat);
            assert(p * (t % 10) + (10 * p) * (t / 10) == p * was + p * x) by (nonlinear_arith)
                requires
                    t == x + was,
                    t == 10 * (t / 10) + t % 10,
            ;
        }
        i = i + 1;
    }
    assert(d@.take(i as int) =~= d@);
    let ghost before = r@;
    if carry > 0 {
        r.push(carry);
        proof {
            lemma_value_push(before, carry);
        }
    } else {
        assert(ten(i as nat) * 0 == 0);
    }
    r
}

/// Whether all of the first `n` digits are zero.
pub fn zero_below(d: &Vec<u8>, n: usize) -> (r: bool)
    requires
        are_digits(d@),
        n <= d@.len(),
    ensures
        r == (value(d@.take(n as int)) == 0),
{
    let mut i: usize = 0;
    assert(d@.take(0) =~= Seq::<u8>::empty());
    while i < n
        invariant
            i <= n <= d@.len(),
            are_digits(d@),
            value(d@.take(i as int)) == 0,
        decreases n - i,
    {
        proof {
            assert(d@.take(i + 1) =~= d@.take(i as int).push(d@[i as int]));
            lemma_value_push(d@.take(i as int), d@[i as int]);
        }
        if d[i] != 0 {
            proof {
                let low = d@.take(i + 1);
                let all = d@.take(n as int);
                assert(all =~= low + d@.subrange(i + 1, n as int));
                lemma_value_add(low, d@.subrange(i + 1, n as int));
                lemma_ten_positive(i as nat);
                let x = d@[i as int];
                assert(ten(i as nat) * x > 0) by (nonlinear_arith)
                    requires
                        x > 0,
                        ten(i as nat) > 0,
                ;
            }
            return false;
        }
        assert(ten(i as nat) * 0 == 0);
        i = i + 1;
    }
    true
}

/// Digits of the whole number nearest to a number over a power of ten.
pub fn rounded(d: &Vec<u8>, f: u128) -> (r: Vec<u8>)
    requires
        are_digits(d@),
    ensures
        are_digits(r@),
        value(r@) == round_even(value(d@), ten(f as nat)),
{
    let n: usize = d.len();
    proof {
        lemma_ten_positive(f as nat);
    }
    if f > n as u128 {
        let r: Vec<u8> = Vec::new();
        proof {
            lemma_value_bound(d@);
            lemma_ten_grows(n as nat, (f - 1) as nat);
            vstd::arithmetic::div_mod::lemma_small_mod(value(d@), ten(f as nat));
            vstd::arithmetic::div_mod::lemma_basic_div(value(d@) as int, ten(f as nat) as int);
        }
        return r;
    }
    let cut: usize = f as usize;
    let high = tail(d, cut);
    proof {
        lemma_cut(d@, cut as int);
    }
    if cut == 0 {
        assert(d@.take(0) =~= Seq::<u8>::empty());
        return high;
    }
    let top: u8 = d[cut - 1];
    let rest_zero = zero_below(d, cut - 1);
    proof {
        let low = d@.take(cut as int);
        let below = d@.take(cut - 1);
        assert(low =~= below.push(top));
        lemma_value_push(below, top);
        assert(are_digits(below)) by {
            assert forall|i: int| 0 <= i < below.len() implies #[trigger] below[i] <= 9 by {
                assert(d@[i] <= 9);
            }
        }
        lemma_value_bound(below);
        let p = ten((cut - 1) as nat);
        assert(top <= 4 ==> p * top <= 4 * p) by (nonlinear_arith);
        assert(top >= 6 ==> p * top >= 6 * p) by (nonlinear_arith);
        assert(top == 5 ==> p * top == 5 * p) by (nonlinear_arith);
        if high@.len() > 0 {
            assert(value(high@) % 2 == high@[0] % 2);
        }
    }
    let odd = high.len() > 0 && high[0] % 2 == 1;
    if top > 5 || (top == 5 && (!rest_zero || odd)) {
        increment(&high)
    } else {
        high
    }
}

/// The digits from place `from` on.
pub fn tail(d: &Vec<u8>, from: usize) -> (r: Vec<u8>)
    requires
        are_digits(d@),
        from <= d@.len(),
    ensures
        r@ == d@.skip(from as int),
        are_digits(r@),
{
    let mut r: Vec<u8> = Vec::new();
    let mut i: usize = from;
    assert(d@.subrange(from as int, from as int) =~= Seq::<u8>::empty());
    while i < d.len()
        invariant
            from <= i <= d@.len(),
            are_digits(d@),
            are_digits(r@),
            r@ == d@.subrange(from as int, i as int),
        decreases d.len() - i,
    {
        assert(d@[i as int] <= 9);
        r.push(d[i]);
        assert(d@.subrange(from as int, i + 1) =~= d@.subrange(from as int, i as int).push(d@[i as int]));
        i = i + 1;
    }
    assert(d@.subrange(from as int, i as int) =~= d@.skip(from as int));
    r
}

/// The same number without zeros in front, but with at least `keep` digits where it
/// has them.
pub fn trimmed(d: Vec<u8>, keep: usize) -> (r: Vec<u8>)
    requires
        are_digits(d@),
    ensures
        are_digits(r@),
        value(r@) == value(d@),
        r@.len() <= d@.len(),
        r@.len() > keep ==> r@.last() != 0,
        d@.len() >= keep ==> r@.len() >= keep,
{
    let mut r = d;
    while r.len() > keep && r[r.len() - 1] == 0
        invariant
            are_digits(r@),
            value(r@) == value(d@),
            r@.len() <= d@.len(),
            d@.len() >= keep ==> r@.len() >= keep,
        decreases r.len(),
    {
        let ghost before = r@;
        let _ = r.pop();
        proof {
            assert(before =~= r@.push(0));
            lemma_value_push(r@, 0);
            assert(ten(r@.len()) * 0 == 0);
        }
    }
    r
}

/// Whether a number is less than `bound`.
pub fn below(d: &Vec<u8>, bound: u64) -> (r: bool)
    requires
        are_digits(d@),
        bound <= 1_000_000_000_000_000_000,
    ensures
        r == (value(d@) < bound),
{
    let t = trimmed(tail(d, 0), 0);
    assert(d@.skip(0) =~= d@);
    assert(ten(18) == 1_000_000_000_000_000_000) by {
        reveal_with_fuel(ten, 19);
    }
    let n: usize = t.len();
    if n > 18 {
        proof {
            let top = t@.last();
            assert(t@ =~= t@.drop_last().push(top));
            lemma_value_push(t@.drop_last(), top);
            lemma_ten_grows(18, (n - 1) as nat);
            assert(ten((n - 1) as nat) * top >= ten((n - 1) as nat)) by (nonlinear_arith)
                requires
                    top >= 1,
            ;
        }
        return false;
    }
    let mut v: u64 = 0;
    let mut i: usize = n;
    assert(t@.skip(n as int) =~= Seq::<u8>::empty());
    while i > 0
        invariant
            i <= n == t@.len() <= 18,
            are_digits(t@),
            v == value(t@.skip(i as int)),
            value(t@.skip(i as int)) < ten((n - i) as nat),
            ten(18) == 1_000_000_000_000_000_000,
        decreases i,
    {
        proof {
            let more = t@.skip(i - 1);
            assert(more.drop_first() =~= t@.skip(i as int));
            assert(more[0] == t@[i - 1]);
            assert(t@[i - 1] <= 9);
            assert forall|k: int| 0 <= k < more.len() implies #[trigger] more[k] <= 9 by {
                assert(t@[i - 1 + k] <= 9);
            }
            lemma_value_bound(more);
            lemma_ten_grows((n - i + 1) as nat, 18);
        }
        i = i - 1;
        v = v * 10 + t[i] as u64;
    }
    assert(t@.skip(0) =~= t@);
    v < bound
}

} // verus!
