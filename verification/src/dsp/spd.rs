//! Finding short pings: the places of a buffer at which a signal stands out.
//!
//! Strengths are given as whole numbers that order them, zero for no signal.
use vstd::prelude::*;

verus! {

/// Largest number of candidates.
pub const MAXCAND: usize = 5;

/// Largest number of steps through a buffer.
pub const MAXSTEPS: usize = 100;

/// Samples between two steps.
pub const STEP_SAMPLES: usize = 216;

/// Size of the transform of a step.
pub const NFFT_SPD: usize = 864;

/// Samples between two steps in the search for short messages.
pub const STEP_SAMPLES_MSK40: usize = 60;

/// Size of the transform of a step in the search for short messages.
pub const NFFT_MSK40: usize = 240;

/// Largest number of steps in the search for short messages.
pub const MAXSTEPS_MSK40: usize = 150;

/// Number of steps through a buffer of `n` samples with windows of `window`
/// samples.
pub fn step_count(n: usize, window: usize, step: usize, max_steps: usize) -> (r: usize)
    requires
        step > 0,
    ensures
        r == (if n < window {
            0
        } else if (n - window) / step as int <= max_steps {
            (n - window) / step as int
        } else {
            max_steps as int
        }),
        r > 0 ==> (r - 1) * step + window <= n,
{
    if n < window {
        return 0;
    }
    let steps: usize = (n - window) / step;
    let r: usize = if steps <= max_steps {
        steps
    } else {
        max_steps
    };
    proof {
        if r > 0 {
            let m = (n - window) as int;
            let q = m / step as int;
            vstd::arithmetic::div_mod::lemma_fundamental_div_mod(m, step as int);
            assert((r - 1) * step <= q * step) by (nonlinear_arith)
                requires
                    r - 1 <= q,
                    step > 0,
            ;
            assert(q * step <= m) by (nonlinear_arith)
                requires
                    m == step * q + m % step as int,
                    m % step as int >= 0,
            ;
        }
    }
    r
}

/// A bin of a spectrum, brought to where it has a neighbour on both sides.
pub fn inner_bin(bin: i32, size: usize) -> (r: usize)
    requires
        3 <= size <= 0x7fff_ffff,
    ensures
        1 <= r <= size - 2,
        r == (if bin < 1 {
            1int
        } else if bin > size - 2 {
            size - 2
        } else {
            bin as int
        }),
{
    if bin < 1 {
        1
    } else if bin as i64 > size as i64 - 2 {
        size - 2
    } else {
        bin as usize
    }
}

/// The index of the greatest element, the last one where there are several.
pub open spec fn greatest(s: Seq<u32>) -> int
    decreases s.len(),
{
    if s.len() <= 1 {
        0
    } else {
        let i = greatest(s.drop_last());
        if s[i] > s.last() {
            i
        } else {
            s.len() - 1
        }
    }
}

/// The index of the greatest element, the last one where there are several.
pub fn strongest(keys: &Vec<u32>) -> (r: usize)
    requires
        keys@.len() > 0,
    ensures
        r == greatest(keys@),
        r < keys@.len(),
{
    let mut best: usize = 0;
    let mut i: usize = 1;
    assert(keys@.take(1).len() == 1);
    while i < keys.len()
        invariant
            1 <= i <= keys@.len(),
            best < i,
            best == greatest(keys@.take(i as int)),
        decreases keys.len() - i,
    {
        assert(keys@.take(i + 1).drop_last() =~= keys@.take(i as int));
        assert(keys@.take(i + 1)[best as int] == keys@[best as int]);
        if keys[best] <= keys[i] {
            best = i;
        }
        i = i + 1;
    }
    assert(keys@.take(i as int) =~= keys@);
    best
}

/// Nothing is greater than the greatest element, and nothing behind it is as
/// great.
pub proof fn law_greatest(s: Seq<u32>)
    requires
        s.len() > 0,
    ensures
        0 <= greatest(s) < s.len(),
        forall|k: int| 0 <= k < s.len() ==> #[trigger] s[k] <= s[greatest(s)],
        forall|k: int| greatest(s) < k < s.len() ==> #[trigger] s[k] < s[greatest(s)],
    decreases s.len(),
{
    if s.len() > 1 {
        let t = s.drop_last();
        law_greatest(t);
        let i = greatest(t);
        assert forall|k: int| 0 <= k < s.len() implies #[trigger] s[k] <= s[greatest(s)] by {
            if k < s.len() - 1 {
                assert(t[k] == s[k]);
            }
        }
        assert forall|k: int| greatest(s) < k < s.len() implies #[trigger] s[k] < s[greatest(s)] by {
            if k < s.len() - 1 {
                assert(t[k] == s[k]);
            }
        }
    }
}

/// Number of elements that are less than `v`.
pub open spec fn count_less(s: Seq<u32>, v: u32) -> nat
    decreases s.len(),
{
    if s.len() == 0 {
        0
    } else {
        count_less(s.drop_last(), v) + (if s.last() < v {
            1nat
        } else {
            0
        })
    }
}

/// Number of elements that are at most `v`.
pub open spec fn count_at_most(s: Seq<u32>, v: u32) -> nat
    decreases s.len(),
{
    if s.len() == 0 {
        0
    } else {
        count_at_most(s.drop_last(), v) + (if s.last() <= v {
            1nat
        } else {
            0
        })
    }
}

fn counts(keys: &Vec<u32>, v: u32) -> (r: (usize, usize))
    ensures
        r.0 == count_less(keys@, v),
        r.1 == count_at_most(keys@, v),
{
    let mut less: usize = 0;
    let mut most: usize = 0;
    let mut i: usize = 0;
    assert(keys@.take(0) =~= Seq::<u32>::empty());
    while i < keys.len()
        invariant
            i <= keys@.len(),
            less <= i,
            most <= i,
            less == count_less(keys@.take(i as int), v),
            most == count_at_most(keys@.take(i as int), v),
        decreases keys.len() - i,
    {
        assert(keys@.take(i + 1).drop_last() =~= keys@.take(i as int));
        if keys[i] < v {
            less = less + 1;
        }
        if keys[i] <= v {
            most = most + 1;
        }
        i = i + 1;
    }
    assert(keys@.take(i as int) =~= keys@);
    (less, most)
}

/// `v` stands at place `rank` when the elements are sorted.
pub open spec fn has_rank(s: Seq<u32>, v: u32, rank: nat) -> bool {
    s.contains(v) && count_less(s, v) <= rank < count_at_most(s, v)
}

/// There is an element at every place.
proof fn lemma_rank_exists(s: Seq<u32>, rank: nat)
    requires
        rank < s.len(),
    ensures
        exists|v: u32| has_rank(s, v, rank),
{
    lemma_count_all(s);
    lemma_least_covering(s, rank, 0, u32::MAX);
}

/// Between a bound that too few elements reach and one that enough do lies the
/// element of that rank.
proof fn lemma_least_covering(s: Seq<u32>, rank: nat, lo: u32, hi: u32)
    requires
        lo <= hi,
        count_at_most(s, hi) > rank,
        lo == 0 || count_at_most(s, (lo - 1) as u32) <= rank,
    ensures
        exists|v: u32| has_rank(s, v, rank),
    decreases hi - lo,
{
    if count_at_most(s, lo) > rank {
        lemma_less_is_at_most(s, lo);
        if !s.contains(lo) {
            lemma_absent(s, lo);
        }
        assert(has_rank(s, lo, rank));
    } else {
        assert(lo < hi);
        lemma_least_covering(s, rank, (lo + 1) as u32, hi);
    }
}

proof fn lemma_less_is_at_most(s: Seq<u32>, v: u32)
    ensures
        v > 0 ==> count_less(s, v) == count_at_most(s, (v - 1) as u32),
        v == 0 ==> count_less(s, v) == 0,
    decreases s.len(),
{
    if s.len() > 0 {
        lemma_less_is_at_most(s.drop_last(), v);
    }
}

proof fn lemma_absent(s: Seq<u32>, v: u32)
    requires
        !s.contains(v),
    ensures
        count_less(s, v) == count_at_most(s, v),
    decreases s.len(),
{
    if s.len() > 0 {
        let t = s.drop_last();
        assert forall|k: int| 0 <= k < t.len() implies t[k] != v by {
            assert(s[k] == t[k]);
        }
        lemma_absent(t, v);
        assert(s[s.len() - 1] != v);
    }
}

/// The element that stands at place `rank` when all are sorted.
pub fn ranked(keys: &Vec<u32>, rank: usize) -> (r: u32)
    requires
        rank < keys@.len(),
    ensures
        has_rank(keys@, r, rank as nat),
{
    let mut i: usize = 0;
    proof {
        lemma_rank_exists(keys@, rank as nat);
    }
    while i < keys.len()
        invariant
            i <= keys@.len(),
            exists|v: u32| has_rank(keys@, v, rank as nat),
            forall|k: int| 0 <= k < i ==> !has_rank(keys@, #[trigger] keys@[k], rank as nat),
        decreases keys.len() - i,
    {
        let v: u32 = keys[i];
        let (less, most) = counts(keys, v);
        if less <= rank && rank < most {
            assert(keys@[i as int] == v);
            return v;
        }
        i = i + 1;
    }
    proof {
        let v = choose|v: u32| has_rank(keys@, v, rank as nat);
        let k = choose|k: int| 0 <= k < keys@.len() && keys@[k] == v;
        assert(!has_rank(keys@, keys@[k], rank as nat));
    }
    0
}

proof fn lemma_count_all(s: Seq<u32>)
    ensures
        count_at_most(s, u32::MAX) == s.len(),
    decreases s.len(),
{
    if s.len() > 0 {
        lemma_count_all(s.drop_last());
    }
}

/// The noise floor: the strength at a quarter of the sorted steps.
pub fn noise_floor(keys: &Vec<u32>) -> (r: u32)
    requires
        keys@.len() > 0,
    ensures
        has_rank(keys@, r, (keys@.len() / 4) as nat),
{
    ranked(keys, keys.len() / 4)
}

/// No two elements stand at the same place.
pub proof fn law_rank_is_unique(s: Seq<u32>, a: u32, b: u32, rank: nat)
    requires
        has_rank(s, a, rank),
        has_rank(s, b, rank),
    ensures
        a == b,
{
    if a < b {
        lemma_counts_ordered(s, a, b);
    } else if b < a {
        lemma_counts_ordered(s, b, a);
    }
}

proof fn lemma_counts_ordered(s: Seq<u32>, a: u32, b: u32)
    requires
        a < b,
    ensures
        count_at_most(s, a) <= count_less(s, b),
    decreases s.len(),
{
    if s.len() > 0 {
        lemma_counts_ordered(s.drop_last(), a, b);
    }
}

/// The steps that are picked from `keys` in up to `rounds` rounds: the strongest
/// one each time, as long as it reaches `min`; those out of tolerance are passed
/// over, and no step is looked at twice.
pub open spec fn picks(keys: Seq<u32>, in_tolerance: Seq<bool>, min: u32, rounds: nat) -> Seq<int>
    decreases rounds,
{
    if rounds == 0 || keys.len() == 0 {
        seq![]
    } else {
        let il = greatest(keys);
        if keys[il] < min {
            seq![]
        } else {
            let rest = picks(keys.update(il, 0), in_tolerance, min, (rounds - 1) as nat);
            if in_tolerance[il] {
                seq![il] + rest
            } else {
                rest
            }
        }
    }
}

/// The strengths without the steps that were picked already.
pub open spec fn cleared(keys: Seq<u32>, taken: Seq<int>) -> Seq<u32>
    decreases taken.len(),
{
    if taken.len() == 0 {
        keys
    } else {
        cleared(keys, taken.drop_last()).update(taken.last(), 0)
    }
}

/// A candidate: the step it was found at, and whether by its strength or, where
/// that found few, by how it stands out from its surroundings.
#[derive(Debug, Clone, Copy, PartialEq, Eq, Structural)]
pub struct Pick {
    pub step: usize,
    pub primary: bool,
}

/// The steps of a list of picks.
pub open spec fn steps_of(v: Seq<Pick>) -> Seq<int> {
    v.map_values(|p: Pick| p.step as int)
}

fn pick_into(
    keys: Vec<u32>,
    in_tolerance: &Vec<bool>,
    min: u32,
    rounds: usize,
    primary: bool,
    out: &mut Vec<Pick>,
)
    requires
        keys@.len() > 0,
        in_tolerance@.len() == keys@.len(),
    ensures
        steps_of(final(out)@) == steps_of(old(out)@) + picks(keys@, in_tolerance@, min, rounds as nat),
        final(out)@.len() >= old(out)@.len(),
        final(out)@.len() <= old(out)@.len() + rounds,
        forall|k: int| 0 <= k < old(out)@.len() ==> #[trigger] final(out)@[k] == old(out)@[k],
        forall|k: int|
            old(out)@.len() <= k < final(out)@.len() ==> (#[trigger] final(out)@[k]).primary == primary
                && final(out)@[k].step < keys@.len(),
{
    let ghost all = picks(keys@, in_tolerance@, min, rounds as nat);
    let ghost n = keys@.len();
    let ghost first = out@;
    let mut work = keys;
    let mut left: usize = rounds;
    assert(steps_of(out@) + all =~= steps_of(first) + all);
    while left > 0
        invariant
            left <= rounds,
            first == old(out)@,
            n == keys@.len(),
            all == picks(keys@, in_tolerance@, min, rounds as nat),
            work@.len() == n > 0,
            in_tolerance@.len() == n,
            steps_of(first) + all == steps_of(out@) + picks(work@, in_tolerance@, min, left as nat),
            first.len() <= out@.len() <= first.len() + (rounds - left),
            forall|k: int| 0 <= k < first.len() ==> #[trigger] out@[k] == first[k],
            forall|k: int|
                first.len() <= k < out@.len() ==> (#[trigger] out@[k]).primary == primary && out@[k].step
                    < n,
        decreases left,
    {
        let il: usize = strongest(&work);
        if work[il] < min {
            assert(picks(work@, in_tolerance@, min, left as nat) =~= Seq::<int>::empty());
            assert(steps_of(out@) =~= steps_of(first) + all);
            return;
        }
        let ghost rest = picks(work@.update(il as int, 0), in_tolerance@, min, (left - 1) as nat);
        let ghost done = steps_of(out@);
        if in_tolerance[il] {
            out.push(Pick { step: il, primary });
            assert(steps_of(out@) =~= done.push(il as int));
            assert(done + (seq![il as int] + rest) =~= done.push(il as int) + rest);
        }
        work.set(il, 0);
        left = left - 1;
    }
    assert(picks(work@, in_tolerance@, min, 0) =~= Seq::<int>::empty());
    assert(steps_of(out@) =~= steps_of(first) + all);
}

/// Picks up to five candidates. Those whose strength reaches `strength_min` come
/// first, the strongest first. Where they are fewer than three, others whose
/// contrast reaches `contrast_min` follow.
pub fn select_candidates(
    strength: &Vec<u32>,
    contrast: &Vec<u32>,
    in_tolerance: &Vec<bool>,
    strength_min: u32,
    contrast_min: u32,
) -> (r: Vec<Pick>)
    requires
        strength@.len() > 0,
        contrast@.len() == strength@.len(),
        in_tolerance@.len() == strength@.len(),
    ensures
        ({
            let first = picks(strength@, in_tolerance@, strength_min, 5);
            let more = picks(
                cleared(contrast@, first),
                in_tolerance@,
                contrast_min,
                (5 - first.len()) as nat,
            );
            &&& first.len() <= 5
            &&& steps_of(r@) == (if first.len() < 3 {
                first + more
            } else {
                first
            })
            &&& forall|k: int| 0 <= k < r@.len() ==> (#[trigger] r@[k]).primary == (k < first.len())
        }),
        r@.len() <= MAXCAND,
        forall|k: int| 0 <= k < r@.len() ==> (#[trigger] r@[k]).step < strength@.len(),
{
    let mut out: Vec<Pick> = Vec::new();
    pick_into(copied(strength), in_tolerance, strength_min, MAXCAND, true, &mut out);
    let ghost first = picks(strength@, in_tolerance@, strength_min, 5);
    assert(steps_of(out@) =~= first);
    assert(out@.len() == first.len());
    if out.len() < 3 {
        let mut work = copied(contrast);
        let mut i: usize = 0;
        assert(first.take(0) =~= Seq::<int>::empty());
        while i < out.len()
            invariant
                i <= out@.len(),
                steps_of(out@) == first,
                out@.len() == first.len(),
                work@.len() == contrast@.len() == strength@.len(),
                forall|k: int| 0 <= k < out@.len() ==> (#[trigger] out@[k]).step < strength@.len(),
                work@ == cleared(contrast@, first.take(i as int)),
            decreases out.len() - i,
        {
            assert(out@[i as int].step < strength@.len());
            work.set(out[i].step, 0);
            assert(first.take(i + 1).drop_last() =~= first.take(i as int));
            assert(first.take(i + 1).last() == out@[i as int].step);
            i = i + 1;
        }
        assert(first.take(i as int) =~= first);
        let need: usize = MAXCAND - out.len();
        pick_into(work, in_tolerance, contrast_min, need, false, &mut out);
    }
    out
}

fn copied(v: &Vec<u32>) -> (r: Vec<u32>)
    ensures
        r@ == v@,
{
    let mut r: Vec<u32> = Vec::new();
    let mut i: usize = 0;
    assert(v@.take(0) =~= Seq::<u32>::empty());
    while i < v.len()
        invariant
            i <= v@.len(),
            r@ == v@.take(i as int),
        decreases v.len() - i,
    {
        r.push(v[i]);
        assert(v@.take(i + 1) =~= v@.take(i as int).push(v@[i as int]));
        i = i + 1;
    }
    assert(v@.take(i as int) =~= v@);
    r
}

/// The sample at which a candidate starts.
pub fn candidate_start(step: usize, step_samples: usize) -> (r: usize)
    requires
        step * step_samples + 1 <= usize::MAX,
    ensures
        r == step * step_samples + 1,
{
    step * step_samples + 1
}

/// Every step that is picked reaches the threshold and is within tolerance, and no
/// step is picked twice.
pub proof fn law_picks_are_sound(keys: Seq<u32>, in_tolerance: Seq<bool>, min: u32, rounds: nat)
    requires
        min > 0,
    ensures
        ({
            let p = picks(keys, in_tolerance, min, rounds);
            &&& p.len() <= rounds
            &&& forall|k: int|
                0 <= k < p.len() ==> 0 <= #[trigger] p[k] < keys.len() && keys[p[k]] >= min && in_tolerance[p[k]]
            &&& forall|j: int, k: int| 0 <= j < k < p.len() ==> #[trigger] p[j] != #[trigger] p[k]
        }),
    decreases rounds,
{
    if rounds > 0 && keys.len() > 0 {
        law_greatest(keys);
        let il = greatest(keys);
        if keys[il] >= min {
            let next = keys.update(il, 0);
            let rest = picks(next, in_tolerance, min, (rounds - 1) as nat);
            law_picks_are_sound(next, in_tolerance, min, (rounds - 1) as nat);
            let p = picks(keys, in_tolerance, min, rounds);
            assert forall|k: int| 0 <= k < rest.len() implies #[trigger] rest[k] != il && keys[rest[k]] >= min by {
                assert(next[rest[k]] >= min);
            }
            if in_tolerance[il] {
                assert(p =~= seq![il] + rest);
                assert forall|k: int| 0 <= k < p.len() implies 0 <= #[trigger] p[k] < keys.len() && keys[p[k]]
                    >= min && in_tolerance[p[k]] by {
                    if k > 0 {
                        assert(p[k] == rest[k - 1]);
                    }
                }
                assert forall|j: int, k: int| 0 <= j < k < p.len() implies #[trigger] p[j] != #[trigger] p[k] by {
                    assert(p[k] == rest[k - 1]);
                    if j > 0 {
                        assert(p[j] == rest[j - 1]);
                    }
                }
            } else {
                assert(p =~= rest);
            }
        }
    }
}

/// The stronger candidate comes first.
pub proof fn law_picks_are_ordered(keys: Seq<u32>, in_tolerance: Seq<bool>, min: u32, rounds: nat, j: int, k: int)
    requires
        min > 0,
        0 <= j < k < picks(keys, in_tolerance, min, rounds).len(),
    ensures
        keys[picks(keys, in_tolerance, min, rounds)[j]] >= keys[picks(keys, in_tolerance, min, rounds)[k]],
    decreases rounds,
{
    law_greatest(keys);
    law_picks_are_sound(keys, in_tolerance, min, rounds);
    let il = greatest(keys);
    let next = keys.update(il, 0);
    let rest = picks(next, in_tolerance, min, (rounds - 1) as nat);
    let p = picks(keys, in_tolerance, min, rounds);
    law_picks_are_sound(next, in_tolerance, min, (rounds - 1) as nat);
    assert forall|i: int| 0 <= i < rest.len() implies #[trigger] rest[i] != il by {
        assert(next[rest[i]] >= min);
    }
    if in_tolerance[il] {
        assert(p =~= seq![il] + rest);
        assert(p[k] == rest[k - 1]);
        if j > 0 {
            assert(p[j] == rest[j - 1]);
            law_picks_are_ordered(next, in_tolerance, min, (rounds - 1) as nat, j - 1, k - 1);
        }
    } else {
        assert(p =~= rest);
        law_picks_are_ordered(next, in_tolerance, min, (rounds - 1) as nat, j, k);
    }
}

/// Silence has no candidates.
pub proof fn law_silence_has_no_candidates(keys: Seq<u32>, in_tolerance: Seq<bool>, min: u32, rounds: nat)
    requires
        min > 0,
        forall|k: int| 0 <= k < keys.len() ==> #[trigger] keys[k] == 0,
    ensures
        picks(keys, in_tolerance, min, rounds).len() == 0,
{
    if keys.len() > 0 {
        law_greatest(keys);
    }
}

/// Number of elements that are at least `v`.
pub open spec fn count_at_least(s: Seq<u32>, v: u32) -> nat
    decreases s.len(),
{
    if s.len() == 0 {
        0
    } else {
        count_at_least(s.drop_last(), v) + (if s.last() >= v {
            1nat
        } else {
            0
        })
    }
}

proof fn lemma_count_cleared(s: Seq<u32>, i: int, v: u32)
    requires
        0 <= i < s.len(),
        v > 0,
        s[i] >= v,
    ensures
        count_at_least(s.update(i, 0), v) + 1 == count_at_least(s, v),
    decreases s.len(),
{
    let t = s.update(i, 0);
    if i < s.len() - 1 {
        assert(t.drop_last() =~= s.drop_last().update(i, 0));
        lemma_count_cleared(s.drop_last(), i, v);
    } else {
        assert(t.drop_last() =~= s.drop_last());
    }
}

proof fn lemma_counts_itself(s: Seq<u32>, i: int)
    requires
        0 <= i < s.len(),
    ensures
        count_at_least(s, s[i]) >= 1,
    decreases s.len(),
{
    if i < s.len() - 1 {
        lemma_counts_itself(s.drop_last(), i);
    }
}

/// A step that reaches the threshold within tolerance is passed over only where there
/// are at least as many others as there are rounds that are as strong or stronger.
pub proof fn law_picks_are_complete(keys: Seq<u32>, in_tolerance: Seq<bool>, min: u32, rounds: nat, x: int)
    requires
        min > 0,
        0 <= x < keys.len(),
        in_tolerance[x],
        keys[x] >= min,
        !picks(keys, in_tolerance, min, rounds).contains(x),
    ensures
        count_at_least(keys, keys[x]) >= rounds + 1,
    decreases rounds,
{
    lemma_counts_itself(keys, x);
    if rounds > 0 {
        law_greatest(keys);
        let il = greatest(keys);
        let next = keys.update(il, 0);
        let rest = picks(next, in_tolerance, min, (rounds - 1) as nat);
        let p = picks(keys, in_tolerance, min, rounds);
        assert(keys[il] >= keys[x]);
        if il == x {
            assert(p[0] == x);
        }
        assert(!rest.contains(x)) by {
            if rest.contains(x) {
                let k = rest.index_of(x);
                if in_tolerance[il] {
                    assert(p[k + 1] == x);
                } else {
                    assert(p[k] == x);
                }
            }
        }
        law_picks_are_complete(next, in_tolerance, min, (rounds - 1) as nat, x);
        lemma_count_cleared(keys, il, keys[x]);
    }
}

/// What was picked already counts as silent, everything else as it is.
pub proof fn law_cleared_are_silent(keys: Seq<u32>, taken: Seq<int>, i: int)
    requires
        0 <= i < keys.len(),
        forall|k: int| 0 <= k < taken.len() ==> 0 <= #[trigger] taken[k] < keys.len(),
    ensures
        cleared(keys, taken).len() == keys.len(),
        cleared(keys, taken)[i] == if taken.contains(i) {
            0
        } else {
            keys[i]
        },
    decreases taken.len(),
{
    if taken.len() > 0 {
        let t = taken.drop_last();
        assert forall|k: int| 0 <= k < t.len() implies 0 <= #[trigger] t[k] < keys.len() by {
            assert(t[k] == taken[k]);
        }
        law_cleared_are_silent(keys, t, i);
        if taken.contains(i) {
            let k = taken.index_of(i);
            if k < t.len() {
                assert(t[k] == i);
            }
        } else {
            assert(taken[taken.len() - 1] != i);
            if t.contains(i) {
                assert(taken[t.index_of(i)] == i);
            }
        }
    }
}

/// The noise floor: a quarter of the steps, and no more, can be below it, and more
/// than a quarter are not above it.
pub proof fn law_noise_floor_is_a_quarter(s: Seq<u32>, v: u32)
    requires
        has_rank(s, v, (s.len() / 4) as nat),
    ensures
        4 * count_less(s, v) <= s.len(),
        4 * count_at_most(s, v) > s.len(),
        s.contains(v),
{
}

} // verus!
