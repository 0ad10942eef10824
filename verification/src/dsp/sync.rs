//! Where a frame starts within a window, and the window around a candidate.
use vstd::prelude::*;

use crate::dsp::spd::{greatest, law_greatest, strongest};

verus! {

/// Samples around a peak that belong to it, on each side.
pub const PEAK_REACH: usize = 7;

/// The strengths without a peak and its surroundings.
pub open spec fn without_peak(keys: Seq<u32>, at: int) -> Seq<u32> {
    Seq::new(
        keys.len(),
        |k: int|
            if at - 7 <= k <= at + 7 {
                0u32
            } else {
                keys[k]
            },
    )
}

/// The `n` strongest peaks: the strongest place each time, after which it and its
/// surroundings count as silent.
pub open spec fn peaks(keys: Seq<u32>, n: nat) -> Seq<int>
    decreases n,
{
    if n == 0 {
        seq![]
    } else {
        seq![greatest(keys)] + peaks(without_peak(keys, greatest(keys)), (n - 1) as nat)
    }
}

/// Positions as whole numbers.
pub open spec fn positions(v: Seq<usize>) -> Seq<int> {
    v.map_values(|p: usize| p as int)
}

fn clear_peak(keys: &mut Vec<u32>, at: usize)
    requires
        at < old(keys)@.len(),
    ensures
        final(keys)@ == without_peak(old(keys)@, at as int),
{
    assert(keys.len() == keys@.len());
    let lo: usize = if at >= PEAK_REACH {
        at - PEAK_REACH
    } else {
        0
    };
    let hi: usize = if keys.len() - 1 - at >= PEAK_REACH {
        at + PEAK_REACH
    } else {
        keys.len() - 1
    };
    let ghost before = keys@;
    let mut k: usize = lo;
    while k <= hi
        invariant
            lo <= k <= hi + 1,
            hi < keys@.len() == before.len() == keys.len(),
            forall|i: int|
                0 <= i < before.len() ==> #[trigger] keys@[i] == (if lo <= i < k {
                    0
                } else {
                    before[i]
                }),
        decreases hi + 1 - k,
    {
        keys.set(k, 0);
        k = k + 1;
    }
    assert(keys@ =~= without_peak(before, at as int));
}

/// Finds the `n` strongest peaks.
pub fn pick_peaks(keys: Vec<u32>, n: usize) -> (r: Vec<usize>)
    requires
        keys@.len() > 0,
        keys@.len() < usize::MAX,
    ensures
        positions(r@) == peaks(keys@, n as nat),
        r@.len() == n,
        forall|k: int| 0 <= k < n ==> #[trigger] r@[k] < keys@.len(),
{
    let ghost all = peaks(keys@, n as nat);
    let ghost len = keys@.len();
    let mut work = keys;
    let mut out: Vec<usize> = Vec::new();
    assert(positions(out@) + all =~= all);
    while out.len() < n
        invariant
            work@.len() == len > 0,
            len < usize::MAX,
            out@.len() <= n,
            all == positions(out@) + peaks(work@, (n - out@.len()) as nat),
            forall|k: int| 0 <= k < out@.len() ==> #[trigger] out@[k] < len,
        decreases n - out.len(),
    {
        let at: usize = strongest(&work);
        let ghost done = positions(out@);
        let ghost rest = peaks(without_peak(work@, at as int), (n - out@.len() - 1) as nat);
        out.push(at);
        assert(positions(out@) =~= done.push(at as int));
        assert(done + (seq![at as int] + rest) =~= done.push(at as int) + rest);
        clear_peak(&mut work, at);
    }
    assert(positions(out@) =~= all);
    out
}

/// The start that is tried in a round around a peak: the peak itself, one sample
/// before it, one behind it, kept within the frame.
pub open spec fn tried(peak: int, round: int, frame: int) -> int {
    if round == 0 {
        peak
    } else if round == 1 {
        if peak > 0 {
            peak - 1
        } else {
            0
        }
    } else if peak + 1 < frame {
        peak + 1
    } else {
        frame - 1
    }
}

/// The start that is tried in round `round` around a peak.
pub fn tried_start(peak: usize, round: usize, frame: usize) -> (r: usize)
    requires
        peak < frame,
    ensures
        r < frame,
        r == tried(peak as int, round as int, frame as int),
{
    if round == 0 {
        peak
    } else if round == 1 {
        if peak > 0 {
            peak - 1
        } else {
            0
        }
    } else if frame - peak > 1 {
        peak + 1
    } else {
        frame - 1
    }
}

/// A frame turned so that it starts at `start`.
pub open spec fn turned<T>(s: Seq<T>, start: int) -> Seq<T> {
    Seq::new(s.len(), |k: int| s[(k + start) % (s.len() as int)])
}

/// Turns a frame so that it starts at `start`.
pub fn turn<T: Copy>(frame: &Vec<T>, start: usize) -> (r: Vec<T>)
    requires
        start < frame@.len(),
        2 * frame@.len() <= usize::MAX,
    ensures
        r@ == turned(frame@, start as int),
{
    let n: usize = frame.len();
    let mut r: Vec<T> = Vec::new();
    let mut k: usize = 0;
    assert(turned(frame@, start as int).take(0) =~= Seq::<T>::empty());
    while k < n
        invariant
            k <= n == frame@.len(),
            start < n,
            2 * n <= usize::MAX,
            r@ == turned(frame@, start as int).take(k as int),
        decreases n - k,
    {
        r.push(frame[(k + start) % n]);
        assert(turned(frame@, start as int).take(k + 1) =~= turned(frame@, start as int).take(k as int).push(
            frame@[(k + start) as int % n as int],
        ));
        k = k + 1;
    }
    assert(turned(frame@, start as int).take(k as int) =~= turned(frame@, start as int));
    r
}

/// Where the window of a candidate starts: a frame before the candidate, or with
/// the buffer.
pub open spec fn window_start(n_start: int, frame: int) -> int {
    if n_start >= 1 + frame {
        n_start - 1 - frame
    } else {
        0
    }
}

/// The window of three frames around a candidate in a buffer of `n` samples: from a
/// frame before it, moved back where it would reach past the end; none where the
/// buffer is shorter than three frames.
pub open spec fn window(n_start: int, frame: int, n: int) -> Option<(int, int)> {
    let at = window_start(n_start, frame);
    if at + 3 * frame <= n {
        Some((at, at + 3 * frame))
    } else if n >= 3 * frame {
        Some((n - 3 * frame, n))
    } else {
        None
    }
}

/// The window of three frames around a candidate.
pub fn candidate_window(n_start: usize, frame: usize, n: usize) -> (r: Option<(usize, usize)>)
    requires
        n_start + 3 * frame <= usize::MAX,
    ensures
        match r {
            Some((b, e)) => window(n_start as int, frame as int, n as int) == Some((b as int, e as int)) && b
                <= e <= n,
            None => window(n_start as int, frame as int, n as int) is None,
        },
{
    let start: usize = if n_start > 0 {
        n_start - 1
    } else {
        0
    };
    let b: usize = if start >= frame {
        start - frame
    } else {
        0
    };
    let e: usize = b + 3 * frame;
    if e <= n {
        Some((b, e))
    } else if n >= 3 * frame {
        Some((n - 3 * frame, n))
    } else {
        None
    }
}

/// A frame turned to where it starts is whole: every sample is there once.
pub proof fn law_turn_keeps_samples<T>(s: Seq<T>, start: int, i: int)
    requires
        0 <= start < s.len(),
        0 <= i < s.len(),
    ensures
        ({
            let k = if i >= start {
                i - start
            } else {
                i - start + s.len()
            };
            0 <= k < s.len() && turned(s, start)[k] == s[i]
        }),
{
    let n = s.len() as int;
    let k = if i >= start {
        i - start
    } else {
        i - start + n
    };
    if i >= start {
        vstd::arithmetic::div_mod::lemma_small_mod(i as nat, n as nat);
    } else {
        vstd::arithmetic::div_mod::lemma_fundamental_div_mod_converse(k + start, n, 1, i);
    }
}

/// The first peak is the strongest place of all.
pub proof fn law_first_peak_is_strongest(keys: Seq<u32>, n: nat, k: int)
    requires
        keys.len() > 0,
        n > 0,
        0 <= k < keys.len(),
    ensures
        keys[k] <= keys[peaks(keys, n)[0]],
{
    law_greatest(keys);
}

/// Two places belong to different peaks: more than seven samples lie between them.
pub open spec fn apart(a: int, b: int) -> bool {
    a - b > 7 || b - a > 7
}

/// Every further peak stands apart from those before it and is the strongest place
/// that does, as long as there is a signal left that stands apart from them.
pub proof fn law_peaks_stand_apart(keys: Seq<u32>, n: nat, j: int, k: int)
    requires
        keys.len() > 0,
        0 <= j < n,
        0 <= k < keys.len(),
        keys[k] > 0,
        forall|i: int| 0 <= i < j ==> apart(k, #[trigger] peaks(keys, n)[i]),
    ensures
        peaks(keys, n).len() == n,
        0 <= peaks(keys, n)[j] < keys.len(),
        keys[k] <= keys[peaks(keys, n)[j]],
        forall|i: int| 0 <= i < j ==> apart(peaks(keys, n)[j], #[trigger] peaks(keys, n)[i]),
    decreases n,
{
    law_greatest(keys);
    let g = greatest(keys);
    let rest = without_peak(keys, g);
    let m = (n - 1) as nat;
    let p = peaks(keys, n);
    lemma_peaks_len(rest, m);
    assert(p[0] == g);
    if j > 0 {
        let q = peaks(rest, m);
        assert(apart(k, p[0]));
        assert(rest[k] == keys[k]);
        assert forall|i: int| 0 <= i < j - 1 implies apart(k, #[trigger] q[i]) by {
            assert(q[i] == p[i + 1]);
        }
        law_peaks_stand_apart(rest, m, j - 1, k);
        assert(p[j] == q[j - 1]);
        assert forall|i: int| 0 <= i < j implies apart(p[j], #[trigger] p[i]) by {
            if i > 0 {
                assert(p[i] == q[i - 1]);
            }
        }
    }
}

proof fn lemma_peaks_len(keys: Seq<u32>, n: nat)
    ensures
        peaks(keys, n).len() == n,
    decreases n,
{
    if n > 0 {
        lemma_peaks_len(without_peak(keys, greatest(keys)), (n - 1) as nat);
    }
}

/// Around a peak three starts are tried: the peak, the sample before it and the one
/// behind it; at the edges of the frame the edge itself stands for what is beyond.
pub proof fn law_tried_around_peak(peak: int, frame: int)
    requires
        0 <= peak < frame,
    ensures
        tried(peak, 0, frame) == peak,
        peak > 0 ==> tried(peak, 1, frame) == peak - 1,
        peak == 0 ==> tried(peak, 1, frame) == 0,
        peak < frame - 1 ==> tried(peak, 2, frame) == peak + 1,
        peak == frame - 1 ==> tried(peak, 2, frame) == frame - 1,
{
}

/// A turned frame begins with the sample at which it was turned and goes on in
/// order, past the end from the beginning.
pub proof fn law_turn_begins_at_start<T>(s: Seq<T>, start: int, k: int)
    requires
        0 <= start < s.len(),
        0 <= k < s.len(),
    ensures
        turned(s, start).len() == s.len(),
        turned(s, start)[0] == s[start],
        k < s.len() - start ==> turned(s, start)[k] == s[start + k],
        k >= s.len() - start ==> turned(s, start)[k] == s[start + k - s.len()],
{
    let n = s.len() as int;
    vstd::arithmetic::div_mod::lemma_small_mod(start as nat, n as nat);
    if k < n - start {
        vstd::arithmetic::div_mod::lemma_small_mod((start + k) as nat, n as nat);
    } else {
        vstd::arithmetic::div_mod::lemma_fundamental_div_mod_converse(start + k, n, 1, start + k - n);
    }
}

/// There is a window exactly where the buffer holds three frames. It is three frames
/// long, lies in the buffer, and has a whole frame in front of the candidate, unless
/// an end of the buffer is nearer.
pub proof fn law_window_holds_candidate(n_start: int, frame: int, n: int)
    requires
        n_start >= 0,
        frame > 0,
        n >= 0,
    ensures
        window(n_start, frame, n) is Some <==> n >= 3 * frame,
        window(n_start, frame, n) matches Some((from, to)) ==> {
            &&& 0 <= from <= to <= n
            &&& to - from == 3 * frame
            &&& from <= n_start
            &&& from == n_start - 1 - frame || (from == 0 && n_start <= frame) || (to == n && n_start - 1 + 2 * frame
                > n)
            &&& n_start <= n ==> n_start <= to
        },
{
}

} // verus!
