//! Judging a hard-sliced codeword of the (128,90) code between the rounds of
//! belief propagation: done, hopeless, or to be continued.
use vstd::prelude::*;

use crate::fec::converse::law_accepted_is_codeword;
use crate::fec::crc::{crc13_check, crc_holds, is_bits, law_appended_crc_validates, with_crc};
use crate::fec::encode::{check_satisfied, check_sum, codeword, law_codeword_satisfies_checks, lemma_with_crc_bits};
use crate::fec::parity::{lemma_table_bounds, LDPC_MN, LDPC_NM, LDPC_NRW};

verus! {

/// A message that was decoded.
#[derive(Debug, Clone, Copy, PartialEq, Eq)]
pub struct DecodeResult {
    /// The message, a bit in each byte.
    pub message: [u8; 77],
    /// Number of bits in which the codeword differs from what was received.
    pub n_hard_errors: u32,
    /// Rounds of belief propagation before the codeword was found.
    pub iterations: u32,
}

/// Number of the first `n` checks that a word does not satisfy.
pub open spec fn unsatisfied(word: Seq<u8>, n: nat) -> nat
    decreases n,
{
    if n == 0 {
        0
    } else if check_satisfied(word, n - 1) {
        unsatisfied(word, (n - 1) as nat)
    } else {
        unsatisfied(word, (n - 1) as nat) + 1
    }
}

/// A bit contradicts the sign of what was received for it: positive for a one,
/// negative for a zero, zero for neither.
pub open spec fn contradicts(bit: u8, sign: i8) -> bool {
    (bit == 1 && sign < 0) || (bit != 1 && sign > 0)
}

/// What was received has the sign of every bit: the word is what the receiver would
/// slice.
pub open spec fn agree(word: Seq<u8>, signs: Seq<i8>) -> bool {
    forall|i: int|
        0 <= i < 128 ==> (#[trigger] word[i] == 1 ==> signs[i] > 0) && (word[i] != 1 ==> signs[i] < 0)
}

/// Number of the first `n` bits that contradict what was received.
pub open spec fn contradictions(word: Seq<u8>, signs: Seq<i8>, n: nat) -> nat
    decreases n,
{
    if n == 0 {
        0
    } else {
        contradictions(word, signs, (n - 1) as nat) + (if contradicts(word[n - 1], signs[n - 1]) {
            1nat
        } else {
            0
        })
    }
}

/// Whether check `j` covers an even number of ones.
fn check_even(word: &[u8; 128], j: usize) -> (r: bool)
    requires
        j < 38,
        is_bits(word@),
    ensures
        r == check_satisfied(word@, j as int),
{
    let n: usize = LDPC_NRW[j] as usize;
    proof {
        lemma_table_bounds();
        assert(10 <= LDPC_NRW@[j as int] <= 11);
    }
    let mut s: u32 = 0;
    let mut k: usize = 0;
    while k < n
        invariant
            j < 38,
            k <= n == LDPC_NRW@[j as int] <= 11,
            is_bits(word@),
            s <= k,
            s == check_sum(word@, j as int, k as nat),
            forall|j: int, k: int|
                0 <= j < 38 && 0 <= k < LDPC_NRW@[j] ==> #[trigger] LDPC_NM@[j]@[k] < 128,
        decreases n - k,
    {
        assert(LDPC_NM@[j as int]@[k as int] < 128);
        let b: usize = LDPC_NM[j][k] as usize;
        assert(word@[b as int] <= 1);
        s = s + word[b] as u32;
        k = k + 1;
    }
    s % 2 == 0
}

/// Number of checks that a word does not satisfy.
pub fn unsatisfied_checks(word: &[u8; 128]) -> (r: u32)
    requires
        is_bits(word@),
    ensures
        r == unsatisfied(word@, 38),
        r <= 38,
{
    let mut n: u32 = 0;
    let mut j: usize = 0;
    while j < 38
        invariant
            j <= 38,
            is_bits(word@),
            n <= j,
            n == unsatisfied(word@, j as nat),
        decreases 38 - j,
    {
        if !check_even(word, j) {
            n = n + 1;
        }
        j = j + 1;
    }
    n
}

/// Number of bits in which a word contradicts the signs of what was received.
pub fn hard_errors(word: &[u8; 128], signs: &[i8; 128]) -> (r: u32)
    ensures
        r == contradictions(word@, signs@, 128),
        r <= 128,
{
    let mut n: u32 = 0;
    let mut i: usize = 0;
    while i < 128
        invariant
            i <= 128,
            n <= i,
            n == contradictions(word@, signs@, i as nat),
        decreases 128 - i,
    {
        let against = if word[i] == 1 {
            signs[i] < 0
        } else {
            signs[i] > 0
        };
        if against {
            n = n + 1;
        }
        i = i + 1;
    }
    n
}

/// The slot in which a bit lists a check, where it takes part in it.
pub fn slot_of_check(bit: usize, check: usize) -> (r: Option<usize>)
    requires
        bit < 128,
    ensures
        match r {
            Some(k) => k < 3 && LDPC_MN@[bit as int]@[k as int] == check && forall|i: int|
                0 <= i < k ==> LDPC_MN@[bit as int]@[i] != check,
            None => forall|i: int| 0 <= i < 3 ==> #[trigger] LDPC_MN@[bit as int]@[i] != check,
        },
{
    let mut k: usize = 0;
    while k < 3
        invariant
            k <= 3,
            bit < 128,
            forall|i: int| 0 <= i < k ==> #[trigger] LDPC_MN@[bit as int]@[i] != check,
        decreases 3 - k,
    {
        if LDPC_MN[bit][k] as usize == check {
            return Some(k);
        }
        k = k + 1;
    }
    None
}

/// What comes of one round.
#[derive(Debug, Clone, Copy)]
pub enum Verdict {
    /// The word is a codeword whose CRC holds.
    Decoded(DecodeResult),
    /// The rounds do not converge.
    GiveUp,
    /// Another round may help.
    Continue,
}

/// How the rounds have gone so far.
#[derive(Debug, Clone, Copy, PartialEq, Eq, Structural)]
pub struct Progress {
    /// Rounds judged so far.
    pub iter: u32,
    /// Rounds in a row in which the number of unsatisfied checks has not fallen.
    pub stalled: u32,
    /// Unsatisfied checks of the round before.
    pub last: u32,
}

impl Progress {
    /// How often the number of unsatisfied checks has not fallen, with a round in
    /// which it is `n`. The first round does not count.
    pub open spec fn stalled_with(self, n: nat) -> int {
        if self.iter == 0 {
            self.stalled as int
        } else if n < self.last {
            0
        } else {
            self.stalled + 1
        }
    }

    /// A word is accepted: it satisfies all checks and its CRC holds.
    pub open spec fn accepted(word: Seq<u8>) -> bool {
        unsatisfied(word, 38) == 0 && crc_holds(word.subrange(0, 90))
    }

    /// The rounds are hopeless: from the sixth on, with more than ten unsatisfied
    /// checks and no progress three times in a row.
    pub open spec fn hopeless(self, n: nat) -> bool {
        self.iter >= 5 && n > 10 && self.stalled_with(n) >= 3
    }

    /// Nothing has been judged yet.
    pub fn new() -> (r: Self)
        ensures
            r == (Progress { iter: 0, stalled: 0, last: u32::MAX }),
    {
        Progress { iter: 0, stalled: 0, last: u32::MAX }
    }

    /// Whether another round may be judged where there are at most `max_iterations`
    /// after the first.
    pub fn may_go_on(&self, max_iterations: u32) -> (r: bool)
        ensures
            r == (self.iter <= max_iterations),
    {
        self.iter <= max_iterations
    }

    /// Judges the word of one round; `signs` are those of what was received.
    pub fn judge(&mut self, word: &[u8; 128], signs: &[i8; 128]) -> (r: Verdict)
        requires
            is_bits(word@),
            old(self).iter < u32::MAX,
            old(self).stalled <= old(self).iter,
        ensures
            match r {
                Verdict::Decoded(d) => {
                    &&& Self::accepted(word@)
                    &&& d.message@ == word@.subrange(0, 77)
                    &&& is_bits(d.message@)
                    &&& word@ == codeword(d.message@)
                    &&& d.n_hard_errors == contradictions(codeword(d.message@), signs@, 128)
                    &&& agree(word@, signs@) ==> d.n_hard_errors == 0
                    &&& d.iterations == old(self).iter
                },
                Verdict::GiveUp => !Self::accepted(word@) && old(self).hopeless(unsatisfied(word@, 38)),
                Verdict::Continue => !Self::accepted(word@) && !old(self).hopeless(unsatisfied(word@, 38)),
            },
            r is Continue ==> *final(self) == (Progress {
                iter: (old(self).iter + 1) as u32,
                stalled: old(self).stalled_with(unsatisfied(word@, 38)) as u32,
                last: unsatisfied(word@, 38) as u32,
            }),
            !(r is Continue) ==> *final(self) == *old(self),
            final(self).stalled <= final(self).iter,
            r is Decoded <==> Self::accepted(word@),
            !Self::accepted(word@) ==> (r is GiveUp <==> old(self).iter >= 5 && unsatisfied(word@, 38) > 10
                && old(self).stalled >= 2 && unsatisfied(word@, 38) >= old(self).last),
            r is Continue ==> final(self).iter == old(self).iter + 1 && final(self).last == unsatisfied(word@, 38)
                && (old(self).iter == 0 ==> final(self).stalled == old(self).stalled) && (old(self).iter > 0
                && unsatisfied(word@, 38) < old(self).last ==> final(self).stalled == 0) && (old(self).iter > 0
                && unsatisfied(word@, 38) >= old(self).last ==> final(self).stalled == old(self).stalled + 1),
    {
        let n: u32 = unsatisfied_checks(word);
        if n == 0 {
            let info = vstd::slice::slice_subrange(word, 0, 90);
            assert(is_bits(info@)) by {
                assert forall|k: int| 0 <= k < 90 implies #[trigger] info@[k] <= 1 by {
                    assert(word@[k] <= 1);
                }
            }
            if crc13_check(info) {
                let mut message = [0u8; 77];
                let mut i: usize = 0;
                while i < 77
                    invariant
                        i <= 77,
                        forall|k: int| 0 <= k < i ==> #[trigger] message@[k] == word@[k],
                    decreases 77 - i,
                {
                    message[i] = word[i];
                    i = i + 1;
                }
                assert(message@ =~= word@.subrange(0, 77));
                proof {
                    lemma_decoded(word@, signs@);
                }
                return Verdict::Decoded(
                    DecodeResult {
                        message,
                        n_hard_errors: hard_errors(word, signs),
                        iterations: self.iter,
                    },
                );
            }
        }
        let mut stalled: u32 = self.stalled;
        if self.iter > 0 {
            if n < self.last {
                stalled = 0;
            } else {
                stalled = self.stalled + 1;
            }
            if stalled >= 3 && self.iter >= 5 && n > 10 {
                return Verdict::GiveUp;
            }
        }
        *self = Progress { iter: self.iter + 1, stalled, last: n };
        Verdict::Continue
    }
}

/// How the rounds have gone when they had `counts` unsatisfied checks, none of them
/// ending the decoding.
pub open spec fn after_rounds(counts: Seq<nat>) -> Progress
    decreases counts.len(),
{
    if counts.len() == 0 {
        Progress { iter: 0, stalled: 0, last: u32::MAX }
    } else {
        let before = after_rounds(counts.drop_last());
        Progress {
            iter: counts.len() as u32,
            stalled: before.stalled_with(counts.last()) as u32,
            last: counts.last() as u32,
        }
    }
}

/// Round `i` did not bring the number of unsatisfied checks down.
pub open spec fn no_progress(counts: Seq<nat>, i: int) -> bool {
    0 < i < counts.len() && counts[i] >= counts[i - 1]
}

proof fn lemma_after_rounds(counts: Seq<nat>)
    requires
        counts.len() < u32::MAX,
        forall|i: int| 0 <= i < counts.len() ==> #[trigger] counts[i] <= 38,
    ensures
        ({
            let p = after_rounds(counts);
            let n = counts.len() as int;
            &&& p.iter == n
            &&& p.stalled <= n
            &&& n > 0 ==> p.last == counts[n - 1]
            &&& p.stalled >= 1 <==> no_progress(counts, n - 1)
            &&& p.stalled >= 2 <==> no_progress(counts, n - 1) && no_progress(counts, n - 2)
        }),
    decreases counts.len(),
{
    if counts.len() > 0 {
        let front = counts.drop_last();
        assert forall|i: int| 0 <= i < front.len() implies #[trigger] front[i] <= 38 by {
            assert(counts[i] <= 38);
        }
        lemma_after_rounds(front);
        let n = counts.len() as int;
        assert(counts[n - 1] <= 38);
        assert(no_progress(front, n - 2) == no_progress(counts, n - 2));
    }
}

/// A round is given up exactly from the sixth on, with more than ten unsatisfied
/// checks, where neither it nor the two before it brought their number down. However
/// bad the first rounds are, they go on.
pub proof fn law_gives_up_only_without_progress(counts: Seq<nat>, n: nat)
    requires
        counts.len() < u32::MAX,
        n <= 38,
        forall|i: int| 0 <= i < counts.len() ==> #[trigger] counts[i] <= 38,
    ensures
        ({
            let all = counts.push(n);
            let last = counts.len() as int;
            after_rounds(counts).hopeless(n) <==> last >= 5 && n > 10 && no_progress(all, last) && no_progress(
                all,
                last - 1,
            ) && no_progress(all, last - 2)
        }),
        counts.len() < 5 ==> !after_rounds(counts).hopeless(n),
{
    lemma_after_rounds(counts);
    let all = counts.push(n);
    let last = counts.len() as int;
    assert(no_progress(all, last - 1) == no_progress(counts, last - 1));
    assert(no_progress(all, last - 2) == no_progress(counts, last - 2));
}

proof fn lemma_all_satisfied(word: Seq<u8>, n: nat)
    requires
        forall|j: int| 0 <= j < n ==> check_satisfied(word, j),
    ensures
        unsatisfied(word, n) == 0,
    decreases n,
{
    if n > 0 {
        lemma_all_satisfied(word, (n - 1) as nat);
    }
}

/// Every codeword that the encoder makes is accepted, and its first 77 bits are the
/// message: a codeword received without errors decodes to what was sent.
pub proof fn law_codeword_decodes(message: Seq<u8>)
    requires
        is_bits(message),
        message.len() == 77,
    ensures
        Progress::accepted(codeword(message)),
        codeword(message).subrange(0, 77) == message,
{
    let w = codeword(message);
    assert forall|j: int| 0 <= j < 38 implies check_satisfied(w, j) by {
        law_codeword_satisfies_checks(message, j);
    }
    lemma_all_satisfied(w, 38);
    lemma_with_crc_bits(message);
    assert(w.subrange(0, 90) =~= with_crc(message));
    law_appended_crc_validates(message);
    assert(w.subrange(0, 77) =~= message);
}

/// What an accepted word is.
proof fn lemma_decoded(word: Seq<u8>, signs: Seq<i8>)
    requires
        word.len() == 128,
        is_bits(word),
        Progress::accepted(word),
    ensures
        is_bits(word.subrange(0, 77)),
        word == codeword(word.subrange(0, 77)),
        agree(word, signs) ==> contradictions(word, signs, 128) == 0,
{
    law_accepted_is_codeword(word);
    if agree(word, signs) {
        law_clean_reception_has_no_errors(word, signs, 128);
    }
    assert forall|k: int| 0 <= k < 77 implies #[trigger] word.subrange(0, 77)[k] <= 1 by {
        assert(word[k] <= 1);
    }
}

/// A word contradicts nothing where the signs say what it says.
pub proof fn law_clean_reception_has_no_errors(word: Seq<u8>, signs: Seq<i8>, n: nat)
    requires
        forall|i: int|
            0 <= i < n ==> (#[trigger] word[i] == 1 ==> signs[i] > 0) && (word[i] != 1 ==> signs[i] < 0),
    ensures
        contradictions(word, signs, n) == 0,
    decreases n,
{
    if n > 0 {
        law_clean_reception_has_no_errors(word, signs, (n - 1) as nat);
        assert(word[n - 1] == 1 ==> signs[n - 1] > 0);
    }
}

/// Unsatisfied checks are counted one by one.
pub proof fn law_unsatisfied_counted(word: Seq<u8>, n: nat)
    ensures
        unsatisfied(word, n) == Seq::new(n, |j: int| check_satisfied(word, j)).filter(|ok: bool| !ok).len(),
        unsatisfied(word, n) <= n,
    decreases n,
{
    reveal(Seq::filter);
    let p = |ok: bool| !ok;
    let s = Seq::new(n, |j: int| check_satisfied(word, j));
    if n > 0 {
        let m = (n - 1) as nat;
        law_unsatisfied_counted(word, m);
        assert(s.drop_last() =~= Seq::new(m, |j: int| check_satisfied(word, j)));
    } else {
        assert(s.filter(p).len() == 0);
    }
}

/// Errors are counted one by one: a one received with a negative sign, or a zero
/// received with a positive one. What was received without a sign is no error.
pub proof fn law_errors_counted(word: Seq<u8>, signs: Seq<i8>, n: nat)
    requires
        is_bits(word),
        n <= word.len(),
    ensures
        contradictions(word, signs, n) == Seq::new(
            n,
            |i: int| (word[i] == 1 && signs[i] < 0) || (word[i] == 0 && signs[i] > 0),
        ).filter(|wrong: bool| wrong).len(),
        contradictions(word, signs, n) <= n,
    decreases n,
{
    reveal(Seq::filter);
    let p = |wrong: bool| wrong;
    let s = Seq::new(n, |i: int| (word[i] == 1 && signs[i] < 0) || (word[i] == 0 && signs[i] > 0));
    if n > 0 {
        let m = (n - 1) as nat;
        law_errors_counted(word, signs, m);
        assert(word[n - 1] <= 1);
        assert(s.drop_last() =~= Seq::new(
            m,
            |i: int| (word[i] == 1 && signs[i] < 0) || (word[i] == 0 && signs[i] > 0),
        ));
    } else {
        assert(s.filter(p).len() == 0);
    }
}

} // verus!
