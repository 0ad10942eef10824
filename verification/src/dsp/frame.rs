//! The frames of MSK144 and of its short messages: sync words and codeword bits
//! in a row, and the half-sine pulses that carry them.
//!
//! Odd bits go on the in-phase carrier, even bits on the quadrature carrier, which
//! runs half a symbol behind; a frame is repeated without a gap, so that its first
//! bit ends where the frame begins again.
use vstd::prelude::*;

use crate::fec::crc::is_bits;

verus! {

/// Samples per second.
pub const SAMPLE_RATE: u32 = 12000;

/// Samples of a frame.
pub const NSPM: usize = 864;

/// Bits of a frame.
pub const N_CHANSYM: usize = 144;

/// Samples between the beginnings of two bits.
pub const SAMPLES_PER_SYM: usize = 6;

/// The sync word of a frame.
pub const S8: [u8; 8] = [0, 1, 1, 1, 0, 0, 1, 0];

/// Samples of a short frame.
pub const NSPM_MSK40: usize = 240;

/// Bits of a short frame.
pub const N_CHANSYM_MSK40: usize = 40;

/// The sync word of a short frame.
pub const S8R: [u8; 8] = [1, 0, 1, 1, 0, 0, 0, 1];

/// Size of the transform that filters a block.
pub const NFFT_ANALYTIC: usize = 8192;

/// Samples that are analysed together.
pub const NZ_MSKRTD: usize = 7168;

/// Samples of the sync word's waveform.
pub const SYNC_SAMPLES: usize = 42;

/// The bits of a frame: sync word, 48 codeword bits, sync word, 80 codeword bits.
pub open spec fn channel_bits(codeword: Seq<u8>) -> Seq<u8> {
    S8@ + codeword.subrange(0, 48) + S8@ + codeword.subrange(48, 128)
}

/// The bits of the frame that carries a codeword.
pub fn build_channel_bits(codeword: &[u8; 128]) -> (bits: [u8; 144])
    ensures
        bits@ == channel_bits(codeword@),
        is_bits(codeword@) ==> is_bits(bits@),
{
    let mut bits = [0u8; 144];
    let mut i: usize = 0;
    while i < 144
        invariant
            i <= 144,
            forall|k: int| 0 <= k < i ==> #[trigger] bits@[k] == channel_bits(codeword@)[k],
        decreases 144 - i,
    {
        bits[i] = if i < 8 {
            S8[i]
        } else if i < 56 {
            codeword[i - 8]
        } else if i < 64 {
            S8[i - 56]
        } else {
            codeword[i - 16]
        };
        i = i + 1;
    }
    assert(bits@ =~= channel_bits(codeword@));
    assert(is_bits(codeword@) ==> is_bits(bits@)) by {
        if is_bits(codeword@) {
            assert forall|k: int| 0 <= k < 144 implies #[trigger] bits@[k] <= 1 by {
                if 8 <= k < 56 {
                    assert(codeword@[k - 8] <= 1);
                } else if k >= 64 {
                    assert(codeword@[k - 16] <= 1);
                } else if k < 8 {
                    assert(S8@[k] <= 1);
                } else {
                    assert(S8@[k - 56] <= 1);
                }
            }
        }
    }
    bits
}

/// The bits of a short frame: sync word and codeword.
pub open spec fn short_channel_bits(codeword: Seq<u8>) -> Seq<u8> {
    S8R@ + codeword
}

/// The bits of the short frame that carries a codeword.
pub fn build_channel_bits_msk40(codeword: &[u8; 32]) -> (bits: [u8; 40])
    ensures
        bits@ == short_channel_bits(codeword@),
{
    let mut bits = [0u8; 40];
    let mut i: usize = 0;
    while i < 40
        invariant
            i <= 40,
            forall|k: int| 0 <= k < i ==> #[trigger] bits@[k] == short_channel_bits(codeword@)[k],
        decreases 40 - i,
    {
        bits[i] = if i < 8 {
            S8R[i]
        } else {
            codeword[i - 8]
        };
        i = i + 1;
    }
    assert(bits@ =~= short_channel_bits(codeword@));
    bits
}

/// The positions of a frame that are not sync words, in order.
pub open spec fn payload_of<T>(s: Seq<T>) -> Seq<T> {
    s.subrange(8, 56) + s.subrange(64, 144)
}

/// Takes the sync words out of what was received for a frame.
pub fn payload_symbols<T: Copy>(symbols: &[T; 144]) -> (r: [T; 128])
    ensures
        r@ == payload_of(symbols@),
{
    let mut r = [symbols[0]; 128];
    let mut i: usize = 0;
    while i < 128
        invariant
            i <= 128,
            forall|k: int| 0 <= k < i ==> #[trigger] r@[k] == payload_of(symbols@)[k],
        decreases 128 - i,
    {
        r[i] = if i < 48 {
            symbols[i + 8]
        } else {
            symbols[i + 16]
        };
        i = i + 1;
    }
    assert(r@ =~= payload_of(symbols@));
    r
}

/// Takes the sync word out of what was received for a short frame.
pub fn short_payload_symbols<T: Copy>(symbols: &[T; 40]) -> (r: [T; 32])
    ensures
        r@ == symbols@.subrange(8, 40),
{
    let mut r = [symbols[8]; 32];
    let mut i: usize = 0;
    while i < 32
        invariant
            i <= 32,
            forall|k: int| 0 <= k < i ==> #[trigger] r@[k] == symbols@[k + 8],
        decreases 32 - i,
    {
        r[i] = symbols[i + 8];
        i = i + 1;
    }
    assert(r@ =~= symbols@.subrange(8, 40));
    r
}

/// Taking the sync words out of a frame gives the codeword back.
pub proof fn law_payload_is_codeword(codeword: Seq<u8>)
    requires
        codeword.len() == 128,
    ensures
        payload_of(channel_bits(codeword)) == codeword,
        channel_bits(codeword).len() == 144,
{
    assert(payload_of(channel_bits(codeword)) =~= codeword);
}

/// Taking the sync word out of a short frame gives the codeword back.
pub proof fn law_short_payload_is_codeword(codeword: Seq<u8>)
    requires
        codeword.len() == 32,
    ensures
        short_channel_bits(codeword).subrange(8, 40) == codeword,
        short_channel_bits(codeword).len() == 40,
{
    assert(short_channel_bits(codeword).subrange(8, 40) =~= codeword);
}

/// Number of the first `n` bits, from `at` on, that differ from the sync word.
pub open spec fn sync_errors(bits: Seq<u8>, at: int, word: Seq<u8>, n: nat) -> nat
    decreases n,
{
    if n == 0 {
        0
    } else {
        sync_errors(bits, at, word, (n - 1) as nat) + (if bits[at + n - 1] != word[n - 1] {
            1nat
        } else {
            0
        })
    }
}

fn count_sync_errors(bits: &[u8], at: usize, word: &[u8; 8]) -> (r: u8)
    requires
        at + 8 <= bits@.len(),
    ensures
        r == sync_errors(bits@, at as int, word@, 8),
        r <= 8,
{
    assert(bits.len() == bits@.len());
    let mut n: u8 = 0;
    let mut i: usize = 0;
    while i < 8
        invariant
            i <= 8,
            at + 8 <= bits@.len() == bits.len(),
            n <= i,
            n == sync_errors(bits@, at as int, word@, i as nat),
        decreases 8 - i,
    {
        if bits[at + i] != word[i] {
            n = n + 1;
        }
        i = i + 1;
    }
    n
}

/// Number of wrong bits in the two sync words of a hard-sliced frame.
pub fn bad_sync(bits: &[u8; 144]) -> (r: u8)
    ensures
        r == sync_errors(bits@, 0, S8@, 8) + sync_errors(bits@, 56, S8@, 8),
        r <= 16,
{
    count_sync_errors(bits, 0, &S8) + count_sync_errors(bits, 56, &S8)
}

/// Number of wrong bits in the sync word of a hard-sliced short frame.
pub fn short_bad_sync(bits: &[u8; 40]) -> (r: u8)
    ensures
        r == sync_errors(bits@, 0, S8R@, 8),
        r <= 8,
{
    count_sync_errors(bits, 0, &S8R)
}

/// A frame is worth decoding with up to four wrong sync bits.
pub fn sync_accepted(n_bad_sync: u8) -> (r: bool)
    ensures
        r == (n_bad_sync <= 4),
{
    n_bad_sync <= 4
}

/// A short frame is worth decoding with up to three wrong sync bits.
pub fn short_sync_accepted(n_bad_sync: u8) -> (r: bool)
    ensures
        r == (n_bad_sync <= 3),
{
    n_bad_sync <= 3
}

proof fn lemma_no_sync_errors(bits: Seq<u8>, at: int, word: Seq<u8>, n: nat)
    requires
        forall|i: int| 0 <= i < n ==> bits[at + i] == #[trigger] word[i],
    ensures
        sync_errors(bits, at, word, n) == 0,
    decreases n,
{
    if n > 0 {
        lemma_no_sync_errors(bits, at, word, (n - 1) as nat);
        assert(bits[at + (n - 1)] == word[n - 1]);
    }
}

/// A frame received without errors has no wrong sync bits.
pub proof fn law_clean_frame_is_in_sync(codeword: Seq<u8>)
    requires
        codeword.len() == 128,
    ensures
        sync_errors(channel_bits(codeword), 0, S8@, 8) == 0,
        sync_errors(channel_bits(codeword), 56, S8@, 8) == 0,
{
    let b = channel_bits(codeword);
    assert(S8@.len() == 8);
    assert forall|i: int| 0 <= i < 8 implies b[0 + i] == #[trigger] S8@[i] by {}
    lemma_no_sync_errors(b, 0, S8@, 8);
    assert forall|i: int| 0 <= i < 8 implies b[56 + i] == #[trigger] S8@[i] by {}
    lemma_no_sync_errors(b, 56, S8@, 8);
}

/// What carries one sample: a bit and the place in its pulse, in phase and in
/// quadrature.
#[derive(Debug, Clone, Copy, PartialEq, Eq, Structural)]
pub struct Carried {
    pub i_bit: usize,
    pub i_pulse: usize,
    pub q_bit: usize,
    pub q_pulse: usize,
}

/// What carries sample `s` of a frame of `n` bits.
pub open spec fn carried(n: int, s: int) -> Carried {
    let t = (s + 6) % (6 * n);
    Carried {
        i_bit: (2 * (s / 12) + 1) as usize,
        i_pulse: (s % 12) as usize,
        q_bit: (2 * (t / 12)) as usize,
        q_pulse: (t % 12) as usize,
    }
}

/// What carries sample `s` of a frame of `n` bits.
pub fn carriers_of(n: usize, s: usize) -> (r: Carried)
    requires
        n % 2 == 0,
        6 * n + 6 <= usize::MAX,
        s < 6 * n,
    ensures
        r == carried(n as int, s as int),
        r.i_bit < n,
        r.q_bit < n,
        r.i_pulse < 12,
        r.q_pulse < 12,
{
    let t: usize = (s + 6) % (6 * n);
    Carried { i_bit: 2 * (s / 12) + 1, i_pulse: s % 12, q_bit: 2 * (t / 12), q_pulse: t % 12 }
}

/// The sample at which place `j` of the pulse of bit `k` stands.
pub open spec fn pulse_sample(n: int, k: int, j: int) -> int {
    if k % 2 == 1 {
        6 * (k - 1) + j
    } else {
        (6 * k - 6 + j) % (6 * n)
    }
}

/// The twelve samples that the pulse of bit `k` covers.
pub fn pulse_samples(n: usize, k: usize) -> (r: [usize; 12])
    requires
        n % 2 == 0,
        6 * n + 6 <= usize::MAX,
        k < n,
    ensures
        forall|j: int|
            0 <= j < 12 ==> #[trigger] r@[j] == pulse_sample(n as int, k as int, j) && r@[j] < 6 * n,
{
    let mut r = [0usize; 12];
    let mut j: usize = 0;
    while j < 12
        invariant
            j <= 12,
            n % 2 == 0,
            6 * n + 6 <= usize::MAX,
            k < n,
            forall|i: int|
                0 <= i < j ==> #[trigger] r@[i] == pulse_sample(n as int, k as int, i) && r@[i] < 6 * n,
        decreases 12 - j,
    {
        let at: usize = if k % 2 == 1 {
            6 * (k - 1) + j
        } else if 6 * k + j >= 6 {
            (6 * k + j - 6) % (6 * n)
        } else {
            6 * n - 6 + j
        };
        proof {
            if k % 2 == 0 && 6 * k + j < 6 {
                let v = 6 * k - 6 + j;
                assert(v == -1 * (6 * n) + at);
                vstd::arithmetic::div_mod::lemma_fundamental_div_mod_converse(
                    v as int,
                    6 * n as int,
                    -1,
                    at as int,
                );
            }
        }
        r[j] = at;
        j = j + 1;
    }
    r
}

/// Receiving undoes sending: the samples that the pulse of a bit covers are those
/// that carry the bit, place by place.
pub proof fn law_pulse_covers_its_samples(n: int, k: int, j: int)
    requires
        n % 2 == 0,
        0 < n <= 144,
        0 <= k < n,
        0 <= j < 12,
    ensures
        ({
            let s = pulse_sample(n, k, j);
            let c = carried(n, s);
            &&& 0 <= s < 6 * n
            &&& k % 2 == 1 ==> c.i_bit == k && c.i_pulse == j
            &&& k % 2 == 0 ==> c.q_bit == k && c.q_pulse == j
        }),
{
    let s = pulse_sample(n, k, j);
    if k % 2 == 1 {
        let h = (k - 1) / 2;
        assert(s == 12 * h + j);
        vstd::arithmetic::div_mod::lemma_fundamental_div_mod_converse(s, 12, h, j);
    } else {
        let h = k / 2;
        let v = 12 * h - 6 + j;
        assert(6 * k - 6 + j == v);
        let t = 12 * h + j;
        if v >= 0 {
            vstd::arithmetic::div_mod::lemma_small_mod(v as nat, (6 * n) as nat);
        } else {
            vstd::arithmetic::div_mod::lemma_fundamental_div_mod_converse(v, 6 * n, -1, v + 6 * n);
        }
        assert(s == v || s == v + 6 * n);
        if s == v {
            vstd::arithmetic::div_mod::lemma_small_mod(t as nat, (6 * n) as nat);
        } else {
            vstd::arithmetic::div_mod::lemma_fundamental_div_mod_converse(s + 6, 6 * n, 1, t);
        }
        assert((s + 6) % (6 * n) == t);
        vstd::arithmetic::div_mod::lemma_fundamental_div_mod_converse(t, 12, h, j);
    }
}

/// The waveform of the sync word is how a frame that starts with it begins: its 42
/// samples are carried by the first eight bits alone.
pub proof fn law_sync_waveform_needs_sync_word(n: int, s: int)
    requires
        n % 2 == 0,
        8 <= n <= 144,
        0 <= s < 42,
    ensures
        carried(n, s).i_bit < 8,
        carried(n, s).q_bit < 8,
        carried(n, s) == carried(8, s),
{
    if s + 6 < 48 {
        vstd::arithmetic::div_mod::lemma_small_mod((s + 6) as nat, (6 * n) as nat);
        vstd::arithmetic::div_mod::lemma_small_mod((s + 6) as nat, 48);
    }
}

/// Number of whole frames that fit into a slot.
pub fn frames_in_slot(slot_secs: u32, samples_per_frame: usize) -> (r: usize)
    requires
        samples_per_frame > 0,
        slot_secs * SAMPLE_RATE <= usize::MAX,
    ensures
        r == (slot_secs * SAMPLE_RATE) as int / samples_per_frame as int,
{
    (slot_secs as usize * SAMPLE_RATE as usize) / samples_per_frame
}

/// Where everything stands in a frame: the sync word 01110010 at its beginning and
/// in front of bit 64, and the codeword in order in the places that are left.
pub proof fn law_frame_layout(codeword: Seq<u8>, i: int)
    requires
        codeword.len() == 128,
    ensures
        ({
            let b = channel_bits(codeword);
            let sync = seq![0u8, 1u8, 1u8, 1u8, 0u8, 0u8, 1u8, 0u8];
            &&& b.len() == 144
            &&& b.subrange(0, 8) == sync
            &&& b.subrange(56, 64) == sync
            &&& 0 <= i < 48 ==> b[8 + i] == codeword[i]
            &&& 48 <= i < 128 ==> b[16 + i] == codeword[i]
        }),
{
    let b = channel_bits(codeword);
    let sync = seq![0u8, 1u8, 1u8, 1u8, 0u8, 0u8, 1u8, 0u8];
    assert(b.subrange(0, 8) =~= S8@);
    assert(b.subrange(56, 64) =~= S8@);
    assert(S8@ =~= sync);
}

/// Where everything stands in a short frame: the sync word 10110001, then the
/// codeword.
pub proof fn law_short_frame_layout(codeword: Seq<u8>, i: int)
    requires
        codeword.len() == 32,
    ensures
        ({
            let b = short_channel_bits(codeword);
            &&& b.len() == 40
            &&& b.subrange(0, 8) == seq![1u8, 0u8, 1u8, 1u8, 0u8, 0u8, 0u8, 1u8]
            &&& 0 <= i < 32 ==> b[8 + i] == codeword[i]
        }),
{
    let b = short_channel_bits(codeword);
    assert(b.subrange(0, 8) =~= S8R@);
    assert(S8R@ =~= seq![1u8, 0u8, 1u8, 1u8, 0u8, 0u8, 0u8, 1u8]);
}

/// Wrong sync bits are counted one by one: as many as there are places in which the
/// bits differ from the sync word.
pub proof fn law_sync_errors_counted(bits: Seq<u8>, at: int, word: Seq<u8>, n: nat)
    ensures
        sync_errors(bits, at, word, n) == Seq::new(n, |i: int| bits[at + i] != word[i]).filter(|d: bool| d).len(),
        sync_errors(bits, at, word, n) <= n,
    decreases n,
{
    reveal(Seq::filter);
    let p = |d: bool| d;
    let s = Seq::new(n, |i: int| bits[at + i] != word[i]);
    if n > 0 {
        let m = (n - 1) as nat;
        law_sync_errors_counted(bits, at, word, m);
        assert(s.drop_last() =~= Seq::new(m, |i: int| bits[at + i] != word[i]));
    } else {
        assert(s.filter(p).len() == 0);
    }
}

/// The pulse of every bit begins six samples behind that of the bit before it; the
/// first one begins six samples before the frame, at the end of the one before.
pub proof fn law_pulses_follow(n: int, k: int, j: int)
    requires
        0 < n,
        0 <= k < n,
        0 <= j < 12,
        n % 2 == 0,
    ensures
        pulse_sample(n, k, j) == (6 * k - 6 + j) % (6 * n),
{
    if k % 2 == 1 {
        let s = 6 * (k - 1) + j;
        assert(s < 6 * n);
        vstd::arithmetic::div_mod::lemma_small_mod(s as nat, (6 * n) as nat);
    }
}

} // verus!
