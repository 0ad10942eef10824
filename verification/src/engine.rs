//! The decoder as a whole: which windows of a slot are analysed, in what order the
//! methods are tried, what is accepted, and how a text is routed to its encoder.
use vstd::prelude::*;
use vstd::string::*;

use crate::dsp::frame::{
    build_channel_bits, build_channel_bits_msk40, channel_bits, frames_in_slot, short_channel_bits, NSPM,
    NSPM_MSK40, NZ_MSKRTD, SAMPLE_RATE,
};
use crate::fec::crc::is_bits;
use crate::fec::encode::{codeword, encode_128_90};
use crate::fec::short::{encode_short, in_order, unordered};
use crate::proto::opt_text;
use crate::text::{all_digits, decimal, digits_value, chars_of, push_decimal, same, texts, trim, trimmed};

verus! {

/// How much effort decoding takes.
#[derive(Debug, Clone, Copy, PartialEq, Eq, Structural)]
pub enum Depth {
    Fast,
    Normal,
    Deep,
}

impl Depth {
    /// Number of averaging patterns that are tried.
    pub open spec fn patterns(self) -> nat {
        match self {
            Depth::Fast => 0,
            Depth::Normal => 2,
            Depth::Deep => 4,
        }
    }

    /// Number of averaging patterns that are tried.
    pub fn n_patterns(&self) -> (r: usize)
        ensures
            r == self.patterns(),
    {
        match self {
            Depth::Fast => 0,
            Depth::Normal => 2,
            Depth::Deep => 4,
        }
    }

    /// The depth that a number on the command line means: 1 is fast, 2 is normal,
    /// everything else is deep.
    pub fn from_number(n: u8) -> (r: Depth)
        ensures
            r == (if n == 1 {
                Depth::Fast
            } else if n == 2 {
                Depth::Normal
            } else {
                Depth::Deep
            }),
    {
        if n == 1 {
            Depth::Fast
        } else if n == 2 {
            Depth::Normal
        } else {
            Depth::Deep
        }
    }
}

/// Which frames of a window of eight are averaged, in the order in which the
/// patterns are tried.
pub const AVG_PATTERNS: [[u8; 8]; 4] = [
    [1, 1, 1, 1, 0, 0, 0, 0],
    [0, 0, 1, 1, 1, 1, 0, 0],
    [1, 1, 1, 1, 1, 0, 0, 0],
    [1, 1, 1, 1, 1, 1, 1, 0],
];

/// Which frames of a window of three are averaged around a ping.
pub const NAV_PATTERNS: [[u8; 3]; 6] = [
    [0, 1, 0], [1, 0, 0], [0, 0, 1],
    [1, 1, 0], [0, 1, 1], [1, 1, 1],
];

/// Which of the three frames around a candidate are averaged where fragments are
/// collected.
pub const FRAGMENT_PATTERNS: [[u8; 3]; 2] = [[1, 1, 1], [0, 1, 1]];

/// Number of frames of the first `n` that a pattern averages.
pub open spec fn averaged(pattern: Seq<u8>, n: nat) -> nat
    decreases n,
{
    if n == 0 {
        0
    } else {
        averaged(pattern, (n - 1) as nat) + (if pattern[n - 1] == 1 {
            1nat
        } else {
            0
        })
    }
}

/// Number of frames that an averaging pattern averages.
pub fn frames_averaged(pattern: &[u8; 8]) -> (r: usize)
    ensures
        r == averaged(pattern@, 8),
        r <= 8,
{
    let mut n: usize = 0;
    let mut i: usize = 0;
    while i < 8
        invariant
            i <= 8,
            n <= i,
            n == averaged(pattern@, i as nat),
        decreases 8 - i,
    {
        if pattern[i] == 1 {
            n = n + 1;
        }
        i = i + 1;
    }
    n
}

/// Short messages are decoded for one pair of stations.
#[derive(Debug, Clone, Default)]
pub struct ShortMessageConfig {
    pub mycall: String,
    pub hiscall: String,
    pub enabled: bool,
}

impl ShortMessageConfig {
    /// Short messages are wanted and both stations are known.
    pub open spec fn wanted(self) -> bool {
        self.enabled && self.mycall@.len() > 0 && self.hiscall@.len() > 0
    }

    /// Whether short messages are wanted and both stations are known.
    pub fn usable(&self) -> (r: bool)
        ensures
            r == self.wanted(),
    {
        self.enabled && !self.mycall.as_str().is_empty() && !self.hiscall.as_str().is_empty()
    }

    /// The configuration that a command line asks for: short messages where both
    /// calls are given.
    pub fn from_calls(mycall: Option<String>, hiscall: Option<String>) -> (r: Option<ShortMessageConfig>)
        ensures
            r is Some <==> mycall is Some && hiscall is Some,
            r matches Some(c) ==> c.enabled && Some(c.mycall) == mycall && Some(c.hiscall) == hiscall,
    {
        match (mycall, hiscall) {
            (Some(mycall), Some(hiscall)) => Some(ShortMessageConfig { mycall, hiscall, enabled: true }),
            _ => None,
        }
    }
}

/// Why nothing was decoded.
#[derive(Debug, Clone, Copy, PartialEq, Eq, Structural)]
pub enum DecodeFailure {
    BufferTooShort,
    LowSignal,
    NoDecode,
}

/// The methods, in the order in which they are tried.
#[derive(Debug, Clone, Copy, PartialEq, Eq, Structural)]
pub enum Stage {
    /// Pings of full messages.
    Pings,
    /// Pings of short messages.
    ShortPings,
    /// Averages of frames.
    Averages,
}

/// Whether a block can be decoded at all: it has enough samples, and it is loud
/// enough.
pub fn precheck(len: usize, loud_enough: bool) -> (r: Result<Stage, DecodeFailure>)
    ensures
        r == (if len < NZ_MSKRTD {
            Err::<Stage, DecodeFailure>(DecodeFailure::BufferTooShort)
        } else if !loud_enough {
            Err(DecodeFailure::LowSignal)
        } else {
            Ok(Stage::Pings)
        }),
{
    if len < NZ_MSKRTD {
        Err(DecodeFailure::BufferTooShort)
    } else if !loud_enough {
        Err(DecodeFailure::LowSignal)
    } else {
        Ok(Stage::Pings)
    }
}

/// The method that is tried where `stage` has decoded nothing.
pub open spec fn following(stage: Stage, short: bool) -> Option<Stage> {
    match stage {
        Stage::Pings => if short {
            Some(Stage::ShortPings)
        } else {
            Some(Stage::Averages)
        },
        Stage::ShortPings => Some(Stage::Averages),
        Stage::Averages => None,
    }
}

/// The method that is tried where `stage` has decoded nothing.
pub fn next_stage(stage: Stage, short: Option<&ShortMessageConfig>) -> (r: Option<Stage>)
    ensures
        r == following(stage, short matches Some(c) && c.wanted()),
{
    match stage {
        Stage::Pings => {
            let wanted = match short {
                Some(c) => c.usable(),
                None => false,
            };
            if wanted {
                Some(Stage::ShortPings)
            } else {
                Some(Stage::Averages)
            }
        },
        Stage::ShortPings => Some(Stage::Averages),
        Stage::Averages => None,
    }
}

/// A codeword is trusted with fewer than eighteen errors.
pub fn errors_accepted(n_hard_errors: u32) -> (r: bool)
    ensures
        r == (n_hard_errors < 18),
{
    n_hard_errors < 18
}

/// The reports of short messages by their number.
pub open spec fn report_of(code: int) -> Seq<char> {
    if code == 0 {
        "-03"@
    } else if code == 1 {
        "+00"@
    } else if code == 2 {
        "+03"@
    } else if code == 3 {
        "+06"@
    } else if code == 4 {
        "+10"@
    } else if code == 5 {
        "+13"@
    } else if code == 6 {
        "+16"@
    } else if code == 7 {
        "R-03"@
    } else if code == 8 {
        "R+00"@
    } else if code == 9 {
        "R+03"@
    } else if code == 10 {
        "R+06"@
    } else if code == 11 {
        "R+10"@
    } else if code == 12 {
        "R+13"@
    } else if code == 13 {
        "R+16"@
    } else if code == 14 {
        "RRR"@
    } else {
        "73"@
    }
}

proof fn lemma_two_digits(s: Seq<char>)
    requires
        s.len() == 2,
        '0' <= s[0] <= '9',
        '0' <= s[1] <= '9',
    ensures
        all_digits(s),
        digits_value(s) == 10 * (s[0] as u32 - '0' as u32) + (s[1] as u32 - '0' as u32),
{
    let t = s.drop_last();
    assert(t.drop_last() =~= Seq::<char>::empty());
    assert(digits_value(Seq::<char>::empty()) == 0);
    assert(t.last() == s[0]);
    assert(digits_value(t) == 10 * digits_value(t.drop_last()) + (s[0] as u32 - '0' as u32) as nat);
}

/// The first seven codes are signal reports of -3, 0, 3, 6, 10, 13 and 16 decibels,
/// in this order; the next seven are the same reports with an R in front; then come
/// RRR and 73.
pub proof fn law_report_codes(code: int)
    ensures
        0 <= code < 7 ==> crate::proto::report_value(report_of(code)) == Some(
            seq![-3int, 0int, 3int, 6int, 10int, 13int, 16int][code],
        ),
        0 <= code < 7 ==> report_of(code + 7) == seq!['R'] + report_of(code),
        report_of(14) == seq!['R', 'R', 'R'],
        report_of(15) == seq!['7', '3'],
{
    reveal_strlit("-03");
    reveal_strlit("+00");
    reveal_strlit("+03");
    reveal_strlit("+06");
    reveal_strlit("+10");
    reveal_strlit("+13");
    reveal_strlit("+16");
    reveal_strlit("R-03");
    reveal_strlit("R+00");
    reveal_strlit("R+03");
    reveal_strlit("R+06");
    reveal_strlit("R+10");
    reveal_strlit("R+13");
    reveal_strlit("R+16");
    reveal_strlit("RRR");
    reveal_strlit("73");
    if 0 <= code < 7 {
        lemma_two_digits(report_of(code).drop_first());
    }
}

/// The report of a short message.
pub fn report_name(code: u8) -> (r: &'static str)
    requires
        code < 16,
    ensures
        r@ == report_of(code as int),
{
    if code == 0 {
        "-03"
    } else if code == 1 {
        "+00"
    } else if code == 2 {
        "+03"
    } else if code == 3 {
        "+06"
    } else if code == 4 {
        "+10"
    } else if code == 5 {
        "+13"
    } else if code == 6 {
        "+16"
    } else if code == 7 {
        "R-03"
    } else if code == 8 {
        "R+00"
    } else if code == 9 {
        "R+03"
    } else if code == 10 {
        "R+06"
    } else if code == 11 {
        "R+10"
    } else if code == 12 {
        "R+13"
    } else if code == 13 {
        "R+16"
    } else if code == 14 {
        "RRR"
    } else {
        "73"
    }
}

/// The number that the first `n` bits write, the lowest bit first.
pub open spec fn low_first(bits: Seq<u8>, n: nat) -> nat
    decreases n,
{
    if n == 0 {
        0
    } else {
        low_first(bits, (n - 1) as nat) + (bits[n - 1] as nat) * vstd::arithmetic::power2::pow2(
            (n - 1) as nat,
        )
    }
}

/// The report of sixteen message bits: the four low bits of their number.
pub open spec fn report_code(bits: Seq<u8>) -> nat {
    low_first(bits, 16) % 16
}

/// The hash of sixteen message bits: the twelve bits above the report.
pub open spec fn call_hash(bits: Seq<u8>) -> nat {
    low_first(bits, 16) / 16
}

/// The hash and the report of sixteen message bits.
pub fn short_fields(bits: &[u8; 16]) -> (r: (u16, u8))
    requires
        is_bits(bits@),
    ensures
        r.0 == call_hash(bits@),
        r.1 == report_code(bits@),
        r.0 < 4096,
        r.1 < 16,
{
    let mut n: u32 = 0;
    let mut weight: u32 = 1;
    let mut k: usize = 0;
    proof {
        vstd::arithmetic::power2::lemma2_to64();
    }
    while k < 16
        invariant
            k <= 16,
            is_bits(bits@),
            weight == vstd::arithmetic::power2::pow2(k as nat),
            weight <= 65536,
            k < 16 ==> weight <= 32768,
            n == low_first(bits@, k as nat),
            n < weight,
        decreases 16 - k,
    {
        let bit: u8 = bits[k];
        assert(bits@[k as int] <= 1);
        if bit == 1 {
            n = n + weight;
            assert(1 * weight == weight);
        } else {
            assert(0 * weight == 0);
        }
        proof {
            vstd::arithmetic::power2::lemma_pow2_unfold((k + 1) as nat);
            vstd::arithmetic::power2::lemma2_to64();
            if k + 1 < 16 {
                vstd::arithmetic::power2::lemma_pow2_strictly_increases((k + 1) as nat, 16);
                if k + 1 < 15 {
                    vstd::arithmetic::power2::lemma_pow2_strictly_increases((k + 1) as nat, 15);
                }
            }
        }
        weight = weight * 2;
        k = k + 1;
    }
    ((n / 16) as u16, (n % 16) as u8)
}

/// Number of bits, of the first `n`, in which two words differ.
pub open spec fn differences(a: Seq<u8>, b: Seq<u8>, n: nat) -> nat
    decreases n,
{
    if n == 0 {
        0
    } else {
        differences(a, b, (n - 1) as nat) + (if a[n - 1] != b[n - 1] {
            1nat
        } else {
            0
        })
    }
}

/// Number of bits in which two short codewords differ.
pub fn hamming(a: &[u8; 32], b: &[u8; 32]) -> (r: u32)
    ensures
        r == differences(a@, b@, 32),
        r <= 32,
{
    let mut n: u32 = 0;
    let mut i: usize = 0;
    while i < 32
        invariant
            i <= 32,
            n <= i,
            n == differences(a@, b@, i as nat),
        decreases 32 - i,
    {
        if a[i] != b[i] {
            n = n + 1;
        }
        i = i + 1;
    }
    n
}

/// A short message is accepted: few errors, none of them grave, from the partner
/// (whose hash it bears), and one that a partner sends in a contact (an R-report,
/// RRR or 73).
pub open spec fn short_message_ok(
    n_errors: int,
    errors_weak: bool,
    bits: Seq<u8>,
    partner_hash: int,
) -> bool {
    n_errors <= 4 && errors_weak && call_hash(bits) == partner_hash && report_code(bits) >= 7
}

/// What a short message says: the partner's call first, as the partner sends it.
pub open spec fn short_message_text(hiscall: Seq<char>, mycall: Seq<char>, bits: Seq<u8>) -> Seq<char> {
    "<"@ + trim(hiscall) + " "@ + trim(mycall) + "> "@ + report_of(report_code(bits) as int)
}

/// The calls whose hash the partner's short messages bear, in that order: a station
/// puts its own call first, so a message of ours bears them the other way round.
pub fn partner_pair(cfg: &ShortMessageConfig) -> (r: (String, String))
    ensures
        r.0@ == cfg.hiscall@,
        r.1@ == cfg.mycall@,
{
    (cfg.hiscall.clone(), cfg.mycall.clone())
}

/// Judges the sixteen bits of a short message and says what they mean. `n_errors`
/// is the number of bits in which the codeword differs from what was received, and
/// `errors_weak` says that these were received only weakly.
pub fn read_short_message(
    bits: &[u8; 16],
    n_errors: u32,
    errors_weak: bool,
    partner_hash: u16,
    cfg: &ShortMessageConfig,
) -> (r: Option<String>)
    requires
        is_bits(bits@),
    ensures
        r is Some <==> short_message_ok(n_errors as int, errors_weak, bits@, partner_hash as int),
        r matches Some(s) ==> s@ == short_message_text(cfg.hiscall@, cfg.mycall@, bits@),
{
    let (hash, code) = short_fields(bits);
    if n_errors > 4 || !errors_weak || hash != partner_hash || code < 7 {
        return None;
    }
    let mut s = "<".to_owned();
    s.append(trimmed(cfg.hiscall.as_str()));
    s.append(" ");
    s.append(trimmed(cfg.mycall.as_str()));
    s.append("> ");
    s.append(report_name(code));
    Some(s)
}

/// A short message with our own hash is never accepted, unless the two hashes are
/// the same.
pub proof fn law_own_echo_rejected(n_errors: int, errors_weak: bool, bits: Seq<u8>, own_hash: int, partner_hash: int)
    requires
        call_hash(bits) == own_hash,
        own_hash != partner_hash,
    ensures
        !short_message_ok(n_errors, errors_weak, bits, partner_hash),
{
}

/// What was seen while nothing was decoded. Strengths are whole numbers that order
/// them.
#[derive(Debug, Clone, Copy, PartialEq, Eq, Structural)]
pub struct DecodeDiag {
    pub n_msk144_cands: usize,
    pub n_msk40_cands: usize,
    pub best_xmax: u32,
    pub best_n_bad_sync: Option<u8>,
    pub best_n_hard_errors: Option<u32>,
    pub strongest_detmet: u32,
}

/// The greater of two numbers.
pub open spec fn greater(a: int, b: int) -> int {
    if b > a {
        b
    } else {
        a
    }
}

/// The lesser of two numbers of errors, where there are any.
pub open spec fn fewer(a: Option<int>, b: Option<int>) -> Option<int> {
    match (a, b) {
        (None, x) => x,
        (x, None) => x,
        (Some(x), Some(y)) => if y < x {
            Some(y)
        } else {
            Some(x)
        },
    }
}

/// A number of errors as a whole number.
pub open spec fn errors8(a: Option<u8>) -> Option<int> {
    match a {
        Some(v) => Some(v as int),
        None => None,
    }
}

/// A number of errors as a whole number.
pub open spec fn errors32(a: Option<u32>) -> Option<int> {
    match a {
        Some(v) => Some(v as int),
        None => None,
    }
}

impl DecodeDiag {
    /// Nothing seen yet.
    pub fn new() -> (r: Self)
        ensures
            r == (DecodeDiag {
                n_msk144_cands: 0,
                n_msk40_cands: 0,
                best_xmax: 0,
                best_n_bad_sync: None,
                best_n_hard_errors: None,
                strongest_detmet: 0,
            }),
    {
        DecodeDiag {
            n_msk144_cands: 0,
            n_msk40_cands: 0,
            best_xmax: 0,
            best_n_bad_sync: None,
            best_n_hard_errors: None,
            strongest_detmet: 0,
        }
    }

    /// This is the best of two: the most candidates, the greatest strengths and the
    /// fewest errors of both.
    pub open spec fn is_best_of(self, a: DecodeDiag, b: DecodeDiag) -> bool {
        &&& self.n_msk144_cands == greater(a.n_msk144_cands as int, b.n_msk144_cands as int)
        &&& self.n_msk40_cands == greater(a.n_msk40_cands as int, b.n_msk40_cands as int)
        &&& self.best_xmax == greater(a.best_xmax as int, b.best_xmax as int)
        &&& self.strongest_detmet == greater(a.strongest_detmet as int, b.strongest_detmet as int)
        &&& errors8(self.best_n_bad_sync) == fewer(errors8(a.best_n_bad_sync), errors8(b.best_n_bad_sync))
        &&& errors32(self.best_n_hard_errors) == fewer(
            errors32(a.best_n_hard_errors),
            errors32(b.best_n_hard_errors),
        )
    }

    /// Keeps the best of what was seen so far and of another window.
    pub fn merge(&mut self, other: &DecodeDiag)
        ensures
            final(self).is_best_of(*old(self), *other),
    {
        if other.n_msk144_cands > self.n_msk144_cands {
            self.n_msk144_cands = other.n_msk144_cands;
        }
        if other.n_msk40_cands > self.n_msk40_cands {
            self.n_msk40_cands = other.n_msk40_cands;
        }
        if other.strongest_detmet > self.strongest_detmet {
            self.strongest_detmet = other.strongest_detmet;
        }
        if other.best_xmax > self.best_xmax {
            self.best_xmax = other.best_xmax;
        }
        if let Some(b) = other.best_n_bad_sync {
            self.note_bad_sync(b);
        }
        if let Some(e) = other.best_n_hard_errors {
            self.note_hard_errors(e);
        }
    }

    /// Notes a number of wrong sync bits.
    pub fn note_bad_sync(&mut self, n: u8)
        ensures
            errors8(final(self).best_n_bad_sync) == fewer(errors8(old(self).best_n_bad_sync), Some(n as int)),
            *final(self) == (DecodeDiag {
                best_n_bad_sync: final(self).best_n_bad_sync,
                ..*old(self)
            }),
    {
        let better = match self.best_n_bad_sync {
            Some(b) => n < b,
            None => true,
        };
        if better {
            self.best_n_bad_sync = Some(n);
        }
    }

    /// Notes a number of wrong bits.
    pub fn note_hard_errors(&mut self, n: u32)
        ensures
            errors32(final(self).best_n_hard_errors) == fewer(
                errors32(old(self).best_n_hard_errors),
                Some(n as int),
            ),
            *final(self) == (DecodeDiag {
                best_n_hard_errors: final(self).best_n_hard_errors,
                ..*old(self)
            }),
    {
        let better = match self.best_n_hard_errors {
            Some(b) => n < b,
            None => true,
        };
        if better {
            self.best_n_hard_errors = Some(n);
        }
    }

    /// Notes the strength of a sync.
    pub fn note_xmax(&mut self, key: u32)
        ensures
            *final(self) == (DecodeDiag {
                best_xmax: greater(old(self).best_xmax as int, key as int) as u32,
                ..*old(self)
            }),
    {
        if key > self.best_xmax {
            self.best_xmax = key;
        }
    }

    /// Notes the strength of the first candidate.
    pub fn note_detmet(&mut self, key: u32)
        ensures
            *final(self) == (DecodeDiag {
                strongest_detmet: greater(old(self).strongest_detmet as int, key as int) as u32,
                ..*old(self)
            }),
    {
        if key > self.strongest_detmet {
            self.strongest_detmet = key;
        }
    }
}

/// Number of windows that are analysed in a slot of `len` samples: each of
/// [`NZ_MSKRTD`] samples, half a window after the one before.
pub open spec fn window_count(len: nat) -> nat {
    if len < NZ_MSKRTD {
        0
    } else {
        ((len - NZ_MSKRTD) / (NZ_MSKRTD / 2) as int + 1) as nat
    }
}

/// The samples at which the windows of a slot start.
pub fn window_starts(len: usize) -> (r: Vec<usize>)
    ensures
        r@.len() == window_count(len as nat),
        forall|k: int| 0 <= k < r@.len() ==> #[trigger] r@[k] == k * 3584,
        forall|k: int| 0 <= k < r@.len() ==> #[trigger] r@[k] + NZ_MSKRTD <= len,
{
    let mut out: Vec<usize> = Vec::new();
    if len < NZ_MSKRTD {
        return out;
    }
    let last: usize = len - NZ_MSKRTD;
    let mut at: usize = 0;
    while at <= last
        invariant
            NZ_MSKRTD <= len,
            last == len - NZ_MSKRTD,
            at == out@.len() * 3584,
            at <= last,
            forall|k: int| 0 <= k < out@.len() ==> #[trigger] out@[k] == k * 3584,
            forall|k: int| 0 <= k < out@.len() ==> #[trigger] out@[k] + NZ_MSKRTD <= len,
        decreases last - at,
    {
        out.push(at);
        if last - at < 3584 {
            assert(out@.len() == last as int / 3584 + 1) by {
                vstd::arithmetic::div_mod::lemma_fundamental_div_mod_converse(
                    last as int,
                    3584,
                    out@.len() - 1,
                    last - at,
                );
            }
            return out;
        }
        at = at + 3584;
    }
    out
}

/// The texts that a slot has decoded, each once.
#[derive(Debug)]
pub struct SlotTexts {
    pub seen: Vec<String>,
}

impl SlotTexts {
    /// None yet.
    pub fn new() -> (r: Self)
        ensures
            texts(r.seen@) == Seq::<Seq<char>>::empty(),
    {
        let r = SlotTexts { seen: Vec::new() };
        assert(texts(r.seen@) =~= Seq::<Seq<char>>::empty());
        r
    }

    /// Notes a text and says whether it is new.
    pub fn insert(&mut self, text: &str) -> (fresh: bool)
        ensures
            fresh == !texts(old(self).seen@).contains(text@),
            texts(final(self).seen@) == (if fresh {
                texts(old(self).seen@).push(text@)
            } else {
                texts(old(self).seen@)
            }),
            texts(old(self).seen@).no_duplicates() ==> texts(final(self).seen@).no_duplicates(),
    {
        let ghost before = texts(self.seen@);
        let mut i: usize = 0;
        while i < self.seen.len()
            invariant
                i <= self.seen@.len(),
                before == texts(self.seen@),
                self.seen == old(self).seen,
                forall|k: int| 0 <= k < i ==> #[trigger] before[k] != text@,
            decreases self.seen.len() - i,
        {
            assert(before[i as int] == self.seen@[i as int]@);
            if same(self.seen[i].as_str(), text) {
                assert(before.contains(text@));
                return false;
            }
            i = i + 1;
        }
        self.seen.push(text.to_owned());
        assert(texts(self.seen@) =~= before.push(text@));
        true
    }
}

/// What the windows of a slot have decoded: a text, or nothing.
pub open spec fn window_texts(v: Seq<Option<String>>) -> Seq<Option<Seq<char>>> {
    v.map_values(|t: Option<String>| opt_text(t))
}

/// Window `k` has decoded a text that no window before it has.
pub open spec fn is_first(found: Seq<Option<Seq<char>>>, k: int) -> bool {
    found[k] is Some && forall|i: int| 0 <= i < k ==> #[trigger] found[i] != found[k]
}

/// The windows whose text is kept, in their order: those that are the first to have
/// it.
pub open spec fn kept_of_slot(found: Seq<Option<Seq<char>>>) -> Seq<int>
    decreases found.len(),
{
    if found.len() == 0 {
        seq![]
    } else if is_first(found, found.len() - 1) {
        kept_of_slot(found.drop_last()).push(found.len() - 1)
    } else {
        kept_of_slot(found.drop_last())
    }
}

/// The windows of a slot whose text is kept; `found` is what each window has
/// decoded.
pub fn kept_windows(found: &Vec<Option<String>>) -> (r: Vec<usize>)
    ensures
        indices(r@) == kept_of_slot(window_texts(found@)),
        forall|k: int| 0 <= k < r@.len() ==> #[trigger] r@[k] < found@.len(),
{
    let ghost all = window_texts(found@);
    let mut seen = SlotTexts::new();
    let mut r: Vec<usize> = Vec::new();
    let mut i: usize = 0;
    assert(all.take(0) =~= seq![]);
    assert(indices(r@) =~= seq![]);
    while i < found.len()
        invariant
            i <= found@.len(),
            all == window_texts(found@),
            indices(r@) == kept_of_slot(all.take(i as int)),
            forall|k: int| 0 <= k < r@.len() ==> #[trigger] r@[k] < found@.len(),
            forall|k: int|
                0 <= k < i && #[trigger] all[k] is Some ==> texts(seen.seen@).contains(all[k]->0),
            forall|k: int|
                0 <= k < texts(seen.seen@).len() ==> exists|m: int|
                    0 <= m < i && all[m] == Some(#[trigger] texts(seen.seen@)[k]),
        decreases found.len() - i,
    {
        let ghost before = texts(seen.seen@);
        let ghost more = all.take(i + 1);
        assert(more.drop_last() =~= all.take(i as int));
        assert(all[i as int] == opt_text(found@[i as int]));
        let ghost kept = indices(r@);
        if let Some(t) = &found[i] {
            let fresh = seen.insert(t.as_str());
            let ghost after = texts(seen.seen@);
            assert(fresh == is_first(more, i as int)) by {
                if fresh {
                    assert forall|m: int| 0 <= m < i implies #[trigger] more[m] != more[i as int] by {
                        assert(more[m] == all[m]);
                        if all[m] == Some(t@) {
                            assert(before.contains(t@));
                        }
                    }
                } else {
                    let k = choose|k: int| 0 <= k < before.len() && before[k] == t@;
                    let m = choose|m: int| 0 <= m < i && all[m] == Some(before[k]);
                    assert(more[m] == more[i as int]);
                }
            }
            assert forall|k: int| 0 <= k < i + 1 && #[trigger] all[k] is Some implies after.contains(
                all[k]->0,
            ) by {
                if k < i {
                    let x = choose|x: int| 0 <= x < before.len() && before[x] == all[k]->0;
                    assert(after[x] == all[k]->0);
                } else if fresh {
                    assert(after[before.len() as int] == t@);
                }
            }
            assert forall|k: int| 0 <= k < after.len() implies exists|m: int|
                0 <= m < i + 1 && all[m] == Some(#[trigger] after[k]) by {
                if k < before.len() {
                    assert(after[k] == before[k]);
                    let m = choose|m: int| 0 <= m < i && all[m] == Some(before[k]);
                    assert(all[m] == Some(after[k]));
                } else {
                    assert(all[i as int] == Some(after[k]));
                }
            }
            if fresh {
                r.push(i);
                assert(indices(r@) =~= kept.push(i as int));
            }
        }
        i = i + 1;
    }
    assert(all.take(i as int) =~= all);
    r
}

/// Each text of a slot is kept exactly once, from the first window that has it, and
/// the windows that are kept stand in their order.
pub proof fn law_slot_keeps_each_text_once(found: Seq<Option<Seq<char>>>)
    ensures
        ({
            let kept = kept_of_slot(found);
            &&& forall|k: int| 0 <= k < kept.len() ==> 0 <= #[trigger] kept[k] < found.len() && is_first(found, kept[k])
            &&& forall|j: int, k: int| 0 <= j < k < kept.len() ==> #[trigger] kept[j] < #[trigger] kept[k]
            &&& forall|j: int, k: int|
                0 <= j < k < kept.len() ==> found[#[trigger] kept[j]] != found[#[trigger] kept[k]]
            &&& forall|w: int| 0 <= w < found.len() && is_first(found, w) ==> #[trigger] kept.contains(w)
            &&& forall|w: int|
                0 <= w < found.len() && (#[trigger] found[w]) is Some ==> exists|k: int|
                    0 <= k < kept.len() && found[#[trigger] kept[k]] == found[w] && kept[k] <= w
        }),
    decreases found.len(),
{
    let kept = kept_of_slot(found);
    if found.len() > 0 {
        let front = found.drop_last();
        let n = front.len() as int;
        law_slot_keeps_each_text_once(front);
        let prior = kept_of_slot(front);
        assert forall|k: int| 0 <= k < kept.len() implies 0 <= #[trigger] kept[k] < found.len() && is_first(
            found,
            kept[k],
        ) by {
            if k < prior.len() {
                assert(kept[k] == prior[k]);
                assert(is_first(front, prior[k]));
                assert forall|i: int| 0 <= i < prior[k] implies #[trigger] found[i] != found[prior[k]] by {
                    assert(front[i] != front[prior[k]]);
                }
            }
        }
        assert forall|w: int| 0 <= w < found.len() && is_first(found, w) implies #[trigger] kept.contains(w) by {
            if w < n {
                assert(is_first(front, w)) by {
                    assert forall|i: int| 0 <= i < w implies #[trigger] front[i] != front[w] by {
                        assert(found[i] != found[w]);
                    }
                }
                assert(prior.contains(w));
                let k = choose|k: int| 0 <= k < prior.len() && prior[k] == w;
                assert(kept[k] == w);
            } else {
                assert(kept[prior.len() as int] == w);
            }
        }
        assert forall|j: int, k: int| 0 <= j < k < kept.len() implies #[trigger] kept[j] < #[trigger] kept[k]
            && found[kept[j]] != found[kept[k]] by {
            assert(kept[j] == prior[j]);
            if k < prior.len() {
                assert(kept[k] == prior[k]);
                assert(prior[j] < prior[k]);
            }
            assert(is_first(found, kept[k]));
        }
        assert forall|w: int| 0 <= w < found.len() && (#[trigger] found[w]) is Some implies exists|k: int|
            0 <= k < kept.len() && found[#[trigger] kept[k]] == found[w] && kept[k] <= w by {
            if w < n {
                assert(front[w] == found[w]);
                let k = choose|k: int| 0 <= k < prior.len() && front[#[trigger] prior[k]] == front[w] && prior[k] <= w;
                assert(kept[k] == prior[k]);
            } else if is_first(found, w) {
                assert(kept[prior.len() as int] == w);
            } else {
                let i = choose|i: int| 0 <= i < w && found[i] == found[w];
                assert(front[i] == found[i]);
                let k = choose|k: int| 0 <= k < prior.len() && front[#[trigger] prior[k]] == front[i] && prior[k] <= i;
                assert(kept[k] == prior[k]);
            }
        }
    }
}

/// A text is in the short form: behind the white space it starts with an opening
/// bracket, and it has a closing one.
pub open spec fn is_short_form(text: Seq<char>) -> bool {
    trim(text).len() > 0 && trim(text)[0] == '<' && trim(text).contains('>')
}

/// Whether a text is sent as a short message.
pub fn short_form(text: &str) -> (r: bool)
    ensures
        r == is_short_form(text@),
{
    let x = chars_of(trimmed(text));
    if x.len() == 0 || x[0] != '<' {
        return false;
    }
    let mut i: usize = 0;
    while i < x.len()
        invariant
            i <= x@.len(),
            x@ == trim(text@),
            x@.len() > 0,
            x@[0] == '<',
            forall|k: int| 0 <= k < i ==> x@[k] != '>',
        decreases x.len() - i,
    {
        if x[i] == '>' {
            assert(x@[i as int] == '>');
            return true;
        }
        i = i + 1;
    }
    false
}

/// Why a text cannot be sent.
#[derive(Debug, Clone)]
pub enum EncodeError {
    InvalidMessage(String),
}

/// What `Debug` writes for a text: the text in quotes, with what would not be seen
/// escaped.
pub uninterp spec fn quoted(s: Seq<char>) -> Seq<char>;

/// A text as `Debug` writes it (`format!` with `{:?}`): a function of the text
/// alone.
#[verifier::external_body]
fn quote(s: &str) -> (r: String)
    ensures
        r@ == quoted(s@),
{
    format!("{:?}", s)
}

impl EncodeError {
    /// What is shown of the error: why the text cannot be sent, in quotes.
    pub fn message(&self) -> (r: String)
        ensures
            r@ == (match *self {
                EncodeError::InvalidMessage(t) => "invalid message: "@ + quoted(t@),
            }),
    {
        match self {
            EncodeError::InvalidMessage(t) => {
                let mut s = "invalid message: ".to_owned();
                s.append(quote(t.as_str()).as_str());
                s
            },
        }
    }
}

/// The frame bits that carry 77 message bits.
pub fn frame_bits(message: &[u8; 77]) -> (bits: [u8; 144])
    requires
        is_bits(message@),
    ensures
        bits@ == channel_bits(codeword(message@)),
{
    let word = encode_128_90(message);
    build_channel_bits(&word)
}

/// The frame bits that carry the 16 bits of a short message.
pub fn short_frame_bits(message: &[u8; 16]) -> (bits: [u8; 40])
    ensures
        in_order(bits@.subrange(8, 40), unordered(message@)),
        bits@ == short_channel_bits(bits@.subrange(8, 40)),
{
    let word = encode_short(message);
    let bits = build_channel_bits_msk40(&word);
    assert(bits@.subrange(8, 40) =~= word@);
    bits
}

/// Number of frames of a message in a slot, and of samples of each.
pub fn slot_frames(short: bool, slot_secs: u32) -> (r: (usize, usize))
    requires
        slot_secs * SAMPLE_RATE <= usize::MAX,
    ensures
        r.1 == (if short {
            NSPM_MSK40
        } else {
            NSPM
        }),
        r.0 == (slot_secs * SAMPLE_RATE) as int / r.1 as int,
{
    if short {
        (frames_in_slot(slot_secs, NSPM_MSK40), NSPM_MSK40)
    } else {
        (frames_in_slot(slot_secs, NSPM), NSPM)
    }
}

/// How a ping of a full message was decoded.
pub fn ping_method(pattern: usize) -> (r: String)
    ensures
        r@ == "spd-pat"@ + decimal(pattern as nat),
{
    let mut s = "spd-pat".to_owned();
    push_decimal(&mut s, pattern as u64);
    s
}

/// How a ping of a short message was decoded.
pub fn short_ping_method(pattern: usize) -> (r: String)
    ensures
        r@ == "msk40-pat"@ + decimal(pattern as nat),
{
    let mut s = "msk40-pat".to_owned();
    push_decimal(&mut s, pattern as u64);
    s
}

/// How an average of frames was decoded.
pub fn average_method(frames: usize) -> (r: String)
    ensures
        r@ == "avg-"@ + decimal(frames as nat),
{
    let mut s = "avg-".to_owned();
    push_decimal(&mut s, frames as u64);
    s
}

/// How accumulated fragments were decoded.
pub fn accumulated_method(fragments: usize, bits: usize) -> (r: String)
    ensures
        r@ == "accum-"@ + decimal(fragments as nat) + "/"@ + decimal(bits as nat),
{
    let mut s = "accum-".to_owned();
    push_decimal(&mut s, fragments as u64);
    s.append("/");
    push_decimal(&mut s, bits as u64);
    s
}

/// The runs of fragments that belong together, as first and behind-last index:
/// `joins[k]` says that fragment `k` belongs to the run of the one before it. Runs
/// shorter than `min` are left out.
pub open spec fn runs(joins: Seq<bool>, min: nat) -> Seq<(int, int)>
    decreases joins.len(),
{
    if joins.len() == 0 {
        seq![]
    } else {
        let at = run_start(joins, joins.len() - 1);
        if 0 <= at < joins.len() {
            let front = runs(joins.take(at), min);
            if joins.len() - at >= min {
                front.push((at, joins.len() as int))
            } else {
                front
            }
        } else {
            seq![]
        }
    }
}

/// Where the run that fragment `k` belongs to starts.
pub open spec fn run_start(joins: Seq<bool>, k: int) -> int
    decreases k,
{
    if k <= 0 {
        0
    } else if joins[k] {
        run_start(joins, k - 1)
    } else {
        k
    }
}

proof fn lemma_run_start(joins: Seq<bool>, k: int)
    requires
        0 <= k,
    ensures
        0 <= run_start(joins, k) <= k,
    decreases k,
{
    if k > 0 && joins[k] {
        lemma_run_start(joins, k - 1);
    }
}

/// The clusters of fragments: runs whose neighbours join, of at least `min`
/// fragments.
pub fn clusters(joins: &Vec<bool>, min: usize) -> (r: Vec<(usize, usize)>)
    ensures
        r@.map_values(|p: (usize, usize)| (p.0 as int, p.1 as int)) == runs(joins@, min as nat),
        forall|k: int|
            0 <= k < r@.len() ==> (#[trigger] r@[k]).0 < r@[k].1 <= joins@.len() && r@[k].1 - r@[k].0 >= min,
{
    let mut out: Vec<(usize, usize)> = Vec::new();
    let n: usize = joins.len();
    let mut start: usize = 0;
    let mut i: usize = 0;
    let ghost f = |p: (usize, usize)| (p.0 as int, p.1 as int);
    assert(joins@.take(0) =~= Seq::<bool>::empty());
    assert(out@.map_values(f) =~= runs(joins@.take(0), min as nat));
    while i < n
        invariant
            i <= n == joins@.len(),
            start <= i,
            i > 0 ==> start < i && start == run_start(joins@, i - 1),
            i == 0 ==> start == 0,
            f == (|p: (usize, usize)| (p.0 as int, p.1 as int)),
            out@.map_values(f) == runs(joins@.take(start as int), min as nat),
            forall|k: int|
                0 <= k < out@.len() ==> (#[trigger] out@[k]).0 < out@[k].1 <= joins@.len() && out@[k].1
                    - out@[k].0 >= min,
        decreases n - i,
    {
        if i > 0 && !joins[i] {
            let ghost before = out@.map_values(f);
            proof {
                lemma_runs_step(joins@, start as int, i as int, min as nat);
            }
            if i - start >= min {
                out.push((start, i));
                assert(out@.map_values(f) =~= before.push((start as int, i as int)));
            }
            start = i;
        }
        i = i + 1;
    }
    if n > 0 {
        let ghost before = out@.map_values(f);
        proof {
            lemma_runs_step(joins@, start as int, n as int, min as nat);
            assert(joins@.take(n as int) =~= joins@);
        }
        if n - start >= min {
            out.push((start, n));
            assert(out@.map_values(f) =~= before.push((start as int, n as int)));
        }
    }
    assert(out@.map_values(|p: (usize, usize)| (p.0 as int, p.1 as int)) =~= runs(joins@, min as nat));
    out
}

proof fn lemma_runs_step(joins: Seq<bool>, start: int, end: int, min: nat)
    requires
        0 <= start < end <= joins.len(),
        start == run_start(joins, end - 1),
    ensures
        runs(joins.take(end), min) == (if end - start >= min {
            runs(joins.take(start), min).push((start, end))
        } else {
            runs(joins.take(start), min)
        }),
{
    let t = joins.take(end);
    lemma_run_start_take(joins, end, end - 1);
    assert(t.take(start) =~= joins.take(start));
}

proof fn lemma_run_start_take(joins: Seq<bool>, end: int, k: int)
    requires
        0 <= k < end <= joins.len(),
    ensures
        run_start(joins.take(end), k) == run_start(joins, k),
    decreases k,
{
    if k > 0 && joins[k] {
        lemma_run_start_take(joins, end, k - 1);
    }
}

/// Samples within which two fragments can be one burst seen twice.
pub const ECHO_SAMPLES: usize = 432;

/// A fragment is an echo of one that is kept: less than half a frame away, and near
/// in frequency.
pub open spec fn is_echo(starts: Seq<usize>, near: spec_fn(int, int) -> bool, kept: Seq<int>, i: int) -> bool {
    exists|k: int|
        0 <= k < kept.len() && {
            let d = starts[#[trigger] kept[k]] - starts[i];
            -432 < d < 432 && near(kept[k], i)
        }
}

/// The fragments that are kept of the first `n`, which come in the order of their
/// strength: each one that is no echo of one kept before it.
pub open spec fn kept_of(starts: Seq<usize>, near: spec_fn(int, int) -> bool, n: nat) -> Seq<int>
    decreases n,
{
    if n == 0 {
        seq![]
    } else {
        let before = kept_of(starts, near, (n - 1) as nat);
        if is_echo(starts, near, before, n - 1) {
            before
        } else {
            before.push(n - 1)
        }
    }
}

/// Fragments as whole numbers.
pub open spec fn indices(v: Seq<usize>) -> Seq<int> {
    v.map_values(|p: usize| p as int)
}

/// Drops echoes. The fragments come in the order of their strength; `near[i][k]`
/// says that fragments `i` and `k`, `k` before `i`, are near in frequency.
pub fn drop_echoes(starts: &Vec<usize>, near: &Vec<Vec<bool>>) -> (r: Vec<usize>)
    requires
        near@.len() == starts@.len(),
        forall|i: int| 0 <= i < near@.len() ==> (#[trigger] near@[i])@.len() >= i,
    ensures
        indices(r@) == kept_of(starts@, |k: int, i: int| near@[i]@[k], starts@.len()),
{
    let ghost f = |k: int, i: int| near@[i]@[k];
    let mut kept: Vec<usize> = Vec::new();
    let mut i: usize = 0;
    assert(indices(kept@) =~= Seq::<int>::empty());
    while i < starts.len()
        invariant
            i <= starts@.len() == near@.len(),
            forall|j: int| 0 <= j < near@.len() ==> (#[trigger] near@[j])@.len() >= j,
            f == (|k: int, i: int| near@[i]@[k]),
            indices(kept@) == kept_of(starts@, f, i as nat),
            forall|k: int| 0 <= k < kept@.len() ==> (#[trigger] kept@[k]) < i,
        decreases starts.len() - i,
    {
        let ghost before = indices(kept@);
        let mut echo = false;
        let mut k: usize = 0;
        while k < kept.len()
            invariant
                k <= kept@.len(),
                i < starts@.len() == near@.len(),
                near@[i as int]@.len() >= i,
                f == (|k: int, i: int| near@[i]@[k]),
                before == indices(kept@),
                forall|j: int| 0 <= j < kept@.len() ==> (#[trigger] kept@[j]) < i,
                echo == exists|j: int|
                    0 <= j < k && {
                        let d = starts@[#[trigger] before[j]] - starts@[i as int];
                        -432 < d < 432 && f(before[j], i as int)
                    },
            decreases kept.len() - k,
        {
            let o: usize = kept[k];
            assert(before[k as int] == o);
            let close = if starts[o] >= starts[i] {
                starts[o] - starts[i] < ECHO_SAMPLES
            } else {
                starts[i] - starts[o] < ECHO_SAMPLES
            };
            if close && near[i][o] {
                echo = true;
                assert(f(before[k as int], i as int));
            }
            k = k + 1;
        }
        assert(echo == is_echo(starts@, f, before, i as int));
        if !echo {
            kept.push(i);
            assert(indices(kept@) =~= before.push(i as int));
        }
        i = i + 1;
    }
    kept
}

/// Whether accumulated fragments cover enough of a frame: two thirds of its bits.
pub fn coverage_accepted(covered_bits: usize) -> (r: bool)
    ensures
        r == (covered_bits >= 96),
{
    covered_bits >= 96
}

/// The strongest fragment is always kept.
pub proof fn law_strongest_fragment_kept(starts: Seq<usize>, near: spec_fn(int, int) -> bool, n: nat)
    requires
        n > 0,
    ensures
        kept_of(starts, near, n).len() > 0,
        kept_of(starts, near, n)[0] == 0,
    decreases n,
{
    if n > 1 {
        law_strongest_fragment_kept(starts, near, (n - 1) as nat);
    } else {
        let none: Seq<int> = seq![];
        assert(kept_of(starts, near, 0) =~= none);
        assert(!is_echo(starts, near, none, 0));
    }
}

/// A 15-second slot holds 208 frames of a full message and 750 of a short one.
pub proof fn law_frames_of_a_slot()
    ensures
        (15 * SAMPLE_RATE) as int / NSPM as int == 208,
        (15 * SAMPLE_RATE) as int / NSPM_MSK40 as int == 750,
{
}

/// A pattern averages as many frames as it has ones.
pub proof fn law_averaged_counts_ones(pattern: Seq<u8>, n: nat)
    requires
        n <= pattern.len(),
    ensures
        averaged(pattern, n) == pattern.take(n as int).filter(|x: u8| x == 1).len(),
    decreases n,
{
    reveal(Seq::filter);
    let p = |x: u8| x == 1;
    if n > 0 {
        law_averaged_counts_ones(pattern, (n - 1) as nat);
        assert(pattern.take(n as int).drop_last() =~= pattern.take(n - 1));
    } else {
        assert(pattern.take(0).filter(p).len() == 0);
    }
}

/// The patterns: two runs of four frames, then five and seven from the beginning.
pub proof fn law_average_patterns()
    ensures
        averaged(AVG_PATTERNS@[0]@, 8) == 4,
        averaged(AVG_PATTERNS@[1]@, 8) == 4,
        averaged(AVG_PATTERNS@[2]@, 8) == 5,
        averaged(AVG_PATTERNS@[3]@, 8) == 7,
{
    reveal_with_fuel(averaged, 9);
}

/// Of the sixteen bits of a short message the first four are its report and the other
/// twelve its hash, in both the lowest bit first.
pub proof fn law_short_message_fields(bits: Seq<u8>)
    requires
        bits.len() == 16,
        is_bits(bits),
    ensures
        report_code(bits) == bits[0] + 2 * bits[1] + 4 * bits[2] + 8 * bits[3],
        call_hash(bits) == bits[4] + 2 * bits[5] + 4 * bits[6] + 8 * bits[7] + 16 * bits[8] + 32 * bits[9] + 64
            * bits[10] + 128 * bits[11] + 256 * bits[12] + 512 * bits[13] + 1024 * bits[14] + 2048 * bits[15],
{
    vstd::arithmetic::power2::lemma2_to64();
    let b = |i: int| bits[i] as int;
    let low = b(0) + 2 * b(1) + 4 * b(2) + 8 * b(3);
    let high = b(4) + 2 * b(5) + 4 * b(6) + 8 * b(7) + 16 * b(8) + 32 * b(9) + 64 * b(10) + 128 * b(11) + 256 * b(12)
        + 512 * b(13) + 1024 * b(14) + 2048 * b(15);
    assert(low_first(bits, 16) == low + 16 * high) by {
        lemma_low_step(bits, 0, 1);
        lemma_low_step(bits, 1, 2);
        lemma_low_step(bits, 2, 4);
        lemma_low_step(bits, 3, 8);
        lemma_low_step(bits, 4, 16);
        lemma_low_step(bits, 5, 32);
        lemma_low_step(bits, 6, 64);
        lemma_low_step(bits, 7, 128);
        lemma_low_step(bits, 8, 256);
        lemma_low_step(bits, 9, 512);
        lemma_low_step(bits, 10, 1024);
        lemma_low_step(bits, 11, 2048);
        lemma_low_step(bits, 12, 4096);
        lemma_low_step(bits, 13, 8192);
        lemma_low_step(bits, 14, 16384);
        lemma_low_step(bits, 15, 32768);
    }
    assert(0 <= low < 16);
    vstd::arithmetic::div_mod::lemma_fundamental_div_mod_converse(low + 16 * high, 16, high, low);
}

proof fn lemma_low_step(bits: Seq<u8>, n: nat, weight: nat)
    requires
        vstd::arithmetic::power2::pow2(n) == weight,
    ensures
        low_first(bits, n + 1) == low_first(bits, n) + (bits[n as int] as nat) * weight,
        low_first(bits, 0) == 0,
{
}

/// Bits that differ are counted one by one.
pub proof fn law_differences_counted(a: Seq<u8>, b: Seq<u8>, n: nat)
    ensures
        differences(a, b, n) == Seq::new(n, |i: int| a[i] != b[i]).filter(|d: bool| d).len(),
        differences(a, b, n) == differences(b, a, n),
        differences(a, b, n) <= n,
    decreases n,
{
    reveal(Seq::filter);
    let p = |d: bool| d;
    let s = Seq::new(n, |i: int| a[i] != b[i]);
    if n > 0 {
        let m = (n - 1) as nat;
        law_differences_counted(a, b, m);
        assert(s.drop_last() =~= Seq::new(m, |i: int| a[i] != b[i]));
    } else {
        assert(s.filter(p).len() == 0);
    }
}

/// A short message is accepted with up to four errors, all of them weak, from the
/// partner, and only where it is an R-report, RRR or 73.
pub proof fn law_short_message_accepted(n_errors: int, errors_weak: bool, bits: Seq<u8>, partner_hash: int)
    ensures
        short_message_ok(n_errors, errors_weak, bits, partner_hash) ==> {
            &&& n_errors < 5
            &&& errors_weak
            &&& call_hash(bits) == partner_hash
            &&& report_of(report_code(bits) as int)[0] == 'R' || report_of(report_code(bits) as int) == seq!['7', '3']
        },
        !short_message_ok(n_errors, errors_weak, bits, partner_hash) ==> {
            ||| n_errors >= 5
            ||| !errors_weak
            ||| call_hash(bits) != partner_hash
            ||| report_of(report_code(bits) as int)[0] == '+' || report_of(report_code(bits) as int)[0] == '-'
        },
{
    let c = report_code(bits) as int;
    law_report_codes(c);
    law_report_codes(c - 7);
}

/// A short message shows the partner's call first and ours behind it, in brackets,
/// then the report.
pub proof fn law_short_message_shows(hiscall: Seq<char>, mycall: Seq<char>, bits: Seq<u8>)
    ensures
        ({
            let t = short_message_text(hiscall, mycall, bits);
            let (h, m, r) = (trim(hiscall), trim(mycall), report_of(report_code(bits) as int));
            let (i, j) = (1 + h.len() as int, 2 + h.len() as int + m.len() as int);
            &&& t.len() == 4 + h.len() + m.len() + r.len()
            &&& t[0] == '<'
            &&& t.subrange(1, i) == h
            &&& t[i] == ' '
            &&& t.subrange(i + 1, j) == m
            &&& t[j] == '>'
            &&& t[j + 1] == ' '
            &&& t.subrange(j + 2, t.len() as int) == r
        }),
{
    reveal_strlit("<");
    reveal_strlit(" ");
    reveal_strlit("> ");
    let t = short_message_text(hiscall, mycall, bits);
    let (h, m, r) = (trim(hiscall), trim(mycall), report_of(report_code(bits) as int));
    let (i, j) = (1 + h.len() as int, 2 + h.len() as int + m.len() as int);
    assert(t.subrange(1, i) =~= h);
    assert(t.subrange(i + 1, j) =~= m);
    assert(t.subrange(j + 2, t.len() as int) =~= r);
}

/// The best of two is at least as good as each of them in everything, and as good as
/// one of them.
pub proof fn law_best_of_two(d: DecodeDiag, a: DecodeDiag, b: DecodeDiag)
    requires
        d.is_best_of(a, b),
    ensures
        d.n_msk144_cands >= a.n_msk144_cands && d.n_msk144_cands >= b.n_msk144_cands,
        d.n_msk144_cands == a.n_msk144_cands || d.n_msk144_cands == b.n_msk144_cands,
        d.n_msk40_cands >= a.n_msk40_cands && d.n_msk40_cands >= b.n_msk40_cands,
        d.n_msk40_cands == a.n_msk40_cands || d.n_msk40_cands == b.n_msk40_cands,
        d.best_xmax >= a.best_xmax && d.best_xmax >= b.best_xmax,
        d.best_xmax == a.best_xmax || d.best_xmax == b.best_xmax,
        d.strongest_detmet >= a.strongest_detmet && d.strongest_detmet >= b.strongest_detmet,
        d.strongest_detmet == a.strongest_detmet || d.strongest_detmet == b.strongest_detmet,
        d.best_n_bad_sync == a.best_n_bad_sync || d.best_n_bad_sync == b.best_n_bad_sync,
        a.best_n_bad_sync matches Some(n) ==> d.best_n_bad_sync is Some && d.best_n_bad_sync->0 <= n,
        b.best_n_bad_sync matches Some(n) ==> d.best_n_bad_sync is Some && d.best_n_bad_sync->0 <= n,
        d.best_n_hard_errors == a.best_n_hard_errors || d.best_n_hard_errors == b.best_n_hard_errors,
        a.best_n_hard_errors matches Some(n) ==> d.best_n_hard_errors is Some && d.best_n_hard_errors->0 <= n,
        b.best_n_hard_errors matches Some(n) ==> d.best_n_hard_errors is Some && d.best_n_hard_errors->0 <= n,
{
}

/// The windows of a slot overlap by half, lie in it, and leave less than half a window
/// at its end.
pub proof fn law_windows_cover_slot(len: nat)
    ensures
        len < 7168 ==> window_count(len) == 0,
        len >= 7168 ==> window_count(len) >= 1 && (window_count(len) - 1) * 3584 + 7168 <= len < window_count(len)
            * 3584 + 7168,
{
}

/// Pings of full messages are tried first, then, where short messages are wanted,
/// their pings, then averages.
pub proof fn law_stages_in_order(short: bool)
    ensures
        following(Stage::Averages, short) is None,
        following(Stage::ShortPings, short) == Some(Stage::Averages),
        short ==> following(Stage::Pings, short) == Some(Stage::ShortPings),
        !short ==> following(Stage::Pings, short) == Some(Stage::Averages),
{
}

/// Every fragment between `a` and `b` joins the one before it, and neither the one at
/// `a` nor the one at `b` does.
pub open spec fn is_run(joins: Seq<bool>, a: int, b: int) -> bool {
    &&& 0 <= a < b <= joins.len()
    &&& forall|k: int| a < k < b ==> #[trigger] joins[k]
    &&& a > 0 ==> !joins[a]
    &&& b < joins.len() ==> !joins[b]
}

proof fn lemma_run_start_is(joins: Seq<bool>, k: int)
    requires
        0 <= k < joins.len(),
    ensures
        0 <= run_start(joins, k) <= k,
        forall|i: int| run_start(joins, k) < i <= k ==> #[trigger] joins[i],
        run_start(joins, k) > 0 ==> !joins[run_start(joins, k)],
    decreases k,
{
    if k > 0 && joins[k] {
        lemma_run_start_is(joins, k - 1);
    }
}

/// The clusters are the runs of fragments that join, those of at least `min`
/// fragments and no others.
pub proof fn law_clusters_are_runs(joins: Seq<bool>, min: nat, a: int, b: int)
    ensures
        runs(joins, min).contains((a, b)) <==> is_run(joins, a, b) && b - a >= min,
    decreases joins.len(),
{
    let n = joins.len() as int;
    if n > 0 {
        let at = run_start(joins, n - 1);
        lemma_run_start_is(joins, n - 1);
        let t = joins.take(at);
        let front = runs(t, min);
        law_clusters_are_runs(t, min, a, b);
        let all = runs(joins, min);
        assert(is_run(joins, at, n));
        if front.contains((a, b)) {
            let k = front.index_of((a, b));
            assert(all[k] == (a, b));
            assert(is_run(t, a, b));
            assert forall|k: int| a < k < b implies #[trigger] joins[k] by {
                assert(t[k]);
            }
            if b == at {
                assert(!joins[at]);
            } else {
                assert(!t[b]);
            }
            if a > 0 {
                assert(!t[a]);
            }
        }
        if n - at >= min {
            assert(all[front.len() as int] == (at, n));
        }
        if all.contains((a, b)) && !front.contains((a, b)) {
            let k = all.index_of((a, b));
            if k < front.len() {
                assert(front[k] == (a, b));
            }
        }
        if is_run(joins, a, b) && b - a >= min {
            if b == n {
                if a < at {
                    assert(joins[at]);
                }
                if a > at {
                    assert(joins[a]);
                }
            } else {
                assert(!joins[b]);
                assert(b <= at);
                assert forall|k: int| a < k < b implies #[trigger] t[k] by {
                    assert(joins[k]);
                }
                assert(is_run(t, a, b));
            }
        }
    } else {
        assert(runs(joins, min) =~= seq![]);
    }
}

/// Two fragments can be the same burst: they start less than half a frame apart.
pub open spec fn same_burst(starts: Seq<usize>, i: int, k: int) -> bool {
    starts[i] - starts[k] < 432 && starts[k] - starts[i] < 432
}

/// Of fragments in the order of their strength one is dropped exactly where one
/// before it that was kept can be the same burst and is near in frequency.
pub proof fn law_only_echoes_are_dropped(starts: Seq<usize>, near: spec_fn(int, int) -> bool, n: nat, i: int)
    requires
        0 <= i < n,
    ensures
        kept_of(starts, near, n).contains(i) <==> !(exists|k: int|
            0 <= k < i && #[trigger] kept_of(starts, near, n).contains(k) && same_burst(starts, i, k) && near(k, i)),
    decreases n,
{
    let m = (n - 1) as nat;
    let before = kept_of(starts, near, m);
    let all = kept_of(starts, near, n);
    lemma_kept_range(starts, near, m);
    assert forall|k: int| 0 <= k < m implies before.contains(k) == #[trigger] all.contains(k) by {
        if before.contains(k) {
            assert(all[before.index_of(k)] == k);
        }
        if all.contains(k) {
            let j = all.index_of(k);
            if j < before.len() {
                assert(before[j] == k);
            }
        }
    }
    if i < m {
        law_only_echoes_are_dropped(starts, near, m, i);
        if exists|k: int| 0 <= k < i && #[trigger] all.contains(k) && same_burst(starts, i, k) && near(k, i) {
            let k = choose|k: int| 0 <= k < i && #[trigger] all.contains(k) && same_burst(starts, i, k) && near(k, i);
            assert(before.contains(k));
        }
        if exists|k: int| 0 <= k < i && #[trigger] before.contains(k) && same_burst(starts, i, k) && near(k, i) {
            let k = choose|k: int| 0 <= k < i && #[trigger] before.contains(k) && same_burst(starts, i, k) && near(k, i);
            assert(all.contains(k));
        }
    } else {
        if is_echo(starts, near, before, i) {
            let k = choose|k: int|
                0 <= k < before.len() && {
                    let d = starts[#[trigger] before[k]] - starts[i];
                    -432 < d < 432 && near(before[k], i)
                };
            assert(before.contains(before[k]));
            assert(all.contains(before[k]));
            if all.contains(i) {
                assert(before[all.index_of(i)] < m);
            }
        } else {
            assert(all[before.len() as int] == i);
            if exists|k: int| 0 <= k < i && #[trigger] all.contains(k) && same_burst(starts, i, k) && near(k, i) {
                let k = choose|k: int|
                    0 <= k < i && #[trigger] all.contains(k) && same_burst(starts, i, k) && near(k, i);
                assert(before.contains(k));
                let j = before.index_of(k);
                assert(before[j] == k);
                assert(is_echo(starts, near, before, i));
            }
        }
    }
}

proof fn lemma_kept_range(starts: Seq<usize>, near: spec_fn(int, int) -> bool, n: nat)
    ensures
        forall|k: int| 0 <= k < kept_of(starts, near, n).len() ==> 0 <= #[trigger] kept_of(starts, near, n)[k] < n,
    decreases n,
{
    if n > 0 {
        let before = kept_of(starts, near, (n - 1) as nat);
        lemma_kept_range(starts, near, (n - 1) as nat);
        let all = kept_of(starts, near, n);
        assert forall|k: int| 0 <= k < all.len() implies 0 <= #[trigger] all[k] < n by {
            if k < before.len() {
                assert(all[k] == before[k]);
            }
        }
    }
}

/// A text is in the short form where its first character is an opening bracket and a
/// closing one stands somewhere, with white space around it or not.
pub proof fn law_what_is_short_form(text: Seq<char>)
    ensures
        is_short_form(text) <==> trim(text).len() > 0 && trim(text)[0] == '<' && exists|i: int|
            0 <= i < trim(text).len() && #[trigger] trim(text)[i] == '>',
{
    let t = trim(text);
    if exists|i: int| 0 <= i < t.len() && #[trigger] t[i] == '>' {
        let i = choose|i: int| 0 <= i < t.len() && #[trigger] t[i] == '>';
        assert(t.contains(t[i]));
    }
}

/// More effort tries more patterns, all of them at most.
pub proof fn law_deeper_tries_more()
    ensures
        Depth::Fast.patterns() == 0,
        Depth::Normal.patterns() == 2,
        Depth::Deep.patterns() == AVG_PATTERNS@.len(),
{
}

/// Short messages are decoded only where they are wanted and both calls are given.
pub proof fn law_short_messages_wanted(c: ShortMessageConfig)
    ensures
        c.wanted() ==> c.enabled && c.mycall@.len() > 0 && c.hiscall@.len() > 0,
        !c.wanted() ==> !c.enabled || c.mycall@.len() == 0 || c.hiscall@.len() == 0,
{
}

} // verus!
