//! The (32,16) code of short messages.
//!
//! A codeword is sixteen parity bits and the sixteen message bits, put into the
//! order of [`COLORDER`].
use vstd::prelude::*;

use crate::fec::converse::{law_accepted_short_is_codeword, out_of_order};
use crate::fec::crc::is_bits;

verus! {

/// Where each bit of a codeword is sent: bit `k` goes to position `COLORDER[k]`.
pub const COLORDER: [u8; 32] = [
    4, 1, 2, 3, 0, 8, 6, 10, 13, 28, 20, 23, 17, 15, 27, 25,
    16, 12, 18, 19, 7, 21, 22, 11, 24, 5, 26, 14, 9, 29, 30, 31,
];

/// The generator: row `i` says which message bits enter parity bit `i`, bit 15 of
/// the number standing for message bit 0.
pub const G16: [u16; 16] = [
    0x4428, 0x5a6b, 0x1b04, 0x2c12, 0x60c4, 0x1071, 0xbe6a, 0x36dd,
    0xc580, 0xad9a, 0xeca2, 0x7843, 0x332e, 0xa685, 0x5906, 0x1efe,
];

/// The three checks that each position takes part in.
pub const MN_TABLE: [[usize; 3]; 32] = [
    [0, 5, 12], [1, 2, 13], [3, 7, 14], [4, 10, 11],
    [6, 9, 15], [5, 8, 14], [0, 10, 15], [1, 3, 4],
    [2, 6, 8], [7, 9, 11], [7, 12, 13], [0, 3, 11],
    [1, 5, 9], [2, 10, 14], [4, 8, 13], [6, 12, 14],
    [11, 13, 15], [0, 1, 7], [2, 4, 5], [3, 8, 10],
    [0, 6, 13], [4, 9, 12], [2, 3, 15], [1, 14, 15],
    [5, 6, 11], [6, 7, 10], [0, 8, 9], [1, 10, 12],
    [2, 11, 12], [3, 5, 13], [0, 4, 14], [7, 8, 15],
];

/// The positions that each check covers; slots behind its weight are unused.
pub const NM_TABLE: [[usize; 7]; 16] = [
    [0, 6, 11, 17, 20, 26, 30],
    [1, 7, 12, 17, 23, 27, 0],
    [1, 8, 13, 18, 22, 28, 0],
    [2, 7, 11, 19, 22, 29, 0],
    [3, 7, 14, 18, 21, 30, 0],
    [0, 5, 12, 18, 24, 29, 0],
    [4, 8, 15, 20, 24, 25, 0],
    [2, 9, 10, 17, 25, 31, 0],
    [5, 8, 14, 19, 26, 31, 0],
    [4, 9, 12, 21, 26, 0, 0],
    [3, 6, 13, 19, 25, 27, 0],
    [3, 9, 11, 16, 24, 28, 0],
    [0, 10, 15, 21, 27, 28, 0],
    [1, 10, 14, 16, 20, 29, 0],
    [2, 5, 13, 15, 23, 30, 0],
    [4, 6, 16, 22, 23, 31, 0],
];

/// Number of positions that each check covers.
pub const NRW: [usize; 16] = [7, 6, 6, 6, 6, 6, 6, 6, 6, 5, 6, 6, 6, 6, 6, 6];

/// A short message that was decoded.
#[derive(Debug, PartialEq, Eq)]
pub struct ShortDecodeResult {
    pub message: [u8; 16],
    /// The codeword before it was put into order: parity bits, then message bits.
    pub codeword: [u8; 32],
    pub iterations: i32,
}

/// Entry `j` of a generator row.
pub open spec fn row_bit16(row: u16, j: int) -> u8 {
    ((row >> ((15 - j) as u16)) & 1) as u8
}

/// How many of the first `n` bits are ones that the row selects.
pub open spec fn dot16(row: u16, bits: Seq<u8>, n: nat) -> nat
    decreases n,
{
    if n == 0 {
        0
    } else {
        dot16(row, bits, (n - 1) as nat) + (bits[n - 1] as nat) * (row_bit16(row, n - 1) as nat)
    }
}

/// Parity bits, then message bits.
pub open spec fn unordered(message: Seq<u8>) -> Seq<u8> {
    Seq::new(16, |i: int| (dot16(G16@[i], message, 16) % 2) as u8) + message
}

/// The word `w` is `u` put into order.
pub open spec fn in_order(w: Seq<u8>, u: Seq<u8>) -> bool {
    w.len() == 32 && forall|k: int| 0 <= k < 32 ==> w[COLORDER@[k] as int] == #[trigger] u[k]
}

/// Which bit of a codeword stands at each position: the inverse of [`COLORDER`].
pub const BIT_AT: [u8; 32] = [
    4, 1, 2, 3, 0, 25, 6, 20, 5, 28, 7, 23, 17, 8, 27, 13,
    16, 12, 18, 19, 10, 21, 22, 11, 24, 15, 26, 14, 9, 29, 30, 31,
];

/// The order goes to every position exactly once.
pub proof fn law_colorder_is_permutation()
    ensures
        forall|k: int| 0 <= k < 32 ==> #[trigger] COLORDER@[k] < 32 && BIT_AT@[COLORDER@[k] as int] == k,
        forall|p: int| 0 <= p < 32 ==> #[trigger] BIT_AT@[p] < 32 && COLORDER@[BIT_AT@[p] as int] == p,
        forall|j: int, k: int|
            0 <= j < 32 && 0 <= k < 32 && j != k ==> #[trigger] COLORDER@[j] != #[trigger] COLORDER@[k],
{
}

proof fn lemma_row_bit16_xor(a: u16, b: u16, j: int)
    requires
        0 <= j < 16,
    ensures
        row_bit16(a, j) <= 1,
        row_bit16(b, j) <= 1,
        row_bit16(a ^ b, j) == (row_bit16(a, j) + row_bit16(b, j)) % 2,
        row_bit16(0, j) == 0,
{
    let s = (15 - j) as u16;
    assert(s < 16 ==> (((a >> s) & 1) as u8) <= 1 && (((b >> s) & 1) as u8) <= 1 && ((((a ^ b) >> s) & 1)
        as u8) == (((a >> s) & 1) as u8 + ((b >> s) & 1) as u8) % 2 && ((0u16 >> s) & 1) as u8 == 0)
        by (bit_vector);
}

/// Encodes sixteen bits into a codeword of thirty-two.
pub fn encode_short(message_16: &[u8; 16]) -> (word: [u8; 32])
    ensures
        in_order(word@, unordered(message_16@)),
        is_bits(message_16@) ==> is_bits(word@) && short_accepted(word@),
{
    let mut plain = [0u8; 32];
    let mut i: usize = 0;
    while i < 16
        invariant
            i <= 16,
            forall|k: int| 0 <= k < i ==> #[trigger] plain@[k] == (dot16(G16@[k], message_16@, 16) % 2) as u8,
        decreases 16 - i,
    {
        let row: u16 = G16[i];
        let mut sum: u32 = 0;
        let mut j: usize = 0;
        while j < 16
            invariant
                j <= 16,
                sum <= 255 * j,
                sum == dot16(row, message_16@, j as nat),
            decreases 16 - j,
        {
            let entry: u8 = ((row >> (15 - j as u16)) & 1) as u8;
            let bit: u8 = message_16[j];
            proof {
                lemma_row_bit16_xor(row, 0, j as int);
                assert(bit * entry <= 255) by (nonlinear_arith)
                    requires
                        bit <= 255,
                        entry <= 1,
                ;
            }
            sum = sum + bit as u32 * entry as u32;
            j = j + 1;
        }
        plain[i] = (sum % 2) as u8;
        i = i + 1;
    }
    while i < 32
        invariant
            16 <= i <= 32,
            forall|k: int| 0 <= k < 16 ==> #[trigger] plain@[k] == (dot16(G16@[k], message_16@, 16) % 2) as u8,
            forall|k: int| 16 <= k < i ==> #[trigger] plain@[k] == message_16@[k - 16],
        decreases 32 - i,
    {
        plain[i] = message_16[i - 16];
        i = i + 1;
    }
    let ghost u = unordered(message_16@);
    assert(plain@ =~= u);
    assert(is_bits(message_16@) ==> is_bits(plain@)) by {
        assert forall|k: int| is_bits(message_16@) && 0 <= k < 32 implies #[trigger] plain@[k] <= 1 by {
            if k >= 16 {
                assert(message_16@[k - 16] <= 1);
            }
        }
    }
    let mut word = [0u8; 32];
    let mut k: usize = 0;
    proof {
        law_colorder_is_permutation();
    }
    while k < 32
        invariant
            k <= 32,
            plain@ == u,
            is_bits(plain@) ==> is_bits(word@),
            forall|j: int| 0 <= j < 32 ==> #[trigger] COLORDER@[j] < 32,
            forall|a: int, b: int|
                0 <= a < 32 && 0 <= b < 32 && a != b ==> #[trigger] COLORDER@[a] != #[trigger] COLORDER@[b],
            forall|j: int| 0 <= j < k ==> word@[COLORDER@[j] as int] == #[trigger] u[j],
        decreases 32 - k,
    {
        let at: usize = COLORDER[k] as usize;
        assert(COLORDER@[k as int] < 32);
        let ghost before = word@;
        word[at] = plain[k];
        assert forall|j: int| 0 <= j < k + 1 implies word@[COLORDER@[j] as int] == #[trigger] u[j] by {
            if j < k {
                assert(COLORDER@[j] != COLORDER@[k as int]);
                assert(before[COLORDER@[j] as int] == u[j]);
            }
        }
        assert forall|j: int| is_bits(plain@) && 0 <= j < 32 implies #[trigger] word@[j] <= 1 by {
            assert(plain@[k as int] <= 1);
            if j != at {
                assert(before[j] <= 1);
            }
        }
        k = k + 1;
    }
    proof {
        if is_bits(message_16@) {
            law_short_codeword_decodes(message_16@, word@, u);
        }
    }
    word
}

/// Number of ones among the first `n` positions that check `j` covers.
pub open spec fn short_sum(word: Seq<u8>, j: int, n: nat) -> nat
    decreases n,
{
    if n == 0 {
        0
    } else {
        short_sum(word, j, (n - 1) as nat) + word[NM_TABLE@[j]@[n - 1] as int] as nat
    }
}

/// Check `j` covers an even number of ones.
pub open spec fn short_satisfied(word: Seq<u8>, j: int) -> bool {
    short_sum(word, j, NRW@[j] as nat) % 2 == 0
}

/// All checks are satisfied.
pub open spec fn short_accepted(word: Seq<u8>) -> bool {
    forall|j: int| 0 <= j < 16 ==> #[trigger] short_satisfied(word, j)
}

pub proof fn lemma_short_tables()
    ensures
        forall|j: int| 0 <= j < 16 ==> 5 <= #[trigger] NRW@[j] <= 7,
        forall|j: int, k: int| 0 <= j < 16 && 0 <= k < 7 ==> #[trigger] NM_TABLE@[j]@[k] < 32,
{
}

fn short_check(word: &[u8; 32], j: usize) -> (r: bool)
    requires
        j < 16,
        is_bits(word@),
    ensures
        r == short_satisfied(word@, j as int),
{
    proof {
        lemma_short_tables();
        assert(NRW@[j as int] <= 7);
    }
    let n: usize = NRW[j];
    let mut s: u32 = 0;
    let mut k: usize = 0;
    while k < n
        invariant
            j < 16,
            k <= n == NRW@[j as int] <= 7,
            is_bits(word@),
            s <= k,
            s == short_sum(word@, j as int, k as nat),
            forall|j: int, k: int| 0 <= j < 16 && 0 <= k < 7 ==> #[trigger] NM_TABLE@[j]@[k] < 32,
        decreases n - k,
    {
        assert(NM_TABLE@[j as int]@[k as int] < 32);
        let b: usize = NM_TABLE[j][k];
        assert(word@[b as int] <= 1);
        s = s + word[b] as u32;
        k = k + 1;
    }
    s % 2 == 0
}

/// Whether round `iter` may be judged where there are at most `max_iterations` after
/// the first.
pub fn short_may_go_on(iter: usize, max_iterations: usize) -> (r: bool)
    ensures
        r == (iter <= max_iterations),
{
    iter <= max_iterations
}

/// Judges the hard-sliced word of round `iter`: where it satisfies all checks, it
/// is taken back out of its order, and its last sixteen bits are the message.
pub fn judge_short(word: &[u8; 32], iter: i32) -> (r: Option<ShortDecodeResult>)
    requires
        is_bits(word@),
    ensures
        r is Some <==> short_accepted(word@),
        r matches Some(d) ==> {
            &&& in_order(word@, d.codeword@)
            &&& d.message@ == d.codeword@.subrange(16, 32)
            &&& d.codeword@ == unordered(d.message@)
            &&& d.iterations == iter
        },
{
    let mut j: usize = 0;
    while j < 16
        invariant
            j <= 16,
            is_bits(word@),
            forall|i: int| 0 <= i < j ==> #[trigger] short_satisfied(word@, i),
        decreases 16 - j,
    {
        if !short_check(word, j) {
            assert(!short_satisfied(word@, j as int));
            return None;
        }
        j = j + 1;
    }
    proof {
        law_colorder_is_permutation();
    }
    let mut codeword = [0u8; 32];
    let mut k: usize = 0;
    while k < 32
        invariant
            k <= 32,
            forall|i: int| 0 <= i < 32 ==> #[trigger] COLORDER@[i] < 32,
            forall|i: int| 0 <= i < k ==> word@[COLORDER@[i] as int] == #[trigger] codeword@[i],
        decreases 32 - k,
    {
        assert(COLORDER@[k as int] < 32);
        codeword[k] = word[COLORDER[k] as usize];
        k = k + 1;
    }
    let mut message = [0u8; 16];
    let mut i: usize = 0;
    while i < 16
        invariant
            i <= 16,
            forall|m: int| 0 <= m < i ==> #[trigger] message@[m] == codeword@[16 + m],
        decreases 16 - i,
    {
        message[i] = codeword[16 + i];
        i = i + 1;
    }
    assert(message@ =~= codeword@.subrange(16, 32));
    proof {
        law_accepted_short_is_codeword(word@);
        assert(out_of_order(word@) =~= codeword@);
        assert forall|k: int| 0 <= k < 32 implies codeword@[k] == #[trigger] unordered(message@)[k] by {
            assert(word@[COLORDER@[k] as int] == codeword@[k]);
        }
        assert(codeword@ =~= unordered(message@));
    }
    Some(ShortDecodeResult { message, codeword, iterations: iter })
}

/// The message bits that enter bit `k` of a codeword.
spec fn column16(k: int) -> u16 {
    if k < 16 {
        G16@[k]
    } else {
        1u16 << ((31 - k) as u16)
    }
}

spec fn check_columns16(j: int, n: nat) -> u16
    decreases n,
{
    if n == 0 {
        0
    } else {
        check_columns16(j, (n - 1) as nat) ^ column16(BIT_AT@[NM_TABLE@[j]@[n - 1] as int] as int)
    }
}

/// The columns that each check covers add up to nothing.
proof fn lemma_columns16_cancel()
    by (bit_vector)
    ensures
        0u16 ^ 0x60c4u16 ^ 0xbe6au16 ^ (1u16 << 8u16) ^ 0x332eu16 ^ 0xeca2u16 ^ (1u16 << 5u16) ^ (1u16 << 1u16) == 0,
        0u16 ^ 0x5a6bu16 ^ (1u16 << 11u16) ^ (1u16 << 14u16) ^ 0x332eu16 ^ 0x7843u16 ^ 0x5906u16 == 0,
        0u16 ^ 0x5a6bu16 ^ 0x1071u16 ^ 0xc580u16 ^ (1u16 << 13u16) ^ (1u16 << 9u16) ^ 0xad9au16 == 0,
        0u16 ^ 0x1b04u16 ^ (1u16 << 11u16) ^ (1u16 << 8u16) ^ (1u16 << 12u16) ^ (1u16 << 9u16) ^ (1u16 << 2u16) == 0,
        0u16 ^ 0x2c12u16 ^ (1u16 << 11u16) ^ (1u16 << 4u16) ^ (1u16 << 13u16) ^ (1u16 << 10u16) ^ (1u16 << 1u16) == 0,
        0u16 ^ 0x60c4u16 ^ (1u16 << 6u16) ^ (1u16 << 14u16) ^ (1u16 << 13u16) ^ (1u16 << 7u16) ^ (1u16 << 2u16) == 0,
        0u16 ^ 0x4428u16 ^ 0x1071u16 ^ 0xa685u16 ^ 0xeca2u16 ^ (1u16 << 7u16) ^ 0x1efeu16 == 0,
        0u16 ^ 0x1b04u16 ^ (1u16 << 3u16) ^ 0x36ddu16 ^ 0x332eu16 ^ 0x1efeu16 ^ (1u16 << 0u16) == 0,
        0u16 ^ (1u16 << 6u16) ^ 0x1071u16 ^ (1u16 << 4u16) ^ (1u16 << 12u16) ^ (1u16 << 5u16) ^ (1u16 << 0u16) == 0,
        0u16 ^ 0x4428u16 ^ (1u16 << 3u16) ^ (1u16 << 14u16) ^ (1u16 << 10u16) ^ (1u16 << 5u16) == 0,
        0u16 ^ 0x2c12u16 ^ 0xbe6au16 ^ 0xc580u16 ^ (1u16 << 12u16) ^ 0x1efeu16 ^ 0x5906u16 == 0,
        0u16 ^ 0x2c12u16 ^ (1u16 << 3u16) ^ (1u16 << 8u16) ^ (1u16 << 15u16) ^ (1u16 << 7u16) ^ 0xad9au16 == 0,
        0u16 ^ 0x60c4u16 ^ 0x36ddu16 ^ 0xa685u16 ^ (1u16 << 10u16) ^ 0x5906u16 ^ 0xad9au16 == 0,
        0u16 ^ 0x5a6bu16 ^ 0x36ddu16 ^ (1u16 << 4u16) ^ (1u16 << 15u16) ^ 0xeca2u16 ^ (1u16 << 2u16) == 0,
        0u16 ^ 0x1b04u16 ^ (1u16 << 6u16) ^ 0xc580u16 ^ 0xa685u16 ^ 0x7843u16 ^ (1u16 << 1u16) == 0,
        0u16 ^ 0x4428u16 ^ 0xbe6au16 ^ (1u16 << 15u16) ^ (1u16 << 9u16) ^ 0x7843u16 ^ (1u16 << 0u16) == 0,
{
}

proof fn lemma_check_columns16(j: int)
    requires
        0 <= j < 16,
    ensures
        check_columns16(j, NRW@[j] as nat) == 0,
{
    lemma_columns16_cancel();
    reveal_with_fuel(check_columns16, 8);
}

proof fn lemma_dot16_xor(a: u16, b: u16, bits: Seq<u8>, n: nat)
    requires
        n <= 16,
        is_bits(bits),
        bits.len() == 16,
    ensures
        dot16(a ^ b, bits, n) % 2 == (dot16(a, bits, n) + dot16(b, bits, n)) % 2,
    decreases n,
{
    if n > 0 {
        lemma_dot16_xor(a, b, bits, (n - 1) as nat);
        lemma_row_bit16_xor(a, b, n - 1);
        assert(bits[n - 1] <= 1);
        if bits[n - 1] == 0 {
            assert((bits[n - 1] as nat) * (row_bit16(a, n - 1) as nat) == 0);
            assert((bits[n - 1] as nat) * (row_bit16(b, n - 1) as nat) == 0);
            assert((bits[n - 1] as nat) * (row_bit16(a ^ b, n - 1) as nat) == 0);
        } else {
            assert((bits[n - 1] as nat) * (row_bit16(a, n - 1) as nat) == row_bit16(a, n - 1));
            assert((bits[n - 1] as nat) * (row_bit16(b, n - 1) as nat) == row_bit16(b, n - 1));
            assert((bits[n - 1] as nat) * (row_bit16(a ^ b, n - 1) as nat) == row_bit16(a ^ b, n - 1));
        }
    }
}

proof fn lemma_dot16_zero(bits: Seq<u8>, n: nat)
    requires
        n <= 16,
    ensures
        dot16(0, bits, n) == 0,
    decreases n,
{
    if n > 0 {
        lemma_dot16_zero(bits, (n - 1) as nat);
        lemma_row_bit16_xor(0, 0, n - 1);
        assert((bits[n - 1] as nat) * 0nat == 0);
    }
}

proof fn lemma_dot16_unit(bits: Seq<u8>, b: int, n: nat)
    requires
        n <= 16,
        0 <= b < 16,
    ensures
        dot16(1u16 << ((15 - b) as u16), bits, n) == (if b < n {
            bits[b] as nat
        } else {
            0
        }),
    decreases n,
{
    if n > 0 {
        lemma_dot16_unit(bits, b, (n - 1) as nat);
        let t = (15 - b) as u16;
        let s = (15 - (n - 1)) as u16;
        assert(s < 16 && t < 16 ==> ((((1u16 << t) >> s) & 1) as u8) == (if s == t {
            1u8
        } else {
            0u8
        })) by (bit_vector);
        assert((bits[n - 1] as nat) * 0nat == 0);
        assert((bits[n - 1] as nat) * 1nat == bits[n - 1]);
    }
}

proof fn lemma_short_sum(message: Seq<u8>, word: Seq<u8>, j: int, n: nat)
    requires
        is_bits(message),
        message.len() == 16,
        in_order(word, unordered(message)),
        0 <= j < 16,
        n <= NRW@[j],
    ensures
        short_sum(word, j, n) % 2 == dot16(check_columns16(j, n), message, 16) % 2,
    decreases n,
{
    if n == 0 {
        lemma_dot16_zero(message, 16);
    } else {
        lemma_short_tables();
        law_colorder_is_permutation();
        let p = NM_TABLE@[j]@[n - 1] as int;
        assert(NRW@[j] <= 7);
        assert(p < 32);
        let k = BIT_AT@[p] as int;
        assert(k < 32 && COLORDER@[k] == p);
        lemma_short_sum(message, word, j, (n - 1) as nat);
        lemma_dot16_xor(check_columns16(j, (n - 1) as nat), column16(k), message, 16);
        assert(word[p] == unordered(message)[k]);
        if k >= 16 {
            lemma_dot16_unit(message, k - 16, 16);
            assert(31 - k == 15 - (k - 16));
        }
    }
}

/// Every codeword satisfies every check, and decoding it gives the message back.
pub proof fn law_short_codeword_decodes(message: Seq<u8>, word: Seq<u8>, plain: Seq<u8>)
    requires
        is_bits(message),
        message.len() == 16,
        in_order(word, unordered(message)),
        plain.len() == 32,
        in_order(word, plain),
    ensures
        short_accepted(word),
        plain.subrange(16, 32) == message,
{
    assert forall|j: int| 0 <= j < 16 implies #[trigger] short_satisfied(word, j) by {
        lemma_short_sum(message, word, j, NRW@[j] as nat);
        lemma_check_columns16(j);
        lemma_dot16_zero(message, 16);
    }
    assert forall|k: int| 0 <= k < 16 implies plain.subrange(16, 32)[k] == message[k] by {
        assert(unordered(message)[16 + k] == message[k]);
        assert(plain[16 + k] == word[COLORDER@[16 + k] as int]);
    }
    assert(plain.subrange(16, 32) =~= message);
}

} // verus!
