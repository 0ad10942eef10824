//! The 13-bit CRC that closes a 77-bit message.
//!
//! The message is read as a polynomial over GF(2), most significant bit first,
//! followed by nineteen zero bits (thirteen for the CRC itself and six that
//! round the ninety bits up to twelve bytes), and divided by
//! `x^13 + 0x15D7`. The remainder is the CRC.
use vstd::prelude::*;

verus! {

/// The divisor without its leading `x^13` term.
pub const POLY: u16 = 0x15D7;

/// Every element is a bit.
pub open spec fn is_bits(s: Seq<u8>) -> bool {
    forall|i: int| 0 <= i < s.len() ==> #[trigger] s[i] <= 1
}

/// One step of the long division: the next bit comes in on the right, and the
/// divisor is taken away when the degree reaches 13.
pub open spec fn division_step(reg: u16, bit: u8) -> u16 {
    let shifted = (reg << 1) | (bit as u16);
    if shifted & 0x2000 != 0 {
        shifted ^ (0x2000 | POLY)
    } else {
        shifted
    }
}

/// Remainder of the polynomial with the coefficients `bits`, highest degree
/// first, divided by `x^13 + POLY`.
pub open spec fn remainder(bits: Seq<u8>) -> u16
    decreases bits.len(),
{
    if bits.len() == 0 {
        0
    } else {
        division_step(remainder(bits.drop_last()), bits.last())
    }
}

/// The bits of a byte sequence, most significant bit of each byte first.
pub open spec fn bits_of(data: Seq<u8>) -> Seq<u8> {
    Seq::new(8 * data.len(), |i: int| bit_in_byte(data[i / 8], i % 8))
}

/// Bit `k` of a byte, counted from the most significant one.
pub open spec fn bit_in_byte(byte: u8, k: int) -> u8 {
    (byte >> ((7 - k) as u8)) & 1
}

/// Ninety-six bits that start with `message` and go on with zeros.
pub open spec fn padded(message: Seq<u8>) -> Seq<u8> {
    Seq::new(96, |i: int| if i < message.len() { message[i] } else { 0u8 })
}

/// The CRC of a 77-bit message.
pub open spec fn crc13(message: Seq<u8>) -> u16 {
    remainder(padded(message))
}

/// The thirteen bits of the CRC of `message`, most significant bit first.
pub open spec fn crc_bits(message: Seq<u8>) -> Seq<u8> {
    Seq::new(13, |i: int| ((crc13(message) >> ((12 - i) as u16)) & 1) as u8)
}

/// A message with its CRC appended.
pub open spec fn with_crc(message: Seq<u8>) -> Seq<u8> {
    message + crc_bits(message)
}

/// Bitwise sum modulo two of two bit sequences of equal length.
pub open spec fn xor_bits(a: Seq<u8>, b: Seq<u8>) -> Seq<u8> {
    Seq::new(a.len(), |i: int| a[i] ^ b[i])
}

proof fn lemma_step_bound(reg: u16, bit: u8)
    requires
        reg < 0x2000,
        bit <= 1,
    ensures
        division_step(reg, bit) < 0x2000,
        division_step(reg, bit) & 0x1FFF == division_step(reg, bit),
        bit == 0 ==> (division_step(reg, bit) == 0 <==> reg == 0),
        reg == 0 ==> division_step(reg, bit) == bit,
{
    assert(reg < 0x2000 && bit <= 1 ==> {
        let shifted = (reg << 1) | (bit as u16);
        let next = if shifted & 0x2000 != 0 { shifted ^ (0x2000 | 0x15D7u16) } else { shifted };
        next < 0x2000 && next & 0x1FFF == next && (bit == 0 ==> (next == 0 <==> reg == 0)) && (reg == 0
            ==> next == bit)
    }) by (bit_vector);
}

/// A remainder has thirteen bits.
pub proof fn lemma_remainder_bound(bits: Seq<u8>)
    requires
        is_bits(bits),
    ensures
        remainder(bits) < 0x2000,
        remainder(bits) & 0x1FFF == remainder(bits),
    decreases bits.len(),
{
    if bits.len() == 0 {
        assert(0u16 & 0x1FFF == 0) by (bit_vector);
    } else {
        let front = bits.drop_last();
        assert forall|i: int| 0 <= i < front.len() implies #[trigger] front[i] <= 1 by {
            assert(bits[i] <= 1);
        }
        lemma_remainder_bound(front);
        lemma_step_bound(remainder(front), bits.last());
    }
}

proof fn lemma_step_linear(r: u16, s: u16, a: u8, b: u8)
    requires
        a <= 1,
        b <= 1,
    ensures
        division_step(r ^ s, a ^ b) == division_step(r, a) ^ division_step(s, b),
        a ^ b <= 1,
{
    assert(a <= 1 && b <= 1 ==> a ^ b <= 1 && {
        let x = (r << 1) | (a as u16);
        let y = (s << 1) | (b as u16);
        let z = ((r ^ s) << 1) | ((a ^ b) as u16);
        let fx = if x & 0x2000 != 0 { x ^ (0x2000 | 0x15D7u16) } else { x };
        let fy = if y & 0x2000 != 0 { y ^ (0x2000 | 0x15D7u16) } else { y };
        let fz = if z & 0x2000 != 0 { z ^ (0x2000 | 0x15D7u16) } else { z };
        fz == fx ^ fy
    }) by (bit_vector);
}

/// The remainder is linear: the remainder of a sum is the sum of the remainders.
pub proof fn law_remainder_linear(a: Seq<u8>, b: Seq<u8>)
    requires
        is_bits(a),
        is_bits(b),
        a.len() == b.len(),
    ensures
        remainder(xor_bits(a, b)) == remainder(a) ^ remainder(b),
    decreases a.len(),
{
    let x = xor_bits(a, b);
    if a.len() == 0 {
        assert(0u16 ^ 0u16 == 0) by (bit_vector);
    } else {
        let fa = a.drop_last();
        let fb = b.drop_last();
        assert forall|i: int| 0 <= i < fa.len() implies #[trigger] fa[i] <= 1 by {
            assert(a[i] <= 1);
        }
        assert forall|i: int| 0 <= i < fb.len() implies #[trigger] fb[i] <= 1 by {
            assert(b[i] <= 1);
        }
        law_remainder_linear(fa, fb);
        assert(x.drop_last() =~= xor_bits(fa, fb));
        lemma_step_linear(remainder(fa), remainder(fb), a.last(), b.last());
    }
}

/// The remainder of a single one among zeros is never zero.
proof fn lemma_unit_remainder(bits: Seq<u8>, p: int)
    requires
        0 <= p < bits.len(),
        forall|i: int| 0 <= i < bits.len() ==> #[trigger] bits[i] == (if i == p { 1u8 } else { 0u8 }),
    ensures
        0 < remainder(bits) < 0x2000,
    decreases bits.len(),
{
    let front = bits.drop_last();
    if p == bits.len() - 1 {
        lemma_zero_remainder(front);
    } else {
        lemma_unit_remainder(front, p);
    }
    lemma_step_bound(remainder(front), bits.last());
}

/// Nothing but zeros leaves no remainder.
pub proof fn lemma_zero_remainder(bits: Seq<u8>)
    requires
        forall|i: int| 0 <= i < bits.len() ==> #[trigger] bits[i] == 0,
    ensures
        remainder(bits) == 0,
    decreases bits.len(),
{
    if bits.len() > 0 {
        lemma_zero_remainder(bits.drop_last());
        lemma_step_bound(0, 0);
    }
}

/// Thirteen bits determine a 13-bit number.
proof fn lemma_thirteen_bits(a: u16, b: u16)
    requires
        a < 0x2000,
        b < 0x2000,
        forall|i: int| 0 <= i < 13 ==> #[trigger] crc_bit(a, i) == crc_bit(b, i),
    ensures
        a == b,
{
    assert(crc_bit(a, 0) == crc_bit(b, 0));
    assert(crc_bit(a, 1) == crc_bit(b, 1));
    assert(crc_bit(a, 2) == crc_bit(b, 2));
    assert(crc_bit(a, 3) == crc_bit(b, 3));
    assert(crc_bit(a, 4) == crc_bit(b, 4));
    assert(crc_bit(a, 5) == crc_bit(b, 5));
    assert(crc_bit(a, 6) == crc_bit(b, 6));
    assert(crc_bit(a, 7) == crc_bit(b, 7));
    assert(crc_bit(a, 8) == crc_bit(b, 8));
    assert(crc_bit(a, 9) == crc_bit(b, 9));
    assert(crc_bit(a, 10) == crc_bit(b, 10));
    assert(crc_bit(a, 11) == crc_bit(b, 11));
    assert(crc_bit(a, 12) == crc_bit(b, 12));
    assert(a == b) by (bit_vector)
        requires
            a < 0x2000,
            b < 0x2000,
            ((a >> 12u16) & 1) as u8 == ((b >> 12u16) & 1) as u8,
            ((a >> 11u16) & 1) as u8 == ((b >> 11u16) & 1) as u8,
            ((a >> 10u16) & 1) as u8 == ((b >> 10u16) & 1) as u8,
            ((a >> 9u16) & 1) as u8 == ((b >> 9u16) & 1) as u8,
            ((a >> 8u16) & 1) as u8 == ((b >> 8u16) & 1) as u8,
            ((a >> 7u16) & 1) as u8 == ((b >> 7u16) & 1) as u8,
            ((a >> 6u16) & 1) as u8 == ((b >> 6u16) & 1) as u8,
            ((a >> 5u16) & 1) as u8 == ((b >> 5u16) & 1) as u8,
            ((a >> 4u16) & 1) as u8 == ((b >> 4u16) & 1) as u8,
            ((a >> 3u16) & 1) as u8 == ((b >> 3u16) & 1) as u8,
            ((a >> 2u16) & 1) as u8 == ((b >> 2u16) & 1) as u8,
            ((a >> 1u16) & 1) as u8 == ((b >> 1u16) & 1) as u8,
            ((a >> 0u16) & 1) as u8 == ((b >> 0u16) & 1) as u8,
    ;
}

/// A CRC that was appended checks out: appending the CRC of any message gives
/// ninety bits that the check accepts.
pub proof fn law_appended_crc_validates(message: Seq<u8>)
    requires
        is_bits(message),
        message.len() == 77,
    ensures
        crc_holds(with_crc(message)),
{
    let w = with_crc(message);
    assert(w.subrange(0, 77) =~= message);
    assert(w.subrange(77, 90) =~= crc_bits(message));
}

/// Flipping any one bit of a codeword that checks out gives one that does not.
pub proof fn law_single_bit_error_detected(codeword: Seq<u8>, p: int)
    requires
        is_bits(codeword),
        codeword.len() == 90,
        crc_holds(codeword),
        0 <= p < 90,
    ensures
        !crc_holds(codeword.update(p, (1 - codeword[p]) as u8)),
{
    let bad = codeword.update(p, (1 - codeword[p]) as u8);
    let m = codeword.subrange(0, 77);
    let n = bad.subrange(0, 77);
    if p >= 77 {
        assert(n =~= m);
        assert(bad.subrange(77, 90)[p - 77] != codeword.subrange(77, 90)[p - 77]);
    } else {
        assert(bad.subrange(77, 90) =~= codeword.subrange(77, 90));
        let e = Seq::new(96, |i: int| if i == p { 1u8 } else { 0u8 });
        assert(codeword[p] <= 1);
        assert(0u8 ^ 1 == 1 && 1u8 ^ 1 == 0 && 0u8 ^ 0 == 0 && 1u8 ^ 0 == 1) by (bit_vector);
        assert forall|i: int| 0 <= i < 96 implies #[trigger] padded(m)[i] <= 1 by {
            if i < 77 {
                assert(codeword[i] <= 1);
            }
        }
        assert(padded(n) =~= xor_bits(padded(m), e)) by {
            assert forall|i: int| 0 <= i < 96 implies #[trigger] padded(n)[i] == padded(m)[i] ^ e[i] by {
                assert(padded(m)[i] <= 1);
            }
        }
        law_remainder_linear(padded(m), e);
        lemma_unit_remainder(e, p);
        let r = remainder(padded(m));
        let u = remainder(e);
        lemma_remainder_bound(padded(m));
        assert forall|i: int| 0 <= i < 96 implies #[trigger] padded(n)[i] <= 1 by {
            if i < 77 && i != p {
                assert(codeword[i] <= 1);
            }
        }
        lemma_remainder_bound(padded(n));
        assert(r ^ u != r) by (bit_vector)
            requires
                u != 0,
        ;
        if crc_bits(n) =~= crc_bits(m) {
            assert forall|i: int| 0 <= i < 13 implies #[trigger] crc_bit(crc13(n), i) == crc_bit(crc13(m), i) by {
                assert(crc_bits(n)[i] == crc_bits(m)[i]);
            }
            lemma_thirteen_bits(crc13(n), crc13(m));
        }
    }
}

proof fn lemma_pack_bit(byte: u8, k: u8, j: u8)
    requires
        k < 8,
        j < 8,
    ensures
        bit_in_byte(byte | (1u8 << ((7 - k) as u8)), j as int) == (if j == k {
            1u8
        } else {
            bit_in_byte(byte, j as int)
        }),
        bit_in_byte(0, j as int) == 0,
{
    let s = (7 - k) as u8;
    let t = (7 - j) as u8;
    assert(((byte | (1u8 << s)) >> t) & 1 == (if s == t { 1u8 } else { (byte >> t) & 1 })) by (bit_vector)
        requires
            s < 8,
            t < 8,
    ;
    assert((0u8 >> t) & 1 == 0) by (bit_vector);
}

/// Packs bits into twelve bytes, most significant bit first; what is not
/// covered stays zero.
fn pack_bits(bits: &[u8]) -> (bytes: [u8; 12])
    requires
        bits@.len() <= 96,
        is_bits(bits@),
    ensures
        bits_of(bytes@) == padded(bits@),
{
    let mut bytes = [0u8; 12];
    let mut i: usize = 0;
    proof {
        assert forall|j: int| 0 <= j < 96 implies bit_in_byte(#[trigger] bytes@[j / 8], j % 8) == 0 by {
            lemma_pack_bit(0, 0, (j % 8) as u8);
        }
    }
    while i < bits.len()
        invariant
            i <= bits@.len() <= 96,
            is_bits(bits@),
            forall|j: int|
                0 <= j < 96 ==> bit_in_byte(#[trigger] bytes@[j / 8], j % 8) == (if j < i {
                    bits@[j]
                } else {
                    0
                }),
        decreases bits.len() - i,
    {
        let ghost before = bytes@;
        if bits[i] == 1 {
            let byte: u8 = bytes[i / 8];
            let k: u8 = (i % 8) as u8;
            bytes[i / 8] = byte | (1u8 << (7 - k));
            proof {
                assert forall|j: int| 0 <= j < 96 implies bit_in_byte(#[trigger] bytes@[j / 8], j % 8) == (if j < i + 1 {
                    bits@[j]
                } else {
                    0
                }) by {
                    assert(bit_in_byte(before[j / 8], j % 8) == (if j < i { bits@[j] } else { 0 }));
                    lemma_pack_bit(byte, k, (j % 8) as u8);
                    if j / 8 == i as int / 8 && j % 8 == k {
                        assert(j == i);
                    }
                }
            }
        } else {
            assert(bits@[i as int] <= 1);
        }
        i = i + 1;
    }
    assert(bits_of(bytes@) =~= padded(bits@)) by {
        assert forall|j: int| 0 <= j < 96 implies #[trigger] bits_of(bytes@)[j] == padded(bits@)[j] by {
            assert(bit_in_byte(bytes@[j / 8], j % 8) == (if j < bits@.len() { bits@[j] } else { 0 }));
        }
    }
    bytes
}

/// Divides the byte stream, read as a polynomial most significant bit first, by
/// `x^13 + POLY` and returns the 13-bit remainder.
///
/// The input is not shifted first: whoever calls this has already put the zero
/// bits, or the CRC bits, at the end of the data.
pub fn boost_augmented_crc13(data: &[u8]) -> (reg: u16)
    ensures
        reg == remainder(bits_of(data@)),
{
    let mut reg: u16 = 0;
    let mut n: usize = 0;
    assert(bits_of(data@).subrange(0, 0) =~= Seq::<u8>::empty());
    proof {
        lemma_bits_of_bytes(data@);
    }
    while n < data.len()
        invariant
            n <= data@.len(),
            is_bits(bits_of(data@)),
            reg == remainder(bits_of(data@).subrange(0, 8 * n)),
            reg < 0x2000,
        decreases data.len() - n,
    {
        let byte: u8 = data[n];
        let mut k: u8 = 0;
        while k < 8
            invariant
                n < data@.len(),
                k <= 8,
                byte == data@[n as int],
                is_bits(bits_of(data@)),
                reg == remainder(bits_of(data@).subrange(0, 8 * n + k)),
                reg < 0x2000,
            decreases 8 - k,
        {
            let bit: u8 = (byte >> (7 - k)) & 1;
            proof {
                let all = bits_of(data@);
                let here = 8 * n + k;
                assert(all[here] == bit) by {
                    assert(here / 8 == n && here % 8 == k);
                }
                assert(all[here] <= 1);
                assert(all.subrange(0, here + 1).drop_last() =~= all.subrange(0, here));
                assert(all.subrange(0, here + 1).last() == bit);
                lemma_step_bound(reg, bit);
            }
            reg = (reg << 1) | (bit as u16);
            if reg & 0x2000 != 0 {
                reg = reg ^ (0x2000 | POLY);
            }
            k = k + 1;
        }
        assert(8 * n + 8 == 8 * (n + 1));
        n = n + 1;
    }
    proof {
        assert(bits_of(data@).subrange(0, 8 * n) =~= bits_of(data@));
        lemma_remainder_bound(bits_of(data@));
    }
    reg & 0x1FFF
}

proof fn lemma_bits_of_bytes(data: Seq<u8>)
    ensures
        is_bits(bits_of(data)),
{
    assert forall|i: int| 0 <= i < 8 * data.len() implies #[trigger] bits_of(data)[i] <= 1 by {
        let b = data[i / 8];
        let s = (7 - i % 8) as u8;
        assert((b >> s) & 1 <= 1) by (bit_vector);
    }
}

/// Bit `i` of a 13-bit CRC value, most significant bit first.
pub open spec fn crc_bit(crc: u16, i: int) -> u8 {
    ((crc >> ((12 - i) as u16)) & 1) as u8
}

/// The number that bits write, the most significant bit first.
pub open spec fn number(bits: Seq<u8>) -> nat
    decreases bits.len(),
{
    if bits.len() == 0 {
        0
    } else {
        2 * number(bits.drop_last()) + bits.last() as nat
    }
}

/// Ninety bits whose last thirteen are the CRC of the first seventy-seven.
pub open spec fn crc_holds(codeword: Seq<u8>) -> bool {
    codeword.subrange(77, 90) == crc_bits(codeword.subrange(0, 77))
}

/// Behind every message exactly one sequence of thirteen bits is accepted: its CRC.
pub proof fn law_one_suffix_accepted(message: Seq<u8>, suffix: Seq<u8>)
    requires
        message.len() == 77,
        suffix.len() == 13,
    ensures
        crc_holds(message + suffix) <==> suffix == crc_bits(message),
{
    assert((message + suffix).subrange(0, 77) =~= message);
    assert((message + suffix).subrange(77, 90) =~= suffix);
}

/// The CRC of a 77-bit message, in the low thirteen bits.
pub fn crc13_compute(message_bits: &[u8]) -> (crc: u16)
    requires
        message_bits@.len() == 77,
        is_bits(message_bits@),
    ensures
        crc == crc13(message_bits@),
        crc < 0x2000,
{
    let bytes = pack_bits(message_bits);
    proof {
        lemma_padded_bits(message_bits@);
        lemma_remainder_bound(padded(message_bits@));
    }
    boost_augmented_crc13(&bytes)
}

pub proof fn lemma_padded_bits(m: Seq<u8>)
    requires
        is_bits(m),
    ensures
        is_bits(padded(m)),
{
    assert forall|i: int| 0 <= i < 96 implies #[trigger] padded(m)[i] <= 1 by {
        if i < m.len() {
            assert(m[i] <= 1);
        }
    }
}

/// Whether the last thirteen of ninety bits are the CRC of the first
/// seventy-seven.
pub fn crc13_check(bits: &[u8]) -> (ok: bool)
    requires
        bits@.len() == 90,
        is_bits(bits@),
    ensures
        ok == crc_holds(bits@),
        ok == (number(bits@.subrange(77, 90)) == crc13(bits@.subrange(0, 77))),
{
    let mut received: u16 = 0;
    let mut i: usize = 77;
    assert(bits@.subrange(77, 77) =~= Seq::<u8>::empty());
    assert(1u16 << 0u16 == 1 && 1u16 << 13u16 == 0x2000) by (bit_vector);
    while i < 90
        invariant
            77 <= i <= 90,
            bits@.len() == 90,
            is_bits(bits@),
            received < (1u16 << ((i - 77) as u16)),
            received == number(bits@.subrange(77, i as int)),
            forall|k: int|
                77 <= k < i ==> (received >> ((i - 1 - k) as u16)) & 1 == (#[trigger] bits@[k]) as u16,
        decreases 90 - i,
    {
        let bit: u16 = bits[i] as u16;
        let ghost before = received;
        received = (received << 1) | bit;
        proof {
            assert(bits@[i as int] <= 1);
            let w = (i - 77) as u16;
            assert(((before << 1) | bit) < (1u16 << ((w + 1) as u16))) by (bit_vector)
                requires
                    before < (1u16 << w),
                    bit <= 1,
                    w < 13,
            ;
            assert(((before << 1) | bit) == 2 * before + bit) by (bit_vector)
                requires
                    before < (1u16 << w),
                    bit <= 1,
                    w < 13,
            ;
            let more = bits@.subrange(77, i + 1);
            assert(more.drop_last() =~= bits@.subrange(77, i as int));
            assert(more.last() == bits@[i as int]);
            assert forall|k: int| 77 <= k < i + 1 implies (received >> ((i - k) as u16)) & 1 == (
            #[trigger] bits@[k]) as u16 by {
                if k == i {
                    assert((((before << 1) | bit) >> 0u16) & 1 == bit) by (bit_vector)
                        requires
                            bit <= 1,
                    ;
                } else {
                    let s = (i - 1 - k) as u16;
                    assert((((before << 1) | bit) >> ((s + 1) as u16)) & 1 == (before >> s) & 1) by (bit_vector)
                        requires
                            bit <= 1,
                            s < 13,
                    ;
                }
            }
        }
        i = i + 1;
    }
    let message = vstd::slice::slice_subrange(bits, 0, 77);
    assert(is_bits(message@)) by {
        assert forall|k: int| 0 <= k < 77 implies #[trigger] message@[k] <= 1 by {
            assert(bits@[k] <= 1);
        }
    }
    let computed: u16 = crc13_compute(message);
    proof {
        let got = bits@.subrange(77, 90);
        let want = crc_bits(bits@.subrange(0, 77));
        assert forall|k: int| 0 <= k < 13 implies #[trigger] got[k] == crc_bit(received, k) by {
            assert((received >> ((12 - k) as u16)) & 1 == bits@[77 + k] as u16);
            assert(bits@[77 + k] <= 1);
        }
        if received == computed {
            assert(got =~= want);
        }
        if got == want {
            assert forall|k: int| 0 <= k < 13 implies #[trigger] crc_bit(received, k) == crc_bit(computed, k) by {
                assert(got[k] == want[k]);
            }
            lemma_thirteen_bits(received, computed);
        }
    }
    received == computed
}

/// The division goes on bit by bit: the remainder so far is doubled, the next bit
/// comes in, and where that has fourteen bits the divisor 0x35D7 is taken away without
/// carry.
pub proof fn law_division_bit_by_bit(bits: Seq<u8>, b: u8)
    requires
        is_bits(bits),
        b <= 1,
    ensures
        remainder(Seq::<u8>::empty()) == 0,
        2 * remainder(bits) + b < 0x2000 ==> remainder(bits.push(b)) == 2 * remainder(bits) + b,
        2 * remainder(bits) + b >= 0x2000 ==> remainder(bits.push(b)) == ((2 * remainder(bits) + b) as u16) ^ 0x35D7u16,
{
    assert(bits.push(b).drop_last() =~= bits);
    lemma_remainder_bound(bits);
    let r = remainder(bits);
    let x = b as u16;
    assert(r < 0x2000 && x <= 1 ==> ((r << 1) | x) == 2 * r + x && (((r << 1) | x) & 0x2000 != 0 <==> 2 * r + x >= 0x2000)
        && (0x2000u16 | 0x15D7u16) == 0x35D7u16) by (bit_vector);
}

/// The CRC is the remainder of the message with nineteen zeros behind it.
pub proof fn law_crc_is_remainder(message: Seq<u8>)
    requires
        message.len() == 77,
    ensures
        crc13(message) == remainder(message + Seq::new(19, |i: int| 0u8)),
{
    assert(padded(message) =~= message + Seq::new(19, |i: int| 0u8));
}

/// Bytes are read bit by bit, the highest bit of each first: eight bits in a row are
/// the number that the byte is.
pub proof fn law_bits_of_bytes(data: Seq<u8>, i: int)
    requires
        0 <= i < data.len(),
    ensures
        bits_of(data).len() == 8 * data.len(),
        number(bits_of(data).subrange(8 * i, 8 * i + 8)) == data[i],
{
    let b = data[i];
    let s = bits_of(data).subrange(8 * i, 8 * i + 8);
    assert forall|k: int| 0 <= k < 8 implies #[trigger] s[k] == bit_in_byte(b, k) by {
        vstd::arithmetic::div_mod::lemma_fundamental_div_mod_converse(8 * i + k, 8, i, k);
    }
    let e = seq![
        bit_in_byte(b, 0),
        bit_in_byte(b, 1),
        bit_in_byte(b, 2),
        bit_in_byte(b, 3),
        bit_in_byte(b, 4),
        bit_in_byte(b, 5),
        bit_in_byte(b, 6),
        bit_in_byte(b, 7),
    ];
    assert(s =~= e);
    lemma_number_of_eight(e);
    assert(b == 128 * ((b >> 7) & 1) + 64 * ((b >> 6) & 1) + 32 * ((b >> 5) & 1) + 16 * ((b >> 4) & 1) + 8 * ((b >> 3)
        & 1) + 4 * ((b >> 2) & 1) + 2 * ((b >> 1) & 1) + ((b >> 0) & 1)) by (bit_vector);
}

proof fn lemma_number_of_eight(e: Seq<u8>)
    requires
        e.len() == 8,
    ensures
        number(e) == 128 * e[0] + 64 * e[1] + 32 * e[2] + 16 * e[3] + 8 * e[4] + 4 * e[5] + 2 * e[6] + e[7],
{
    reveal_with_fuel(number, 9);
}

} // verus!
