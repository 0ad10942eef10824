//! Numbers as big-endian bytes.
use vstd::prelude::*;

verus! {

/// A number as two bytes, the high one first.
pub open spec fn be16(v: nat) -> Seq<u8> {
    seq![(v / 256 % 256) as u8, (v % 256) as u8]
}

/// A number as four bytes, the highest one first.
pub open spec fn be32(v: nat) -> Seq<u8> {
    be16(v / 65536) + be16(v % 65536)
}

/// A number as eight bytes, the highest one first.
pub open spec fn be64(v: nat) -> Seq<u8> {
    be32(v / 0x1_0000_0000) + be32(v % 0x1_0000_0000)
}

/// A number as five bytes, the highest one first; what does not fit is dropped.
pub open spec fn be40(v: nat) -> Seq<u8> {
    seq![(v / 0x1_0000_0000 % 256) as u8] + be32(v % 0x1_0000_0000)
}

/// The number that bytes write, the highest one first.
pub open spec fn number_be(b: Seq<u8>) -> nat
    decreases b.len(),
{
    if b.len() == 0 {
        0
    } else {
        256 * number_be(b.drop_last()) + b.last() as nat
    }
}

proof fn lemma_number_two(x: u8, y: u8)
    ensures
        number_be(seq![x, y]) == 256 * x + y,
{
    let s = seq![x, y];
    assert(s.drop_last() =~= seq![x]);
    assert(seq![x].drop_last() =~= Seq::<u8>::empty());
    assert(number_be(Seq::<u8>::empty()) == 0);
    assert(number_be(seq![x]) == x);
}

/// Two bytes more shift a number by two bytes.
proof fn lemma_number_more(a: Seq<u8>, x: u8, y: u8)
    ensures
        number_be(a + seq![x, y]) == 65536 * number_be(a) + 256 * x + y,
{
    let s = a + seq![x, y];
    let t = a.push(x);
    assert(s.drop_last() =~= t);
    assert(t.drop_last() =~= a);
    assert(s.last() == y && t.last() == x);
    assert(number_be(t) == 256 * number_be(a) + x);
    assert(number_be(s) == 256 * number_be(t) + y);
}

/// The bytes that a number is written as give the number back, as far as they reach.
pub proof fn law_bytes_read_back(v: nat)
    ensures
        be16(v).len() == 2,
        be32(v).len() == 4,
        be40(v).len() == 5,
        be64(v).len() == 8,
        number_be(be16(v)) == v % 0x1_0000,
        number_be(be32(v)) == v % 0x1_0000_0000,
        number_be(be40(v)) == v % 0x100_0000_0000,
        number_be(be64(v)) == v % 0x1_0000_0000_0000_0000,
{
    lemma_read16(v);
    lemma_read32(v);
    lemma_read40(v);
    lemma_read64(v);
}

/// A number below 2^16 is read back from its two bytes.
pub proof fn law_be16_read_back(v: nat)
    requires
        v < 0x1_0000,
    ensures
        be16(v).len() == 2,
        number_be(be16(v)) == v,
{
    lemma_read16(v);
}

/// A number below 2^32 is read back from its four bytes.
pub proof fn law_be32_read_back(v: nat)
    requires
        v < 0x1_0000_0000,
    ensures
        be32(v).len() == 4,
        number_be(be32(v)) == v,
{
    lemma_read32(v);
}

/// A number below 2^64 is read back from its eight bytes.
pub proof fn law_be64_read_back(v: nat)
    requires
        v < 0x1_0000_0000_0000_0000,
    ensures
        be64(v).len() == 8,
        number_be(be64(v)) == v,
{
    lemma_read64(v);
    vstd::arithmetic::div_mod::lemma_small_mod(v, 0x1_0000_0000_0000_0000);
}

proof fn lemma_read64(v: nat)
    ensures
        number_be(be64(v)) == v % 0x1_0000_0000_0000_0000,
{
    let (h, l) = (v / 0x1_0000_0000, v % 0x1_0000_0000);
    lemma_read32(h);
    lemma_concat32(be32(h), l);
}

proof fn lemma_read40(v: nat)
    ensures
        number_be(be40(v)) == v % 0x100_0000_0000,
{
    let (h, l) = (v / 0x1_0000_0000, v % 0x1_0000_0000);
    let top = seq![(h % 256) as u8];
    assert(top.drop_last() =~= Seq::<u8>::empty());
    assert(number_be(Seq::<u8>::empty()) == 0);
    assert(number_be(top) == h % 256);
    lemma_concat32(top, l);
}

proof fn lemma_read16(v: nat)
    ensures
        number_be(be16(v)) == v % 0x1_0000,
{
    lemma_number_two((v / 256 % 256) as u8, (v % 256) as u8);
}

proof fn lemma_concat16(a: Seq<u8>, v: nat)
    requires
        v < 0x1_0000,
    ensures
        number_be(a + be16(v)) == 0x1_0000 * number_be(a) + v,
{
    lemma_number_more(a, (v / 256 % 256) as u8, (v % 256) as u8);
}

proof fn lemma_read32(v: nat)
    ensures
        number_be(be32(v)) == v % 0x1_0000_0000,
{
    lemma_read16(v / 65536);
    lemma_concat16(be16(v / 65536), v % 65536);
}

proof fn lemma_concat32(a: Seq<u8>, v: nat)
    requires
        v < 0x1_0000_0000,
    ensures
        number_be(a + be32(v)) == 0x1_0000_0000 * number_be(a) + v,
{
    let (h, l) = (v / 65536, v % 65536);
    lemma_concat16(a, h);
    lemma_concat16(a + be16(h), l);
    assert(a + be32(v) =~= (a + be16(h)) + be16(l));
}

/// Appends bytes.
pub fn push_all(buf: &mut Vec<u8>, bytes: &[u8])
    ensures
        final(buf)@ == old(buf)@ + bytes@,
{
    let mut i: usize = 0;
    assert(bytes@.subrange(0, 0) =~= Seq::<u8>::empty());
    assert(buf@ =~= old(buf)@ + bytes@.subrange(0, 0));
    while i < bytes.len()
        invariant
            i <= bytes@.len(),
            buf@ == old(buf)@ + bytes@.subrange(0, i as int),
        decreases bytes.len() - i,
    {
        buf.push(bytes[i]);
        assert(bytes@.subrange(0, i + 1) =~= bytes@.subrange(0, i as int).push(bytes@[i as int]));
        assert(buf@ =~= old(buf)@ + bytes@.subrange(0, i + 1));
        i = i + 1;
    }
    assert(bytes@.subrange(0, i as int) =~= bytes@);
}

/// Appends a number as two bytes.
pub fn write_u16(buf: &mut Vec<u8>, v: u16)
    ensures
        final(buf)@ == old(buf)@ + be16(v as nat),
{
    buf.push((v / 256) as u8);
    buf.push((v % 256) as u8);
    assert(buf@ =~= old(buf)@ + be16(v as nat));
}

/// Appends a number as four bytes.
pub fn write_u32(buf: &mut Vec<u8>, v: u32)
    ensures
        final(buf)@ == old(buf)@ + be32(v as nat),
{
    write_u16(buf, (v / 65536) as u16);
    write_u16(buf, (v % 65536) as u16);
    assert(buf@ =~= old(buf)@ + be32(v as nat));
}

/// Appends a number as eight bytes.
pub fn write_u64(buf: &mut Vec<u8>, v: u64)
    ensures
        final(buf)@ == old(buf)@ + be64(v as nat),
{
    write_u32(buf, (v / 0x1_0000_0000) as u32);
    write_u32(buf, (v % 0x1_0000_0000) as u32);
    assert(buf@ =~= old(buf)@ + be64(v as nat));
}

/// Appends the low five bytes of a number.
pub fn write_u40(buf: &mut Vec<u8>, v: u64)
    ensures
        final(buf)@ == old(buf)@ + be40(v as nat),
{
    buf.push((v / 0x1_0000_0000 % 256) as u8);
    write_u32(buf, (v % 0x1_0000_0000) as u32);
    assert(buf@ =~= old(buf)@ + be40(v as nat));
}

} // verus!
