//! What the decoders accept is what the encoders make.
use vstd::prelude::*;

use crate::fec::crc::{is_bits, with_crc, xor_bits};
use crate::fec::encode::{
    check_satisfied, check_sum, codeword, law_codeword_satisfies_checks, lemma_with_crc_bits,
};
use crate::fec::ldpc::{contradictions, unsatisfied, Progress};
use crate::fec::parity::{lemma_table_bounds, LDPC_NM, LDPC_NRW};
use crate::fec::short::{
    in_order, law_colorder_is_permutation, law_short_codeword_decodes, lemma_short_tables, short_accepted,
    short_satisfied, short_sum, unordered, BIT_AT, COLORDER, NM_TABLE, NRW,
};

verus! {

proof fn lemma_checks_hold(word: Seq<u8>, n: nat, j: int)
    requires
        unsatisfied(word, n) == 0,
        0 <= j < n,
    ensures
        check_satisfied(word, j),
    decreases n,
{
    if j < n - 1 {
        lemma_checks_hold(word, (n - 1) as nat, j);
    }
}

/// The sum of two words passes a check where both do.
proof fn lemma_sum_of_words(a: Seq<u8>, b: Seq<u8>, j: int, n: nat)
    requires
        a.len() == 128,
        b.len() == 128,
        is_bits(a),
        is_bits(b),
        0 <= j < 38,
        n <= LDPC_NRW@[j],
    ensures
        check_sum(xor_bits(a, b), j, n) % 2 == (check_sum(a, j, n) + check_sum(b, j, n)) % 2,
    decreases n,
{
    if n > 0 {
        lemma_sum_of_words(a, b, j, (n - 1) as nat);
        lemma_table_bounds();
        let i = LDPC_NM@[j]@[n - 1] as int;
        assert(LDPC_NM@[j]@[n - 1] < 128);
        let x = a[i];
        let y = b[i];
        assert(x <= 1 && y <= 1);
        lemma_xor(x, y);
    }
}

proof fn lemma_xor(x: u8, y: u8)
    by (bit_vector)
    requires
        x <= 1,
        y <= 1,
    ensures
        x ^ y <= 1,
        x == y <==> x ^ y == 0,
        x ^ y == 0 || x ^ y == 1,
        x == y || x ^ y == 1,
{
}

/// What checks 0 to 9 say of a word without information bits.
proof fn lemma_parity_relations_0(d: Seq<u8>)
    requires
        d.len() == 128,
        is_bits(d),
        forall|i: int| 0 <= i < 90 ==> #[trigger] d[i] == 0,
        forall|j: int| 0 <= j < 38 ==> #[trigger] check_satisfied(d, j),
    ensures
        ((d[90] == 1) != (d[93] == 1)) == (d[114] == 1),
        ((d[91] == 1) != (d[93] == 1)) == (d[119] == 1),
        ((d[92] == 1) != (d[105] == 1)) == (d[117] == 1),
        ((d[91] == 1) != (d[101] == 1)) == (d[118] == 1),
        ((d[94] == 1) != (d[107] == 1)) == (d[124] == 1),
        ((d[95] == 1) != (d[115] == 1)) == (d[120] == 1),
        ((d[96] == 1) != (d[106] == 1)) == (d[120] == 1),
        ((d[97] == 1) != (d[106] == 1)) == (d[127] == 1),
        ((d[98] == 1) != (d[106] == 1)) == (d[122] == 1),
        ((d[99] == 1) != (d[110] == 1)) == (d[127] == 1),
{
    assert(((d[90] == 1) != (d[93] == 1)) == (d[114] == 1)) by {
        reveal_with_fuel(check_sum, 12);
        assert(check_satisfied(d, 0));
    }
    assert(((d[91] == 1) != (d[93] == 1)) == (d[119] == 1)) by {
        reveal_with_fuel(check_sum, 12);
        assert(check_satisfied(d, 1));
    }
    assert(((d[92] == 1) != (d[105] == 1)) == (d[117] == 1)) by {
        reveal_with_fuel(check_sum, 12);
        assert(check_satisfied(d, 2));
    }
    assert(((d[91] == 1) != (d[101] == 1)) == (d[118] == 1)) by {
        reveal_with_fuel(check_sum, 12);
        assert(check_satisfied(d, 3));
    }
    assert(((d[94] == 1) != (d[107] == 1)) == (d[124] == 1)) by {
        reveal_with_fuel(check_sum, 12);
        assert(check_satisfied(d, 4));
    }
    assert(((d[95] == 1) != (d[115] == 1)) == (d[120] == 1)) by {
        reveal_with_fuel(check_sum, 12);
        assert(check_satisfied(d, 5));
    }
    assert(((d[96] == 1) != (d[106] == 1)) == (d[120] == 1)) by {
        reveal_with_fuel(check_sum, 12);
        assert(check_satisfied(d, 6));
    }
    assert(((d[97] == 1) != (d[106] == 1)) == (d[127] == 1)) by {
        reveal_with_fuel(check_sum, 12);
        assert(check_satisfied(d, 7));
    }
    assert(((d[98] == 1) != (d[106] == 1)) == (d[122] == 1)) by {
        reveal_with_fuel(check_sum, 12);
        assert(check_satisfied(d, 8));
    }
    assert(((d[99] == 1) != (d[110] == 1)) == (d[127] == 1)) by {
        reveal_with_fuel(check_sum, 12);
        assert(check_satisfied(d, 9));
    }
}

/// What checks 10 to 19 say of a word without information bits.
proof fn lemma_parity_relations_1(d: Seq<u8>)
    requires
        d.len() == 128,
        is_bits(d),
        forall|i: int| 0 <= i < 90 ==> #[trigger] d[i] == 0,
        forall|j: int| 0 <= j < 38 ==> #[trigger] check_satisfied(d, j),
    ensures
        ((d[100] == 1) != (d[102] == 1)) == (d[125] == 1),
        ((d[90] == 1) != (d[109] == 1)) == (d[120] == 1),
        ((d[100] == 1) != (d[108] == 1)) == (d[119] == 1),
        ((d[101] == 1) != (d[103] == 1)) == (d[125] == 1),
        ((d[104] == 1) != (d[108] == 1)) == (d[121] == 1),
        ((d[92] == 1) != (d[109] == 1)) == (d[124] == 1),
        ((d[96] == 1) != (d[108] == 1)) == (d[112] == 1),
        ((d[98] == 1) != (d[107] == 1)) == (d[114] == 1),
        ((d[104] == 1) != (d[111] == 1)) == (d[114] == 1),
        ((d[98] == 1) != (d[101] == 1)) == (d[117] == 1),
{
    assert(((d[100] == 1) != (d[102] == 1)) == (d[125] == 1)) by {
        reveal_with_fuel(check_sum, 12);
        assert(check_satisfied(d, 10));
    }
    assert(((d[90] == 1) != (d[109] == 1)) == (d[120] == 1)) by {
        reveal_with_fuel(check_sum, 12);
        assert(check_satisfied(d, 11));
    }
    assert(((d[100] == 1) != (d[108] == 1)) == (d[119] == 1)) by {
        reveal_with_fuel(check_sum, 12);
        assert(check_satisfied(d, 12));
    }
    assert(((d[101] == 1) != (d[103] == 1)) == (d[125] == 1)) by {
        reveal_with_fuel(check_sum, 12);
        assert(check_satisfied(d, 13));
    }
    assert(((d[104] == 1) != (d[108] == 1)) == (d[121] == 1)) by {
        reveal_with_fuel(check_sum, 12);
        assert(check_satisfied(d, 14));
    }
    assert(((d[92] == 1) != (d[109] == 1)) == (d[124] == 1)) by {
        reveal_with_fuel(check_sum, 12);
        assert(check_satisfied(d, 15));
    }
    assert(((d[96] == 1) != (d[108] == 1)) == (d[112] == 1)) by {
        reveal_with_fuel(check_sum, 12);
        assert(check_satisfied(d, 16));
    }
    assert(((d[98] == 1) != (d[107] == 1)) == (d[114] == 1)) by {
        reveal_with_fuel(check_sum, 12);
        assert(check_satisfied(d, 17));
    }
    assert(((d[104] == 1) != (d[111] == 1)) == (d[114] == 1)) by {
        reveal_with_fuel(check_sum, 12);
        assert(check_satisfied(d, 18));
    }
    assert(((d[98] == 1) != (d[101] == 1)) == (d[117] == 1)) by {
        reveal_with_fuel(check_sum, 12);
        assert(check_satisfied(d, 19));
    }
}

/// What checks 20 to 28 say of a word without information bits.
proof fn lemma_parity_relations_2(d: Seq<u8>)
    requires
        d.len() == 128,
        is_bits(d),
        forall|i: int| 0 <= i < 90 ==> #[trigger] d[i] == 0,
        forall|j: int| 0 <= j < 38 ==> #[trigger] check_satisfied(d, j),
    ensures
        ((d[99] == 1) != (d[111] == 1)) == (d[118] == 1),
        ((d[97] == 1) != (d[116] == 1)) == (d[117] == 1),
        ((d[94] == 1) != (d[110] == 1)) == (d[123] == 1),
        ((d[93] == 1) != (d[113] == 1)) == (d[121] == 1),
        ((d[110] == 1) != (d[113] == 1)) == (d[122] == 1),
        ((d[104] == 1) != (d[115] == 1)) == (d[124] == 1),
        ((d[94] == 1) != (d[112] == 1)) == (d[118] == 1),
        ((d[95] == 1) != (d[105] == 1)) == (d[125] == 1),
        ((d[99] == 1) != (d[105] == 1)) == (d[119] == 1),
{
    assert(((d[99] == 1) != (d[111] == 1)) == (d[118] == 1)) by {
        reveal_with_fuel(check_sum, 12);
        assert(check_satisfied(d, 20));
    }
    assert(((d[97] == 1) != (d[116] == 1)) == (d[117] == 1)) by {
        reveal_with_fuel(check_sum, 12);
        assert(check_satisfied(d, 21));
    }
    assert(((d[94] == 1) != (d[110] == 1)) == (d[123] == 1)) by {
        reveal_with_fuel(check_sum, 12);
        assert(check_satisfied(d, 22));
    }
    assert(((d[93] == 1) != (d[113] == 1)) == (d[121] == 1)) by {
        reveal_with_fuel(check_sum, 12);
        assert(check_satisfied(d, 23));
    }
    assert(((d[110] == 1) != (d[113] == 1)) == (d[122] == 1)) by {
        reveal_with_fuel(check_sum, 12);
        assert(check_satisfied(d, 24));
    }
    assert(((d[104] == 1) != (d[115] == 1)) == (d[124] == 1)) by {
        reveal_with_fuel(check_sum, 12);
        assert(check_satisfied(d, 25));
    }
    assert(((d[94] == 1) != (d[112] == 1)) == (d[118] == 1)) by {
        reveal_with_fuel(check_sum, 12);
        assert(check_satisfied(d, 26));
    }
    assert(((d[95] == 1) != (d[105] == 1)) == (d[125] == 1)) by {
        reveal_with_fuel(check_sum, 12);
        assert(check_satisfied(d, 27));
    }
    assert(((d[99] == 1) != (d[105] == 1)) == (d[119] == 1)) by {
        reveal_with_fuel(check_sum, 12);
        assert(check_satisfied(d, 28));
    }
}

/// What checks 29 to 37 say of a word without information bits.
proof fn lemma_parity_relations_3(d: Seq<u8>)
    requires
        d.len() == 128,
        is_bits(d),
        forall|i: int| 0 <= i < 90 ==> #[trigger] d[i] == 0,
        forall|j: int| 0 <= j < 38 ==> #[trigger] check_satisfied(d, j),
    ensures
        ((d[92] == 1) != (d[102] == 1)) == (d[122] == 1),
        ((d[90] == 1) != (d[112] == 1)) == (d[116] == 1),
        ((d[95] == 1) != (d[116] == 1)) == (d[121] == 1),
        ((d[91] == 1) != (d[115] == 1)) == (d[126] == 1),
        (d[100] == 1) == (d[107] == 1),
        ((d[103] == 1) != (d[109] == 1)) == (d[127] == 1),
        ((d[96] == 1) != (d[113] == 1)) == (d[126] == 1),
        ((d[103] == 1) != (d[111] == 1)) == (d[123] == 1),
        (((d[97] == 1) != (d[102] == 1)) != (d[123] == 1)) == (d[126] == 1),
{
    assert(((d[92] == 1) != (d[102] == 1)) == (d[122] == 1)) by {
        reveal_with_fuel(check_sum, 12);
        assert(check_satisfied(d, 29));
    }
    assert(((d[90] == 1) != (d[112] == 1)) == (d[116] == 1)) by {
        reveal_with_fuel(check_sum, 12);
        assert(check_satisfied(d, 30));
    }
    assert(((d[95] == 1) != (d[116] == 1)) == (d[121] == 1)) by {
        reveal_with_fuel(check_sum, 12);
        assert(check_satisfied(d, 31));
    }
    assert(((d[91] == 1) != (d[115] == 1)) == (d[126] == 1)) by {
        reveal_with_fuel(check_sum, 12);
        assert(check_satisfied(d, 32));
    }
    assert((d[100] == 1) == (d[107] == 1)) by {
        reveal_with_fuel(check_sum, 12);
        assert(check_satisfied(d, 33));
    }
    assert(((d[103] == 1) != (d[109] == 1)) == (d[127] == 1)) by {
        reveal_with_fuel(check_sum, 12);
        assert(check_satisfied(d, 34));
    }
    assert(((d[96] == 1) != (d[113] == 1)) == (d[126] == 1)) by {
        reveal_with_fuel(check_sum, 12);
        assert(check_satisfied(d, 35));
    }
    assert(((d[103] == 1) != (d[111] == 1)) == (d[123] == 1)) by {
        reveal_with_fuel(check_sum, 12);
        assert(check_satisfied(d, 36));
    }
    assert((((d[97] == 1) != (d[102] == 1)) != (d[123] == 1)) == (d[126] == 1)) by {
        reveal_with_fuel(check_sum, 12);
        assert(check_satisfied(d, 37));
    }
}

/// The parity bits are determined by the information bits: without any of these
/// there are none of those.
proof fn lemma_no_parity_alone(d: Seq<u8>)
    requires
        ((d[90] == 1) != (d[93] == 1)) == (d[114] == 1),
        ((d[91] == 1) != (d[93] == 1)) == (d[119] == 1),
        ((d[92] == 1) != (d[105] == 1)) == (d[117] == 1),
        ((d[91] == 1) != (d[101] == 1)) == (d[118] == 1),
        ((d[94] == 1) != (d[107] == 1)) == (d[124] == 1),
        ((d[95] == 1) != (d[115] == 1)) == (d[120] == 1),
        ((d[96] == 1) != (d[106] == 1)) == (d[120] == 1),
        ((d[97] == 1) != (d[106] == 1)) == (d[127] == 1),
        ((d[98] == 1) != (d[106] == 1)) == (d[122] == 1),
        ((d[99] == 1) != (d[110] == 1)) == (d[127] == 1),
        ((d[100] == 1) != (d[102] == 1)) == (d[125] == 1),
        ((d[90] == 1) != (d[109] == 1)) == (d[120] == 1),
        ((d[100] == 1) != (d[108] == 1)) == (d[119] == 1),
        ((d[101] == 1) != (d[103] == 1)) == (d[125] == 1),
        ((d[104] == 1) != (d[108] == 1)) == (d[121] == 1),
        ((d[92] == 1) != (d[109] == 1)) == (d[124] == 1),
        ((d[96] == 1) != (d[108] == 1)) == (d[112] == 1),
        ((d[98] == 1) != (d[107] == 1)) == (d[114] == 1),
        ((d[104] == 1) != (d[111] == 1)) == (d[114] == 1),
        ((d[98] == 1) != (d[101] == 1)) == (d[117] == 1),
        ((d[99] == 1) != (d[111] == 1)) == (d[118] == 1),
        ((d[97] == 1) != (d[116] == 1)) == (d[117] == 1),
        ((d[94] == 1) != (d[110] == 1)) == (d[123] == 1),
        ((d[93] == 1) != (d[113] == 1)) == (d[121] == 1),
        ((d[110] == 1) != (d[113] == 1)) == (d[122] == 1),
        ((d[104] == 1) != (d[115] == 1)) == (d[124] == 1),
        ((d[94] == 1) != (d[112] == 1)) == (d[118] == 1),
        ((d[95] == 1) != (d[105] == 1)) == (d[125] == 1),
        ((d[99] == 1) != (d[105] == 1)) == (d[119] == 1),
        ((d[92] == 1) != (d[102] == 1)) == (d[122] == 1),
        ((d[90] == 1) != (d[112] == 1)) == (d[116] == 1),
        ((d[95] == 1) != (d[116] == 1)) == (d[121] == 1),
        ((d[91] == 1) != (d[115] == 1)) == (d[126] == 1),
        (d[100] == 1) == (d[107] == 1),
        ((d[103] == 1) != (d[109] == 1)) == (d[127] == 1),
        ((d[96] == 1) != (d[113] == 1)) == (d[126] == 1),
        ((d[103] == 1) != (d[111] == 1)) == (d[123] == 1),
        (((d[97] == 1) != (d[102] == 1)) != (d[123] == 1)) == (d[126] == 1),
    ensures
        d[90] != 1,
        d[91] != 1,
        d[92] != 1,
        d[93] != 1,
        d[94] != 1,
        d[95] != 1,
        d[96] != 1,
        d[97] != 1,
        d[98] != 1,
        d[99] != 1,
        d[100] != 1,
        d[101] != 1,
        d[102] != 1,
        d[103] != 1,
        d[104] != 1,
        d[105] != 1,
        d[106] != 1,
        d[107] != 1,
        d[108] != 1,
        d[109] != 1,
        d[110] != 1,
        d[111] != 1,
        d[112] != 1,
        d[113] != 1,
        d[114] != 1,
        d[115] != 1,
        d[116] != 1,
        d[117] != 1,
        d[118] != 1,
        d[119] != 1,
        d[120] != 1,
        d[121] != 1,
        d[122] != 1,
        d[123] != 1,
        d[124] != 1,
        d[125] != 1,
        d[126] != 1,
        d[127] != 1,
{
}

proof fn lemma_codeword_is_bits(message: Seq<u8>)
    requires
        is_bits(message),
        message.len() == 77,
    ensures
        codeword(message).len() == 128,
        is_bits(codeword(message)),
{
    lemma_with_crc_bits(message);
    assert forall|i: int| 0 <= i < 128 implies #[trigger] codeword(message)[i] <= 1 by {
        if i < 90 {
            assert(with_crc(message)[i] <= 1);
        }
    }
}

/// A word that is accepted is the codeword of its own first 77 bits: the decoder
/// accepts nothing that the encoder does not make.
pub proof fn law_accepted_is_codeword(word: Seq<u8>)
    requires
        word.len() == 128,
        is_bits(word),
        Progress::accepted(word),
    ensures
        word == codeword(word.subrange(0, 77)),
{
    let m = word.subrange(0, 77);
    assert(is_bits(m)) by {
        assert forall|i: int| 0 <= i < m.len() implies #[trigger] m[i] <= 1 by {
            assert(word[i] <= 1);
        }
    }
    let c = codeword(m);
    lemma_codeword_is_bits(m);
    lemma_with_crc_bits(m);
    let info = word.subrange(0, 90);
    assert(info.subrange(0, 77) =~= m);
    assert forall|i: int| 0 <= i < 90 implies #[trigger] word[i] == c[i] by {
        if i >= 77 {
            assert(info.subrange(77, 90)[i - 77] == word[i]);
        }
    }
    let d = xor_bits(word, c);
    assert forall|i: int| 0 <= i < 128 implies #[trigger] d[i] <= 1 && (d[i] == 0 <==> word[i] == c[i]) by {
        assert(word[i] <= 1 && c[i] <= 1);
        lemma_xor(word[i], c[i]);
    }
    assert forall|i: int| 0 <= i < 90 implies #[trigger] d[i] == 0 by {
        assert(word[i] == c[i]);
    }
    assert forall|j: int| 0 <= j < 38 implies #[trigger] check_satisfied(d, j) by {
        lemma_checks_hold(word, 38, j);
        law_codeword_satisfies_checks(m, j);
        lemma_sum_of_words(word, c, j, LDPC_NRW@[j] as nat);
    }
    lemma_parity_relations_0(d);
    lemma_parity_relations_1(d);
    lemma_parity_relations_2(d);
    lemma_parity_relations_3(d);
    lemma_no_parity_alone(d);
    assert forall|i: int| 0 <= i < 128 implies word[i] == c[i] by {
        assert(d[i] <= 1);
        if i >= 90 {
            lemma_parity_bit_is_zero(d, i);
        }
    }
    assert(word =~= c);
}

proof fn lemma_parity_bit_is_zero(d: Seq<u8>, i: int)
    requires
        90 <= i < 128,
        d[90] != 1,
        d[91] != 1,
        d[92] != 1,
        d[93] != 1,
        d[94] != 1,
        d[95] != 1,
        d[96] != 1,
        d[97] != 1,
        d[98] != 1,
        d[99] != 1,
        d[100] != 1,
        d[101] != 1,
        d[102] != 1,
        d[103] != 1,
        d[104] != 1,
        d[105] != 1,
        d[106] != 1,
        d[107] != 1,
        d[108] != 1,
        d[109] != 1,
        d[110] != 1,
        d[111] != 1,
        d[112] != 1,
        d[113] != 1,
        d[114] != 1,
        d[115] != 1,
        d[116] != 1,
        d[117] != 1,
        d[118] != 1,
        d[119] != 1,
        d[120] != 1,
        d[121] != 1,
        d[122] != 1,
        d[123] != 1,
        d[124] != 1,
        d[125] != 1,
        d[126] != 1,
        d[127] != 1,
    ensures
        d[i] != 1,
{
}

/// The number of errors of a decoded word counts where its message, encoded again,
/// contradicts what was received.
pub proof fn law_errors_count_against_message(word: Seq<u8>, signs: Seq<i8>)
    requires
        word.len() == 128,
        is_bits(word),
        Progress::accepted(word),
    ensures
        contradictions(word, signs, 128) == contradictions(codeword(word.subrange(0, 77)), signs, 128),
{
    law_accepted_is_codeword(word);
}

/// The bits of a short word in the order of its codeword: the inverse of putting it
/// into order.
pub open spec fn out_of_order(word: Seq<u8>) -> Seq<u8> {
    Seq::new(32, |k: int| word[COLORDER@[k] as int])
}

/// The short word of a message.
spec fn short_word(message: Seq<u8>) -> Seq<u8> {
    Seq::new(32, |p: int| unordered(message)[BIT_AT@[p] as int])
}

proof fn lemma_sum_of_short_words(a: Seq<u8>, b: Seq<u8>, j: int, n: nat)
    requires
        a.len() == 32,
        b.len() == 32,
        is_bits(a),
        is_bits(b),
        0 <= j < 16,
        n <= NRW@[j],
    ensures
        short_sum(xor_bits(a, b), j, n) % 2 == (short_sum(a, j, n) + short_sum(b, j, n)) % 2,
    decreases n,
{
    if n > 0 {
        lemma_sum_of_short_words(a, b, j, (n - 1) as nat);
        lemma_short_tables();
        assert(NRW@[j] <= 7);
        assert(NM_TABLE@[j]@[n - 1] < 32);
        let i = NM_TABLE@[j]@[n - 1] as int;
        assert(a[i] <= 1 && b[i] <= 1);
        lemma_xor(a[i], b[i]);
    }
}

/// What the checks say of a short word without message bits.
proof fn lemma_short_relations(d: Seq<u8>)
    requires
        d.len() == 32,
        is_bits(d),
        forall|p: int| 0 <= p < 32 && #[trigger] BIT_AT@[p] >= 16 ==> d[p] == 0,
        short_accepted(d),
    ensures
        forall|p: int| 0 <= p < 32 ==> #[trigger] d[p] == 0,
{
    assert(BIT_AT@[5] >= 16 && d[5] == 0);
    assert(BIT_AT@[7] >= 16 && d[7] == 0);
    assert(BIT_AT@[9] >= 16 && d[9] == 0);
    assert(BIT_AT@[11] >= 16 && d[11] == 0);
    assert(BIT_AT@[12] >= 16 && d[12] == 0);
    assert(BIT_AT@[14] >= 16 && d[14] == 0);
    assert(BIT_AT@[16] >= 16 && d[16] == 0);
    assert(BIT_AT@[18] >= 16 && d[18] == 0);
    assert(BIT_AT@[19] >= 16 && d[19] == 0);
    assert(BIT_AT@[21] >= 16 && d[21] == 0);
    assert(BIT_AT@[22] >= 16 && d[22] == 0);
    assert(BIT_AT@[24] >= 16 && d[24] == 0);
    assert(BIT_AT@[26] >= 16 && d[26] == 0);
    assert(BIT_AT@[29] >= 16 && d[29] == 0);
    assert(BIT_AT@[30] >= 16 && d[30] == 0);
    assert(BIT_AT@[31] >= 16 && d[31] == 0);
    assert((((d[0] == 1) != (d[6] == 1)) != (d[17] == 1)) == (d[20] == 1)) by {
        reveal_with_fuel(short_sum, 8);
        assert(short_satisfied(d, 0));
    }
    assert((((d[1] == 1) != (d[17] == 1)) != (d[23] == 1)) == (d[27] == 1)) by {
        reveal_with_fuel(short_sum, 8);
        assert(short_satisfied(d, 1));
    }
    assert((((d[1] == 1) != (d[8] == 1)) != (d[13] == 1)) == (d[28] == 1)) by {
        reveal_with_fuel(short_sum, 8);
        assert(short_satisfied(d, 2));
    }
    assert(d[2] != 1) by {
        reveal_with_fuel(short_sum, 8);
        assert(short_satisfied(d, 3));
    }
    assert(d[3] != 1) by {
        reveal_with_fuel(short_sum, 8);
        assert(short_satisfied(d, 4));
    }
    assert(d[0] != 1) by {
        reveal_with_fuel(short_sum, 8);
        assert(short_satisfied(d, 5));
    }
    assert(((((d[4] == 1) != (d[8] == 1)) != (d[15] == 1)) != (d[20] == 1)) == (d[25] == 1)) by {
        reveal_with_fuel(short_sum, 8);
        assert(short_satisfied(d, 6));
    }
    assert((((d[2] == 1) != (d[10] == 1)) != (d[17] == 1)) == (d[25] == 1)) by {
        reveal_with_fuel(short_sum, 8);
        assert(short_satisfied(d, 7));
    }
    assert(d[8] != 1) by {
        reveal_with_fuel(short_sum, 8);
        assert(short_satisfied(d, 8));
    }
    assert(d[4] != 1) by {
        reveal_with_fuel(short_sum, 8);
        assert(short_satisfied(d, 9));
    }
    assert(((((d[3] == 1) != (d[6] == 1)) != (d[13] == 1)) != (d[25] == 1)) == (d[27] == 1)) by {
        reveal_with_fuel(short_sum, 8);
        assert(short_satisfied(d, 10));
    }
    assert((d[3] == 1) == (d[28] == 1)) by {
        reveal_with_fuel(short_sum, 8);
        assert(short_satisfied(d, 11));
    }
    assert(((((d[0] == 1) != (d[10] == 1)) != (d[15] == 1)) != (d[27] == 1)) == (d[28] == 1)) by {
        reveal_with_fuel(short_sum, 8);
        assert(short_satisfied(d, 12));
    }
    assert(((d[1] == 1) != (d[10] == 1)) == (d[20] == 1)) by {
        reveal_with_fuel(short_sum, 8);
        assert(short_satisfied(d, 13));
    }
    assert((((d[2] == 1) != (d[13] == 1)) != (d[15] == 1)) == (d[23] == 1)) by {
        reveal_with_fuel(short_sum, 8);
        assert(short_satisfied(d, 14));
    }
    assert(((d[4] == 1) != (d[6] == 1)) == (d[23] == 1)) by {
        reveal_with_fuel(short_sum, 8);
        assert(short_satisfied(d, 15));
    }
    assert(d[0] <= 1);
    assert(d[1] <= 1);
    assert(d[2] <= 1);
    assert(d[3] <= 1);
    assert(d[4] <= 1);
    assert(d[6] <= 1);
    assert(d[8] <= 1);
    assert(d[10] <= 1);
    assert(d[13] <= 1);
    assert(d[15] <= 1);
    assert(d[17] <= 1);
    assert(d[20] <= 1);
    assert(d[23] <= 1);
    assert(d[25] <= 1);
    assert(d[27] <= 1);
    assert(d[28] <= 1);
}

/// A short word that is accepted is the codeword of its own message: the decoder
/// accepts nothing that the encoder does not make.
pub proof fn law_accepted_short_is_codeword(word: Seq<u8>)
    requires
        word.len() == 32,
        is_bits(word),
        short_accepted(word),
    ensures
        in_order(word, unordered(out_of_order(word).subrange(16, 32))),
{
    let m = out_of_order(word).subrange(16, 32);
    law_colorder_is_permutation();
    assert forall|i: int| 0 <= i < 16 implies #[trigger] m[i] <= 1 by {
        assert(COLORDER@[16 + i] < 32);
        assert(word[COLORDER@[16 + i] as int] <= 1);
    }
    let u = unordered(m);
    let c = short_word(m);
    assert(in_order(c, u)) by {
        assert forall|k: int| 0 <= k < 32 implies c[COLORDER@[k] as int] == #[trigger] u[k] by {
            assert(COLORDER@[k] < 32 && BIT_AT@[COLORDER@[k] as int] == k);
        }
    }
    assert forall|p: int| 0 <= p < 32 implies #[trigger] c[p] <= 1 by {
        assert(BIT_AT@[p] < 32);
        let k = BIT_AT@[p] as int;
        if k >= 16 {
            assert(m[k - 16] <= 1);
        }
    }
    law_short_codeword_decodes(m, c, u);
    let d = xor_bits(word, c);
    assert forall|p: int| 0 <= p < 32 implies #[trigger] d[p] <= 1 && (d[p] == 0 <==> word[p] == c[p]) by {
        assert(word[p] <= 1 && c[p] <= 1);
        lemma_xor(word[p], c[p]);
    }
    assert forall|p: int| 0 <= p < 32 && #[trigger] BIT_AT@[p] >= 16 implies d[p] == 0 by {
        let k = BIT_AT@[p] as int;
        assert(BIT_AT@[p] < 32 && COLORDER@[k] == p);
        assert(u[k] == m[k - 16]);
        assert(out_of_order(word)[k] == word[p]);
        assert(d[p] <= 1);
    }
    assert forall|j: int| 0 <= j < 16 implies #[trigger] short_satisfied(d, j) by {
        assert(short_satisfied(word, j) && short_satisfied(c, j));
        lemma_sum_of_short_words(word, c, j, NRW@[j] as nat);
    }
    lemma_short_relations(d);
    assert forall|p: int| 0 <= p < 32 implies word[p] == c[p] by {
        assert(d[p] == 0);
    }
    assert(word =~= c);
}

} // verus!
