//! Encoder of the (128,90) code.
//!
//! The CRC closes the 77-bit message to ninety bits; each row of the generator
//! then adds one parity bit.
use vstd::prelude::*;

use crate::fec::crc::{crc13_compute, crc_bit, crc_holds, is_bits, with_crc};
use crate::fec::ldpc::{law_codeword_decodes, Progress};
use crate::fec::parity::{lemma_table_bounds, LDPC_NM, LDPC_NRW};

verus! {

/// The generator: row `i` says which of the ninety information bits enter
/// parity bit `i`. Each row is written with 23 hexadecimal digits, so that bit 91 of the number stands
/// for information bit 0 and bit 2 for information bit 89.
pub const G_ROWS: [u128; 38] = [
    0xa08ea80879050a5e94da994,
    0x59f3b48040ca089c81ee880,
    0xe4070262802e31b7b17d3dc,
    0x95cbcbaf032dc3d960bacc8,
    0xc4d79b5dcc21161a254ffbc,
    0x93fde9cdbf2622a70868424,
    0xe73b888bb1b01167379ba28,
    0x45a0d0a0f39a7ad2439949c,
    0x759acef19444bcad79c4964,
    0x71eb4dddf4f5ed9e2ea17e0,
    0x80f0ad76fb247d6b4ca8d38,
    0x184fff3aa1b82dc66640104,
    0xca4e320bb382ed14cbb1094,
    0x52514447b90e25b9e459e28,
    0xdd10c1666e071956bd0df38,
    0x99c332a0b792a2da8ef1ba8,
    0x7bd9f688e7ed402e231aaac,
    0x00fcad76eb647d6a0ca8c38,
    0x6ac8d0499c43b02eed78d70,
    0x2c2c764baf795b4788db010,
    0x0e907bf9e280d2624823dd0,
    0xb857a6e315afd8c1c925e64,
    0x8deb58e22d73a141cae3778,
    0x22d3cb80d92d6ac132dfe08,
    0x754763877b28c187746855c,
    0x1d1bb7cf6953732e04ebca4,
    0x2c65e0ea4466ab9f5e1deec,
    0x6dc530ca37fc916d1f84870,
    0x49bccbbee152355be7ac984,
    0xe8387f3f4367cf45a150448,
    0x8ce25e03d67d51091c81884,
    0xb798012ffa40a93852752c8,
    0x2e43307933adfca37adc3c8,
    0xca06e0a42ca1ec782d6c06c,
    0xc02b762927556a7039e638c,
    0x4a3e9b7d08b6807f8619fac,
    0x45e8030f68997bb68544424,
    0x7e79362c16773efc6482e30,
];

/// Entry `j` of a generator row.
pub open spec fn row_bit(row: u128, j: int) -> u8 {
    ((row >> ((91 - j) as u128)) & 1) as u8
}

/// How many of the first `n` bits are ones that the row selects.
pub open spec fn dot(row: u128, bits: Seq<u8>, n: nat) -> nat
    decreases n,
{
    if n == 0 {
        0
    } else {
        dot(row, bits, (n - 1) as nat) + (bits[n - 1] as nat) * (row_bit(row, n - 1) as nat)
    }
}

/// The codeword of a 77-bit message: the message, its CRC, and for each row of
/// the generator the parity of the bits that the row selects.
pub open spec fn codeword(message: Seq<u8>) -> Seq<u8> {
    with_crc(message) + Seq::new(
        38,
        |i: int| (dot(G_ROWS@[i], with_crc(message), 90) % 2) as u8,
    )
}

/// Number of ones among the first `n` bits that check `j` covers.
pub open spec fn check_sum(word: Seq<u8>, j: int, n: nat) -> nat
    decreases n,
{
    if n == 0 {
        0
    } else {
        check_sum(word, j, (n - 1) as nat) + word[LDPC_NM@[j]@[n - 1] as int] as nat
    }
}

/// Check `j` covers an even number of ones.
pub open spec fn check_satisfied(word: Seq<u8>, j: int) -> bool {
    check_sum(word, j, LDPC_NRW@[j] as nat) % 2 == 0
}

/// The information bits that enter bit `b` of a codeword.
spec fn column(b: int) -> u128 {
    if b < 90 {
        1u128 << ((91 - b) as u128)
    } else {
        G_ROWS@[b - 90]
    }
}

spec fn check_columns(j: int, n: nat) -> u128
    decreases n,
{
    if n == 0 {
        0
    } else {
        check_columns(j, (n - 1) as nat) ^ column(LDPC_NM@[j]@[n - 1] as int)
    }
}

/// The columns that each check covers add up to nothing.
proof fn lemma_columns_cancel()
    by (bit_vector)
    ensures
        0u128 ^ (1u128 << 90u128) ^ (1u128 << 77u128) ^ (1u128 << 65u128) ^ (1u128 << 52u128)
            ^ (1u128 << 39u128) ^ (1u128 << 27u128) ^ (1u128 << 15u128)
            ^ 0xa08ea80879050a5e94da994u128 ^ 0x95cbcbaf032dc3d960bacc8u128
            ^ 0x754763877b28c187746855cu128 == 0,
        0u128 ^ (1u128 << 89u128) ^ (1u128 << 86u128) ^ (1u128 << 64u128) ^ (1u128 << 51u128)
            ^ (1u128 << 38u128) ^ (1u128 << 26u128) ^ (1u128 << 14u128)
            ^ 0x59f3b48040ca089c81ee880u128 ^ 0x95cbcbaf032dc3d960bacc8u128
            ^ 0xe8387f3f4367cf45a150448u128 == 0,
        0u128 ^ (1u128 << 88u128) ^ (1u128 << 76u128) ^ (1u128 << 63u128) ^ (1u128 << 50u128)
            ^ (1u128 << 37u128) ^ (1u128 << 25u128) ^ (1u128 << 15u128) ^ (1u128 << 2u128)
            ^ 0xe4070262802e31b7b17d3dcu128 ^ 0x99c332a0b792a2da8ef1ba8u128
            ^ 0x6dc530ca37fc916d1f84870u128 == 0,
        0u128 ^ (1u128 << 87u128) ^ (1u128 << 75u128) ^ (1u128 << 62u128) ^ (1u128 << 49u128)
            ^ (1u128 << 40u128) ^ (1u128 << 28u128) ^ (1u128 << 13u128)
            ^ 0x59f3b48040ca089c81ee880u128 ^ 0x184fff3aa1b82dc66640104u128
            ^ 0x49bccbbee152355be7ac984u128 == 0,
        0u128 ^ (1u128 << 86u128) ^ (1u128 << 74u128) ^ (1u128 << 61u128) ^ (1u128 << 48u128)
            ^ (1u128 << 36u128) ^ (1u128 << 24u128) ^ (1u128 << 12u128) ^ (1u128 << 3u128)
            ^ 0xc4d79b5dcc21161a254ffbcu128 ^ 0x00fcad76eb647d6a0ca8c38u128
            ^ 0xc02b762927556a7039e638cu128 == 0,
        0u128 ^ (1u128 << 85u128) ^ (1u128 << 78u128) ^ (1u128 << 60u128) ^ (1u128 << 47u128)
            ^ (1u128 << 35u128) ^ (1u128 << 24u128) ^ (1u128 << 13u128) ^ (1u128 << 2u128)
            ^ 0x93fde9cdbf2622a70868424u128 ^ 0x1d1bb7cf6953732e04ebca4u128
            ^ 0x8ce25e03d67d51091c81884u128 == 0,
        0u128 ^ (1u128 << 88u128) ^ (1u128 << 73u128) ^ (1u128 << 59u128) ^ (1u128 << 49u128)
            ^ (1u128 << 34u128) ^ (1u128 << 23u128) ^ (1u128 << 11u128)
            ^ 0xe73b888bb1b01167379ba28u128 ^ 0x7bd9f688e7ed402e231aaacu128
            ^ 0x8ce25e03d67d51091c81884u128 == 0,
        0u128 ^ (1u128 << 90u128) ^ (1u128 << 72u128) ^ (1u128 << 62u128) ^ (1u128 << 53u128)
            ^ (1u128 << 38u128) ^ (1u128 << 22u128) ^ (1u128 << 12u128)
            ^ 0x45a0d0a0f39a7ad2439949cu128 ^ 0x7bd9f688e7ed402e231aaacu128
            ^ 0x7e79362c16773efc6482e30u128 == 0,
        0u128 ^ (1u128 << 89u128) ^ (1u128 << 71u128) ^ (1u128 << 58u128) ^ (1u128 << 46u128)
            ^ (1u128 << 33u128) ^ (1u128 << 25u128) ^ (1u128 << 13u128)
            ^ 0x759acef19444bcad79c4964u128 ^ 0x7bd9f688e7ed402e231aaacu128
            ^ 0x2e43307933adfca37adc3c8u128 == 0,
        0u128 ^ (1u128 << 84u128) ^ (1u128 << 77u128) ^ (1u128 << 63u128) ^ (1u128 << 45u128)
            ^ (1u128 << 36u128) ^ (1u128 << 21u128) ^ (1u128 << 10u128)
            ^ 0x71eb4dddf4f5ed9e2ea17e0u128 ^ 0x0e907bf9e280d2624823dd0u128
            ^ 0x7e79362c16773efc6482e30u128 == 0,
        0u128 ^ (1u128 << 83u128) ^ (1u128 << 70u128) ^ (1u128 << 58u128) ^ (1u128 << 48u128)
            ^ (1u128 << 40u128) ^ (1u128 << 20u128) ^ (1u128 << 9u128)
            ^ 0x80f0ad76fb247d6b4ca8d38u128 ^ 0xca4e320bb382ed14cbb1094u128
            ^ 0x4a3e9b7d08b6807f8619facu128 == 0,
        0u128 ^ (1u128 << 82u128) ^ (1u128 << 75u128) ^ (1u128 << 66u128) ^ (1u128 << 44u128)
            ^ (1u128 << 32u128) ^ (1u128 << 19u128) ^ (1u128 << 8u128)
            ^ 0xa08ea80879050a5e94da994u128 ^ 0x2c2c764baf795b4788db010u128
            ^ 0x8ce25e03d67d51091c81884u128 == 0,
        0u128 ^ (1u128 << 85u128) ^ (1u128 << 69u128) ^ (1u128 << 57u128) ^ (1u128 << 54u128)
            ^ (1u128 << 37u128) ^ (1u128 << 19u128) ^ (1u128 << 10u128)
            ^ 0x80f0ad76fb247d6b4ca8d38u128 ^ 0x6ac8d0499c43b02eed78d70u128
            ^ 0xe8387f3f4367cf45a150448u128 == 0,
        0u128 ^ (1u128 << 81u128) ^ (1u128 << 73u128) ^ (1u128 << 56u128) ^ (1u128 << 43u128)
            ^ (1u128 << 39u128) ^ (1u128 << 22u128) ^ (1u128 << 7u128)
            ^ 0x184fff3aa1b82dc66640104u128 ^ 0x52514447b90e25b9e459e28u128
            ^ 0x4a3e9b7d08b6807f8619facu128 == 0,
        0u128 ^ (1u128 << 82u128) ^ (1u128 << 72u128) ^ (1u128 << 55u128) ^ (1u128 << 46u128)
            ^ (1u128 << 34u128) ^ (1u128 << 21u128) ^ (1u128 << 7u128)
            ^ 0xdd10c1666e071956bd0df38u128 ^ 0x6ac8d0499c43b02eed78d70u128
            ^ 0xb798012ffa40a93852752c8u128 == 0,
        0u128 ^ (1u128 << 87u128) ^ (1u128 << 69u128) ^ (1u128 << 55u128) ^ (1u128 << 45u128)
            ^ (1u128 << 35u128) ^ (1u128 << 18u128) ^ (1u128 << 6u128)
            ^ 0xe4070262802e31b7b17d3dcu128 ^ 0x2c2c764baf795b4788db010u128
            ^ 0xc02b762927556a7039e638cu128 == 0,
        0u128 ^ (1u128 << 80u128) ^ (1u128 << 79u128) ^ (1u128 << 65u128) ^ (1u128 << 51u128)
            ^ (1u128 << 31u128) ^ (1u128 << 24u128) ^ (1u128 << 5u128)
            ^ 0xe73b888bb1b01167379ba28u128 ^ 0x6ac8d0499c43b02eed78d70u128
            ^ 0x8deb58e22d73a141cae3778u128 == 0,
        0u128 ^ (1u128 << 81u128) ^ (1u128 << 76u128) ^ (1u128 << 54u128) ^ (1u128 << 47u128)
            ^ (1u128 << 34u128) ^ (1u128 << 20u128) ^ (1u128 << 14u128)
            ^ 0x759acef19444bcad79c4964u128 ^ 0x00fcad76eb647d6a0ca8c38u128
            ^ 0x754763877b28c187746855cu128 == 0,
        0u128 ^ (1u128 << 88u128) ^ (1u128 << 70u128) ^ (1u128 << 61u128) ^ (1u128 << 51u128)
            ^ (1u128 << 32u128) ^ (1u128 << 18u128) ^ (1u128 << 10u128)
            ^ 0xdd10c1666e071956bd0df38u128 ^ 0xb857a6e315afd8c1c925e64u128
            ^ 0x754763877b28c187746855cu128 == 0,
        0u128 ^ (1u128 << 80u128) ^ (1u128 << 68u128) ^ (1u128 << 60u128) ^ (1u128 << 53u128)
            ^ (1u128 << 30u128) ^ (1u128 << 29u128) ^ (1u128 << 4u128)
            ^ 0x759acef19444bcad79c4964u128 ^ 0x184fff3aa1b82dc66640104u128
            ^ 0x6dc530ca37fc916d1f84870u128 == 0,
        0u128 ^ (1u128 << 91u128) ^ (1u128 << 73u128) ^ (1u128 << 67u128) ^ (1u128 << 47u128)
            ^ (1u128 << 30u128) ^ (1u128 << 17u128) ^ (1u128 << 15u128)
            ^ 0x71eb4dddf4f5ed9e2ea17e0u128 ^ 0xb857a6e315afd8c1c925e64u128
            ^ 0x49bccbbee152355be7ac984u128 == 0,
        0u128 ^ (1u128 << 86u128) ^ (1u128 << 67u128) ^ (1u128 << 59u128) ^ (1u128 << 42u128)
            ^ (1u128 << 33u128) ^ (1u128 << 21u128) ^ (1u128 << 9u128)
            ^ 0x45a0d0a0f39a7ad2439949cu128 ^ 0x2c65e0ea4466ab9f5e1deecu128
            ^ 0x6dc530ca37fc916d1f84870u128 == 0,
        0u128 ^ (1u128 << 82u128) ^ (1u128 << 76u128) ^ (1u128 << 53u128) ^ (1u128 << 41u128)
            ^ (1u128 << 39u128) ^ (1u128 << 26u128) ^ (1u128 << 9u128)
            ^ 0xc4d79b5dcc21161a254ffbcu128 ^ 0x0e907bf9e280d2624823dd0u128
            ^ 0xca06e0a42ca1ec782d6c06cu128 == 0,
        0u128 ^ (1u128 << 83u128) ^ (1u128 << 68u128) ^ (1u128 << 57u128) ^ (1u128 << 50u128)
            ^ (1u128 << 33u128) ^ (1u128 << 16u128) ^ (1u128 << 3u128)
            ^ 0x95cbcbaf032dc3d960bacc8u128 ^ 0x22d3cb80d92d6ac132dfe08u128
            ^ 0xb798012ffa40a93852752c8u128 == 0,
        0u128 ^ (1u128 << 85u128) ^ (1u128 << 75u128) ^ (1u128 << 55u128) ^ (1u128 << 42u128)
            ^ (1u128 << 38u128) ^ (1u128 << 17u128) ^ (1u128 << 4u128)
            ^ 0x0e907bf9e280d2624823dd0u128 ^ 0x22d3cb80d92d6ac132dfe08u128
            ^ 0x2e43307933adfca37adc3c8u128 == 0,
        0u128 ^ (1u128 << 81u128) ^ (1u128 << 67u128) ^ (1u128 << 57u128) ^ (1u128 << 44u128)
            ^ (1u128 << 31u128) ^ (1u128 << 27u128) ^ (1u128 << 4u128)
            ^ 0xdd10c1666e071956bd0df38u128 ^ 0x1d1bb7cf6953732e04ebca4u128
            ^ 0xc02b762927556a7039e638cu128 == 0,
        0u128 ^ (1u128 << 83u128) ^ (1u128 << 71u128) ^ (1u128 << 60u128) ^ (1u128 << 43u128)
            ^ (1u128 << 37u128) ^ (1u128 << 23u128) ^ (1u128 << 8u128) ^ (1u128 << 6u128)
            ^ 0xc4d79b5dcc21161a254ffbcu128 ^ 0x8deb58e22d73a141cae3778u128
            ^ 0x49bccbbee152355be7ac984u128 == 0,
        0u128 ^ (1u128 << 90u128) ^ (1u128 << 74u128) ^ (1u128 << 64u128) ^ (1u128 << 45u128)
            ^ (1u128 << 29u128) ^ (1u128 << 19u128) ^ (1u128 << 5u128)
            ^ 0x93fde9cdbf2622a70868424u128 ^ 0x99c332a0b792a2da8ef1ba8u128
            ^ 0x4a3e9b7d08b6807f8619facu128 == 0,
        0u128 ^ (1u128 << 80u128) ^ (1u128 << 66u128) ^ (1u128 << 61u128) ^ (1u128 << 43u128)
            ^ (1u128 << 28u128) ^ (1u128 << 20u128) ^ (1u128 << 11u128)
            ^ 0x71eb4dddf4f5ed9e2ea17e0u128 ^ 0x99c332a0b792a2da8ef1ba8u128
            ^ 0xe8387f3f4367cf45a150448u128 == 0,
        0u128 ^ (1u128 << 79u128) ^ (1u128 << 77u128) ^ (1u128 << 64u128) ^ (1u128 << 44u128)
            ^ (1u128 << 41u128) ^ (1u128 << 16u128) ^ (1u128 << 7u128)
            ^ 0xe4070262802e31b7b17d3dcu128 ^ 0xca4e320bb382ed14cbb1094u128
            ^ 0x2e43307933adfca37adc3c8u128 == 0,
        0u128 ^ (1u128 << 84u128) ^ (1u128 << 72u128) ^ (1u128 << 56u128) ^ (1u128 << 48u128)
            ^ (1u128 << 35u128) ^ (1u128 << 17u128) ^ (1u128 << 14u128)
            ^ 0xa08ea80879050a5e94da994u128 ^ 0x8deb58e22d73a141cae3778u128
            ^ 0x2c65e0ea4466ab9f5e1deecu128 == 0,
        0u128 ^ (1u128 << 87u128) ^ (1u128 << 71u128) ^ (1u128 << 63u128) ^ (1u128 << 52u128)
            ^ (1u128 << 41u128) ^ (1u128 << 22u128) ^ (1u128 << 11u128)
            ^ 0x93fde9cdbf2622a70868424u128 ^ 0x2c65e0ea4466ab9f5e1deecu128
            ^ 0xb798012ffa40a93852752c8u128 == 0,
        0u128 ^ (1u128 << 84u128) ^ (1u128 << 66u128) ^ (1u128 << 58u128) ^ (1u128 << 52u128)
            ^ (1u128 << 30u128) ^ (1u128 << 18u128) ^ (1u128 << 12u128)
            ^ 0x59f3b48040ca089c81ee880u128 ^ 0x1d1bb7cf6953732e04ebca4u128
            ^ 0x45e8030f68997bb68544424u128 == 0,
        0u128 ^ (1u128 << 91u128) ^ (1u128 << 79u128) ^ (1u128 << 78u128) ^ (1u128 << 56u128)
            ^ (1u128 << 50u128) ^ (1u128 << 28u128) ^ (1u128 << 26u128) ^ (1u128 << 8u128)
            ^ 0x80f0ad76fb247d6b4ca8d38u128 ^ 0x00fcad76eb647d6a0ca8c38u128 == 0,
        0u128 ^ (1u128 << 78u128) ^ (1u128 << 70u128) ^ (1u128 << 65u128) ^ (1u128 << 42u128)
            ^ (1u128 << 29u128) ^ (1u128 << 23u128) ^ (1u128 << 3u128)
            ^ 0x52514447b90e25b9e459e28u128 ^ 0x2c2c764baf795b4788db010u128
            ^ 0x7e79362c16773efc6482e30u128 == 0,
        0u128 ^ (1u128 << 91u128) ^ (1u128 << 74u128) ^ (1u128 << 62u128) ^ (1u128 << 46u128)
            ^ (1u128 << 32u128) ^ (1u128 << 27u128) ^ (1u128 << 2u128)
            ^ 0xe73b888bb1b01167379ba28u128 ^ 0x22d3cb80d92d6ac132dfe08u128
            ^ 0x45e8030f68997bb68544424u128 == 0,
        0u128 ^ (1u128 << 89u128) ^ (1u128 << 69u128) ^ (1u128 << 59u128) ^ (1u128 << 40u128)
            ^ (1u128 << 36u128) ^ (1u128 << 16u128) ^ (1u128 << 5u128)
            ^ 0x52514447b90e25b9e459e28u128 ^ 0xb857a6e315afd8c1c925e64u128
            ^ 0xca06e0a42ca1ec782d6c06cu128 == 0,
        0u128 ^ (1u128 << 68u128) ^ (1u128 << 54u128) ^ (1u128 << 49u128) ^ (1u128 << 31u128)
            ^ (1u128 << 25u128) ^ (1u128 << 6u128) ^ 0x45a0d0a0f39a7ad2439949cu128
            ^ 0xca4e320bb382ed14cbb1094u128 ^ 0xca06e0a42ca1ec782d6c06cu128
            ^ 0x45e8030f68997bb68544424u128 == 0,
{
}

proof fn lemma_check_columns(j: int)
    requires
        0 <= j < 38,
    ensures
        check_columns(j, LDPC_NRW@[j] as nat) == 0,
{
    lemma_columns_cancel();
    reveal_with_fuel(check_columns, 12);
}

proof fn lemma_row_bit_xor(a: u128, b: u128, j: int)
    requires
        0 <= j < 90,
    ensures
        row_bit(a, j) <= 1,
        row_bit(b, j) <= 1,
        row_bit(a ^ b, j) == (row_bit(a, j) + row_bit(b, j)) % 2,
        row_bit(0, j) == 0,
{
    let s = (91 - j) as u128;
    assert(s < 128 ==> (((a >> s) & 1) as u8) <= 1 && (((b >> s) & 1) as u8) <= 1 && ((((a ^ b) >> s)
        & 1) as u8) == (((a >> s) & 1) as u8 + ((b >> s) & 1) as u8) % 2 && ((0u128 >> s) & 1) as u8 == 0)
        by (bit_vector);
}

/// The parity that a row yields is linear in the row.
proof fn lemma_dot_xor(a: u128, b: u128, bits: Seq<u8>, n: nat)
    requires
        n <= 90,
        is_bits(bits),
        bits.len() == 90,
    ensures
        dot(a ^ b, bits, n) % 2 == (dot(a, bits, n) + dot(b, bits, n)) % 2,
    decreases n,
{
    if n > 0 {
        lemma_dot_xor(a, b, bits, (n - 1) as nat);
        lemma_row_bit_xor(a, b, n - 1);
        assert(bits[n - 1] <= 1);
        if bits[n - 1] == 0 {
            assert((bits[n - 1] as nat) * (row_bit(a, n - 1) as nat) == 0);
            assert((bits[n - 1] as nat) * (row_bit(b, n - 1) as nat) == 0);
            assert((bits[n - 1] as nat) * (row_bit(a ^ b, n - 1) as nat) == 0);
        } else {
            assert((bits[n - 1] as nat) * (row_bit(a, n - 1) as nat) == row_bit(a, n - 1));
            assert((bits[n - 1] as nat) * (row_bit(b, n - 1) as nat) == row_bit(b, n - 1));
            assert((bits[n - 1] as nat) * (row_bit(a ^ b, n - 1) as nat) == row_bit(a ^ b, n - 1));
        }
    }
}

proof fn lemma_dot_zero(bits: Seq<u8>, n: nat)
    requires
        n <= 90,
    ensures
        dot(0, bits, n) == 0,
    decreases n,
{
    if n > 0 {
        lemma_dot_zero(bits, (n - 1) as nat);
        lemma_row_bit_xor(0, 0, n - 1);
        assert((bits[n - 1] as nat) * 0nat == 0);
    }
}

/// A row with a single one selects a single bit.
proof fn lemma_dot_unit(bits: Seq<u8>, b: int, n: nat)
    requires
        n <= 90,
        0 <= b < 90,
    ensures
        dot(1u128 << ((91 - b) as u128), bits, n) == (if b < n {
            bits[b] as nat
        } else {
            0
        }),
    decreases n,
{
    if n > 0 {
        lemma_dot_unit(bits, b, (n - 1) as nat);
        let t = (91 - b) as u128;
        let s = (91 - (n - 1)) as u128;
        assert(s < 128 && t < 128 ==> ((((1u128 << t) >> s) & 1) as u8) == (if s == t {
            1u8
        } else {
            0u8
        })) by (bit_vector);
        assert((bits[n - 1] as nat) * 0nat == 0);
        assert((bits[n - 1] as nat) * 1nat == bits[n - 1]);
    }
}

proof fn lemma_codeword_bit(message: Seq<u8>, b: int)
    requires
        message.len() == 77,
        0 <= b < 128,
    ensures
        codeword(message)[b] as nat % 2 == dot(column(b), with_crc(message), 90) % 2,
{
    if b < 90 {
        lemma_dot_unit(with_crc(message), b, 90);
    }
}

proof fn lemma_check_sum_columns(message: Seq<u8>, j: int, n: nat)
    requires
        is_bits(message),
        message.len() == 77,
        0 <= j < 38,
        n <= LDPC_NRW@[j],
    ensures
        check_sum(codeword(message), j, n) % 2 == dot(check_columns(j, n), with_crc(message), 90) % 2,
    decreases n,
{
    let w = with_crc(message);
    if n == 0 {
        lemma_dot_zero(w, 90);
    } else {
        let b = LDPC_NM@[j]@[n - 1] as int;
        lemma_table_bounds();
        lemma_check_sum_columns(message, j, (n - 1) as nat);
        lemma_codeword_bit(message, b);
        lemma_with_crc_bits(message);
        lemma_dot_xor(check_columns(j, (n - 1) as nat), column(b), w, 90);
    }
}

/// A message with its CRC is ninety bits.
pub proof fn lemma_with_crc_bits(message: Seq<u8>)
    requires
        is_bits(message),
        message.len() == 77,
    ensures
        with_crc(message).len() == 90,
        is_bits(with_crc(message)),
{
    let w = with_crc(message);
    let crc = crate::fec::crc::crc13(message);
    assert forall|i: int| 0 <= i < 90 implies #[trigger] w[i] <= 1 by {
        if i < 77 {
            assert(message[i] <= 1);
        } else {
            let s = (12 - (i - 77)) as u16;
            assert(((crc >> s) & 1) as u8 <= 1) by (bit_vector);
        }
    }
}

/// Every codeword satisfies every parity check: the generator and the parity
/// checks describe the same code.
pub proof fn law_codeword_satisfies_checks(message: Seq<u8>, j: int)
    requires
        is_bits(message),
        message.len() == 77,
        0 <= j < 38,
    ensures
        check_satisfied(codeword(message), j),
{
    lemma_check_sum_columns(message, j, LDPC_NRW@[j] as nat);
    lemma_check_columns(j);
    lemma_dot_zero(with_crc(message), 90);
}

/// The generator as a matrix of bits: 38 rows of 90 columns.
pub fn generator() -> (g: [[u8; 90]; 38])
    ensures
        forall|i: int, j: int|
            0 <= i < 38 && 0 <= j < 90 ==> #[trigger] g@[i]@[j] == row_bit(G_ROWS@[i], j),
        forall|i: int, j: int| 0 <= i < 38 && 0 <= j < 90 ==> #[trigger] g@[i]@[j] <= 1,
{
    let mut g = [[0u8; 90]; 38];
    let mut i: usize = 0;
    while i < 38
        invariant
            i <= 38,
            forall|r: int, c: int|
                0 <= r < i && 0 <= c < 90 ==> #[trigger] g@[r]@[c] == row_bit(G_ROWS@[r], c),
        decreases 38 - i,
    {
        let row: u128 = G_ROWS[i];
        let mut bits = [0u8; 90];
        let mut j: usize = 0;
        while j < 90
            invariant
                j <= 90,
                forall|c: int| 0 <= c < j ==> #[trigger] bits@[c] == row_bit(row, c),
            decreases 90 - j,
        {
            bits[j] = ((row >> (91 - j as u128)) & 1) as u8;
            j = j + 1;
        }
        g[i] = bits;
        i = i + 1;
    }
    proof {
        assert forall|i: int, j: int| 0 <= i < 38 && 0 <= j < 90 implies #[trigger] g@[i]@[j] <= 1 by {
            lemma_row_bit_xor(G_ROWS@[i], 0, j);
        }
    }
    g
}

/// Encodes a 77-bit message into its 128-bit codeword.
pub fn encode_128_90(message_77: &[u8; 77]) -> (word: [u8; 128])
    requires
        is_bits(message_77@),
    ensures
        word@ == codeword(message_77@),
        is_bits(word@),
        word@.subrange(0, 77) == message_77@,
        crc_holds(word@.subrange(0, 90)),
        forall|j: int| 0 <= j < 38 ==> #[trigger] check_satisfied(word@, j),
        Progress::accepted(word@),
{
    let mut word = [0u8; 128];
    let mut i: usize = 0;
    while i < 77
        invariant
            i <= 77,
            forall|k: int| 0 <= k < i ==> #[trigger] word@[k] == message_77@[k],
        decreases 77 - i,
    {
        word[i] = message_77[i];
        i = i + 1;
    }
    let crc: u16 = crc13_compute(message_77);
    while i < 90
        invariant
            77 <= i <= 90,
            forall|k: int| 0 <= k < 77 ==> #[trigger] word@[k] == message_77@[k],
            forall|k: int| 77 <= k < i ==> #[trigger] word@[k] == crc_bit(crc, k - 77),
        decreases 90 - i,
    {
        word[i] = ((crc >> (12 - (i - 77) as u16)) & 1) as u8;
        i = i + 1;
    }
    let ghost info = with_crc(message_77@);
    proof {
        lemma_with_crc_bits(message_77@);
        assert(word@.subrange(0, 90) =~= info);
    }
    let g = generator();
    let mut r: usize = 0;
    while r < 38
        invariant
            r <= 38,
            info.len() == 90,
            is_bits(info),
            forall|k: int| 0 <= k < 90 ==> #[trigger] word@[k] == info[k],
            forall|k: int| 0 <= k < r ==> #[trigger] word@[90 + k] == (dot(G_ROWS@[k], info, 90) % 2) as u8,
            forall|i: int, j: int|
                0 <= i < 38 && 0 <= j < 90 ==> #[trigger] g@[i]@[j] == row_bit(G_ROWS@[i], j),
            forall|i: int, j: int| 0 <= i < 38 && 0 <= j < 90 ==> #[trigger] g@[i]@[j] <= 1,
        decreases 38 - r,
    {
        let mut sum: u32 = 0;
        let mut j: usize = 0;
        while j < 90
            invariant
                r < 38,
                j <= 90,
                sum <= j,
                info.len() == 90,
                is_bits(info),
                forall|k: int| 0 <= k < 90 ==> #[trigger] word@[k] == info[k],
                forall|i: int, j: int|
                    0 <= i < 38 && 0 <= j < 90 ==> #[trigger] g@[i]@[j] == row_bit(G_ROWS@[i], j),
                forall|i: int, j: int| 0 <= i < 38 && 0 <= j < 90 ==> #[trigger] g@[i]@[j] <= 1,
                sum == dot(G_ROWS@[r as int], info, j as nat),
            decreases 90 - j,
        {
            assert(word@[j as int] == info[j as int] && info[j as int] <= 1);
            let bit: u8 = word[j];
            let entry: u8 = g[r][j];
            assert(bit * entry <= 1) by (nonlinear_arith)
                requires
                    bit <= 1,
                    entry <= 1,
            ;
            sum = sum + (bit * entry) as u32;
            j = j + 1;
        }
        word[90 + r] = (sum % 2) as u8;
        r = r + 1;
    }
    proof {
        assert forall|k: int| 0 <= k < 128 implies #[trigger] word@[k] == codeword(message_77@)[k] by {
            if k < 90 {
                assert(word@[k] == info[k]);
            } else {
                assert(word@[90 + (k - 90)] == (dot(G_ROWS@[k - 90], info, 90) % 2) as u8);
            }
        }
        assert(word@ =~= codeword(message_77@));
        assert forall|k: int| 0 <= k < 128 implies #[trigger] word@[k] <= 1 by {
            if k < 90 {
                assert(word@[k] == info[k]);
            }
        }
        law_codeword_decodes(message_77@);
        assert forall|j: int| 0 <= j < 38 implies #[trigger] check_satisfied(word@, j) by {
            law_codeword_satisfies_checks(message_77@, j);
        }
    }
    word
}

} // verus!
