use msk144plus::fec::crc::{boost_augmented_crc13, crc13_check, crc13_compute};
use msk144plus::fec::encode::{encode_128_90, generator, G_ROWS};
use msk144plus::fec::ldpc::{hard_errors, slot_of_check, unsatisfied_checks, Progress, Verdict};
use msk144plus::fec::parity::{
    LDPC_M, LDPC_MN, LDPC_N, LDPC_NCW, LDPC_NM, LDPC_NM_EMPTY, LDPC_NRW,
};
use msk144plus::fec::short::{encode_short, judge_short, BIT_AT, COLORDER};

fn rand_bits(seed: u32, n: usize) -> Vec<u8> {
    let mut x = seed;
    (0..n)
        .map(|_| {
            x = x.wrapping_mul(1103515245).wrapping_add(12345);
            ((x >> 16) & 1) as u8
        })
        .collect()
}

fn with_crc(msg: &[u8]) -> Vec<u8> {
    let crc = crc13_compute(msg);
    let mut codeword = msg.to_vec();
    for i in (0..13).rev() {
        codeword.push(((crc >> i) & 1) as u8);
    }
    codeword
}

#[test]
fn crc_appended_validates() {
    for seed in [0x1234u32, 0xCAFE, 0xDEAD, 0xF00D, 0xBEEF] {
        let msg = rand_bits(seed, 77);
        let crc = crc13_compute(&msg);
        let mut codeword = msg.clone();
        for i in (0..13).rev() {
            codeword.push(((crc >> i) & 1) as u8);
        }
        assert_eq!(codeword.len(), 90);
        assert!(crc13_check(&codeword), "valid codeword failed CRC check (seed {:#x})", seed);
    }
}

#[test]
fn crc_detects_single_bit_errors() {
    let msg = rand_bits(0xABCD, 77);
    let codeword = with_crc(&msg);
    for flip_pos in 0..90 {
        let mut corrupted = codeword.clone();
        corrupted[flip_pos] ^= 1;
        assert!(!crc13_check(&corrupted), "single-bit flip at position {} not detected", flip_pos);
    }
}

#[test]
fn crc_zero_message() {
    let zeros = vec![0u8; 77];
    let crc = crc13_compute(&zeros);
    assert_eq!(crc, 0);
    let codeword = vec![0u8; 90];
    assert!(crc13_check(&codeword));
}

#[test]
fn crc_of_a_single_one() {
    // The remainder of x^19 by the divisor, computed by hand from the division.
    let mut msg = vec![0u8; 77];
    msg[76] = 1;
    let mut reg: u32 = 1;
    for _ in 0..19 {
        reg <<= 1;
        if reg & 0x2000 != 0 {
            reg ^= 0x35D7;
        }
    }
    assert_eq!(crc13_compute(&msg) as u32, reg);
}

#[test]
fn remainder_of_short_streams() {
    assert_eq!(boost_augmented_crc13(&[]), 0);
    assert_eq!(boost_augmented_crc13(&[0x01]), 1);
    assert_eq!(boost_augmented_crc13(&[0x20, 0x00]), 0x15D7);
}

#[test]
fn generator_dimensions() {
    let g = generator();
    assert_eq!(g.len(), 38);
    for row in g.iter() {
        assert_eq!(row.len(), 90);
        for &b in row.iter() {
            assert!(b <= 1);
        }
    }
}

#[test]
fn generator_first_row() {
    let g = generator();
    assert_eq!(G_ROWS[0], 0xa08ea80879050a5e94da994);
    // a08e...: 1010 0000 1000 1110
    assert_eq!(&g[0][..16], &[1, 0, 1, 0, 0, 0, 0, 0, 1, 0, 0, 0, 1, 1, 1, 0]);
    // ...4: the last digit gives the two last columns.
    assert_eq!(&g[0][88..], &[0, 1]);
}

#[test]
fn encode_zero_message_is_zero() {
    let msg = [0u8; 77];
    let cw = encode_128_90(&msg);
    for i in 0..77 {
        assert_eq!(cw[i], 0);
    }
    let crc = crc13_compute(&msg);
    for i in 0..13 {
        assert_eq!(cw[77 + i], ((crc >> (12 - i)) & 1) as u8);
    }
}

fn sample_message() -> [u8; 77] {
    [
        1, 0, 1, 1, 0, 0, 1, 0, 1, 1, 0, 1, 0, 0, 1, 1, 0, 0, 1, 1, 0, 1, 0, 1, 1, 1, 0, 0, 1, 0, 1, 1,
        1, 1, 0, 0, 1, 0, 1, 1, 0, 1, 0, 1, 1, 0, 0, 1, 0, 1, 1, 0, 1, 0, 0, 1, 1, 1, 0, 1, 0, 0, 1, 1,
        0, 0, 1, 0, 1, 1, 1, 0, 0, 1, 1, 0, 1,
    ]
}

#[test]
fn encoded_passes_crc() {
    let msg = sample_message();
    let cw = encode_128_90(&msg);
    let mut first_90 = [0u8; 90];
    first_90.copy_from_slice(&cw[..90]);
    assert!(crc13_check(&first_90));
}

fn slice(llr: &[f32; 128]) -> ([u8; 128], [i8; 128]) {
    let mut word = [0u8; 128];
    let mut signs = [0i8; 128];
    for i in 0..128 {
        word[i] = (llr[i] > 0.0) as u8;
        signs[i] = if llr[i] > 0.0 {
            1
        } else if llr[i] < 0.0 {
            -1
        } else {
            0
        };
    }
    (word, signs)
}

fn hard_to_llr(bits: &[u8; 128], magnitude: f32) -> [f32; 128] {
    let mut llr = [0.0f32; 128];
    for i in 0..128 {
        llr[i] = if bits[i] == 1 { magnitude } else { -magnitude };
    }
    llr
}

#[test]
fn corrected_word_counts_its_errors() {
    let cw = [0u8; 128];
    let mut llr = hard_to_llr(&cw, 5.0);
    llr[50] = 5.0;
    let (received, signs) = slice(&llr);
    let mut progress = Progress::new();
    // The received word fails the three checks of the wrong bit.
    assert_eq!(unsatisfied_checks(&received), 3);
    assert!(matches!(progress.judge(&received, &signs), Verdict::Continue));
    assert_eq!(progress, Progress { iter: 1, stalled: 0, last: 3 });
    match progress.judge(&cw, &signs) {
        Verdict::Decoded(r) => {
            assert_eq!(r.n_hard_errors, 1);
            assert_eq!(r.iterations, 1);
        }
        other => panic!("should decode, got {:?}", other),
    }
    assert_eq!(hard_errors(&cw, &signs), 1);
}

#[test]
fn hopeless_rounds_are_given_up() {
    // Ones at positions that leave more than ten checks unsatisfied, round after
    // round.
    let mut word = [0u8; 128];
    for i in [0usize, 1, 2, 3, 4] {
        word[i] = 1;
    }
    let signs = [0i8; 128];
    assert!(unsatisfied_checks(&word) > 10);
    let mut progress = Progress::new();
    let mut rounds = 0;
    loop {
        match progress.judge(&word, &signs) {
            Verdict::Continue => rounds += 1,
            Verdict::GiveUp => break,
            Verdict::Decoded(_) => panic!("noise decoded"),
        }
    }
    assert_eq!(rounds, 5);
}

#[test]
fn parity_without_crc_is_not_accepted() {
    // A codeword with one information bit of the CRC part flipped and its parity
    // bits recomputed satisfies all checks, but not the CRC.
    let g = generator();
    let mut word = [0u8; 128];
    word[80] = 1;
    for i in 0..38 {
        word[90 + i] = g[i][80];
    }
    assert_eq!(unsatisfied_checks(&word), 0);
    assert!(matches!(Progress::new().judge(&word, &[0i8; 128]), Verdict::Continue));
}

#[test]
fn slots_of_checks() {
    assert_eq!(slot_of_check(0, 20), Some(0));
    assert_eq!(slot_of_check(0, 33), Some(1));
    assert_eq!(slot_of_check(0, 35), Some(2));
    assert_eq!(slot_of_check(0, 1), None);
}

#[test]
fn mn_nm_consistency() {
    for i in 0..LDPC_N {
        for &chk in &LDPC_MN[i] {
            let chk = chk as usize;
            let row = &LDPC_NM[chk][..LDPC_NRW[chk] as usize];
            assert!(
                row.contains(&(i as u8)),
                "bit {} claims to be in check {}, but check {} doesn't list bit {}",
                i, chk, chk, i
            );
        }
    }
    for j in 0..LDPC_M {
        let nrw = LDPC_NRW[j] as usize;
        for &b in &LDPC_NM[j][..nrw] {
            let b = b as usize;
            assert!(
                LDPC_MN[b].contains(&(j as u8)),
                "check {} lists bit {}, but bit {} doesn't list check {}",
                j, b, b, j
            );
        }
        for &b in &LDPC_NM[j][nrw..] {
            assert_eq!(b, LDPC_NM_EMPTY, "check {} has non-sentinel beyond nrw", j);
        }
    }
}

#[test]
fn nrw_total_matches_mn_total() {
    let mn_count = LDPC_N * LDPC_NCW;
    let nm_count: usize = LDPC_NRW.iter().map(|&w| w as usize).sum();
    assert_eq!(mn_count, nm_count, "MN and NM disagree on edge count");
}

#[test]
fn encode_zero_message_yields_zero_codeword() {
    let msg = [0u8; 16];
    let cw = encode_short(&msg);
    for &b in &cw {
        assert_eq!(b, 0);
    }
}

#[test]
fn every_short_message_decodes() {
    for n in 0..65536u32 {
        let mut msg = [0u8; 16];
        for k in 0..16 {
            msg[k] = ((n >> k) & 1) as u8;
        }
        let result = judge_short(&encode_short(&msg), 3).expect("codeword");
        assert_eq!(result.message, msg);
        assert_eq!(result.iterations, 3);
    }
}

#[test]
fn short_word_with_an_error_is_not_accepted() {
    let msg: [u8; 16] = [1, 0, 1, 1, 0, 1, 0, 0, 1, 1, 1, 0, 1, 0, 0, 1];
    for p in 0..32 {
        let mut cw = encode_short(&msg);
        cw[p] ^= 1;
        assert!(judge_short(&cw, 0).is_none());
    }
}

#[test]
fn short_order_is_undone() {
    for k in 0..32 {
        assert_eq!(BIT_AT[COLORDER[k] as usize] as usize, k);
    }
}

#[test]
fn encoder_is_linear() {
    let a = sample_message();
    let mut b = [0u8; 77];
    b.copy_from_slice(&rand_bits(0x5EED, 77));
    let mut c = [0u8; 77];
    for i in 0..77 {
        c[i] = a[i] ^ b[i];
    }
    let (x, y, z) = (encode_128_90(&a), encode_128_90(&b), encode_128_90(&c));
    for i in 0..128 {
        assert_eq!(z[i], x[i] ^ y[i]);
    }
}
