// Whole decoding runs: belief propagation in floating point around the library's
// decisions.
use msk144plus::fec::encode::encode_128_90;
use msk144plus::fec::ldpc::{slot_of_check, DecodeResult, Progress, Verdict};
use msk144plus::fec::parity::{LDPC_M, LDPC_MN, LDPC_N, LDPC_NCW, LDPC_NM, LDPC_NRW, LDPC_NRW_MAX};
use msk144plus::fec::short::{encode_short, judge_short, short_may_go_on, ShortDecodeResult, MN_TABLE, NM_TABLE, NRW};

fn sign(llr: f32) -> i8 {
    if llr > 0.0 {
        1
    } else if llr < 0.0 {
        -1
    } else {
        0
    }
}

/// Decodes 128 soft bits.
fn decode_128_90_soft(llr: &[f32; LDPC_N], max_iterations: u32) -> Option<DecodeResult> {
    let signs = llr.map(sign);
    let mut tov = [[0.0f32; LDPC_NCW]; LDPC_N];
    let mut tanhtoc = [[0.0f32; LDPC_NRW_MAX]; LDPC_M];
    let mut progress = Progress::new();
    while progress.may_go_on(max_iterations) && progress.iter < u32::MAX {
        let mut zn = [0.0f32; LDPC_N];
        for i in 0..LDPC_N {
            zn[i] = llr[i] + tov[i][0] + tov[i][1] + tov[i][2];
        }
        match progress.judge(&zn.map(|z| (z > 0.0) as u8), &signs) {
            Verdict::Decoded(r) => return Some(r),
            Verdict::GiveUp => return None,
            Verdict::Continue => {}
        }
        for j in 0..LDPC_M {
            for i in 0..LDPC_NRW[j] as usize {
                let bit = LDPC_NM[j][i] as usize;
                let own = slot_of_check(bit, j).map_or(0.0, |k| tov[bit][k]);
                tanhtoc[j][i] = (-(zn[bit] - own) * 0.5).tanh();
            }
        }
        for bit in 0..LDPC_N {
            for k in 0..LDPC_NCW {
                let check = LDPC_MN[bit][k] as usize;
                let mut prod = 1.0f32;
                for i in 0..LDPC_NRW[check] as usize {
                    if LDPC_NM[check][i] as usize != bit {
                        prod *= tanhtoc[check][i];
                    }
                }
                tov[bit][k] = 2.0 * atanh_safe(-prod);
            }
        }
    }
    None
}

fn atanh_safe(x: f32) -> f32 {
    x.clamp(-0.999_999_9, 0.999_999_9).atanh()
}

/// Piecewise linear inverse of the hyperbolic tangent.
fn platanh(x: f32) -> f32 {
    let ax = x.abs();
    let s = if x < 0.0 { -1.0 } else { 1.0 };
    if ax <= 0.664 {
        s * ax * 0.83
    } else if ax <= 0.9217 {
        s * (0.83 * 0.664 + (ax - 0.664) * 2.18)
    } else if ax <= 0.9981 {
        s * (0.83 * 0.664 + 0.2577 * 2.18 + (ax - 0.9217) * 9.06)
    } else if ax <= 0.99999 {
        s * (0.83 * 0.664 + 0.2577 * 2.18 + 0.0764 * 9.06 + (ax - 0.9981) * 71.94)
    } else {
        s * 12.0
    }
}

/// Decodes 32 soft bits.
fn decode_short(llr: &[f32; 32], max_iterations: usize) -> Option<ShortDecodeResult> {
    let mut tov = [[0.0f32; 3]; 32];
    let mut tanhtoc = [[0.0f32; 7]; 16];
    let mut iter = 0;
    while short_may_go_on(iter, max_iterations) {
        let mut zn = [0.0f32; 32];
        for i in 0..32 {
            zn[i] = llr[i] + tov[i][0] + tov[i][1] + tov[i][2];
        }
        if let Some(r) = judge_short(&zn.map(|z| (z > 0.0) as u8), iter as i32) {
            return Some(r);
        }
        for j in 0..16 {
            for i in 0..NRW[j] {
                let bit = NM_TABLE[j][i];
                let mut t = zn[bit];
                for k in 0..3 {
                    if MN_TABLE[bit][k] == j {
                        t -= tov[bit][k];
                    }
                }
                tanhtoc[j][i] = (-t / 2.0).tanh();
            }
        }
        for bit in 0..32 {
            for k in 0..3 {
                let check = MN_TABLE[bit][k];
                let mut prod = 1.0f32;
                for i in 0..NRW[check] {
                    if NM_TABLE[check][i] != bit {
                        prod *= tanhtoc[check][i];
                    }
                }
                tov[bit][k] = 2.0 * platanh(-prod);
            }
        }
        iter = iter.checked_add(1)?;
    }
    None
}

fn hard_to_llr(bits: &[u8; 128], magnitude: f32) -> [f32; 128] {
    let mut llr = [0.0f32; 128];
    for i in 0..128 {
        llr[i] = if bits[i] == 1 { magnitude } else { -magnitude };
    }
    llr
}

#[test]
fn encoded_round_trips_through_bp() {
    let msg: [u8; 77] = [
        1, 0, 1, 1, 0, 0, 1, 0, 1, 1, 0, 1, 0, 0, 1, 1, 0, 0, 1, 1, 0, 1, 0, 1, 1, 1, 0, 0, 1, 0, 1, 1,
        1, 1, 0, 0, 1, 0, 1, 1, 0, 1, 0, 1, 1, 0, 0, 1, 0, 1, 1, 0, 1, 0, 0, 1, 1, 1, 0, 1, 0, 0, 1, 1,
        0, 0, 1, 0, 1, 1, 1, 0, 0, 1, 1, 0, 1,
    ];
    let cw = encode_128_90(&msg);
    let mut llr = [0.0f32; 128];
    for i in 0..128 {
        llr[i] = if cw[i] == 1 { 5.0 } else { -5.0 };
    }
    let r = decode_128_90_soft(&llr, 10).expect("BP should decode our own encoded codeword");
    assert_eq!(&r.message[..], &msg[..]);
}

#[test]
fn decodes_all_zero_codeword() {
    let cw = [0u8; 128];
    let llr = hard_to_llr(&cw, 5.0);
    let r = decode_128_90_soft(&llr, 10).expect("should decode");
    assert_eq!(r.message, [0u8; 77]);
    assert_eq!(r.iterations, 0);
    assert_eq!(r.n_hard_errors, 0);
}

#[test]
fn decodes_all_zero_with_one_bit_error() {
    let cw = [0u8; 128];
    for flip_pos in [0usize, 50, 89, 100, 127] {
        let mut llr = hard_to_llr(&cw, 5.0);
        llr[flip_pos] = 5.0;
        let r = decode_128_90_soft(&llr, 10);
        assert!(r.is_some(), "single-bit error at position {} should be correctable", flip_pos);
        let r = r.unwrap();
        assert_eq!(r.message, [0u8; 77]);
        assert_eq!(r.n_hard_errors, 1);
    }
}

#[test]
fn decodes_all_zero_with_two_bit_errors() {
    let cw = [0u8; 128];
    let mut llr = hard_to_llr(&cw, 5.0);
    llr[10] = 5.0;
    llr[80] = 5.0;
    let r = decode_128_90_soft(&llr, 10).expect("two errors should be correctable");
    assert_eq!(r.message, [0u8; 77]);
}

#[test]
fn rejects_pure_noise() {
    let mut x: u32 = 0xDEADBEEF;
    let mut llr = [0.0f32; 128];
    for v in llr.iter_mut() {
        x = x.wrapping_mul(1103515245).wrapping_add(12345);
        let r = ((x >> 16) & 0x7fff) as f32 / 16384.0 - 1.0;
        *v = r * 0.5;
    }
    let r = decode_128_90_soft(&llr, 10);
    assert!(r.is_none(), "decoded a result from pure noise (got {:?})", r);
}

#[test]
fn weak_llr_does_not_panic() {
    let llr = [0.001f32; 128];
    let _ = decode_128_90_soft(&llr, 10);
    let llr = [50.0f32; 128];
    let _ = decode_128_90_soft(&llr, 10);
    let llr = [-50.0f32; 128];
    let _ = decode_128_90_soft(&llr, 10);
}

#[test]
fn iteration_cap_respected() {
    let cw = [0u8; 128];
    let llr = hard_to_llr(&cw, 5.0);
    let r = decode_128_90_soft(&llr, 0).expect("iter-0 should suffice for clean input");
    assert_eq!(r.iterations, 0);
}

#[test]
fn rounds_end_at_the_cap() {
    // One error takes a round more than the first.
    let mut llr = hard_to_llr(&[0u8; 128], 5.0);
    llr[50] = 5.0;
    assert!(decode_128_90_soft(&llr, 0).is_none());
    let r = decode_128_90_soft(&llr, 10).expect("correctable");
    assert!(r.iterations >= 1 && r.iterations <= 10);
    assert!(decode_128_90_soft(&llr, r.iterations).is_some());
    assert!(decode_128_90_soft(&llr, r.iterations - 1).is_none());
    let fresh = Progress::new();
    assert!(fresh.may_go_on(0));
    let later = Progress { iter: 4, ..fresh };
    assert!(later.may_go_on(4) && !later.may_go_on(3));
    assert!(short_may_go_on(5, 5) && !short_may_go_on(6, 5));
}

#[test]
fn errors_count_against_the_encoded_message() {
    let mut msg = [0u8; 77];
    for i in 0..77 {
        msg[i] = (i % 5 == 2) as u8;
    }
    let cw = encode_128_90(&msg);
    let mut llr = hard_to_llr(&cw, 5.0);
    for p in [3usize, 97] {
        llr[p] = -llr[p];
    }
    let r = decode_128_90_soft(&llr, 10).expect("correctable");
    assert_eq!(r.message, msg);
    let again = encode_128_90(&r.message);
    let errors = (0..128).filter(|&i| (again[i] == 1) != (llr[i] > 0.0)).count();
    assert_eq!((r.n_hard_errors as usize, errors), (2, 2));
}

#[test]
fn encode_then_decode_recovers_message() {
    let msg: [u8; 16] = [1, 0, 1, 1, 0, 1, 0, 0, 1, 1, 1, 0, 1, 0, 0, 1];
    let cw = encode_short(&msg);
    let mut llr = [0.0f32; 32];
    for i in 0..32 {
        llr[i] = if cw[i] == 1 { 5.0 } else { -5.0 };
    }
    let result = decode_short(&llr, 5).expect("BP should converge");
    assert_eq!(result.message, msg);
}

#[test]
fn bp_corrects_single_bit_error() {
    let msg: [u8; 16] = [1, 0, 1, 1, 0, 1, 0, 0, 1, 1, 1, 0, 1, 0, 0, 1];
    let cw = encode_short(&msg);
    let mut llr = [0.0f32; 32];
    for i in 0..32 {
        llr[i] = if cw[i] == 1 { 5.0 } else { -5.0 };
    }
    llr[10] = -llr[10];
    let result = decode_short(&llr, 5).expect("BP should fix 1 bit");
    assert_eq!(result.message, msg);
}
