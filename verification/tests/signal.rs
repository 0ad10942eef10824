use msk144plus::dsp::frame::{
    bad_sync, build_channel_bits, build_channel_bits_msk40, carriers_of, frames_in_slot, payload_symbols,
    pulse_samples, short_bad_sync, short_payload_symbols, short_sync_accepted, sync_accepted, S8, S8R,
};
use msk144plus::dsp::search::{Job, Search, SearchAction};
use msk144plus::dsp::spd::{
    candidate_start, inner_bin, noise_floor, ranked, select_candidates, step_count, strongest, Pick,
};
use msk144plus::dsp::sync::{candidate_window, pick_peaks, tried_start, turn};
use msk144plus::engine::{
    accumulated_method, average_method, clusters, coverage_accepted, drop_echoes, errors_accepted, frame_bits,
    frames_averaged, hamming, kept_windows, next_stage, partner_pair, ping_method, precheck, read_short_message, report_name, short_fields,
    short_form, short_frame_bits, short_ping_method, slot_frames, window_starts, DecodeDiag, DecodeFailure, Depth,
    EncodeError, ShortMessageConfig, SlotTexts, Stage, AVG_PATTERNS, FRAGMENT_PATTERNS, NAV_PATTERNS,
};
use msk144plus::fec::encode::encode_128_90;
use msk144plus::fec::ldpc::{Progress, Verdict};
use msk144plus::fec::short::{encode_short, judge_short};

#[test]
fn channel_bits_have_sync_at_correct_positions() {
    let mut cw = [0u8; 128];
    for i in 0..128 {
        cw[i] = (i % 2) as u8;
    }
    let bits = build_channel_bits(&cw);
    for i in 0..8 {
        assert_eq!(bits[i], S8[i]);
    }
    for i in 0..8 {
        assert_eq!(bits[56 + i], S8[i]);
    }
    for i in 0..48 {
        assert_eq!(bits[8 + i], cw[i]);
    }
    for i in 0..80 {
        assert_eq!(bits[64 + i], cw[48 + i]);
    }
}

#[test]
fn demodulate_zero_frame_gives_high_sync_error() {
    // All soft bits of silence are zero, and zero counts as a one.
    let soft = [0.0f32; 144];
    let mut bits = [0u8; 144];
    for i in 0..144 {
        bits[i] = (soft[i] >= 0.0) as u8;
    }
    assert_eq!(bad_sync(&bits), 8, "expected 8 sync errors for all-zero frame");
}

#[test]
fn zero_frame_high_sync_error() {
    let soft = [0.0f32; 40];
    let mut bits = [0u8; 40];
    for i in 0..40 {
        bits[i] = (soft[i] >= 0.0) as u8;
    }
    assert_eq!(short_bad_sync(&bits), 4);
}

#[test]
fn clean_frames_are_in_sync_and_carry_their_codeword() {
    let mut msg = [0u8; 77];
    for i in 0..77 {
        msg[i] = ((i * i) % 3 == 1) as u8;
    }
    let bits = frame_bits(&msg);
    assert_eq!(bad_sync(&bits), 0);
    let word = payload_symbols(&bits);
    assert_eq!(word, encode_128_90(&msg));
    match Progress::new().judge(&word, &[0i8; 128]) {
        Verdict::Decoded(r) => assert_eq!(r.message, msg),
        other => panic!("got {:?}", other),
    }
    let short: [u8; 16] = [1, 0, 1, 1, 0, 1, 0, 0, 1, 1, 1, 0, 1, 0, 0, 1];
    let bits = short_frame_bits(&short);
    assert_eq!(&bits[..8], &S8R);
    assert_eq!(short_bad_sync(&bits), 0);
    let word = short_payload_symbols(&bits);
    assert_eq!(bits, build_channel_bits_msk40(&encode_short(&short)));
    assert_eq!(judge_short(&word, 0).expect("codeword").message, short);
}

#[test]
fn sync_limits() {
    assert!(sync_accepted(4) && !sync_accepted(5));
    assert!(short_sync_accepted(3) && !short_sync_accepted(4));
    assert!(errors_accepted(17) && !errors_accepted(18));
    assert!(coverage_accepted(96) && !coverage_accepted(95));
}

#[test]
fn every_sample_belongs_to_two_pulses() {
    for n in [144usize, 40] {
        for k in 0..n {
            let at = pulse_samples(n, k);
            for j in 0..12 {
                let c = carriers_of(n, at[j]);
                if k % 2 == 1 {
                    assert_eq!((c.i_bit, c.i_pulse), (k, j));
                } else {
                    assert_eq!((c.q_bit, c.q_pulse), (k, j));
                }
            }
        }
    }
    // The first bit is shaped by the second half of its pulse first.
    assert_eq!(carriers_of(144, 0).q_bit, 0);
    assert_eq!(carriers_of(144, 0).q_pulse, 6);
    assert_eq!(pulse_samples(144, 0)[0], 858);
}

#[test]
fn slots_hold_whole_frames() {
    assert_eq!(frames_in_slot(15, 864), 208);
    assert_eq!(slot_frames(false, 15), (208, 864));
    assert_eq!(slot_frames(false, 30), (416, 864));
    assert_eq!(slot_frames(true, 15), (750, 240));
}

#[test]
fn steps_of_the_detector() {
    assert_eq!(step_count(7168, 864, 216, 100), 29);
    assert_eq!(step_count(863, 864, 216, 100), 0);
    assert_eq!(step_count(1_000_000, 864, 216, 100), 100);
    assert_eq!(inner_bin(-5, 864), 1);
    assert_eq!(inner_bin(5, 864), 5);
    assert_eq!(inner_bin(900, 864), 862);
    assert_eq!(candidate_start(3, 216), 649);
}

#[test]
fn strengths_are_ranked() {
    let keys = vec![3, 9, 1, 9, 5, 7, 2, 8];
    assert_eq!(strongest(&keys), 3);
    let mut sorted = keys.clone();
    sorted.sort();
    for k in 0..keys.len() {
        assert_eq!(ranked(&keys, k), sorted[k]);
    }
    assert_eq!(noise_floor(&keys), sorted[2]);
    // Bit patterns of floating-point numbers that are not negative order as these do.
    assert!(0.5f32.to_bits() < 1.5f32.to_bits() && 1.5f32.to_bits() < 1e9f32.to_bits());
}

#[test]
fn candidates_come_by_strength_first() {
    let strength = vec![1, 50, 2, 40, 3, 60];
    let contrast = vec![9, 0, 30, 0, 20, 0];
    let near = vec![true, true, true, false, true, true];
    // 60 and 50 are strong; 40 is too, but out of tolerance. Two is few: contrast adds.
    let picked = select_candidates(&strength, &contrast, &near, 30, 10);
    assert_eq!(
        picked,
        vec![
            Pick { step: 5, primary: true },
            Pick { step: 1, primary: true },
            Pick { step: 2, primary: false },
            Pick { step: 4, primary: false }
        ]
    );
    assert!(select_candidates(&vec![0; 6], &vec![0; 6], &vec![true; 6], 1, 1).is_empty());
    let many = select_candidates(&vec![9; 20], &vec![9; 20], &vec![true; 20], 1, 1);
    assert_eq!(many.len(), 5);
    assert!(many.iter().all(|p| p.primary));
}

#[test]
fn peaks_keep_their_distance() {
    let mut keys = vec![0u32; 100];
    keys[50] = 100;
    keys[45] = 99;
    keys[20] = 50;
    assert_eq!(pick_peaks(keys, 2), vec![50, 20]);
    assert_eq!(tried_start(0, 0, 864), 0);
    assert_eq!(tried_start(0, 1, 864), 0);
    assert_eq!(tried_start(863, 2, 864), 863);
    assert_eq!(tried_start(10, 1, 864), 9);
    assert_eq!(tried_start(10, 2, 864), 11);
    assert_eq!(turn(&vec![1, 2, 3, 4], 1), vec![2, 3, 4, 1]);
}

#[test]
fn windows_round_a_candidate() {
    assert_eq!(candidate_window(1, 864, 7168), Some((0, 2592)));
    assert_eq!(candidate_window(2000, 864, 7168), Some((1135, 3727)));
    assert_eq!(candidate_window(7168, 864, 7168), Some((4576, 7168)));
    assert_eq!(candidate_window(0, 864, 2000), None);
}

#[test]
fn windows_of_a_slot_overlap_by_half() {
    assert!(window_starts(7167).is_empty());
    assert_eq!(window_starts(7168), vec![0]);
    assert_eq!(window_starts(3 * 3584), vec![0, 3584]);
    assert_eq!(window_starts(180_000).len(), 49);
}

#[test]
fn depths_and_patterns() {
    assert_eq!(Depth::from_number(1).n_patterns(), 0);
    assert_eq!(Depth::from_number(2).n_patterns(), 2);
    assert_eq!(Depth::from_number(3).n_patterns(), 4);
    assert_eq!(Depth::from_number(0), Depth::Deep);
    let n: Vec<usize> = AVG_PATTERNS.iter().map(|p| frames_averaged(p)).collect();
    assert_eq!(n, vec![4, 4, 5, 7]);
    assert_eq!(NAV_PATTERNS[5], [1, 1, 1]);
    assert_eq!(ping_method(3), "spd-pat3");
    assert_eq!(short_ping_method(0), "msk40-pat0");
    assert_eq!(average_method(7), "avg-7");
    assert_eq!(accumulated_method(4, 128), "accum-4/128");
}

fn calls(enabled: bool) -> ShortMessageConfig {
    ShortMessageConfig { mycall: " GW4WND".into(), hiscall: "F1ABC ".into(), enabled }
}

#[test]
fn order_of_the_methods() {
    assert_eq!(precheck(7167, true), Err(DecodeFailure::BufferTooShort));
    assert_eq!(precheck(7168, false), Err(DecodeFailure::LowSignal));
    assert_eq!(precheck(7168, true), Ok(Stage::Pings));
    assert_eq!(next_stage(Stage::Pings, None), Some(Stage::Averages));
    assert_eq!(next_stage(Stage::Pings, Some(&calls(false))), Some(Stage::Averages));
    assert_eq!(next_stage(Stage::Pings, Some(&calls(true))), Some(Stage::ShortPings));
    assert_eq!(next_stage(Stage::ShortPings, Some(&calls(true))), Some(Stage::Averages));
    assert_eq!(next_stage(Stage::Averages, None), None);
    assert!(ShortMessageConfig::from_calls(Some("A1A".into()), None).is_none());
    assert!(ShortMessageConfig::from_calls(Some("A1A".into()), Some("B2B".into())).unwrap().usable());
}

fn short_bits(hash: u16, code: u8) -> [u8; 16] {
    let n = hash * 16 + code as u16;
    let mut bits = [0u8; 16];
    for k in 0..16 {
        bits[k] = ((n >> k) & 1) as u8;
    }
    bits
}

#[test]
fn short_messages_of_the_partner() {
    let bits = short_bits(0xABC, 14);
    assert_eq!(short_fields(&bits), (0xABC, 14));
    let read = |bits: &[u8; 16], errors, weak, hash| read_short_message(bits, errors, weak, hash, &calls(true));
    assert_eq!(read(&bits, 4, true, 0xABC).as_deref(), Some("<F1ABC GW4WND> RRR"));
    assert_eq!(read(&short_bits(0xABC, 15), 0, true, 0xABC).as_deref(), Some("<F1ABC GW4WND> 73"));
    assert_eq!(read(&short_bits(0xABC, 7), 0, true, 0xABC).as_deref(), Some("<F1ABC GW4WND> R-03"));
    // Too many errors, grave errors, another station (our own echo among them), a plain report.
    assert_eq!(read(&bits, 5, true, 0xABC), None);
    assert_eq!(read(&bits, 0, false, 0xABC), None);
    assert_eq!(read(&bits, 0, true, 0xABD), None);
    assert_eq!(read(&short_bits(0xABC, 6), 0, true, 0xABC), None);
    assert_eq!(report_name(0), "-03");
    assert_eq!(report_name(13), "R+16");
}

#[test]
fn differing_bits_are_counted() {
    let a = [0u8; 32];
    let mut b = a;
    b[0] = 1;
    b[31] = 1;
    assert_eq!(hamming(&a, &b), 2);
    assert_eq!(hamming(&a, &a), 0);
}

#[test]
fn best_of_all_windows() {
    let mut d = DecodeDiag::new();
    d.note_bad_sync(5);
    d.note_bad_sync(7);
    d.note_hard_errors(20);
    d.note_xmax(30);
    d.note_xmax(10);
    d.note_detmet(4);
    let mut e = DecodeDiag::new();
    e.n_msk144_cands = 3;
    e.note_bad_sync(6);
    e.note_hard_errors(11);
    d.merge(&e);
    assert_eq!(d.n_msk144_cands, 3);
    assert_eq!(d.best_n_bad_sync, Some(5));
    assert_eq!(d.best_n_hard_errors, Some(11));
    assert_eq!((d.best_xmax, d.strongest_detmet), (30, 4));
}

#[test]
fn texts_are_shown_once() {
    let mut seen = SlotTexts::new();
    assert!(seen.insert("CQ A1A"));
    assert!(seen.insert("CQ B2B"));
    assert!(!seen.insert("CQ A1A"));
    assert_eq!(seen.seen, vec!["CQ A1A", "CQ B2B"]);
}

#[test]
fn a_slot_keeps_the_first_of_each_text() {
    let t = |s: &str| Some(s.to_string());
    let found = vec![None, t("CQ A1A"), t("CQ B2B"), t("CQ A1A"), None, t("CQ C3C"), t("CQ B2B")];
    assert_eq!(kept_windows(&found), vec![1, 2, 5]);
    assert!(kept_windows(&vec![None, None]).is_empty());
    assert!(kept_windows(&Vec::new()).is_empty());
}

#[test]
fn the_partner_comes_first() {
    assert_eq!(partner_pair(&calls(true)), ("F1ABC ".to_string(), " GW4WND".to_string()));
    assert_eq!(FRAGMENT_PATTERNS, [[1, 1, 1], [0, 1, 1]]);
}

#[test]
fn brackets_make_a_short_message() {
    assert!(short_form(" <GW4WND F1ABC> 73"));
    assert!(!short_form("GW4WND <F1ABC> 73"));
    assert!(!short_form("<GW4WND F1ABC 73"));
    assert!(!short_form(""));
}

#[test]
fn errors_quote_the_text() {
    let e = EncodeError::InvalidMessage("a \"b\"\n".into());
    assert_eq!(e.message(), "invalid message: \"a \\\"b\\\"\\n\"");
}

#[test]
fn fragments_that_belong_together() {
    assert_eq!(clusters(&vec![false, true, true, false, false, true], 2), vec![(0, 3), (4, 6)]);
    assert_eq!(clusters(&vec![false, true, true, false, false, true], 1), vec![(0, 3), (3, 4), (4, 6)]);
    assert!(clusters(&Vec::new(), 1).is_empty());
}

#[test]
fn echoes_of_a_fragment_are_dropped() {
    let near = vec![vec![], vec![true], vec![true, true], vec![false, false, false]];
    assert_eq!(drop_echoes(&vec![1000, 1100, 2000, 1050], &near), vec![0, 2, 3]);
}

// Conducts a search: `peaks` is what the sync of a job finds, `good` the start that is
// accepted there. Returns the trials and the end.
fn conduct(
    mut search: Search,
    peaks: &dyn Fn(&Job) -> Option<Vec<usize>>,
    good: &dyn Fn(&Job, usize) -> bool,
) -> (Vec<(usize, usize, usize)>, Option<Job>) {
    let mut trials = Vec::new();
    loop {
        match search.action() {
            SearchAction::Sync(job) => match peaks(&job) {
                Some(p) => search.on_sync(true, &p),
                None => search.on_sync(false, &vec![5]),
            },
            SearchAction::Try { job, start } => {
                trials.push((job.candidate, job.pattern, start));
                search.on_try(good(&job, start));
            }
            SearchAction::Found(job) => return (trials, Some(job)),
            SearchAction::Exhausted => return (trials, None),
        }
    }
}

#[test]
fn searches_try_everything_in_order() {
    let search = Search::around(&vec![1, 2000], 864, 7168, 2);
    assert_eq!(search.jobs.len(), 4);
    assert_eq!((search.jobs[0].from, search.jobs[0].to), (0, 2592));
    assert_eq!((search.jobs[3].candidate, search.jobs[3].pattern), (1, 1));
    assert_eq!((search.jobs[3].from, search.jobs[3].to), (1135, 3727));
    // The second pattern of the first candidate finds no sync.
    let peaks = |j: &Job| if (j.candidate, j.pattern) == (0, 1) { None } else { Some(vec![0, 863]) };
    let (trials, end) = conduct(search, &peaks, &|_, _| false);
    let around = [0, 0, 1, 863, 862, 863];
    let mut want = Vec::new();
    for (c, p) in [(0, 0), (1, 0), (1, 1)] {
        want.extend(around.iter().map(|&s| (c, p, s)));
    }
    assert_eq!(trials, want);
    assert_eq!(end, None);
}

#[test]
fn searches_end_with_the_first_hit() {
    let search = Search::within(0, 6912, 864, 4);
    let (trials, end) = conduct(search, &|_| Some(vec![10, 20]), &|j, s| j.pattern >= 1 && s == 21);
    assert_eq!(trials.len(), 6 + 6);
    assert_eq!(trials[11], (0, 1, 21));
    assert_eq!(end.map(|j| j.pattern), Some(1));
    // Candidates without a window, and no candidates at all.
    assert!(Search::around(&vec![0], 864, 2000, 6).jobs.is_empty());
    assert_eq!(conduct(Search::within(0, 1, 864, 0), &|_| None, &|_, _| true).1, None);
}
