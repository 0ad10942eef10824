use msk144plus::hamlib::{
    band_from_freq_hz, parse_freq, parse_mode, parse_result, step, wait_or_disconnect, HamlibClient, HamlibCmd,
    HamlibUpdate, RigAction, RigEvent, RigState,
};
use msk144plus::logger::{log_line, terminated, timestamp, DailyFile};
use msk144plus::paths::{capture_file, default_adif_path, home_or_here, join, sanitise, Paths};
use msk144plus::recorder::{Recorder, SaveConfig};
use msk144plus::rigctld::{
    bundled_places, choose_binary, common_rig_models, list_serial_ports, not_after, DeviceTree, RigctldLauncher,
    RigctldOpts,
};
use msk144plus::settings::{override_variable, Overrides, Settings};

#[test]
fn band_lookup_2m() {
    assert_eq!(band_from_freq_hz(144_360_000), Some("2M"));
    assert_eq!(band_from_freq_hz(145_500_000), Some("2M"));
}

#[test]
fn band_lookup_70cm() {
    assert_eq!(band_from_freq_hz(432_200_000), Some("70CM"));
}

#[test]
fn band_lookup_outside() {
    assert_eq!(band_from_freq_hz(100_000_000), None);
    assert_eq!(band_from_freq_hz(2_500_000_000), None);
}

#[test]
fn band_lookup_hf() {
    assert_eq!(band_from_freq_hz(14_074_000), Some("20M"));
    assert_eq!(band_from_freq_hz(7_074_000), Some("40M"));
    assert_eq!(band_from_freq_hz(28_500_000), Some("10M"));
}

#[test]
fn paths_msk144plus() {
    let p = Paths::new("msk144plus");
    assert_eq!(p.app_name, "msk144plus");
    assert!(p.config_dir.ends_with("/.msk144plus"));
    assert!(p.config_file.ends_with("/config.toml"));
    assert!(p.db_file.ends_with("/msk144plus.sqlite"));
    assert!(p.log_dir.ends_with("/logs"));
    assert!(p.captures_dir.ends_with("/captures"));
    assert!(p.adif_file.ends_with("msk144plus_log.adi"));
    // The root is the home directory, or the current one where there is none.
    let root = home_or_here(dirs::home_dir().map(|h| h.to_string_lossy().into_owned()));
    assert_eq!(home_or_here(None), ".");
    assert_eq!(home_or_here(Some("/home/op".into())), "/home/op");
    assert_eq!(p.config_dir, join(&root, ".msk144plus"));
    assert_eq!(p.adif_file, default_adif_path("MSK144plus"));
}

#[test]
fn capture_filename_sanitises() {
    let p = Paths::new("msk144plus");
    let path = p.capture_path("DL/G7VZN");
    let fname = path.rsplit('/').next().unwrap();
    assert!(fname.contains("DL_G7VZN"), "got fname: {}", fname);
    assert!(fname.ends_with(".wav"));
}

#[test]
fn case_insensitive() {
    let p = Paths::new("MSK144PLUS");
    assert_eq!(p.app_name, "msk144plus");
}

#[test]
fn paths_below_a_root() {
    let p = Paths::new_with_root("MSK144plus", "/tmp/instB");
    assert_eq!(p.config_dir, "/tmp/instB/.msk144plus");
    assert_eq!(p.config_file, "/tmp/instB/.msk144plus/config.toml");
    assert_eq!(p.db_file, "/tmp/instB/.msk144plus/msk144plus.sqlite");
    assert_eq!(p.log_dir, "/tmp/instB/.msk144plus/logs");
    assert_eq!(p.captures_dir, "/tmp/instB/.msk144plus/captures");
    assert_eq!(p.adif_file, "/tmp/instB/msk144plus_log.adi");
    assert_eq!(p.log_file_at(1714200000000), "/tmp/instB/.msk144plus/logs/msk144plus_20240427.log");
    assert_eq!(p.captures_dir_at(1714200000000), "/tmp/instB/.msk144plus/captures/20240427");
    assert_eq!(
        p.capture_path_on(1714200000000, "141532", "DL/G7VZN"),
        "/tmp/instB/.msk144plus/captures/20240427/141532_DL_G7VZN.wav"
    );
    assert_eq!(capture_file("141532", "DL/G7VZN"), "141532_DL_G7VZN.wav");
    assert_eq!(sanitise("a b/\u{e9}9"), "a_b__9");
    assert_eq!(join("/a/", "b"), "/a/b");
    assert_eq!(join("/a", "/b"), "/b");
}

#[test]
fn todays_files_carry_todays_date() {
    let before = chrono::Utc::now().format("%Y%m%d").to_string();
    let p = Paths::new_with_root("x", "/r");
    let log = p.log_file_today();
    let dir = p.captures_dir_today();
    let cap = p.capture_path_at("010203", "A1A");
    let after = chrono::Utc::now().format("%Y%m%d").to_string();
    let fits = |s: &str, f: &dyn Fn(&str) -> String| s == f(&before) || s == f(&after);
    assert!(fits(&log, &|d| format!("/r/.x/logs/x_{}.log", d)), "{}", log);
    assert!(fits(&dir, &|d| format!("/r/.x/captures/{}", d)), "{}", dir);
    assert!(fits(&cap, &|d| format!("/r/.x/captures/{}/010203_A1A.wav", d)), "{}", cap);
}

fn recorder(pre: u32, post: u32) -> Recorder {
    Recorder::new(SaveConfig {
        sample_rate: 12000,
        pre_roll_secs: pre,
        post_roll_secs: post,
        captures_root: "captures".into(),
    })
}

#[test]
fn roundtrip_save() {
    let mut rec = recorder(1, 1);
    let pre: Vec<i16> = (0..12000).map(|i| ((i as f32) % 100.0) as i16).collect();
    assert!(rec.push_audio(&pre).is_empty());
    let target = rec.trigger_save("test.wav".into());
    assert_eq!(target, "test.wav");
    let post: Vec<i16> = (0..12000).map(|i| ((i as f32 + 5000.0) % 100.0) as i16).collect();
    let done = rec.push_audio(&post);
    assert_eq!(done.len(), 1);
    assert_eq!(done[0].target_path, "test.wav");
    let n = done[0].pre_roll_snapshot.len() + done[0].post_roll.len();
    assert!(n == 24000 || n == 23999, "got {} samples (expected 24000)", n);
    assert_eq!(done[0].pre_roll_snapshot, pre);
    assert_eq!(done[0].post_roll, post);
    assert_eq!(rec.pending_count(), 0);
}

#[test]
fn saves_do_not_depend_on_chunks() {
    let audio: Vec<i16> = (0..40000).map(|i| (i % 7919) as i16).collect();
    let mut whole = recorder(1, 2);
    let mut parts = recorder(1, 2);
    let _ = whole.push_audio(&audio[..15000]);
    let mut k = 0;
    while k < 15000 {
        let n = (k % 700 + 1).min(15000 - k);
        let _ = parts.push_audio(&audio[k..k + n]);
        k += n;
    }
    assert_eq!(whole.ring, parts.ring);
    assert_eq!(whole.ring.len(), 12000);
    let _ = whole.trigger_save("a.wav".into());
    let _ = parts.trigger_save("a.wav".into());
    let a = whole.push_audio(&audio[15000..]);
    let mut b = Vec::new();
    while k < 40000 {
        let n = (k % 900 + 1).min(40000 - k);
        b.extend(parts.push_audio(&audio[k..k + n]));
        k += n;
    }
    assert_eq!(a.len(), 1);
    assert_eq!(b.len(), 1);
    assert_eq!(a[0].pre_roll_snapshot, &audio[3000..15000]);
    assert_eq!(a[0].post_roll, &audio[15000..39000]);
    assert_eq!(b[0].pre_roll_snapshot, a[0].pre_roll_snapshot);
    assert_eq!(b[0].post_roll, a[0].post_roll);
}

#[test]
fn saves_end_with_their_post_roll() {
    let mut rec = Recorder::new(SaveConfig {
        sample_rate: 2,
        pre_roll_secs: 1,
        post_roll_secs: 1,
        captures_root: "captures".into(),
    });
    let _ = rec.push_audio(&[1, 2, 3]);
    let _ = rec.trigger_save("a.wav".into());
    let saved = rec.push_audio(&[4, 5, 6, 7]);
    assert_eq!(rec.pending_count(), 0);
    assert_eq!(saved.len(), 1);
    assert_eq!(saved[0].pre_roll_snapshot, vec![2, 3]);
    assert_eq!(saved[0].post_roll, vec![4, 5]);
    assert_eq!(rec.ring.iter().copied().collect::<Vec<i16>>(), vec![6, 7]);
}

#[test]
fn own_transmission_is_not_recorded() {
    let mut rec = recorder(1, 1);
    let _ = rec.push_audio(&[1, 2, 3]);
    let _ = rec.trigger_save("a.wav".into());
    let _ = rec.push_audio(&[4]);
    let saved = rec.set_tx_active(true);
    assert_eq!(saved.len(), 1);
    assert_eq!(saved[0].pre_roll_snapshot, vec![1, 2, 3]);
    assert_eq!(saved[0].post_roll, vec![4]);
    assert!(rec.push_audio(&[5, 6]).is_empty());
    assert!(rec.set_tx_active(true).is_empty());
    assert!(rec.set_tx_active(false).is_empty());
    let _ = rec.push_audio(&[7]);
    assert_eq!(rec.ring.iter().copied().collect::<Vec<i16>>(), vec![1, 2, 3, 4, 7]);
}

#[test]
fn flush_hands_out_what_is_pending() {
    let mut rec = recorder(0, 1);
    let _ = rec.push_audio(&[1]);
    let _ = rec.trigger_save("a.wav".into());
    let _ = rec.trigger_save("b.wav".into());
    let _ = rec.push_audio(&[2]);
    assert_eq!(rec.pending_count(), 2);
    let saved = rec.flush();
    assert_eq!(saved.len(), 2);
    assert_eq!(saved[0].target_path, "a.wav");
    assert_eq!(saved[1].target_path, "b.wav");
    assert_eq!(saved[1].post_roll, vec![2]);
    assert!(saved[0].pre_roll_snapshot.is_empty());
    assert_eq!(rec.pending_count(), 0);
}

fn none() -> Overrides {
    Overrides { callsign: None, rx_in: None, tx_out: None, grid: None }
}

#[test]
fn env_override_callsign() {
    assert_eq!(override_variable("msk144plus", "CALLSIGN"), "MSK144PLUS_CALLSIGN");
    let mut cfg = Settings::default();
    cfg.apply_env_overrides(&Overrides { callsign: Some("gw4wnd".into()), ..none() });
    assert_eq!(cfg.station.callsign, "GW4WND");
}

#[test]
fn other_overrides() {
    let mut cfg = Settings::default();
    cfg.apply_env_overrides(&Overrides {
        callsign: None,
        rx_in: Some("USB in".into()),
        tx_out: Some("USB out".into()),
        grid: Some("io82km".into()),
    });
    assert_eq!(cfg.station.callsign, Settings::default().station.callsign);
    assert_eq!(cfg.audio.input_device.as_deref(), Some("USB in"));
    assert_eq!(cfg.audio.output_device.as_deref(), Some("USB out"));
    assert_eq!(cfg.station.grid.as_deref(), Some("IO82KM"));
    let before = cfg.clone();
    cfg.apply_env_overrides(&none());
    assert_eq!(cfg, before);
}

#[test]
fn default_settings() {
    let cfg = Settings::default();
    assert_eq!(cfg.audio.sample_rate, 12000);
    assert_eq!(cfg.audio.input_device, None);
    assert_eq!(cfg.station.rigctld_port, 4532);
    assert_eq!(cfg.station.slot_period_secs, 30);
    assert_eq!(cfg.station.udp_logging_port, 2237);
    assert!(!cfg.station.psk_reporter_enabled);
}

#[test]
fn log_lines() {
    assert_eq!(timestamp(1714200000007), "2024-04-27T06:40:00Z");
    assert_eq!(
        log_line(1714200000007, "INFO", "engine", "hello"),
        "[2024-04-27T06:40:00Z INFO engine] hello"
    );
    assert_eq!(terminated("x"), "x\n");
}

#[test]
fn log_file_changes_with_the_day() {
    let mut f = DailyFile::new();
    assert!(f.rotate("20240427", false));
    assert!(!f.rotate("20240427", true));
    assert!(f.rotate("20240427", false));
    assert!(f.rotate("20240428", true));
    assert_eq!(f.current_date, "20240428");
}

#[test]
fn commands_come_out_in_order() {
    let mut c = HamlibClient::new();
    c.set_ptt(true);
    c.set_freq(144_360_000);
    c.refresh();
    c.refresh_mode();
    c.disconnect();
    let mut out = Vec::new();
    while let Some(cmd) = c.take_cmd() {
        out.push(cmd);
    }
    assert_eq!(
        out,
        vec![
            HamlibCmd::Ptt(true),
            HamlibCmd::SetFreq(144_360_000),
            HamlibCmd::GetFreq,
            HamlibCmd::GetMode,
            HamlibCmd::Disconnect
        ]
    );
}

#[test]
fn dialogue_with_the_radio() {
    let text = |s: &RigState| match s.action() {
        RigAction::Exchange { text, lines } => (text, lines),
        _ => panic!("no exchange"),
    };
    let (s, u) = step(RigState::Connecting, &RigEvent::Connected);
    assert_eq!(s, RigState::First);
    assert_eq!(u, Some(HamlibUpdate { freq_hz: None, mode: None, connected: true }));
    assert_eq!(text(&s), ("f\n".to_string(), 1));
    let (s, u) = step(s, &RigEvent::Reply(Some("144360000".into())));
    assert_eq!(s, RigState::Ready);
    let u = u.expect("told of the connection");
    assert_eq!((u.freq_hz, u.connected), (Some(144_360_000), true));
    let (s, u) = step(s, &RigEvent::Command(HamlibCmd::SetFreq(50_260_000)));
    assert!(u.is_none());
    assert_eq!(text(&s), ("F 50260000\n".to_string(), 1));
    let (s, _) = step(s, &RigEvent::Reply(Some("RPRT 0".into())));
    assert_eq!(s, RigState::Readback);
    let (s, u) = step(s, &RigEvent::Reply(Some("50260000".into())));
    assert_eq!(s, RigState::Ready);
    assert_eq!(u.and_then(|u| u.freq_hz), Some(50_260_000));
    let (s, _) = step(s, &RigEvent::Command(HamlibCmd::Ptt(true)));
    assert_eq!(text(&s), ("T 1\n".to_string(), 1));
    let (s, u) = step(s, &RigEvent::SendFailed);
    assert_eq!(u.map(|u| u.connected), Some(false));
    assert_eq!(s, RigState::Connecting);
    let (s, u) = step(s, &RigEvent::ConnectFailed);
    assert_eq!(s, RigState::Backoff);
    assert_eq!(u.map(|u| u.connected), Some(false));
    let (s, _) = step(s, &RigEvent::Command(HamlibCmd::Disconnect));
    assert_eq!(s, RigState::Stopped);
    assert!(matches!(s.action(), RigAction::Stop));
}

#[test]
fn answers_of_the_radio() {
    let some = |s: &str| Some(s.to_string());
    assert_eq!(parse_freq(&some(" 144360000 ")), Some(144_360_000));
    assert_eq!(parse_freq(&some("RPRT -1")), None);
    assert_eq!(parse_freq(&None), None);
    assert_eq!(parse_mode(&some("USB\n")).as_deref(), Some("USB"));
    assert_eq!(parse_mode(&None), None);
    assert_eq!(parse_mode(&some("  ")), None);
    assert_eq!(parse_result("RPRT 0"), Some(0));
    assert_eq!(parse_result("RPRT -11"), Some(-11));
    assert_eq!(parse_result("OK"), None);
    assert!(wait_or_disconnect(&RigEvent::Closed));
    assert!(wait_or_disconnect(&RigEvent::Command(HamlibCmd::Disconnect)));
    assert!(!wait_or_disconnect(&RigEvent::Timeout));
    assert!(!wait_or_disconnect(&RigEvent::Command(HamlibCmd::GetFreq)));
}

#[test]
fn rigctld_is_started_with_the_options() {
    let opts = RigctldOpts { model: "3081".into(), port: "/dev/ttyUSB0".into(), baud: 19200, listen_port: 4532 };
    assert_eq!(
        RigctldLauncher::arguments(&opts),
        ["-m", "3081", "-r", "/dev/ttyUSB0", "-s", "19200", "-t", "4532", "-P", "RIG"]
    );
    assert_eq!(
        RigctldLauncher::quiet_arguments(&opts),
        ["-F", "/dev/ttyUSB0", "-hupcl", "-crtscts", "19200"]
    );
}

#[test]
fn bundled_program_comes_first() {
    let places = bundled_places("/opt/app", "rigctld");
    assert_eq!(places.0, "/opt/app/rigctld");
    assert_eq!(choose_binary(&places, true, true, "rigctld"), places.0);
    assert_eq!(choose_binary(&places, false, true, "rigctld"), places.1);
    assert_eq!(choose_binary(&places, false, false, "rigctld"), "rigctld");
}

#[test]
fn serial_ports_are_listed_in_order() {
    let names: Vec<String> =
        ["ttyUSB1", "null", "ttyACM0", "ttyUSB0", "tty0"].iter().map(|s| s.to_string()).collect();
    assert_eq!(
        list_serial_ports(DeviceTree::Linux, &names),
        vec!["/dev/ttyACM0", "/dev/ttyUSB0", "/dev/ttyUSB1"]
    );
    assert!(list_serial_ports(DeviceTree::Linux, &Vec::new()).is_empty());
    assert!(not_after("a", "a") && not_after("", "a") && not_after("a", "ab") && !not_after("b", "ab"));
}

#[test]
fn rig_models_have_numbers() {
    let models = common_rig_models();
    assert!(!models.is_empty());
    for (number, name) in models {
        assert!(number.parse::<u32>().is_ok(), "{} {}", number, name);
        assert!(!name.is_empty());
    }
}
