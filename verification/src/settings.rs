//! The settings that the library's own rules read or set. Levels, frequencies and
//! other measured values are the application's.
use vstd::prelude::*;
use vstd::string::*;

use crate::proto::opt_text;
use crate::text::{is_white, law_trim_takes_white_space, trim, trimmed, upper};

verus! {

/// Sound devices.
#[derive(Debug, Clone, PartialEq, Eq)]
pub struct AudioConfig {
    pub input_device: Option<String>,
    pub output_device: Option<String>,
    pub sample_rate: u32,
    pub buffer_size: usize,
}

impl Default for AudioConfig {
    fn default() -> (r: Self)
        ensures
            r.input_device is None,
            r.output_device is None,
            r.sample_rate == 12000,
            r.buffer_size == 1024,
    {
        AudioConfig { input_device: None, output_device: None, sample_rate: 12000, buffer_size: 1024 }
    }
}

/// The station, its radio and where it reports to.
#[derive(Debug, Clone, PartialEq, Eq)]
pub struct StationConfig {
    pub callsign: String,
    pub grid: Option<String>,
    pub auto_reply_cq: bool,
    pub auto_73: bool,
    pub band: Option<String>,
    pub hamlib_enabled: bool,
    pub rigctld_host: String,
    pub rigctld_port: u16,
    pub rig_model: String,
    pub rig_port: String,
    pub rig_baud: String,
    pub auto_launch_rigctld: bool,
    pub tx_output_device: Option<String>,
    pub slot_period_secs: u32,
    pub tx_parity: String,
    pub ptt_delay_ms: u32,
    pub udp_logging_enabled: bool,
    pub udp_logging_host: String,
    pub udp_logging_port: u16,
    pub psk_reporter_enabled: bool,
    pub psk_reporter_antenna: String,
}

impl Default for StationConfig {
    fn default() -> (r: Self)
        ensures
            r.callsign@ == "NOCALL"@,
            r.grid is None,
            !r.auto_reply_cq,
            !r.auto_73,
            opt_text(r.band) == Some("2M"@),
            !r.hamlib_enabled,
            r.rigctld_host@ == "localhost"@,
            r.rigctld_port == 4532,
            r.rig_model@ == Seq::<char>::empty(),
            r.rig_port@ == Seq::<char>::empty(),
            r.rig_baud@ == "19200"@,
            r.auto_launch_rigctld,
            r.tx_output_device is None,
            r.slot_period_secs == 30,
            r.tx_parity@ == "Odd"@,
            r.ptt_delay_ms == 0,
            !r.udp_logging_enabled,
            r.udp_logging_host@ == "127.0.0.1"@,
            r.udp_logging_port == 2237,
            !r.psk_reporter_enabled,
            r.psk_reporter_antenna@ == Seq::<char>::empty(),
    {
        StationConfig {
            callsign: "NOCALL".to_owned(),
            grid: None,
            auto_reply_cq: false,
            auto_73: false,
            band: Some("2M".to_owned()),
            hamlib_enabled: false,
            rigctld_host: "localhost".to_owned(),
            rigctld_port: 4532,
            rig_model: String::new(),
            rig_port: String::new(),
            rig_baud: "19200".to_owned(),
            auto_launch_rigctld: true,
            tx_output_device: None,
            slot_period_secs: 30,
            tx_parity: "Odd".to_owned(),
            ptt_delay_ms: 0,
            udp_logging_enabled: false,
            udp_logging_host: "127.0.0.1".to_owned(),
            udp_logging_port: 2237,
            psk_reporter_enabled: false,
            psk_reporter_antenna: String::new(),
        }
    }
}

/// What the decoder tries.
#[derive(Debug, Clone, PartialEq, Eq)]
pub struct DecoderConfig {
    pub depth: String,
    pub msk40_enabled: bool,
    pub accumulator_enabled: bool,
}

impl Default for DecoderConfig {
    fn default() -> (r: Self)
        ensures
            r.depth@ == "Deep"@,
            !r.msk40_enabled,
            !r.accumulator_enabled,
    {
        DecoderConfig { depth: "Deep".to_owned(), msk40_enabled: false, accumulator_enabled: false }
    }
}

/// What the window shows.
#[derive(Debug, Clone, PartialEq, Eq)]
pub struct UiConfig {
    pub logbook_expanded: bool,
    pub max_rx_entries: usize,
    pub max_spots_entries: usize,
}

impl Default for UiConfig {
    fn default() -> (r: Self)
        ensures
            !r.logbook_expanded,
            r.max_rx_entries == 500,
            r.max_spots_entries == 200,
    {
        UiConfig { logbook_expanded: false, max_rx_entries: 500, max_spots_entries: 200 }
    }
}

/// All settings.
#[derive(Debug, Clone, PartialEq, Eq)]
pub struct Settings {
    pub audio: AudioConfig,
    pub station: StationConfig,
    pub decoder: DecoderConfig,
    pub ui: UiConfig,
}

impl Default for Settings {
    fn default() -> (r: Self)
        ensures
            call_ensures(AudioConfig::default, (), r.audio),
            call_ensures(StationConfig::default, (), r.station),
            call_ensures(DecoderConfig::default, (), r.decoder),
            call_ensures(UiConfig::default, (), r.ui),
    {
        Settings {
            audio: AudioConfig::default(),
            station: StationConfig::default(),
            decoder: DecoderConfig::default(),
            ui: UiConfig::default(),
        }
    }
}

/// The values of the environment that override settings.
#[derive(Debug, Clone, PartialEq, Eq)]
pub struct Overrides {
    pub callsign: Option<String>,
    pub rx_in: Option<String>,
    pub tx_out: Option<String>,
    pub grid: Option<String>,
}

/// The name of the environment variable that overrides a setting.
pub open spec fn override_name(app_name: Seq<char>, setting: Seq<char>) -> Seq<char> {
    upper(app_name) + "_"@ + setting
}

/// The name of the environment variable that overrides a setting, such as
/// `CALLSIGN`, `RX_IN`, `TX_OUT` or `GRID`.
pub fn override_variable(app_name: &str, setting: &str) -> (r: String)
    ensures
        r@ == override_name(app_name@, setting@),
{
    let mut s = app_name.to_uppercase();
    s.append("_");
    s.append(setting);
    s
}

/// What an environment variable says, if it says anything but white space.
pub open spec fn given(v: Option<Seq<char>>) -> Option<Seq<char>> {
    match v {
        Some(t) => if trim(t).len() > 0 {
            Some(trim(t))
        } else {
            None
        },
        None => None,
    }
}

fn said(v: &Option<String>) -> (r: Option<&str>)
    ensures
        match r {
            Some(t) => given(opt_text(*v)) == Some(t@),
            None => given(opt_text(*v)) is None,
        },
{
    match v {
        Some(t) => {
            let t = trimmed(t.as_str());
            if t.is_empty() {
                None
            } else {
                Some(t)
            }
        },
        None => None,
    }
}

impl Settings {
    /// Applies the environment: what it says, without the white space around it,
    /// takes the place of the setting. Callsign and locator are put into upper
    /// case. What it does not say stays.
    pub fn apply_env_overrides(&mut self, env: &Overrides)
        ensures
            final(self).station.callsign@ == (match given(opt_text(env.callsign)) {
                Some(v) => upper(v),
                None => old(self).station.callsign@,
            }),
            opt_text(final(self).audio.input_device) == (match given(opt_text(env.rx_in)) {
                Some(v) => Some(v),
                None => opt_text(old(self).audio.input_device),
            }),
            opt_text(final(self).audio.output_device) == (match given(opt_text(env.tx_out)) {
                Some(v) => Some(v),
                None => opt_text(old(self).audio.output_device),
            }),
            opt_text(final(self).station.grid) == (match given(opt_text(env.grid)) {
                Some(v) => Some(upper(v)),
                None => opt_text(old(self).station.grid),
            }),
            *final(self) == (Settings {
                audio: AudioConfig {
                    input_device: final(self).audio.input_device,
                    output_device: final(self).audio.output_device,
                    ..old(self).audio
                },
                station: StationConfig {
                    callsign: final(self).station.callsign,
                    grid: final(self).station.grid,
                    ..old(self).station
                },
                ..*old(self)
            }),
    {
        if let Some(v) = said(&env.callsign) {
            self.station.callsign = v.to_uppercase();
        }
        if let Some(v) = said(&env.rx_in) {
            self.audio.input_device = Some(v.to_owned());
        }
        if let Some(v) = said(&env.tx_out) {
            self.audio.output_device = Some(v.to_owned());
        }
        if let Some(v) = said(&env.grid) {
            self.station.grid = Some(v.to_uppercase());
        }
    }
}

/// What counts as given: a text with anything in it but white space, without the
/// white space around it.
pub proof fn law_what_is_given(t: Seq<char>)
    ensures
        given(None) is None,
        given(Some(t)) is None <==> (forall|i: int| 0 <= i < t.len() ==> is_white(#[trigger] t[i])),
        given(Some(t)) matches Some(v) ==> v == trim(t) && v.len() > 0 && !is_white(v[0]) && !is_white(v.last()),
{
    law_trim_takes_white_space(t);
    let (a, b) = choose|a: int, b: int|
        0 <= a <= b <= t.len() && trim(t) == #[trigger] t.subrange(a, b) && (forall|i: int|
            0 <= i < a || b <= i < t.len() ==> is_white(#[trigger] t[i]));
    if trim(t).len() > 0 {
        assert(t[a] == trim(t)[0]);
    } else {
        assert forall|i: int| 0 <= i < t.len() implies is_white(#[trigger] t[i]) by {}
    }
}

/// The variable that overrides a setting bears the application's name in upper case,
/// an underscore and the name of the setting.
pub proof fn law_override_name(app_name: Seq<char>, setting: Seq<char>)
    ensures
        ({
            let n = override_name(app_name, setting);
            let u = upper(app_name);
            &&& n.subrange(0, u.len() as int) == u
            &&& n[u.len() as int] == '_'
            &&& n.subrange(u.len() as int + 1, n.len() as int) == setting
        }),
{
    reveal_strlit("_");
    let n = override_name(app_name, setting);
    let u = upper(app_name);
    assert(n.subrange(0, u.len() as int) =~= u);
    assert(n.subrange(u.len() as int + 1, n.len() as int) =~= setting);
}

} // verus!
