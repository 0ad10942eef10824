//! Playing: which rate to play at, how much to play, and how samples become
//! frames.
use vstd::prelude::*;

use crate::audio::{offered, rate_offered};
use crate::audio_devices::{caps, list_output_displays, shown_names, DeviceCaps};
use crate::text::texts;

verus! {

/// Rate of the audio that the protocol makes.
pub const PROTOCOL_RATE: u32 = 12_000;

/// The names to choose an output from.
pub fn list_output_devices(devices: Vec<DeviceCaps>) -> (r: Vec<String>)
    ensures
        texts(r@) == shown_names(caps(devices@)),
{
    list_output_displays(devices)
}

/// The rate to play at: the protocol's own where the device offers it, else the
/// device's default, and the protocol's own again where it tells none.
pub fn pick_hardware_rate(ranges: &Vec<(u32, u32)>, default_rate: Option<u32>) -> (r: u32)
    ensures
        r == (if offered(ranges@, PROTOCOL_RATE) {
            PROTOCOL_RATE
        } else {
            match default_rate {
                Some(rate) => rate,
                None => PROTOCOL_RATE,
            }
        }),
{
    if rate_offered(ranges, PROTOCOL_RATE) {
        PROTOCOL_RATE
    } else {
        match default_rate {
            Some(rate) => rate,
            None => PROTOCOL_RATE,
        }
    }
}

/// Whether audio at this rate can be played: only the protocol's own.
pub fn rate_accepted(desired_rate: u32) -> (r: bool)
    ensures
        r == (desired_rate == 12_000),
{
    desired_rate == PROTOCOL_RATE
}

/// How many samples to play when `ms` milliseconds are cut from the end. Nothing is
/// cut where that would leave nothing.
pub fn truncated_len(len: usize, ms: u32) -> (r: usize)
    ensures
        r == (if len > ms * 12_000 / 1000 {
            len - ms * 12_000 / 1000
        } else {
            len as int
        }),
        r <= len,
        len > 0 ==> r > 0,
        r < len ==> len - r == 12 * ms,
        len > 12 * ms ==> r == len - 12 * ms,
{
    let trim: u64 = ms as u64 * PROTOCOL_RATE as u64 / 1000;
    if len as u64 > trim {
        (len as u64 - trim) as usize
    } else {
        len
    }
}

/// The number of channels to play on: one where the device takes that, else as many
/// as it has by default, where it says so.
pub fn output_channels(takes_mono: bool, default_channels: Option<u16>) -> (r: usize)
    ensures
        r == (if takes_mono {
            1
        } else {
            match default_channels {
                Some(n) => n,
                None => 1,
            }
        }),
{
    if takes_mono {
        1
    } else {
        match default_channels {
            Some(n) => n as usize,
            None => 1,
        }
    }
}

/// Whether playing has come to its end: all samples were taken, or two seconds have
/// passed since they should have been.
pub fn playback_over(done: bool, elapsed_ms: u64, samples: usize, rate: u32) -> (r: bool)
    requires
        rate > 0,
    ensures
        r == (done || elapsed_ms * rate > samples * 1000 + 2000 * rate),
{
    assert(elapsed_ms * rate <= u64::MAX * u32::MAX) by (nonlinear_arith)
        requires
            elapsed_ms <= u64::MAX,
            rate <= u32::MAX,
    ;
    let played: u128 = elapsed_ms as u128 * rate as u128;
    let length: u128 = samples as u128 * 1000 + 2000 * rate as u128;
    done || played > length
}

/// What one callback plays: each sample goes to the first channel of its frame, the
/// others are silent, and so are the frames that no sample is left for. Samples
/// behind the last whole frame of several channels stay as they are.
pub open spec fn played<T>(before: Seq<T>, buf: Seq<T>, channels: int, silence: T) -> Seq<T> {
    let needed = before.len() as int / channels;
    let copied = if buf.len() <= needed {
        buf.len() as int
    } else {
        needed
    };
    Seq::new(
        before.len(),
        |i: int|
            if i / channels < copied {
                if i % channels == 0 {
                    buf[i / channels]
                } else {
                    silence
                }
            } else if copied < needed || channels == 1 {
                silence
            } else {
                before[i]
            },
    )
}

proof fn lemma_frame(i: int, f: int, c: int, channels: int)
    requires
        channels > 0,
        0 <= c < channels,
        i == f * channels + c,
    ensures
        i / channels == f,
        i % channels == c,
{
    vstd::arithmetic::div_mod::lemma_fundamental_div_mod_converse(i, channels, f, c);
}

/// Fills what a callback plays and returns the number of samples that it has
/// used.
pub fn fill_frames<T: Copy>(out: &mut [T], buf: &[T], channels: usize, silence: T) -> (copied: usize)
    requires
        channels > 0,
    ensures
        final(out)@ == played(old(out)@, buf@, channels as int, silence),
        copied == (if buf@.len() <= old(out)@.len() as int / channels as int {
            buf@.len() as int
        } else {
            old(out)@.len() as int / channels as int
        }),
{
    let n: usize = out.len();
    let needed: usize = n / channels;
    let copied: usize = if buf.len() <= needed {
        buf.len()
    } else {
        needed
    };
    let ghost before = out@;
    let ghost want = played(before, buf@, channels as int, silence);
    let mut f: usize = 0;
    let mut c: usize = 0;
    let mut i: usize = 0;
    while i < n
        invariant
            i <= n == out@.len() == before.len(),
            channels > 0,
            c < channels,
            i == f * channels + c,
            needed == n / channels,
            copied <= needed,
            copied <= buf@.len(),
            copied == buf@.len() || copied == needed,
            buf@.len() <= needed ==> copied == buf@.len(),
            want == played(before, buf@, channels as int, silence),
            forall|k: int| 0 <= k < i ==> #[trigger] out@[k] == want[k],
            forall|k: int| i <= k < n ==> #[trigger] out@[k] == before[k],
        decreases n - i,
    {
        proof {
            lemma_frame(i as int, f as int, c as int, channels as int);
        }
        if f < copied {
            out[i] = if c == 0 {
                buf[f]
            } else {
                silence
            };
        } else if copied < needed || channels == 1 {
            out[i] = silence;
        }
        assert(out@[i as int] == want[i as int]);
        i = i + 1;
        c = c + 1;
        if c == channels {
            assert(i == (f + 1) * channels) by (nonlinear_arith)
                requires
                    i == f * channels + channels,
            ;
            assert(f < i) by (nonlinear_arith)
                requires
                    i == (f + 1) * channels,
                    channels > 0,
            ;
            f = f + 1;
            c = 0;
        }
    }
    assert(out@ =~= want);
    copied
}

/// A single channel plays the samples in a row and silence behind them.
pub proof fn law_mono_plays_in_order<T>(before: Seq<T>, buf: Seq<T>, silence: T, i: int)
    requires
        0 <= i < before.len(),
    ensures
        played(before, buf, 1, silence)[i] == (if i < buf.len() {
            buf[i]
        } else {
            silence
        }),
{
}

/// Frame `k` of what is played has sample `k` in its first channel and silence in the
/// others; where no sample is left for a frame, all its channels are silent.
pub proof fn law_first_channel_plays<T>(before: Seq<T>, buf: Seq<T>, channels: int, silence: T, k: int, c: int)
    requires
        channels > 0,
        0 <= k,
        0 <= c < channels,
        k < before.len() as int / channels,
        0 <= k * channels + c < before.len(),
    ensures
        ({
            let p = played(before, buf, channels, silence);
            &&& p.len() == before.len()
            &&& k < buf.len() && c == 0 ==> p[k * channels + c] == buf[k]
            &&& k < buf.len() && c > 0 ==> p[k * channels + c] == silence
            &&& k >= buf.len() ==> p[k * channels + c] == silence
        }),
{
    vstd::arithmetic::div_mod::lemma_fundamental_div_mod_converse(k * channels + c, channels, k, c);
}

} // verus!
