//! Recording: which rate to open a device at, when its audio was captured, and
//! how it is cut into blocks.
use vstd::prelude::*;
use vstd::string::*;

use crate::audio_devices::{caps, list_input_displays, shown_names, DeviceCaps};
use crate::proto::opt_text;
use crate::text::{decimal, push_decimal, same, texts};

verus! {

/// Rate that recordings are wanted at.
pub const DEFAULT_SAMPLE_RATE: u32 = 12000;

/// Number of samples that a block has before it is resampled.
pub const BLOCK_SAMPLES: usize = 1024;

/// The names to choose an input from.
pub fn list_input_devices(devices: Vec<DeviceCaps>) -> (r: Vec<String>)
    ensures
        texts(r@) == shown_names(caps(devices@)),
{
    list_input_displays(devices)
}

/// The clock of the sound device against the wall clock: the instant of the first
/// callback, in milliseconds since 1970.
#[derive(Debug)]
pub struct CaptureCalibration {
    pub t0_unix_ms: Option<i64>,
}

impl CaptureCalibration {
    /// No callback has come yet.
    pub fn new() -> (r: Self)
        ensures
            r.t0_unix_ms is None,
    {
        CaptureCalibration { t0_unix_ms: None }
    }

    /// When a block was captured. The first one anchors the clock at `now_ms`;
    /// every later one lies `since_first_ms` after the first.
    pub fn capture_to_unix_ms(&mut self, since_first_ms: u64, now_ms: i64) -> (r: i64)
        requires
            old(self).t0_unix_ms matches Some(t0) ==> t0 + since_first_ms <= i64::MAX,
        ensures
            old(self).t0_unix_ms matches Some(t0) ==> r == t0 + since_first_ms && final(self).t0_unix_ms == Some(
                t0,
            ),
            old(self).t0_unix_ms is None ==> r == now_ms && final(self).t0_unix_ms == Some(now_ms),
    {
        match self.t0_unix_ms {
            Some(t0) => ((t0 as i128) + (since_first_ms as i128)) as i64,
            None => {
                self.t0_unix_ms = Some(now_ms);
                now_ms
            },
        }
    }
}

/// How a device is opened.
#[derive(Debug, Clone, Copy, PartialEq, Eq, Structural)]
pub enum CapturePlan {
    /// At the wanted rate.
    Native,
    /// At the wanted rate, and if that fails at its own rate with resampling.
    NativeElseResample,
    /// At its own rate with resampling.
    Resample,
}

/// A rate lies in one of the ranges, given by their lowest and highest rate.
pub open spec fn offered(ranges: Seq<(u32, u32)>, rate: u32) -> bool {
    exists|k: int| 0 <= k < ranges.len() && (#[trigger] ranges[k]).0 <= rate <= ranges[k].1
}

/// Whether a rate lies in one of the ranges.
pub fn rate_offered(ranges: &Vec<(u32, u32)>, rate: u32) -> (r: bool)
    ensures
        r == offered(ranges@, rate),
{
    let mut i: usize = 0;
    while i < ranges.len()
        invariant
            i <= ranges@.len(),
            forall|k: int| 0 <= k < i ==> !((#[trigger] ranges@[k]).0 <= rate <= ranges@[k].1),
        decreases ranges.len() - i,
    {
        if ranges[i].0 <= rate && rate <= ranges[i].1 {
            return true;
        }
        i = i + 1;
    }
    false
}

/// How to open a device for a wanted rate.
pub fn capture_plan(native_rate: u32, target_rate: u32, ranges: &Vec<(u32, u32)>) -> (r: CapturePlan)
    ensures
        r == (if native_rate == target_rate {
            CapturePlan::Native
        } else if offered(ranges@, target_rate) {
            CapturePlan::NativeElseResample
        } else {
            CapturePlan::Resample
        }),
{
    if native_rate == target_rate {
        CapturePlan::Native
    } else if rate_offered(ranges, target_rate) {
        CapturePlan::NativeElseResample
    } else {
        CapturePlan::Resample
    }
}

/// What is shown of a recording at the wanted rate.
pub fn native_info(rate: u32, device: &str) -> (r: String)
    ensures
        r@ == "Capturing at "@ + decimal(rate as nat) + " Hz from "@ + device@,
{
    let mut s = "Capturing at ".to_owned();
    push_decimal(&mut s, rate as u64);
    s.append(" Hz from ");
    s.append(device);
    s
}

/// What is shown of a recording that is resampled.
pub fn resampled_info(native_rate: u32, target_rate: u32, device: &str) -> (r: String)
    ensures
        r@ == "Capturing at "@ + decimal(native_rate as nat) + " Hz → "@ + decimal(target_rate as nat)
            + " Hz from "@ + device@,
{
    let mut s = "Capturing at ".to_owned();
    push_decimal(&mut s, native_rate as u64);
    s.append(" Hz → ");
    push_decimal(&mut s, target_rate as u64);
    s.append(" Hz from ");
    s.append(device);
    s
}

/// The sum of a frame's samples.
pub open spec fn total(frame: Seq<i16>) -> int
    decreases frame.len(),
{
    if frame.len() == 0 {
        0
    } else {
        total(frame.drop_last()) + frame.last()
    }
}

/// The sums of the frames of `channels` samples each; the last frame may be short.
pub open spec fn totals(data: Seq<i16>, channels: int) -> Seq<int>
    decreases data.len(),
{
    if data.len() == 0 || channels <= 0 {
        seq![]
    } else if data.len() <= channels {
        seq![total(data)]
    } else {
        seq![total(data.take(channels))] + totals(data.skip(channels), channels)
    }
}

/// Sums as whole numbers.
pub open spec fn sums(v: Seq<i32>) -> Seq<int> {
    v.map_values(|x: i32| x as int)
}

proof fn lemma_total_bounded(frame: Seq<i16>)
    ensures
        -32768 * frame.len() <= total(frame) <= 32767 * frame.len(),
    decreases frame.len(),
{
    if frame.len() > 0 {
        lemma_total_bounded(frame.drop_last());
    }
}

/// Mixes frames of `channels` samples down to one sum each.
pub fn frame_sums(data: &[i16], channels: u16) -> (r: Vec<i32>)
    requires
        channels > 0,
    ensures
        sums(r@) == totals(data@, channels as int),
{
    let mut r: Vec<i32> = Vec::new();
    let mut at: usize = 0;
    let width: usize = channels as usize;
    assert(data@.skip(0) =~= data@);
    assert(sums(r@) + totals(data@, channels as int) =~= totals(data@, channels as int));
    while at < data.len()
        invariant
            at <= data@.len(),
            width == channels,
            0 < channels,
            sums(r@) + totals(data@.skip(at as int), channels as int) == totals(data@, channels as int),
        decreases data.len() - at,
    {
        let end: usize = if data.len() - at <= width {
            data.len()
        } else {
            at + width
        };
        let mut sum: i32 = 0;
        let mut i: usize = at;
        assert(data@.subrange(at as int, i as int) =~= Seq::<i16>::empty());
        while i < end
            invariant
                at <= i <= end <= data@.len(),
                end - at <= width,
                width <= 65535,
                sum == total(data@.subrange(at as int, i as int)),
            decreases end - i,
        {
            let ghost frame = data@.subrange(at as int, i + 1);
            assert(frame.drop_last() =~= data@.subrange(at as int, i as int));
            proof {
                lemma_total_bounded(frame);
            }
            sum = sum + data[i] as i32;
            i = i + 1;
        }
        proof {
            let rest = data@.skip(at as int);
            let frame = data@.subrange(at as int, end as int);
            if rest.len() <= channels {
                assert(frame =~= rest);
                assert(data@.skip(end as int) =~= Seq::<i16>::empty());
            } else {
                assert(frame =~= rest.take(channels as int));
                assert(data@.skip(end as int) =~= rest.skip(channels as int));
            }
            assert(totals(rest, channels as int) =~= seq![total(frame)] + totals(
                data@.skip(end as int),
                channels as int,
            ));
            assert(sums(r@.push(sum)) =~= sums(r@).push(sum as int));
            assert(sums(r@) + (seq![sum as int] + totals(data@.skip(end as int), channels as int)) =~= sums(
                r@,
            ).push(sum as int) + totals(data@.skip(end as int), channels as int));
        }
        r.push(sum);
        at = end;
    }
    assert(totals(data@.skip(at as int), channels as int) =~= Seq::<int>::empty());
    assert(sums(r@) + Seq::<int>::empty() =~= sums(r@));
    r
}

/// Samples that wait for a block to fill.
#[derive(Debug)]
pub struct BlockBuffer<T> {
    pub waiting: Vec<T>,
}

/// The blocks that a run of samples fills.
pub open spec fn blocks_of<T>(s: Seq<T>) -> Seq<Seq<T>>
    decreases s.len(),
{
    if s.len() < BLOCK_SAMPLES {
        seq![]
    } else {
        seq![s.take(BLOCK_SAMPLES as int)] + blocks_of(s.skip(BLOCK_SAMPLES as int))
    }
}

/// The samples that are left when all full blocks are taken.
pub open spec fn left_over<T>(s: Seq<T>) -> Seq<T>
    decreases s.len(),
{
    if s.len() < BLOCK_SAMPLES {
        s
    } else {
        left_over(s.skip(BLOCK_SAMPLES as int))
    }
}

/// What a list of blocks holds.
pub open spec fn blocks<T>(v: Seq<Vec<T>>) -> Seq<Seq<T>> {
    v.map_values(|b: Vec<T>| b@)
}

impl<T> BlockBuffer<T> {
    /// Nothing waits.
    pub fn new() -> (r: Self)
        ensures
            r.waiting@ == Seq::<T>::empty(),
    {
        BlockBuffer { waiting: Vec::new() }
    }

    /// Takes samples in and returns the blocks that they fill.
    pub fn push(&mut self, samples: Vec<T>) -> (r: Vec<Vec<T>>)
        ensures
            blocks(r@) == blocks_of(old(self).waiting@ + samples@),
            final(self).waiting@ == left_over(old(self).waiting@ + samples@),
            final(self).waiting@.len() < BLOCK_SAMPLES,
    {
        let mut more = samples;
        self.waiting.append(&mut more);
        let ghost all = self.waiting@;
        let mut out: Vec<Vec<T>> = Vec::new();
        assert(blocks(out@) + blocks_of(all) =~= blocks_of(all));
        while self.waiting.len() >= BLOCK_SAMPLES
            invariant
                blocks_of(all) == blocks(out@) + blocks_of(self.waiting@),
                left_over(all) == left_over(self.waiting@),
            decreases self.waiting.len(),
        {
            let ghost w = self.waiting@;
            let ghost done = blocks(out@);
            let rest = self.waiting.split_off(BLOCK_SAMPLES);
            let mut block: Vec<T> = rest;
            std::mem::swap(&mut block, &mut self.waiting);
            assert(block@ =~= w.take(BLOCK_SAMPLES as int));
            assert(self.waiting@ =~= w.skip(BLOCK_SAMPLES as int));
            let ghost b = block@;
            out.push(block);
            assert(blocks(out@) =~= done.push(b));
            assert(done + (seq![b] + blocks_of(self.waiting@)) =~= done.push(b) + blocks_of(self.waiting@));
        }
        assert(blocks_of(self.waiting@) =~= Seq::<Seq<T>>::empty());
        assert(blocks(out@) =~= blocks_of(all));
        out
    }
}

/// The samples of a list of blocks in a row.
pub open spec fn flattened<T>(b: Seq<Seq<T>>) -> Seq<T>
    decreases b.len(),
{
    if b.len() == 0 {
        Seq::empty()
    } else {
        b[0] + flattened(b.drop_first())
    }
}

/// No sample is lost or moved: the blocks and what is left over are the samples
/// that came in, and every block is full.
pub proof fn law_blocks_keep_samples<T>(s: Seq<T>)
    ensures
        flattened(blocks_of(s)) + left_over(s) == s,
        forall|k: int| 0 <= k < blocks_of(s).len() ==> (#[trigger] blocks_of(s)[k]).len() == BLOCK_SAMPLES,
        left_over(s).len() < BLOCK_SAMPLES,
    decreases s.len(),
{
    if s.len() < BLOCK_SAMPLES {
        assert(flattened(blocks_of(s)) + left_over(s) =~= s);
    } else {
        let head = s.take(BLOCK_SAMPLES as int);
        let rest = s.skip(BLOCK_SAMPLES as int);
        law_blocks_keep_samples(rest);
        let b = blocks_of(s);
        assert(b[0] == head);
        assert(b.drop_first() =~= blocks_of(rest));
        assert forall|k: int| 0 <= k < b.len() implies (#[trigger] b[k]).len() == BLOCK_SAMPLES by {
            if k > 0 {
                assert(b[k] == blocks_of(rest)[k - 1]);
            }
        }
        assert(flattened(b) + left_over(s) =~= head + (flattened(blocks_of(rest)) + left_over(rest)));
        assert(head + rest =~= s);
    }
}

/// A device as the system tells of it; rate and channels may be unknown.
#[derive(Debug)]
pub struct DeviceInfo {
    pub name: String,
    pub rate: Option<u32>,
    pub channels: Option<u16>,
}

/// The mathematical content of [`DeviceInfo`].
#[verifier::ext_equal]
pub struct InfoView {
    pub name: Seq<char>,
    pub rate: Option<u32>,
    pub channels: Option<u16>,
}

impl View for DeviceInfo {
    type V = InfoView;

    open spec fn view(&self) -> InfoView {
        InfoView { name: self.name@, rate: self.rate, channels: self.channels }
    }
}

/// What a list of devices holds.
pub open spec fn infos(v: Seq<DeviceInfo>) -> Seq<InfoView> {
    v.map_values(|d: DeviceInfo| d@)
}

/// Number of devices of that name among these.
pub open spec fn seen(s: Seq<InfoView>, name: Seq<char>) -> nat
    decreases s.len(),
{
    if s.len() == 0 {
        0
    } else if s.last().name == name {
        seen(s.drop_last(), name) + 1
    } else {
        seen(s.drop_last(), name)
    }
}

/// A text with spaces behind it up to a width.
pub open spec fn left_aligned(s: Seq<char>, width: nat) -> Seq<char> {
    if s.len() >= width {
        s
    } else {
        s + Seq::new((width - s.len()) as nat, |i: int| ' ')
    }
}

/// A number, or a question mark where it is unknown.
pub open spec fn known(n: Option<nat>) -> Seq<char> {
    match n {
        Some(v) => decimal(v),
        None => "?"@,
    }
}

/// The line that tells of device `i`: its name, numbered from the second of its
/// kind on, its rate and channels, and a star for the default device.
pub open spec fn info_line(kind: Seq<char>, s: Seq<InfoView>, i: int, default: Option<Seq<char>>) -> Seq<char> {
    let d = s[i];
    let before = seen(s.take(i), d.name);
    let name = if before == 0 {
        d.name
    } else {
        d.name + " #"@ + decimal(before + 1)
    };
    kind + left_aligned(name, 28) + " "@ + known(
        match d.rate {
            Some(r) => Some(r as nat),
            None => None,
        },
    ) + " Hz × "@ + known(
        match d.channels {
            Some(c) => Some(c as nat),
            None => None,
        },
    ) + "ch"@ + (if before == 0 && default == Some(d.name) {
        " *"@
    } else {
        ""@
    })
}

/// The lines that tell of all devices.
pub open spec fn info_lines(kind: Seq<char>, s: Seq<InfoView>, default: Option<Seq<char>>) -> Seq<Seq<char>> {
    Seq::new(s.len(), |i: int| info_line(kind, s, i, default))
}

/// How often a name has been seen among the first `n` devices.
fn seen_before(devices: &Vec<DeviceInfo>, n: usize, name: &str) -> (r: usize)
    requires
        n <= devices@.len(),
    ensures
        r == seen(infos(devices@).take(n as int), name@),
        r <= n,
{
    let ghost all = infos(devices@);
    let mut c: usize = 0;
    let mut i: usize = 0;
    assert(all.take(0) =~= Seq::<InfoView>::empty());
    while i < n
        invariant
            i <= n <= devices@.len(),
            all == infos(devices@),
            c == seen(all.take(i as int), name@),
            c <= i,
        decreases n - i,
    {
        assert(all.take(i + 1).drop_last() =~= all.take(i as int));
        assert(all.take(i + 1).last() == devices@[i as int]@);
        if same(devices[i].name.as_str(), name) {
            c = c + 1;
        }
        i = i + 1;
    }
    c
}

fn push_left_aligned(out: &mut String, s: &str, width: usize)
    ensures
        final(out)@ == old(out)@ + left_aligned(s@, width as nat),
{
    out.append(s);
    let n: usize = s.unicode_len();
    let mut i: usize = n;
    let ghost start = out@;
    assert(start + Seq::new(0, |i: int| ' ') =~= start);
    while i < width
        invariant
            n <= i,
            n < width ==> i <= width,
            n >= width ==> i == n,
            out@ == start + Seq::new((i - n) as nat, |i: int| ' '),
        decreases width - i,
    {
        out.push(' ');
        assert(start + Seq::new((i + 1 - n) as nat, |i: int| ' ') =~= (start + Seq::new(
            (i - n) as nat,
            |i: int| ' ',
        )).push(' '));
        i = i + 1;
    }
    assert(out@ =~= old(out)@ + left_aligned(s@, width as nat));
}

fn push_known(out: &mut String, n: Option<u64>)
    ensures
        final(out)@ == old(out)@ + known(
            match n {
                Some(v) => Some(v as nat),
                None => None,
            },
        ),
{
    match n {
        Some(v) => push_decimal(out, v),
        None => out.append("?"),
    }
}

/// The line that tells of one device.
fn device_line(kind: &str, devices: &Vec<DeviceInfo>, i: usize, default: Option<&str>) -> (r: String)
    requires
        i < devices@.len(),
    ensures
        r@ == info_line(
            kind@,
            infos(devices@),
            i as int,
            match default {
                Some(d) => Some(d@),
                None => None,
            },
        ),
{
    let d = &devices[i];
    assert(infos(devices@)[i as int] == d@);
    let before: usize = seen_before(devices, i, d.name.as_str());
    let mut name = d.name.clone();
    assert(before < devices.len());
    if before > 0 {
        name.append(" #");
        push_decimal(&mut name, before as u64 + 1);
    }
    let is_default = match default {
        Some(n) => same(n, d.name.as_str()),
        None => false,
    };
    let mut s = kind.to_owned();
    push_left_aligned(&mut s, name.as_str(), 28);
    s.append(" ");
    push_known(
        &mut s,
        match d.rate {
            Some(r) => Some(r as u64),
            None => None,
        },
    );
    s.append(" Hz × ");
    push_known(
        &mut s,
        match d.channels {
            Some(c) => Some(c as u64),
            None => None,
        },
    );
    s.append("ch");
    if before == 0 && is_default {
        s.append(" *");
    } else {
        s.append("");
    }
    s
}

/// The lines that tell of all devices of one kind.
fn device_lines(kind: &str, devices: &Vec<DeviceInfo>, default: Option<&str>) -> (r: Vec<String>)
    ensures
        texts(r@) == info_lines(
            kind@,
            infos(devices@),
            match default {
                Some(d) => Some(d@),
                None => None,
            },
        ),
{
    let ghost all = info_lines(
        kind@,
        infos(devices@),
        match default {
            Some(d) => Some(d@),
            None => None,
        },
    );
    let mut out: Vec<String> = Vec::new();
    let mut i: usize = 0;
    assert(texts(out@) =~= all.take(0));
    while i < devices.len()
        invariant
            i <= devices@.len(),
            all == info_lines(
                kind@,
                infos(devices@),
                match default {
                    Some(d) => Some(d@),
                    None => None,
                },
            ),
            texts(out@) == all.take(i as int),
        decreases devices.len() - i,
    {
        let line = device_line(kind, devices, i, default);
        let ghost v = line@;
        let ghost done = texts(out@);
        out.push(line);
        assert(texts(out@) =~= done.push(v));
        assert(all.take(i + 1) =~= all.take(i as int).push(v));
        i = i + 1;
    }
    assert(all.take(i as int) =~= all);
    out
}

/// Lines that tell of all devices, those that record first.
pub fn list_all_devices_diagnostic(
    inputs: &Vec<DeviceInfo>,
    outputs: &Vec<DeviceInfo>,
    default_in: &Option<String>,
    default_out: &Option<String>,
) -> (r: Vec<String>)
    ensures
        texts(r@) == info_lines("IN   "@, infos(inputs@), opt_text(*default_in)) + info_lines(
            "OUT  "@,
            infos(outputs@),
            opt_text(*default_out),
        ),
{
    let din = match default_in {
        Some(s) => Some(s.as_str()),
        None => None,
    };
    let dout = match default_out {
        Some(s) => Some(s.as_str()),
        None => None,
    };
    let mut out = device_lines("IN   ", inputs, din);
    let ghost a = texts(out@);
    let mut more = device_lines("OUT  ", outputs, dout);
    let ghost b = texts(more@);
    out.append(&mut more);
    assert(texts(out@) =~= a + b);
    out
}

/// Sums add up: those of two parts are the sum of the whole, and one sample is its
/// own sum.
pub proof fn law_total_adds_up(a: Seq<i16>, b: Seq<i16>, x: i16)
    ensures
        total(a + b) == total(a) + total(b),
        total(seq![x]) == x,
        total(Seq::<i16>::empty()) == 0,
    decreases b.len(),
{
    if b.len() == 0 {
        assert(a + b =~= a);
    } else {
        assert((a + b).drop_last() =~= a + b.drop_last());
        law_total_adds_up(a, b.drop_last(), x);
    }
    assert(seq![x].drop_last() =~= Seq::<i16>::empty());
    assert(total(Seq::<i16>::empty()) == 0);
}

/// Frame by frame: there are as many sums as frames, a last short one counted, and
/// each is the sum of the samples of its frame.
pub proof fn law_frame_sums(data: Seq<i16>, channels: int, k: int)
    requires
        channels > 0,
        0 <= k,
        k * channels < data.len(),
    ensures
        k < totals(data, channels).len(),
        totals(data, channels)[k] == total(
            data.subrange(
                k * channels,
                if (k + 1) * channels <= data.len() {
                    (k + 1) * channels
                } else {
                    data.len() as int
                },
            ),
        ),
        (totals(data, channels).len() - 1) * channels < data.len() <= totals(data, channels).len() * channels,
    decreases data.len(),
{
    let all = totals(data, channels);
    if data.len() <= channels {
        assert(k == 0) by (nonlinear_arith)
            requires
                0 <= k,
                k * channels < data.len(),
                data.len() <= channels,
        ;
        assert(data.subrange(0, data.len() as int) =~= data);
        assert(0 * channels == 0 && 1 * channels == channels);
    } else {
        let rest = data.skip(channels);
        let more = totals(rest, channels);
        assert(0 * channels == 0 && 1 * channels == channels);
        law_frame_sums(rest, channels, 0);
        assert((more.len() + 1) * channels == more.len() * channels + channels) by (nonlinear_arith);
        assert((more.len() - 1) * channels == more.len() * channels - channels) by (nonlinear_arith);
        assert(all.len() == more.len() + 1);
        if k == 0 {
            assert(data.subrange(0, channels) =~= data.take(channels));
        } else {
            assert((k - 1) * channels == k * channels - channels) by (nonlinear_arith);
            assert((k + 1) * channels == k * channels + channels) by (nonlinear_arith);
            law_frame_sums(rest, channels, k - 1);
            let end = if (k + 1) * channels <= data.len() {
                (k + 1) * channels
            } else {
                data.len() as int
            };
            assert(rest.subrange((k - 1) * channels, end - channels) =~= data.subrange(k * channels, end));
            assert(all[k] == more[k - 1]);
        }
    }
}

/// A name is filled up with spaces to the width of its column and never cut.
pub proof fn law_aligned_names(s: Seq<char>, width: nat, i: int)
    ensures
        ({
            let t = left_aligned(s, width);
            &&& t.len() >= s.len() && t.len() >= width
            &&& t.len() == s.len() || t.len() == width
            &&& t.subrange(0, s.len() as int) == s
            &&& s.len() <= i < t.len() ==> t[i] == ' '
        }),
{
    let t = left_aligned(s, width);
    assert(t.subrange(0, s.len() as int) =~= s);
}

/// A line that tells of a device begins with what kind it is and its own name in a
/// column of 28, and ends in a star exactly where it is the first of its name and the
/// default; otherwise in the number of its channels.
pub proof fn law_device_line(kind: Seq<char>, s: Seq<InfoView>, i: int, default: Option<Seq<char>>)
    requires
        0 <= i < s.len(),
    ensures
        ({
            let t = info_line(kind, s, i, default);
            let n = s[i].name;
            let k = kind.len() as int;
            let first = forall|j: int| 0 <= j < i ==> (#[trigger] s[j]).name != n;
            &&& t.len() >= k + 28
            &&& t.subrange(0, k) == kind
            &&& t.subrange(k, k + n.len()) == n
            &&& first ==> t.subrange(k, k + n.len()) == n && (n.len() < 28 ==> t[k + n.len()] == ' ')
            &&& !first ==> t[k + n.len()] == ' ' && t[k + n.len() + 1] == '#'
            &&& t.last() == '*' <==> first && default == Some(n)
            &&& t.last() != '*' ==> t.last() == 'h' && t[t.len() - 2] == 'c'
        }),
{
    reveal_strlit(" #");
    reveal_strlit(" ");
    reveal_strlit("ch");
    reveal_strlit(" *");
    reveal_strlit("");
    let d = s[i];
    let n = d.name;
    let k = kind.len() as int;
    let before = seen(s.take(i), n);
    lemma_seen_none(s.take(i), n);
    let first = forall|j: int| 0 <= j < i ==> (#[trigger] s[j]).name != n;
    assert(first <==> before == 0) by {
        if before == 0 {
            assert forall|j: int| 0 <= j < i implies (#[trigger] s[j]).name != n by {
                assert(s.take(i)[j] == s[j]);
            }
        }
        if first {
            assert forall|j: int| 0 <= j < s.take(i).len() implies (#[trigger] s.take(i)[j]).name != n by {
                assert(s.take(i)[j] == s[j]);
            }
        }
    }
    let name = if before == 0 {
        n
    } else {
        n + " #"@ + decimal(before + 1)
    };
    let column = left_aligned(name, 28);
    law_aligned_names(name, 28, n.len() as int);
    let t = info_line(kind, s, i, default);
    assert(t.subrange(0, k) =~= kind);
    assert forall|j: int| 0 <= j < column.len() implies #[trigger] t[k + j] == column[j] by {}
    assert forall|j: int| 0 <= j < name.len() implies #[trigger] column[j] == name[j] by {
        assert(column.subrange(0, name.len() as int)[j] == name[j]);
    }
    assert forall|j: int| 0 <= j < n.len() implies t[k + j] == n[j] by {
        assert(column[j] == name[j]);
    }
    assert(t.subrange(k, k + n.len()) =~= n);
    if before > 0 {
        assert(column[n.len() as int] == name[n.len() as int]);
        assert(column[n.len() as int + 1] == name[n.len() as int + 1]);
        assert(t[k + n.len()] == ' ');
        assert(t[k + (n.len() + 1)] == '#');
    } else if n.len() < 28 {
        assert(t[k + n.len()] == column[n.len() as int]);
    }
}

proof fn lemma_seen_none(s: Seq<InfoView>, name: Seq<char>)
    ensures
        seen(s, name) == 0 <==> forall|j: int| 0 <= j < s.len() ==> (#[trigger] s[j]).name != name,
    decreases s.len(),
{
    if s.len() > 0 {
        let t = s.drop_last();
        lemma_seen_none(t, name);
        if seen(s, name) == 0 {
            assert forall|j: int| 0 <= j < s.len() implies (#[trigger] s[j]).name != name by {
                if j < t.len() {
                    assert(t[j].name != name);
                }
            }
        }
        if forall|j: int| 0 <= j < s.len() ==> (#[trigger] s[j]).name != name {
            assert forall|j: int| 0 <= j < t.len() implies (#[trigger] t[j]).name != name by {
                assert(s[j].name != name);
            }
            assert(s[s.len() - 1].name != name);
        }
    }
}

/// Behind the name a line tells the rate and then the channels, each as a number where
/// it is known and as a question mark where it is not.
pub proof fn law_device_line_tells_rate(kind: Seq<char>, s: Seq<InfoView>, i: int, default: Option<Seq<char>>)
    requires
        0 <= i < s.len(),
    ensures
        ({
            let t = info_line(kind, s, i, default);
            let d = s[i];
            let rate = match d.rate {
                Some(r) => decimal(r as nat),
                None => seq!['?'],
            };
            let channels = match d.channels {
                Some(c) => decimal(c as nat),
                None => seq!['?'],
            };
            let star: int = if t.last() == '*' {
                2
            } else {
                0
            };
            let at = t.len() - star - 2 - channels.len();
            &&& at - 6 - rate.len() > 0
            &&& t.subrange(at, at + channels.len()) == channels
            &&& t.subrange(at - 6, at - 3) == seq![' ', 'H', 'z']
            &&& t.subrange(at - 6 - rate.len(), at - 6) == rate
            &&& t[at - 7 - rate.len()] == ' '
        }),
{
    reveal_strlit("?");
    reveal_strlit(" ");
    reveal_strlit(" Hz × ");
    reveal_strlit("ch");
    reveal_strlit(" *");
    reveal_strlit("");
    assert("?"@ =~= seq!['?']);
    let d = s[i];
    let before = seen(s.take(i), d.name);
    let name = if before == 0 {
        d.name
    } else {
        d.name + " #"@ + decimal(before + 1)
    };
    let head = kind + left_aligned(name, 28);
    let rate = match d.rate {
        Some(r) => decimal(r as nat),
        None => seq!['?'],
    };
    let channels = match d.channels {
        Some(c) => decimal(c as nat),
        None => seq!['?'],
    };
    let end = if before == 0 && default == Some(d.name) {
        " *"@
    } else {
        ""@
    };
    let t = info_line(kind, s, i, default);
    assert(t =~= head + " "@ + rate + " Hz × "@ + channels + "ch"@ + end);
    let at = t.len() - end.len() - 2 - channels.len();
    assert(t.subrange(at, at + channels.len()) =~= channels);
    assert(t.subrange(at - 6, at - 3) =~= seq![' ', 'H', 'z']);
    assert(t.subrange(at - 6 - rate.len(), at - 6) =~= rate);
}

/// A rate is offered exactly where a range holds it; both ends belong to a range.
pub proof fn law_ranges_hold_their_ends(ranges: Seq<(u32, u32)>, k: int, rate: u32)
    requires
        0 <= k < ranges.len(),
        ranges[k].0 <= ranges[k].1,
    ensures
        offered(ranges, ranges[k].0),
        offered(ranges, ranges[k].1),
        ranges[k].0 < rate < ranges[k].1 ==> offered(ranges, rate),
        (forall|j: int| 0 <= j < ranges.len() ==> rate < (#[trigger] ranges[j]).0 || rate > ranges[j].1) ==> !offered(
            ranges,
            rate,
        ),
{
}

} // verus!
