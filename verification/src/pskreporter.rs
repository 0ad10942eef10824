//! Reports of stations heard, as PSK Reporter takes them.
//!
//! A packet is an IPFIX message of the amateur-radio enterprise: a header of 16
//! bytes, the two templates where they are due, one receiver record and one set
//! of sender records. Every set is padded to a multiple of four bytes and tells
//! its own length.
//!
//! Spots are collected and sent together. The first spot of a batch starts a
//! timer of five seconds; the templates go into the first three packets and then
//! into one packet an hour.
use vstd::prelude::*;
use vstd::string::*;

use crate::bytes::{be16, be32, be40, push_all, write_u16, write_u32, write_u40};
use crate::proto::opt_text;

verus! {

/// Time between the first spot of a batch and its packet, in milliseconds.
pub const FLUSH_INTERVAL_MS: u64 = 5_000;

/// Largest packet that is built from more than one spot.
pub const MAX_PACKET_BYTES: usize = 1400;

/// Number of waiting spots that are sent at once.
pub const FLUSH_SPOTS: usize = 32;

/// Time between two packets with templates, in milliseconds.
pub const TEMPLATE_INTERVAL_MS: u64 = 3_600_000;

/// Number of spots that wait for the worker at most.
pub const QUEUE_SPOTS: usize = 256;

pub const IPFIX_VERSION: u16 = 0x000A;

pub const TEMPLATE_ID_RX: u16 = 0x50e2;

pub const TEMPLATE_ID_TX: u16 = 0x50e3;

pub const HAMRADIO_ENTERPRISE: u32 = 30351;

pub const REPORTER_SOURCE_AUTOMATIC: u8 = 1;

pub const IE_SENDER_CALLSIGN: u16 = 1;

pub const IE_RECEIVER_CALLSIGN: u16 = 2;

pub const IE_SENDER_LOCATOR: u16 = 3;

pub const IE_RECEIVER_LOCATOR: u16 = 4;

pub const IE_FREQUENCY: u16 = 5;

pub const IE_SNR: u16 = 6;

pub const IE_DECODING_SOFTWARE: u16 = 8;

pub const IE_ANTENNA_INFORMATION: u16 = 9;

pub const IE_MODE: u16 = 10;

pub const IE_INFORMATION_SOURCE: u16 = 11;

pub const IE_RIG_INFORMATION: u16 = 13;

/// The time of a record; the one element that is not of the enterprise.
pub const IE_DATETIME_SECONDS: u16 = 150;

/// A station that was heard.
#[derive(Debug, Clone)]
pub struct Spot {
    pub heard_call: String,
    pub heard_grid: Option<String>,
    /// Frequency in hertz.
    pub freq_hz: u64,
    pub mode: String,
    /// Signal-to-noise ratio in decibels.
    pub snr_db: i8,
    /// When it was heard, in seconds since 1970.
    pub utc_secs: u32,
}

/// The station that hears.
#[derive(Debug, Clone)]
pub struct ReceiverInfo {
    pub rx_call: String,
    pub rx_grid: String,
    pub program_id: String,
    pub antenna: String,
    pub rig_info: String,
}

/// The mathematical content of a [`Spot`].
#[verifier::ext_equal]
pub struct SpotView {
    pub heard_call: Seq<char>,
    pub heard_grid: Option<Seq<char>>,
    pub freq_hz: u64,
    pub mode: Seq<char>,
    pub snr_db: i8,
    pub utc_secs: u32,
}

impl View for Spot {
    type V = SpotView;

    open spec fn view(&self) -> SpotView {
        SpotView {
            heard_call: self.heard_call@,
            heard_grid: opt_text(self.heard_grid),
            freq_hz: self.freq_hz,
            mode: self.mode@,
            snr_db: self.snr_db,
            utc_secs: self.utc_secs,
        }
    }
}

/// The mathematical content of a [`ReceiverInfo`].
#[verifier::ext_equal]
pub struct ReceiverView {
    pub rx_call: Seq<char>,
    pub rx_grid: Seq<char>,
    pub program_id: Seq<char>,
    pub antenna: Seq<char>,
    pub rig_info: Seq<char>,
}

impl View for ReceiverInfo {
    type V = ReceiverView;

    open spec fn view(&self) -> ReceiverView {
        ReceiverView {
            rx_call: self.rx_call@,
            rx_grid: self.rx_grid@,
            program_id: self.program_id@,
            antenna: self.antenna@,
            rig_info: self.rig_info@,
        }
    }
}

/// What a list of spots holds.
pub open spec fn spots_view(v: Seq<Spot>) -> Seq<SpotView> {
    v.map_values(|s: Spot| s@)
}

/// Bytes that round `len` up to a multiple of four.
pub open spec fn padding(len: nat) -> nat {
    ((4 - len % 4) % 4) as nat
}

/// Number of zero bytes that round `len` up to a multiple of four.
pub fn pad_bytes(len: usize) -> (r: usize)
    ensures
        r == padding(len as nat),
        r < 4,
        (len + r) % 4 == 0,
{
    (4 - (len % 4)) % 4
}

/// A text with its length in front: one byte, and at most 254 bytes of UTF-8.
pub open spec fn varlen(s: Seq<char>) -> Seq<u8> {
    let b = vstd::utf8::encode_utf8(s);
    let n = if b.len() <= 254 {
        b.len() as int
    } else {
        254
    };
    seq![n as u8] + b.subrange(0, n)
}

/// Appends a text with its length in front.
pub fn write_varlen(buf: &mut Vec<u8>, s: &str)
    ensures
        final(buf)@ == old(buf)@ + varlen(s@),
{
    let b = s.as_bytes();
    let n: usize = if b.len() <= 254 {
        b.len()
    } else {
        254
    };
    buf.push(n as u8);
    push_all(buf, vstd::slice::slice_subrange(b, 0, n));
    assert(buf@ =~= old(buf)@ + varlen(s@));
}

/// A set: its identifier, its length, its content, and zeros up to a multiple of
/// four bytes.
pub open spec fn set_block(id: nat, body: Seq<u8>) -> Seq<u8> {
    let pad = padding(body.len());
    be16(id) + be16((4 + body.len() + pad) % 65536) + body + Seq::new(pad, |i: int| 0u8)
}

/// Appends a set.
fn write_set(buf: &mut Vec<u8>, id: u16, body: &Vec<u8>)
    ensures
        final(buf)@ == old(buf)@ + set_block(id as nat, body@),
{
    let mut block: Vec<u8> = Vec::new();
    write_u16(&mut block, id);
    write_u16(&mut block, 0);
    push_all(&mut block, body.as_slice());
    let pad: usize = pad_bytes(body.len());
    let mut i: usize = 0;
    assert(block@ =~= be16(id as nat) + be16(0) + body@ + Seq::new(0, |i: int| 0u8));
    while i < pad
        invariant
            i <= pad < 4,
            block@ == be16(id as nat) + be16(0) + body@ + Seq::new(i as nat, |i: int| 0u8),
        decreases pad - i,
    {
        block.push(0);
        assert(block@ =~= be16(id as nat) + be16(0) + body@ + Seq::new((i + 1) as nat, |i: int| 0u8));
        i = i + 1;
    }
    let len: u16 = (block.len() as u64 % 65536) as u16;
    assert(block@.len() == 4 + body@.len() + pad);
    block[2] = (len / 256) as u8;
    block[3] = (len % 256) as u8;
    assert(block@ =~= set_block(id as nat, body@));
    push_all(buf, block.as_slice());
}

/// A field of the enterprise in a template.
pub open spec fn enterprise_field(ie: nat, len: nat) -> Seq<u8> {
    be16(ie + 0x8000) + be16(len) + be32(HAMRADIO_ENTERPRISE as nat)
}

fn write_field(buf: &mut Vec<u8>, ie: u16, len: u16)
    requires
        ie < 0x8000,
    ensures
        final(buf)@ == old(buf)@ + enterprise_field(ie as nat, len as nat),
{
    write_u16(buf, ie + 0x8000);
    write_u16(buf, len);
    write_u32(buf, HAMRADIO_ENTERPRISE);
    assert(buf@ =~= old(buf)@ + enterprise_field(ie as nat, len as nat));
}

/// The template of receiver records: an options template (set 3) without scope
/// fields.
#[verifier::opaque]
pub open spec fn receiver_template() -> Seq<u8> {
    set_block(
        3,
        be16(TEMPLATE_ID_RX as nat) + be16(5) + be16(0) + enterprise_field(
            IE_RECEIVER_CALLSIGN as nat,
            0xFFFF,
        ) + enterprise_field(IE_RECEIVER_LOCATOR as nat, 0xFFFF) + enterprise_field(
            IE_DECODING_SOFTWARE as nat,
            0xFFFF,
        ) + enterprise_field(IE_ANTENNA_INFORMATION as nat, 0xFFFF) + enterprise_field(
            IE_RIG_INFORMATION as nat,
            0xFFFF,
        ),
    )
}

/// The template of sender records (set 2).
#[verifier::opaque]
pub open spec fn sender_template() -> Seq<u8> {
    set_block(
        2,
        be16(TEMPLATE_ID_TX as nat) + be16(7) + enterprise_field(IE_SENDER_CALLSIGN as nat, 0xFFFF)
            + enterprise_field(IE_FREQUENCY as nat, 5) + enterprise_field(IE_SNR as nat, 1)
            + enterprise_field(IE_MODE as nat, 0xFFFF) + enterprise_field(
            IE_SENDER_LOCATOR as nat,
            0xFFFF,
        ) + enterprise_field(IE_INFORMATION_SOURCE as nat, 1) + be16(IE_DATETIME_SECONDS as nat) + be16(
            4,
        ),
    )
}

/// Appends the template of receiver records.
pub fn write_receiver_template(buf: &mut Vec<u8>)
    ensures
        final(buf)@ == old(buf)@ + receiver_template(),
{
    let mut body: Vec<u8> = Vec::new();
    write_u16(&mut body, TEMPLATE_ID_RX);
    assert(body@ =~= be16(TEMPLATE_ID_RX as nat));
    write_u16(&mut body, 5);
    write_u16(&mut body, 0);
    write_field(&mut body, IE_RECEIVER_CALLSIGN, 0xFFFF);
    write_field(&mut body, IE_RECEIVER_LOCATOR, 0xFFFF);
    write_field(&mut body, IE_DECODING_SOFTWARE, 0xFFFF);
    write_field(&mut body, IE_ANTENNA_INFORMATION, 0xFFFF);
    write_field(&mut body, IE_RIG_INFORMATION, 0xFFFF);
    reveal(receiver_template);
    write_set(buf, 3, &body);
}

/// Appends the template of sender records.
pub fn write_sender_template(buf: &mut Vec<u8>)
    ensures
        final(buf)@ == old(buf)@ + sender_template(),
{
    let mut body: Vec<u8> = Vec::new();
    write_u16(&mut body, TEMPLATE_ID_TX);
    assert(body@ =~= be16(TEMPLATE_ID_TX as nat));
    write_u16(&mut body, 7);
    write_field(&mut body, IE_SENDER_CALLSIGN, 0xFFFF);
    write_field(&mut body, IE_FREQUENCY, 5);
    write_field(&mut body, IE_SNR, 1);
    write_field(&mut body, IE_MODE, 0xFFFF);
    write_field(&mut body, IE_SENDER_LOCATOR, 0xFFFF);
    write_field(&mut body, IE_INFORMATION_SOURCE, 1);
    write_u16(&mut body, IE_DATETIME_SECONDS);
    write_u16(&mut body, 4);
    reveal(sender_template);
    write_set(buf, 2, &body);
}

/// The receiver record.
#[verifier::opaque]
pub open spec fn receiver_record(info: ReceiverView) -> Seq<u8> {
    set_block(
        TEMPLATE_ID_RX as nat,
        varlen(info.rx_call) + varlen(info.rx_grid) + varlen(info.program_id) + varlen(info.antenna)
            + varlen(info.rig_info),
    )
}

/// Appends the receiver record.
pub fn write_receiver_record(buf: &mut Vec<u8>, info: &ReceiverInfo)
    ensures
        final(buf)@ == old(buf)@ + receiver_record(info@),
{
    let mut body: Vec<u8> = Vec::new();
    write_varlen(&mut body, info.rx_call.as_str());
    assert(body@ =~= varlen(info@.rx_call));
    write_varlen(&mut body, info.rx_grid.as_str());
    write_varlen(&mut body, info.program_id.as_str());
    write_varlen(&mut body, info.antenna.as_str());
    write_varlen(&mut body, info.rig_info.as_str());
    reveal(receiver_record);
    write_set(buf, TEMPLATE_ID_RX, &body);
}

/// A number of eight bits with its sign, as a byte.
pub open spec fn signed_byte(v: int) -> u8 {
    if v >= 0 {
        v as u8
    } else {
        (v + 256) as u8
    }
}

/// The record of one spot.
pub open spec fn spot_record(s: SpotView) -> Seq<u8> {
    varlen(s.heard_call) + be40(s.freq_hz as nat) + seq![signed_byte(s.snr_db as int)] + varlen(s.mode)
        + varlen(
        match s.heard_grid {
            Some(g) => g,
            None => Seq::empty(),
        },
    ) + seq![REPORTER_SOURCE_AUTOMATIC] + be32(s.utc_secs as nat)
}

/// The records of the spots, one after the other.
pub open spec fn spot_records(spots: Seq<SpotView>) -> Seq<u8>
    decreases spots.len(),
{
    if spots.len() == 0 {
        Seq::empty()
    } else {
        spot_records(spots.drop_last()) + spot_record(spots.last())
    }
}

/// The set of sender records; nothing where there are no spots.
#[verifier::opaque]
pub open spec fn sender_records(spots: Seq<SpotView>) -> Seq<u8> {
    if spots.len() == 0 {
        Seq::empty()
    } else {
        set_block(TEMPLATE_ID_TX as nat, spot_records(spots))
    }
}

fn write_spot(buf: &mut Vec<u8>, s: &Spot)
    ensures
        final(buf)@ == old(buf)@ + spot_record(s@),
{
    let ghost start = buf@;
    write_varlen(buf, s.heard_call.as_str());
    write_u40(buf, s.freq_hz);
    let snr: i16 = s.snr_db as i16;
    let byte: u8 = if snr >= 0 {
        snr as u8
    } else {
        (snr + 256) as u8
    };
    buf.push(byte);
    write_varlen(buf, s.mode.as_str());
    match &s.heard_grid {
        Some(g) => write_varlen(buf, g.as_str()),
        None => {
            proof {
                reveal_strlit("");
                assert(""@ =~= Seq::<char>::empty());
            }
            write_varlen(buf, "")
        },
    }
    buf.push(REPORTER_SOURCE_AUTOMATIC);
    write_u32(buf, s.utc_secs);
    assert(buf@ =~= start + spot_record(s@));
}

/// Appends the set of sender records.
pub fn write_sender_records(buf: &mut Vec<u8>, spots: &[Spot])
    ensures
        final(buf)@ == old(buf)@ + sender_records(spots_view(spots@)),
{
    reveal(sender_records);
    if spots.len() == 0 {
        assert(buf@ =~= old(buf)@ + sender_records(spots_view(spots@)));
        return;
    }
    let ghost all = spots_view(spots@);
    let mut body: Vec<u8> = Vec::new();
    let mut i: usize = 0;
    assert(all.take(0) =~= Seq::<SpotView>::empty());
    assert(body@ =~= spot_records(all.take(0)));
    while i < spots.len()
        invariant
            i <= spots@.len(),
            all == spots_view(spots@),
            body@ == spot_records(all.take(i as int)),
        decreases spots.len() - i,
    {
        write_spot(&mut body, &spots[i]);
        assert(all.take(i + 1).drop_last() =~= all.take(i as int));
        assert(all.take(i + 1).last() == spots@[i as int]@);
        i = i + 1;
    }
    assert(all.take(i as int) =~= all);
    write_set(buf, TEMPLATE_ID_TX, &body);
}

/// What follows the header of a packet.
pub open spec fn packet_body(info: ReceiverView, spots: Seq<SpotView>, include_templates: bool) -> Seq<u8> {
    (if include_templates {
        receiver_template() + sender_template()
    } else {
        Seq::empty()
    }) + receiver_record(info) + sender_records(spots)
}

/// A packet.
pub open spec fn packet(
    info: ReceiverView,
    spots: Seq<SpotView>,
    sequence_num: u32,
    observation_id: u32,
    export_time: u32,
    include_templates: bool,
) -> Seq<u8> {
    let body = packet_body(info, spots, include_templates);
    be16(IPFIX_VERSION as nat) + be16((16 + body.len()) % 65536) + be32(export_time as nat) + be32(
        sequence_num as nat,
    ) + be32(observation_id as nat) + body
}

/// Builds a packet.
pub fn build_packet(
    info: &ReceiverInfo,
    spots: &[Spot],
    sequence_num: u32,
    observation_id: u32,
    export_time: u32,
    include_templates: bool,
) -> (r: Vec<u8>)
    ensures
        r@ == packet(
            info@,
            spots_view(spots@),
            sequence_num,
            observation_id,
            export_time,
            include_templates,
        ),
{
    let mut body: Vec<u8> = Vec::new();
    if include_templates {
        write_receiver_template(&mut body);
        write_sender_template(&mut body);
    }
    assert(body@ =~= (if include_templates {
        receiver_template() + sender_template()
    } else {
        Seq::empty()
    }));
    write_receiver_record(&mut body, info);
    write_sender_records(&mut body, spots);
    assert(body@ == packet_body(info@, spots_view(spots@), include_templates));
    let mut out = packet_header(body.len(), sequence_num, observation_id, export_time);
    push_all(&mut out, body.as_slice());
    out
}

/// The header of a packet whose body has `body_len` bytes.
fn packet_header(body_len: usize, sequence_num: u32, observation_id: u32, export_time: u32) -> (r: Vec<
    u8,
>)
    ensures
        r@ == be16(IPFIX_VERSION as nat) + be16(((16 + body_len) % 65536) as nat) + be32(export_time as nat)
            + be32(sequence_num as nat) + be32(observation_id as nat),
{
    let len: u16 = ((body_len as u64 % 65536 + 16) % 65536) as u16;
    assert(len == (16 + body_len) % 65536);
    let mut out: Vec<u8> = Vec::new();
    write_u16(&mut out, IPFIX_VERSION);
    assert(out@ =~= be16(IPFIX_VERSION as nat));
    write_u16(&mut out, len);
    write_u32(&mut out, export_time);
    write_u32(&mut out, sequence_num);
    write_u32(&mut out, observation_id);
    out
}

/// Bytes of the packet of these spots.
pub open spec fn packet_len(info: ReceiverView, spots: Seq<SpotView>, include_templates: bool) -> nat {
    16 + packet_body(info, spots, include_templates).len()
}

/// A set is as long as it says, and its length is a multiple of four.
pub proof fn law_set_length(id: nat, body: Seq<u8>)
    ensures
        set_block(id, body).len() == 4 + body.len() + padding(body.len()),
        set_block(id, body).len() % 4 == 0,
        set_block(id, body).len() < 65536 ==> set_block(id, body).subrange(2, 4) == be16(
            set_block(id, body).len(),
        ),
        set_block(id, body).subrange(4, 4 + body.len() as int) == body,
{
    let b = set_block(id, body);
    assert(b.subrange(2, 4) =~= be16((4 + body.len() + padding(body.len())) % 65536));
    assert(b.subrange(4, 4 + body.len() as int) =~= body);
}

/// A packet is as long as its header says, as long as two bytes can say it, and
/// its length is a multiple of four.
pub proof fn law_packet_length(
    info: ReceiverView,
    spots: Seq<SpotView>,
    sequence_num: u32,
    observation_id: u32,
    export_time: u32,
    include_templates: bool,
)
    ensures
        ({
            let p = packet(info, spots, sequence_num, observation_id, export_time, include_templates);
            &&& p.len() == packet_len(info, spots, include_templates)
            &&& p.len() % 4 == 0
            &&& p.len() < 65536 ==> p.subrange(2, 4) == be16(p.len())
        }),
{
    let p = packet(info, spots, sequence_num, observation_id, export_time, include_templates);
    let body = packet_body(info, spots, include_templates);
    lemma_body_aligned(info, spots, include_templates);
    assert(p.subrange(2, 4) =~= be16((16 + body.len()) % 65536));
}

proof fn lemma_body_aligned(info: ReceiverView, spots: Seq<SpotView>, include_templates: bool)
    ensures
        packet_body(info, spots, include_templates).len() % 4 == 0,
{
    lemma_receiver_aligned(info);
    lemma_senders_aligned(spots);
    lemma_template_lens();
}

proof fn lemma_receiver_aligned(info: ReceiverView)
    ensures
        receiver_record(info).len() % 4 == 0,
{
    reveal(receiver_record);
    law_set_length(
        TEMPLATE_ID_RX as nat,
        varlen(info.rx_call) + varlen(info.rx_grid) + varlen(info.program_id) + varlen(info.antenna)
            + varlen(info.rig_info),
    );
}

proof fn lemma_senders_aligned(spots: Seq<SpotView>)
    ensures
        sender_records(spots).len() % 4 == 0,
{
    reveal(sender_records);
    law_set_length(TEMPLATE_ID_TX as nat, spot_records(spots));
}

/// The two templates take 52 and 60 bytes.
proof fn lemma_template_lens()
    ensures
        receiver_template().len() == 52,
        sender_template().len() == 60,
{
    reveal(receiver_template);
    reveal(sender_template);
}

/// The templates are what a packet with them has more, right behind the header.
pub proof fn law_templates_only_when_requested(
    info: ReceiverView,
    spots: Seq<SpotView>,
    sequence_num: u32,
    observation_id: u32,
    export_time: u32,
)
    ensures
        ({
            let with = packet(info, spots, sequence_num, observation_id, export_time, true);
            let without = packet(info, spots, sequence_num, observation_id, export_time, false);
            &&& with.len() == without.len() + 112
            &&& with.subrange(16, 128) == receiver_template() + sender_template()
            &&& with.subrange(128, with.len() as int) == without.subrange(16, without.len() as int)
        }),
{
    let with = packet(info, spots, sequence_num, observation_id, export_time, true);
    let without = packet(info, spots, sequence_num, observation_id, export_time, false);
    lemma_template_lens();
    assert(with.subrange(16, 128) =~= receiver_template() + sender_template());
    assert(with.subrange(128, with.len() as int) =~= without.subrange(16, without.len() as int));
}

} // verus!
