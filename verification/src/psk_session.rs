//! When which spots are sent: the queue in front of the reporter and the timing
//! of its packets.
use vstd::prelude::*;
use vstd::string::*;

use crate::proto::opt_text;
use crate::pskreporter::{
    build_packet, packet, packet_len, spots_view, ReceiverInfo, ReceiverView, Spot, SpotView,
    FLUSH_INTERVAL_MS, FLUSH_SPOTS, MAX_PACKET_BYTES, QUEUE_SPOTS, TEMPLATE_INTERVAL_MS,
};

verus! {

/// The bytes of a text mixed into one number of 64 bits.
pub open spec fn mixed(bytes: Seq<u8>) -> int
    decreases bytes.len(),
{
    if bytes.len() == 0 {
        0
    } else {
        (mixed(bytes.drop_last()) * 31 + bytes.last()) % 0x1_0000_0000_0000_0000
    }
}

/// The number that tells this run of the program from others: made of the time in
/// nanoseconds and the name of the thread, with the highest bit set.
pub fn session_id(nanos: u64, thread: &str) -> (r: u32)
    ensures
        r == (((nanos ^ (mixed(vstd::utf8::encode_utf8(thread@)) as u64)) & 0xffff_ffff) as u32) | 0x8000_0000,
        r >= 0x8000_0000,
{
    let bytes = thread.as_bytes();
    let mut h: u64 = 0;
    let mut i: usize = 0;
    assert(bytes@.take(0) =~= Seq::<u8>::empty());
    while i < bytes.len()
        invariant
            i <= bytes@.len(),
            h == mixed(bytes@.take(i as int)),
        decreases bytes.len() - i,
    {
        assert(bytes@.take(i + 1).drop_last() =~= bytes@.take(i as int));
        h = ((h as u128 * 31 + bytes[i] as u128) % 0x1_0000_0000_0000_0000) as u64;
        i = i + 1;
    }
    assert(bytes@.take(i as int) =~= bytes@);
    let low: u64 = (nanos ^ h) & 0xffff_ffff;
    assert(low <= 0xffff_ffff) by (bit_vector)
        requires
            low == (nanos ^ h) & 0xffff_ffff,
    ;
    let n: u32 = low as u32;
    assert(n | 0x8000_0000 >= 0x8000_0000) by (bit_vector);
    n | 0x8000_0000
}

/// The handle that spots are given to. They wait here for the worker.
#[derive(Debug)]
pub struct PskReporter {
    pub queue: Vec<Spot>,
    pub stopped: bool,
}

/// A signal-to-noise ratio brought into the range of a report.
pub open spec fn clamped_snr(snr_db: int) -> int {
    if snr_db < -127 {
        -127
    } else if snr_db > 127 {
        127
    } else {
        snr_db
    }
}

impl PskReporter {
    /// The spots that wait.
    pub open spec fn waiting(self) -> Seq<SpotView> {
        spots_view(self.queue@)
    }

    /// An empty queue.
    pub fn new() -> (r: Self)
        ensures
            r.waiting() == Seq::<SpotView>::empty(),
            !r.stopped,
    {
        let r = PskReporter { queue: Vec::new(), stopped: false };
        assert(r.waiting() =~= Seq::<SpotView>::empty());
        r
    }

    /// Queues a spot for the next batch and says whether it was taken: a full
    /// queue, or one that was stopped, drops it.
    pub fn add_spot(
        &mut self,
        heard_call: String,
        heard_grid: Option<String>,
        freq_hz: u64,
        mode: &str,
        snr_db: i32,
        utc_secs: u32,
    ) -> (taken: bool)
        ensures
            taken == (old(self).queue@.len() < QUEUE_SPOTS && !old(self).stopped),
            final(self).stopped == old(self).stopped,
            taken ==> final(self).waiting() == old(self).waiting().push(
                SpotView {
                    heard_call: heard_call@,
                    heard_grid: opt_text(heard_grid),
                    freq_hz,
                    mode: mode@,
                    snr_db: clamped_snr(snr_db as int) as i8,
                    utc_secs,
                },
            ),
            !taken ==> final(self).waiting() == old(self).waiting(),
    {
        if self.stopped || self.queue.len() >= QUEUE_SPOTS {
            return false;
        }
        let snr: i8 = if snr_db < -127 {
            -127
        } else if snr_db > 127 {
            127
        } else {
            snr_db as i8
        };
        let spot = Spot { heard_call, heard_grid, freq_hz, mode: mode.to_owned(), snr_db: snr, utc_secs };
        let ghost v = spot@;
        self.queue.push(spot);
        assert(self.waiting() =~= old(self).waiting().push(v));
        true
    }

    /// The spot that has waited longest.
    pub fn take_spot(&mut self) -> (r: Option<Spot>)
        ensures
            final(self).stopped == old(self).stopped,
            match r {
                Some(s) => old(self).waiting().len() > 0 && s@ == old(self).waiting()[0]
                    && final(self).waiting() == old(self).waiting().drop_first(),
                None => old(self).waiting().len() == 0 && final(self).waiting() == old(self).waiting(),
            },
    {
        if self.queue.len() == 0 {
            return None;
        }
        let s = self.queue.remove(0);
        assert(self.waiting() =~= old(self).waiting().drop_first());
        Some(s)
    }

    /// No more spots are taken. Those that wait stay where they are.
    pub fn stop(&mut self)
        ensures
            final(self).stopped,
            final(self).waiting() == old(self).waiting(),
    {
        self.stopped = true;
    }
}

/// The largest number of spots, from `k` on, that fit into one packet.
pub open spec fn batch_from(info: ReceiverView, spots: Seq<SpotView>, templates: bool, k: nat) -> nat
    decreases spots.len() - k,
{
    if k < spots.len() && packet_len(info, spots.take(k as int + 1), templates) <= MAX_PACKET_BYTES {
        batch_from(info, spots, templates, k + 1)
    } else {
        k
    }
}

/// The number of spots that go into one packet: as many as fit, and at least
/// one.
pub open spec fn batch_len(info: ReceiverView, spots: Seq<SpotView>, templates: bool) -> nat {
    batch_from(info, spots, templates, 1)
}

proof fn lemma_batch_from(info: ReceiverView, spots: Seq<SpotView>, templates: bool, k: nat)
    requires
        k <= spots.len(),
    ensures
        ({
            let n = batch_from(info, spots, templates, k);
            &&& k <= n <= spots.len()
            &&& n > k ==> packet_len(info, spots.take(n as int), templates) <= MAX_PACKET_BYTES
            &&& n < spots.len() ==> packet_len(info, spots.take(n as int + 1), templates) > MAX_PACKET_BYTES
        }),
    decreases spots.len() - k,
{
    if k < spots.len() && packet_len(info, spots.take(k as int + 1), templates) <= MAX_PACKET_BYTES {
        lemma_batch_from(info, spots, templates, k + 1);
    }
}

/// A packet of more than one spot stays within the size limit, and one spot more
/// would have exceeded it.
pub proof fn law_batch_fits(info: ReceiverView, spots: Seq<SpotView>, templates: bool)
    requires
        spots.len() > 0,
    ensures
        ({
            let n = batch_len(info, spots, templates);
            &&& 1 <= n <= spots.len()
            &&& n > 1 ==> packet_len(info, spots.take(n as int), templates) <= MAX_PACKET_BYTES
            &&& n < spots.len() ==> packet_len(info, spots.take(n as int + 1), templates) > MAX_PACKET_BYTES
        }),
{
    lemma_batch_from(info, spots, templates, 1);
}

/// The state of the reporter between packets.
#[derive(Debug)]
pub struct PskSession {
    pub info: ReceiverInfo,
    pub observation_id: u32,
    pub sequence_num: u32,
    pub packets_sent: u32,
    /// When templates were sent last, on the clock of the worker.
    pub last_template_ms: u64,
    pub pending: Vec<Spot>,
    /// When the batch under collection is due.
    pub flush_due_ms: Option<u64>,
}

/// The mathematical content of a [`PskSession`].
#[verifier::ext_equal]
pub struct SessionView {
    pub info: ReceiverView,
    pub observation_id: u32,
    pub sequence_num: u32,
    pub packets_sent: u32,
    pub last_template_ms: u64,
    pub pending: Seq<SpotView>,
    pub flush_due_ms: Option<u64>,
}

impl View for PskSession {
    type V = SessionView;

    open spec fn view(&self) -> SessionView {
        SessionView {
            info: self.info@,
            observation_id: self.observation_id,
            sequence_num: self.sequence_num,
            packets_sent: self.packets_sent,
            last_template_ms: self.last_template_ms,
            pending: spots_view(self.pending@),
            flush_due_ms: self.flush_due_ms,
        }
    }
}

/// The sequence number after `n`.
pub open spec fn next_sequence(n: u32) -> u32 {
    if n == u32::MAX {
        0
    } else {
        (n + 1) as u32
    }
}

impl SessionView {
    /// Spots are due at `now`: their time has come, or there are many of them.
    pub open spec fn due(self, now_ms: u64) -> bool {
        self.pending.len() > 0 && (self.pending.len() >= FLUSH_SPOTS || (self.flush_due_ms matches Some(t)
            && now_ms >= t))
    }

    /// The templates belong into the next packet: it is one of the first three,
    /// or they were last sent an hour ago.
    pub open spec fn templates_due(self, now_ms: u64) -> bool {
        self.packets_sent < 3 || now_ms - self.last_template_ms >= TEMPLATE_INTERVAL_MS
    }

    /// The packet of the first `n` spots.
    pub open spec fn packet(self, n: nat, export_time: u32, templates: bool) -> Seq<u8> {
        packet(
            self.info,
            self.pending.take(n as int),
            next_sequence(self.sequence_num),
            self.observation_id,
            export_time,
            templates,
        )
    }

    /// The session without its first `n` spots, one packet on.
    pub open spec fn without(self, n: nat) -> SessionView {
        SessionView {
            sequence_num: next_sequence(self.sequence_num),
            pending: self.pending.skip(n as int),
            ..self
        }
    }

    /// The session after the packets that send all that is left.
    pub open spec fn drained(self) -> SessionView
        decreases self.pending.len(),
    {
        let n = batch_len(self.info, self.pending, false);
        if 1 <= n <= self.pending.len() {
            self.without(n).drained()
        } else {
            self
        }
    }

    /// The packets that send all that is left, without templates.
    pub open spec fn final_packets(self, export_time: u32) -> Seq<Seq<u8>>
        decreases self.pending.len(),
    {
        if self.pending.len() == 0 {
            seq![]
        } else {
            let n = batch_len(self.info, self.pending, false);
            if 1 <= n <= self.pending.len() {
                seq![self.packet(n, export_time, false)] + self.without(n).final_packets(export_time)
            } else {
                seq![]
            }
        }
    }
}

/// What a list of packets holds.
pub open spec fn packets(v: Seq<Vec<u8>>) -> Seq<Seq<u8>> {
    v.map_values(|p: Vec<u8>| p@)
}

/// A packet to send, the number of its spots, and whether it has templates.
#[derive(Debug)]
pub struct Batch {
    pub packet: Vec<u8>,
    pub spots: usize,
    pub templates: bool,
}

/// Bytes of the packet of these spots, as far as it stays within the limit.
fn measured(info: &ReceiverInfo, spots: &[Spot], templates: bool) -> (r: usize)
    ensures
        r == packet_len(info@, spots_view(spots@), templates),
{
    let p = build_packet(info, spots, 0, 0, 0, templates);
    proof {
        crate::pskreporter::law_packet_length(info@, spots_view(spots@), 0, 0, 0, templates);
    }
    p.len()
}

/// The number of spots that go into one packet.
fn batch_size(info: &ReceiverInfo, spots: &Vec<Spot>, templates: bool) -> (n: usize)
    requires
        spots@.len() > 0,
    ensures
        n == batch_len(info@, spots_view(spots@), templates),
        1 <= n <= spots@.len(),
{
    let ghost all = spots_view(spots@);
    let mut k: usize = 1;
    while k < spots.len()
        invariant
            1 <= k <= spots@.len(),
            all == spots_view(spots@),
            batch_len(info@, all, templates) == batch_from(info@, all, templates, k as nat),
        decreases spots.len() - k,
    {
        let more = vstd::slice::slice_subrange(spots.as_slice(), 0, k + 1);
        assert(spots_view(more@) =~= all.take(k + 1));
        if measured(info, more, templates) > MAX_PACKET_BYTES {
            return k;
        }
        k = k + 1;
    }
    k
}

impl PskSession {
    /// A session that begins at `now_ms`.
    pub fn new(info: ReceiverInfo, observation_id: u32, now_ms: u64) -> (r: Self)
        ensures
            r@ == (SessionView {
                info: info@,
                observation_id,
                sequence_num: 0,
                packets_sent: 0,
                last_template_ms: now_ms,
                pending: Seq::empty(),
                flush_due_ms: None,
            }),
    {
        let r = PskSession {
            info,
            observation_id,
            sequence_num: 0,
            packets_sent: 0,
            last_template_ms: now_ms,
            pending: Vec::new(),
            flush_due_ms: None,
        };
        assert(r@.pending =~= Seq::<SpotView>::empty());
        r
    }

    /// How long to wait for the next spot, in milliseconds: until the batch is
    /// due, but at least 50; a second where nothing is due.
    pub fn wait_ms(&self, now_ms: u64) -> (r: u64)
        ensures
            r == (match self@.flush_due_ms {
                Some(t) => if t >= now_ms + 50 {
                    t - now_ms
                } else {
                    50
                },
                None => 1000,
            }),
            r >= 50,
            self@.flush_due_ms is None ==> r == 1000,
            self@.flush_due_ms matches Some(t) ==> t <= now_ms + r && (r == 50 || now_ms + r == t),
    {
        match self.flush_due_ms {
            Some(t) => if t >= now_ms && t - now_ms >= 50 {
                t - now_ms
            } else {
                50
            },
            None => 1000,
        }
    }

    /// Takes a spot in at `now_ms`. The first one of a batch sets when the batch is
    /// due.
    pub fn on_spot(&mut self, spot: Spot, now_ms: u64)
        requires
            now_ms <= u64::MAX - FLUSH_INTERVAL_MS,
        ensures
            final(self)@ == (SessionView {
                pending: old(self)@.pending.push(spot@),
                flush_due_ms: match old(self)@.flush_due_ms {
                    Some(t) => Some(t),
                    None => Some((now_ms + FLUSH_INTERVAL_MS) as u64),
                },
                ..old(self)@
            }),
            old(self)@.flush_due_ms is None ==> final(self)@.flush_due_ms is Some && final(self)@.flush_due_ms->0
                == now_ms + 5000,
            old(self)@.flush_due_ms is Some ==> final(self)@.flush_due_ms == old(self)@.flush_due_ms,
    {
        let ghost v = spot@;
        self.pending.push(spot);
        assert(spots_view(self.pending@) =~= old(self)@.pending.push(v));
        if self.flush_due_ms.is_none() {
            self.flush_due_ms = Some(now_ms + FLUSH_INTERVAL_MS);
        }
    }

    /// Takes the first `n` spots out and builds their packet.
    fn take_batch(&mut self, n: usize, export_time: u32, templates: bool) -> (p: Vec<u8>)
        requires
            n <= old(self).pending@.len(),
        ensures
            p@ == old(self)@.packet(n as nat, export_time, templates),
            final(self)@ == old(self)@.without(n as nat),
    {
        let ghost before = self@;
        let rest = self.pending.split_off(n);
        self.sequence_num = if self.sequence_num == u32::MAX {
            0
        } else {
            self.sequence_num + 1
        };
        assert(spots_view(self.pending@) =~= before.pending.take(n as int));
        let p = build_packet(
            &self.info,
            self.pending.as_slice(),
            self.sequence_num,
            self.observation_id,
            export_time,
            templates,
        );
        self.pending = rest;
        assert(spots_view(self.pending@) =~= before.pending.skip(n as int));
        p
    }

    /// The packet that is to be sent at `now_ms`, if one is due. What does not fit
    /// into it waits for the next one.
    pub fn poll(&mut self, now_ms: u64, export_time: u32) -> (r: Option<Batch>)
        requires
            now_ms <= u64::MAX - FLUSH_INTERVAL_MS,
        ensures
            r is Some <==> old(self)@.due(now_ms),
            r is None ==> final(self)@ == old(self)@,
            r matches Some(b) ==> {
                let s = old(self)@;
                let n = batch_len(s.info, s.pending, s.templates_due(now_ms));
                &&& b.templates == s.templates_due(now_ms)
                &&& b.spots == n
                &&& b.packet@ == s.packet(n, export_time, s.templates_due(now_ms))
                &&& final(self)@ == (SessionView {
                    flush_due_ms: if n == s.pending.len() {
                        None
                    } else {
                        Some((now_ms + FLUSH_INTERVAL_MS) as u64)
                    },
                    ..s.without(n)
                })
            },
    {
        let timed = match self.flush_due_ms {
            Some(t) => now_ms >= t,
            None => false,
        };
        if self.pending.len() == 0 || !(timed || self.pending.len() >= FLUSH_SPOTS) {
            return None;
        }
        let templates = self.packets_sent < 3 || (now_ms >= self.last_template_ms && now_ms
            - self.last_template_ms >= TEMPLATE_INTERVAL_MS);
        let n: usize = batch_size(&self.info, &self.pending, templates);
        let all = n == self.pending.len();
        let packet = self.take_batch(n, export_time, templates);
        self.flush_due_ms = if all {
            None
        } else {
            Some(now_ms + FLUSH_INTERVAL_MS)
        };
        Some(Batch { packet, spots: n, templates })
    }

    /// Notes that a packet went out at `now_ms`, with or without templates.
    pub fn on_sent(&mut self, templates: bool, now_ms: u64)
        ensures
            final(self)@ == (SessionView {
                packets_sent: if old(self)@.packets_sent == u32::MAX {
                    u32::MAX
                } else {
                    (old(self)@.packets_sent + 1) as u32
                },
                last_template_ms: if templates {
                    now_ms
                } else {
                    old(self)@.last_template_ms
                },
                ..old(self)@
            }),
    {
        if self.packets_sent < u32::MAX {
            self.packets_sent = self.packets_sent + 1;
        }
        if templates {
            self.last_template_ms = now_ms;
        }
    }

    /// The packets that send all that is left when the session ends.
    pub fn finish(&mut self, export_time: u32) -> (r: Vec<Vec<u8>>)
        ensures
            packets(r@) == old(self)@.final_packets(export_time),
            final(self)@ == old(self)@.drained(),
            final(self)@.pending.len() == 0,
    {
        let mut out: Vec<Vec<u8>> = Vec::new();
        let ghost all = self@.final_packets(export_time);
        assert(packets(out@) + all =~= all);
        while self.pending.len() > 0
            invariant
                all == packets(out@) + self@.final_packets(export_time),
                self@.drained() == old(self)@.drained(),
            decreases self.pending.len(),
        {
            let ghost before = self@;
            let ghost done = packets(out@);
            let n: usize = batch_size(&self.info, &self.pending, false);
            let p = self.take_batch(n, export_time, false);
            let ghost pv = p@;
            out.push(p);
            assert(packets(out@) =~= done.push(pv));
            assert(done + (seq![pv] + self@.final_packets(export_time)) =~= done.push(pv)
                + self@.final_packets(export_time));
        }
        assert(self@.final_packets(export_time) =~= Seq::<Seq<u8>>::empty());
        assert(packets(out@) =~= all);
        out
    }
}

/// Templates go into each of the first three packets.
pub proof fn law_first_packets_have_templates(s: SessionView, now_ms: u64)
    requires
        s.packets_sent < 3,
    ensures
        s.templates_due(now_ms),
{
}

/// After that, a packet has templates exactly where the last ones are an hour
/// old.
pub proof fn law_templates_hourly(s: SessionView, now_ms: u64)
    requires
        s.packets_sent >= 3,
    ensures
        s.templates_due(now_ms) <==> now_ms >= s.last_template_ms + 3_600_000,
{
}

/// No spot is lost or sent twice: those of the packet and those that wait on are
/// what waited before, in the same order.
pub proof fn law_no_spot_lost(s: SessionView, templates: bool)
    requires
        s.pending.len() > 0,
    ensures
        ({
            let n = batch_len(s.info, s.pending, templates);
            s.pending.take(n as int) + s.without(n).pending == s.pending
        }),
{
    law_batch_fits(s.info, s.pending, templates);
    let n = batch_len(s.info, s.pending, templates);
    assert(s.pending.take(n as int) + s.without(n).pending =~= s.pending);
}

/// Mixing takes the bytes one after the other: 31 times what was mixed so far, and
/// the byte, within 64 bits.
pub proof fn law_mixed_byte_by_byte(b: Seq<u8>, x: u8)
    ensures
        mixed(Seq::<u8>::empty()) == 0,
        mixed(b.push(x)) == (31 * mixed(b) + x) % 0x1_0000_0000_0000_0000,
{
    assert(b.push(x).drop_last() =~= b);
}

/// A signal-to-noise ratio is reported as it is between -127 and 127, and by the
/// nearer of these beyond.
pub proof fn law_reported_ratio(snr_db: int)
    ensures
        -127 <= clamped_snr(snr_db) <= 127,
        -127 <= snr_db <= 127 ==> clamped_snr(snr_db) == snr_db,
        snr_db > 127 ==> clamped_snr(snr_db) == 127,
        snr_db < -127 ==> clamped_snr(snr_db) == -127,
{
}

/// A packet is due where a spot has waited its time, or where 32 wait; never without
/// one.
pub proof fn law_when_spots_are_due(s: SessionView, now_ms: u64)
    ensures
        s.pending.len() == 0 ==> !s.due(now_ms),
        s.pending.len() >= 32 ==> s.due(now_ms),
        0 < s.pending.len() < 32 ==> (s.due(now_ms) <==> s.flush_due_ms is Some && s.flush_due_ms->0 <= now_ms),
{
}

/// Packets are numbered one by one, and begin again at zero behind the largest
/// number.
pub proof fn law_packets_are_numbered(n: u32)
    ensures
        next_sequence(n) as int == (n + 1) % 0x1_0000_0000,
{
}

/// What is left at the end goes out whole: nothing waits any more, every packet has
/// its own number, and nothing else of the session changes.
pub proof fn law_end_sends_everything(s: SessionView, export_time: u32)
    ensures
        ({
            let e = s.drained();
            &&& e.pending.len() == 0
            &&& e.sequence_num as int == (s.sequence_num + s.final_packets(export_time).len()) % 0x1_0000_0000
            &&& s.pending.len() > 0 ==> 1 <= s.final_packets(export_time).len() <= s.pending.len()
            &&& s.pending.len() == 0 ==> s.final_packets(export_time).len() == 0
            &&& e == (SessionView { pending: e.pending, sequence_num: e.sequence_num, ..s })
        }),
    decreases s.pending.len(),
{
    if s.pending.len() > 0 {
        lemma_end_step(s, export_time);
        let t = s.without(batch_len(s.info, s.pending, false));
        law_end_sends_everything(t, export_time);
        let m = t.final_packets(export_time).len();
        lemma_numbered(s.sequence_num, m);
    } else {
        lemma_end_empty(s, export_time);
    }
}

proof fn lemma_numbered(n: u32, m: nat)
    ensures
        (next_sequence(n) + m) % 0x1_0000_0000 == (n + (m + 1)) % 0x1_0000_0000,
{
    if n == u32::MAX {
        vstd::arithmetic::div_mod::lemma_mod_add_multiples_vanish(m as int, 0x1_0000_0000);
    }
}

proof fn lemma_end_empty(s: SessionView, export_time: u32)
    requires
        s.pending.len() == 0,
    ensures
        s.drained() == s,
        s.final_packets(export_time).len() == 0,
{
}

proof fn lemma_end_step(s: SessionView, export_time: u32)
    requires
        s.pending.len() > 0,
    ensures
        ({
            let n = batch_len(s.info, s.pending, false);
            let t = s.without(n);
            &&& 1 <= n <= s.pending.len()
            &&& s.drained() == t.drained()
            &&& s.final_packets(export_time).len() == t.final_packets(export_time).len() + 1
            &&& t.pending.len() == s.pending.len() - n
        }),
{
    law_batch_fits(s.info, s.pending, false);
}

/// A batch is as large as 1400 bytes allow: with several spots it stays within them,
/// and one spot more would not.
pub proof fn law_batch_within_limit(info: ReceiverView, spots: Seq<SpotView>, templates: bool)
    requires
        spots.len() > 0,
    ensures
        ({
            let n = batch_len(info, spots, templates);
            &&& n > 1 ==> packet_len(info, spots.take(n as int), templates) <= 1400
            &&& n < spots.len() ==> packet_len(info, spots.take(n as int + 1), templates) > 1400
        }),
{
    law_batch_fits(info, spots, templates);
}

} // verus!
