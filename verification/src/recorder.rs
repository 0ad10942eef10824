//! A recorder that always holds the last seconds of audio and, when it is
//! triggered, saves them together with the seconds that follow.
use std::collections::VecDeque;
use vstd::prelude::*;
use vstd::string::*;

verus! {

/// How much is recorded, and where.
#[derive(Debug, Clone)]
pub struct SaveConfig {
    pub sample_rate: u32,
    pub pre_roll_secs: u32,
    pub post_roll_secs: u32,
    pub captures_root: String,
}

impl Default for SaveConfig {
    fn default() -> (r: Self)
        ensures
            r.sample_rate == 12000,
            r.pre_roll_secs == 15,
            r.post_roll_secs == 15,
            r.captures_root@ == "captures"@,
    {
        SaveConfig {
            sample_rate: 12000,
            pre_roll_secs: 15,
            post_roll_secs: 15,
            captures_root: "captures".to_owned(),
        }
    }
}

/// A save that waits for the audio after its trigger.
#[derive(Debug)]
pub struct PendingSave {
    pub target_path: String,
    /// Samples that are still to come.
    pub samples_remaining: usize,
    /// The audio before the trigger.
    pub pre_roll_snapshot: Vec<i16>,
    /// The audio since the trigger.
    pub post_roll: Vec<i16>,
}

/// The mathematical content of a [`PendingSave`].
#[verifier::ext_equal]
pub struct SaveView {
    pub target_path: Seq<char>,
    pub remaining: nat,
    pub pre: Seq<i16>,
    pub post: Seq<i16>,
}

impl View for PendingSave {
    type V = SaveView;

    open spec fn view(&self) -> SaveView {
        SaveView {
            target_path: self.target_path@,
            remaining: self.samples_remaining as nat,
            pre: self.pre_roll_snapshot@,
            post: self.post_roll@,
        }
    }
}

/// What a list of saves holds.
pub open spec fn saves(v: Seq<PendingSave>) -> Seq<SaveView> {
    v.map_values(|p: PendingSave| p@)
}

/// The last `n` elements, or all where there are fewer.
pub open spec fn last_of<T>(s: Seq<T>, n: nat) -> Seq<T> {
    if s.len() <= n {
        s
    } else {
        s.skip(s.len() - n)
    }
}

/// How much of `samples` a save takes in: no more than it waits for.
pub open spec fn taken(p: SaveView, samples: Seq<i16>) -> nat {
    if p.remaining <= samples.len() {
        p.remaining
    } else {
        samples.len()
    }
}

/// A save that has taken in more audio, as far as it still waited for some.
pub open spec fn extended(p: SaveView, samples: Seq<i16>) -> SaveView {
    SaveView {
        remaining: (p.remaining - taken(p, samples)) as nat,
        post: p.post + samples.take(taken(p, samples) as int),
        ..p
    }
}

/// All saves with more audio.
pub open spec fn extended_all(s: Seq<SaveView>, samples: Seq<i16>) -> Seq<SaveView> {
    s.map_values(|p: SaveView| extended(p, samples))
}

/// The saves that have all their audio, in their order.
pub open spec fn complete(s: Seq<SaveView>) -> Seq<SaveView>
    decreases s.len(),
{
    if s.len() == 0 {
        seq![]
    } else if s.last().remaining == 0 {
        complete(s.drop_last()).push(s.last())
    } else {
        complete(s.drop_last())
    }
}

/// The saves that still wait for audio, in their order.
pub open spec fn incomplete(s: Seq<SaveView>) -> Seq<SaveView>
    decreases s.len(),
{
    if s.len() == 0 {
        seq![]
    } else if s.last().remaining > 0 {
        incomplete(s.drop_last()).push(s.last())
    } else {
        incomplete(s.drop_last())
    }
}

/// The recorder.
#[derive(Debug)]
pub struct Recorder {
    pub cfg: SaveConfig,
    pub ring: VecDeque<i16>,
    pub ring_capacity: usize,
    pub pending: Vec<PendingSave>,
    /// We are transmitting: audio that comes in is our own and is dropped.
    pub tx_active: bool,
}

/// The mathematical content of a [`Recorder`].
#[verifier::ext_equal]
pub struct RecorderView {
    pub cfg: SaveConfig,
    pub capacity: nat,
    pub ring: Seq<i16>,
    pub pending: Seq<SaveView>,
    pub tx_active: bool,
}

impl View for Recorder {
    type V = RecorderView;

    open spec fn view(&self) -> RecorderView {
        RecorderView {
            cfg: self.cfg,
            capacity: self.ring_capacity as nat,
            ring: self.ring@,
            pending: saves(self.pending@),
            tx_active: self.tx_active,
        }
    }
}

impl RecorderView {
    /// The ring holds no more than the audio before a trigger, which fits in a
    /// machine word, as does the audio after it.
    pub open spec fn wf(self) -> bool {
        &&& self.capacity == self.cfg.pre_roll_secs * self.cfg.sample_rate
        &&& self.ring.len() <= self.capacity
        &&& self.cfg.post_roll_secs * self.cfg.sample_rate <= usize::MAX
    }

    /// The recorder after it has taken in audio. While we transmit, nothing is
    /// taken in. Otherwise the ring keeps the last of the audio and every save that
    /// waits gets as much of it as it waits for.
    pub open spec fn after_audio(self, samples: Seq<i16>) -> RecorderView {
        if self.tx_active {
            self
        } else {
            RecorderView {
                ring: last_of(self.ring + samples, self.capacity),
                pending: incomplete(extended_all(self.pending, samples)),
                ..self
            }
        }
    }

    /// The saves that audio completes.
    pub open spec fn finished_by(self, samples: Seq<i16>) -> Seq<SaveView> {
        if self.tx_active {
            seq![]
        } else {
            complete(extended_all(self.pending, samples))
        }
    }
}

impl Recorder {
    /// An empty recorder.
    pub fn new(cfg: SaveConfig) -> (r: Self)
        requires
            cfg.pre_roll_secs * cfg.sample_rate <= usize::MAX,
            cfg.post_roll_secs * cfg.sample_rate <= usize::MAX,
        ensures
            r@ == (RecorderView {
                cfg,
                capacity: (cfg.pre_roll_secs * cfg.sample_rate) as nat,
                ring: Seq::empty(),
                pending: Seq::empty(),
                tx_active: false,
            }),
            r@.wf(),
    {
        let ring_capacity: usize = cfg.pre_roll_secs as usize * cfg.sample_rate as usize;
        let r = Recorder {
            cfg,
            ring: VecDeque::new(),
            ring_capacity,
            pending: Vec::new(),
            tx_active: false,
        };
        assert(r@.pending =~= Seq::<SaveView>::empty());
        r
    }

    /// Says that transmitting begins or ends. When it begins, all saves that wait
    /// are complete with the audio they have; they are returned.
    pub fn set_tx_active(&mut self, active: bool) -> (r: Vec<PendingSave>)
        ensures
            active && !old(self)@.tx_active ==> saves(r@) == old(self)@.pending && final(self)@ == (
            RecorderView { tx_active: true, pending: Seq::empty(), ..old(self)@ }),
            !(active && !old(self)@.tx_active) ==> r@.len() == 0 && final(self)@ == (RecorderView {
                tx_active: active,
                ..old(self)@
            }),
    {
        let starts = active && !self.tx_active;
        self.tx_active = active;
        if starts {
            self.flush()
        } else {
            Vec::new()
        }
    }

    /// Takes in audio and returns the saves that have thereby become complete.
    /// While we transmit, audio is dropped.
    pub fn push_audio(&mut self, samples: &[i16]) -> (r: Vec<PendingSave>)
        requires
            old(self)@.ring.len() <= old(self)@.capacity,
        ensures
            final(self)@ == old(self)@.after_audio(samples@),
            saves(r@) == old(self)@.finished_by(samples@),
            final(self)@.ring.len() <= final(self)@.capacity,
    {
        let mut done: Vec<PendingSave> = Vec::new();
        if self.tx_active {
            assert(saves(done@) =~= Seq::<SaveView>::empty());
            return done;
        }
        self.push_ring(samples);
        let ghost ring = self.ring@;
        let ghost before = old(self)@.pending;
        let ghost all = extended_all(before, samples@);
        let mut waiting: Vec<PendingSave> = Vec::new();
        let mut old_pending: Vec<PendingSave> = Vec::new();
        std::mem::swap(&mut self.pending, &mut old_pending);
        let n: usize = old_pending.len();
        let mut i: usize = 0;
        assert(all.take(0) =~= Seq::<SaveView>::empty());
        assert(saves(done@) =~= complete(all.take(0)));
        assert(saves(waiting@) =~= incomplete(all.take(0)));
        assert(saves(old_pending@) =~= before.skip(0));
        while i < n
            invariant
                i <= n,
                n == before.len(),
                all == extended_all(before, samples@),
                saves(old_pending@) == before.skip(i as int),
                saves(done@) == complete(all.take(i as int)),
                saves(waiting@) == incomplete(all.take(i as int)),
            decreases n - i,
        {
            assert(old_pending@.len() == saves(old_pending@).len());
            assert(old_pending@[0]@ == saves(old_pending@)[0]);
            let ghost rest = saves(old_pending@);
            let save = extend_save(old_pending.remove(0), samples);
            assert(saves(old_pending@) =~= rest.drop_first());
            assert(rest.drop_first() =~= before.skip(i + 1));
            assert(save@ == all[i as int]);
            assert(all.take(i + 1).drop_last() =~= all.take(i as int));
            assert(all.take(i + 1).last() == save@);
            let ghost v = save@;
            if save.samples_remaining == 0 {
                let ghost d = saves(done@);
                done.push(save);
                assert(saves(done@) =~= d.push(v));
            } else {
                let ghost w = saves(waiting@);
                waiting.push(save);
                assert(saves(waiting@) =~= w.push(v));
            }
            i = i + 1;
        }
        assert(all.take(i as int) =~= all);
        self.pending = waiting;
        done
    }

    /// Takes audio into the ring.
    fn push_ring(&mut self, samples: &[i16])
        requires
            old(self)@.ring.len() <= old(self)@.capacity,
        ensures
            final(self)@ == (RecorderView {
                ring: last_of(old(self)@.ring + samples@, old(self)@.capacity),
                ..old(self)@
            }),
            final(self).pending == old(self).pending,
    {
        if self.ring_capacity == 0 {
            assert(self.ring@ =~= last_of(self.ring@ + samples@, 0));
            return;
        }
        let ghost start = self.ring@;
        let ghost cap = self.ring_capacity as nat;
        let mut i: usize = 0;
        assert(samples@.take(0) =~= Seq::<i16>::empty());
        assert(start + samples@.take(0) =~= start);
        while i < samples.len()
            invariant
                i <= samples@.len(),
                cap == self.ring_capacity > 0,
                self.ring@ == last_of(start + samples@.take(i as int), cap),
                self.cfg == old(self).cfg,
                self.ring_capacity == old(self).ring_capacity,
                self.pending == old(self).pending,
                self.tx_active == old(self).tx_active,
            decreases samples.len() - i,
        {
            let ghost s = start + samples@.take(i as int);
            if self.ring.len() == self.ring_capacity {
                let _ = self.ring.pop_front();
            }
            self.ring.push_back(samples[i]);
            assert(start + samples@.take(i + 1) =~= s.push(samples@[i as int]));
            assert(self.ring@ =~= last_of(s.push(samples@[i as int]), cap));
            i = i + 1;
        }
        assert(samples@.take(i as int) =~= samples@);
    }

    /// Triggers a save: the audio in the ring comes before the trigger, what is
    /// taken in from now on comes after it.
    pub fn trigger_save(&mut self, target_path: String) -> (r: String)
        requires
            old(self)@.wf(),
        ensures
            r@ == target_path@,
            final(self)@ == (RecorderView {
                pending: old(self)@.pending.push(
                    SaveView {
                        target_path: target_path@,
                        remaining: (old(self)@.cfg.post_roll_secs * old(self)@.cfg.sample_rate) as nat,
                        pre: old(self)@.ring,
                        post: Seq::empty(),
                    },
                ),
                ..old(self)@
            }),
            final(self)@.wf(),
    {
        let mut snapshot: Vec<i16> = Vec::new();
        let mut i: usize = 0;
        assert(self.ring@.take(0) =~= Seq::<i16>::empty());
        while i < self.ring.len()
            invariant
                i <= self.ring@.len(),
                snapshot@ == self.ring@.take(i as int),
            decreases self.ring.len() - i,
        {
            snapshot.push(self.ring[i]);
            assert(self.ring@.take(i + 1) =~= self.ring@.take(i as int).push(self.ring@[i as int]));
            i = i + 1;
        }
        assert(self.ring@.take(i as int) =~= self.ring@);
        let samples_remaining: usize = self.cfg.post_roll_secs as usize * self.cfg.sample_rate as usize;
        let save = PendingSave {
            target_path: target_path.clone(),
            samples_remaining,
            pre_roll_snapshot: snapshot,
            post_roll: Vec::new(),
        };
        let ghost v = save@;
        self.pending.push(save);
        assert(saves(self.pending@) =~= old(self)@.pending.push(v));
        target_path
    }

    /// Number of saves that wait for audio.
    pub fn pending_count(&self) -> (r: usize)
        ensures
            r == self@.pending.len(),
    {
        self.pending.len()
    }

    /// Completes all saves that wait with the audio they have, and returns them.
    pub fn flush(&mut self) -> (r: Vec<PendingSave>)
        ensures
            saves(r@) == old(self)@.pending,
            final(self)@ == (RecorderView { pending: Seq::empty(), ..old(self)@ }),
    {
        let mut out: Vec<PendingSave> = Vec::new();
        std::mem::swap(&mut self.pending, &mut out);
        assert(self@.pending =~= Seq::<SaveView>::empty());
        out
    }
}

/// A save with more audio, as far as it still waits for some.
fn extend_save(start: PendingSave, samples: &[i16]) -> (r: PendingSave)
    ensures
        r@ == extended(start@, samples@),
{
    let mut save = start;
    let ghost post = save.post_roll@;
    let n: usize = if save.samples_remaining <= samples.len() {
        save.samples_remaining
    } else {
        samples.len()
    };
    let mut i: usize = 0;
    assert(post + samples@.take(0) =~= post);
    while i < n
        invariant
            i <= n <= samples@.len(),
            save.post_roll@ == post + samples@.take(i as int),
            save.target_path == start.target_path,
            save.samples_remaining == start.samples_remaining,
            save.pre_roll_snapshot == start.pre_roll_snapshot,
        decreases n - i,
    {
        save.post_roll.push(samples[i]);
        assert(post + samples@.take(i + 1) =~= (post + samples@.take(i as int)).push(samples@[i as int]));
        i = i + 1;
    }
    save.samples_remaining = save.samples_remaining - n;
    save
}

/// The ring holds the last of all audio that came in, however it was split into
/// chunks.
pub proof fn law_ring_ignores_chunking(r: RecorderView, a: Seq<i16>, b: Seq<i16>)
    requires
        !r.tx_active,
    ensures
        r.after_audio(a).after_audio(b).ring == r.after_audio(a + b).ring,
        r.after_audio(a + b).ring.len() <= r.capacity,
{
    assert(r.ring + (a + b) =~= r.ring + a + b);
    assert(last_of(last_of(r.ring + a, r.capacity) + b, r.capacity) =~= last_of(
        r.ring + a + b,
        r.capacity,
    ));
}

/// A save is complete exactly when as much audio has followed its trigger as it
/// waits for, and it then holds exactly that audio.
pub proof fn law_save_completes_with_its_audio(p: SaveView, samples: Seq<i16>)
    ensures
        extended(p, samples).remaining == 0 <==> samples.len() >= p.remaining,
        extended(p, samples).pre == p.pre,
        extended(p, samples).remaining == 0 ==> extended(p, samples).post == p.post + samples.take(
            p.remaining as int,
        ) && extended(p, samples).post.len() == p.post.len() + p.remaining,
        extended(p, samples).remaining > 0 ==> extended(p, samples).post == p.post + samples,
{
    assert(samples.take(samples.len() as int) =~= samples);
}

/// What a save holds does not depend on how the audio was cut into chunks, also
/// where it is handed out after the first of them.
pub proof fn law_save_ignores_chunking(p: SaveView, a: Seq<i16>, b: Seq<i16>)
    ensures
        extended(extended(p, a), b) == extended(p, a + b),
        extended(p, a).remaining == 0 ==> extended(p, a) == extended(p, a + b),
{
    let once = extended(p, a + b);
    let twice = extended(extended(p, a), b);
    assert(twice.post =~= once.post);
    assert(extended(p, a).remaining == 0 ==> extended(p, a).post =~= once.post);
}

/// Chunking changes neither which saves still wait nor what they hold, and the
/// saves that two chunks hand out are those that the whole audio hands out.
pub proof fn law_saves_ignore_chunking(s: Seq<SaveView>, a: Seq<i16>, b: Seq<i16>)
    ensures
        ({
            let first = extended_all(s, a);
            let second = extended_all(incomplete(first), b);
            let whole = extended_all(s, a + b);
            &&& incomplete(second) == incomplete(whole)
            &&& complete(first).to_multiset().add(complete(second).to_multiset()) == complete(
                whole,
            ).to_multiset()
        }),
    decreases s.len(),
{
    let first = extended_all(s, a);
    let second = extended_all(incomplete(first), b);
    let whole = extended_all(s, a + b);
    if s.len() == 0 {
        assert(first =~= seq![]);
        assert(second =~= seq![]);
        assert(whole =~= seq![]);
        Seq::<SaveView>::empty().to_multiset_ensures();
        assert(complete(first).to_multiset().add(complete(second).to_multiset()) =~= complete(
            whole,
        ).to_multiset());
    } else {
        let t = s.drop_last();
        let p = s.last();
        law_saves_ignore_chunking(t, a, b);
        law_save_ignores_chunking(p, a, b);
        let first_t = extended_all(t, a);
        let second_t = extended_all(incomplete(first_t), b);
        let whole_t = extended_all(t, a + b);
        assert(first.drop_last() =~= first_t);
        assert(whole.drop_last() =~= whole_t);
        complete(first_t).to_multiset_ensures();
        complete(second_t).to_multiset_ensures();
        complete(whole_t).to_multiset_ensures();
        if extended(p, a).remaining == 0 {
            assert(incomplete(first) == incomplete(first_t));
        } else {
            assert(incomplete(first) == incomplete(first_t).push(extended(p, a)));
            assert(second.drop_last() =~= second_t);
            assert(second.last() == extended(p, a + b));
        }
        assert(complete(first).to_multiset().add(complete(second).to_multiset()) =~= complete(
            whole,
        ).to_multiset());
    }
}

/// No save is lost: each one is either complete or waits on.
pub proof fn law_no_save_lost(s: Seq<SaveView>)
    ensures
        complete(s).len() + incomplete(s).len() == s.len(),
        forall|k: int| 0 <= k < complete(s).len() ==> (#[trigger] complete(s)[k]).remaining == 0,
        forall|k: int| 0 <= k < incomplete(s).len() ==> (#[trigger] incomplete(s)[k]).remaining > 0,
    decreases s.len(),
{
    if s.len() > 0 {
        law_no_save_lost(s.drop_last());
    }
}

/// Our own transmission is not recorded, neither before nor after a trigger.
pub proof fn law_own_transmission_not_recorded(r: RecorderView, samples: Seq<i16>)
    requires
        r.tx_active,
    ensures
        r.after_audio(samples) == r,
        r.finished_by(samples).len() == 0,
{
}

/// The last of something is its end, as much of it as there is room for.
pub proof fn law_last_is_the_end<T>(s: Seq<T>, n: nat)
    ensures
        ({
            let l = last_of(s, n);
            &&& l.len() <= n && l.len() <= s.len()
            &&& l.len() == n || l.len() == s.len()
            &&& s.subrange(s.len() - l.len(), s.len() as int) == l
        }),
{
    let l = last_of(s, n);
    assert(s.subrange(s.len() - l.len(), s.len() as int) =~= l);
}

/// The saves that are complete, and those that wait on, stay in the order in which
/// they were triggered.
pub proof fn law_saves_stay_in_order(s: Seq<SaveView>)
    ensures
        complete(s) == s.filter(|p: SaveView| p.remaining == 0),
        incomplete(s) == s.filter(|p: SaveView| p.remaining > 0),
    decreases s.len(),
{
    reveal(Seq::filter);
    if s.len() > 0 {
        law_saves_stay_in_order(s.drop_last());
    } else {
        assert(complete(s) =~= s);
        assert(incomplete(s) =~= s);
    }
}

} // verus!
