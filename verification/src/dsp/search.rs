//! The order in which a message is looked for: candidate by candidate, averaging
//! pattern by averaging pattern, peak by peak, and around each peak. The first trial
//! that is accepted ends the search.
use vstd::prelude::*;

use crate::dsp::sync::{candidate_window, tried, tried_start, window};

verus! {

/// One place to look: the samples from `from` to `to` around a candidate, averaged by
/// a pattern.
#[derive(Debug, Clone, Copy, PartialEq, Eq, Structural)]
pub struct Job {
    pub candidate: usize,
    pub pattern: usize,
    pub from: usize,
    pub to: usize,
}

/// The jobs of one candidate: its window with every pattern.
pub open spec fn candidate_jobs(c: int, w: Option<(int, int)>, patterns: nat) -> Seq<Job> {
    match w {
        Some((from, to)) => Seq::new(
            patterns,
            |p: int|
                Job { candidate: c as usize, pattern: p as usize, from: from as usize, to: to as usize },
        ),
        None => seq![],
    }
}

/// The jobs of candidates that start at `starts`, in a buffer of `n` samples. A
/// candidate without a window has none.
pub open spec fn jobs_around(starts: Seq<usize>, frame: int, n: int, patterns: nat) -> Seq<Job>
    decreases starts.len(),
{
    if starts.len() == 0 {
        seq![]
    } else {
        jobs_around(starts.drop_last(), frame, n, patterns) + candidate_jobs(
            starts.len() - 1,
            window(starts.last() as int, frame, n),
            patterns,
        )
    }
}

/// The starts that peaks offer: three around each of them.
pub open spec fn offered_starts(peaks: Seq<usize>, frame: int) -> Seq<int>
    decreases peaks.len(),
{
    if peaks.len() == 0 {
        seq![]
    } else {
        let peak = peaks.last() as int;
        offered_starts(peaks.drop_last(), frame) + seq![
            tried(peak, 0, frame),
            tried(peak, 1, frame),
            tried(peak, 2, frame),
        ]
    }
}

/// What is to be done next.
#[derive(Debug, Clone, Copy, PartialEq, Eq, Structural)]
pub enum SearchAction {
    /// Look for the sync word.
    Sync(Job),
    /// Decode the averaged frame from sample `start` on.
    Try { job: Job, start: usize },
    /// The last trial was accepted.
    Found(Job),
    /// Nothing is left to try.
    Exhausted,
}

/// A search under way.
#[derive(Debug)]
pub struct Search {
    pub frame: usize,
    pub jobs: Vec<Job>,
    /// The job under way.
    pub at: usize,
    /// The starts that its sync offers; none before the sync.
    pub trials: Vec<usize>,
    /// The trial under way.
    pub trial: usize,
    pub found: bool,
}

/// The mathematical content of a [`Search`].
#[verifier::ext_equal]
pub struct SearchView {
    pub frame: nat,
    pub jobs: Seq<Job>,
    pub at: nat,
    pub trials: Seq<int>,
    pub trial: nat,
    pub found: bool,
}

/// Starts as whole numbers.
pub open spec fn starts(v: Seq<usize>) -> Seq<int> {
    v.map_values(|s: usize| s as int)
}

impl View for Search {
    type V = SearchView;

    open spec fn view(&self) -> SearchView {
        SearchView {
            frame: self.frame as nat,
            jobs: self.jobs@,
            at: self.at as nat,
            trials: starts(self.trials@),
            trial: self.trial as nat,
            found: self.found,
        }
    }
}

impl SearchView {
    /// Trials belong to a job, and one of them is under way.
    pub open spec fn wf(self) -> bool {
        &&& self.at <= self.jobs.len()
        &&& self.trials.len() > 0 ==> self.at < self.jobs.len() && self.trial < self.trials.len()
        &&& self.trials.len() == 0 ==> self.trial == 0 && !self.found
    }

    /// The job under way waits for its sync.
    pub open spec fn syncing(self) -> bool {
        !self.found && self.at < self.jobs.len() && self.trials.len() == 0
    }

    /// The job under way has a trial under way.
    pub open spec fn trying(self) -> bool {
        !self.found && self.trials.len() > 0
    }

    /// The search before its first sync.
    pub open spec fn fresh(frame: nat, jobs: Seq<Job>) -> SearchView {
        SearchView { frame, jobs, at: 0, trials: seq![], trial: 0, found: false }
    }

    /// The next job.
    pub open spec fn next_job(self) -> SearchView {
        SearchView { at: self.at + 1, trials: seq![], trial: 0, ..self }
    }

    /// After a sync that offers some starts. Without any, the next job follows.
    pub open spec fn after_sync(self, offered: Seq<int>) -> SearchView {
        if offered.len() == 0 {
            self.next_job()
        } else {
            SearchView { trials: offered, trial: 0, ..self }
        }
    }

    /// After a trial: the search ends where it was accepted, else the next start
    /// follows, and after the last one the next job.
    pub open spec fn after_try(self, accepted: bool) -> SearchView {
        if accepted {
            SearchView { found: true, ..self }
        } else if self.trial + 1 < self.trials.len() {
            SearchView { trial: self.trial + 1, ..self }
        } else {
            self.next_job()
        }
    }
}

impl Search {
    /// A search around candidates that start at `n_starts` in a buffer of `n` samples.
    pub fn around(n_starts: &Vec<usize>, frame: usize, n: usize, patterns: usize) -> (r: Self)
        requires
            forall|i: int| 0 <= i < n_starts@.len() ==> #[trigger] n_starts@[i] + 3 * frame <= usize::MAX,
        ensures
            r@ == SearchView::fresh(
                frame as nat,
                jobs_around(n_starts@, frame as int, n as int, patterns as nat),
            ),
            r@.wf(),
    {
        let mut jobs: Vec<Job> = Vec::new();
        let mut c: usize = 0;
        assert(n_starts@.take(0) =~= Seq::<usize>::empty());
        while c < n_starts.len()
            invariant
                c <= n_starts@.len(),
                jobs@ == jobs_around(n_starts@.take(c as int), frame as int, n as int, patterns as nat),
                forall|i: int| 0 <= i < n_starts@.len() ==> #[trigger] n_starts@[i] + 3 * frame <= usize::MAX,
            decreases n_starts.len() - c,
        {
            let ghost more = n_starts@.take(c + 1);
            assert(more.drop_last() =~= n_starts@.take(c as int));
            assert(more.last() == n_starts@[c as int]);
            let ghost before = jobs@;
            let w = candidate_window(n_starts[c], frame, n);
            let ghost own = candidate_jobs(
                c as int,
                window(n_starts@[c as int] as int, frame as int, n as int),
                patterns as nat,
            );
            if let Some((from, to)) = w {
                push_jobs(&mut jobs, c, from, to, patterns);
            } else {
                assert(before + own =~= before);
            }
            c = c + 1;
        }
        assert(n_starts@.take(c as int) =~= n_starts@);
        let r = Search { frame, jobs, at: 0, trials: Vec::new(), trial: 0, found: false };
        assert(r@.trials =~= seq![]);
        r
    }

    /// A search in one window.
    pub fn within(from: usize, to: usize, frame: usize, patterns: usize) -> (r: Self)
        ensures
            r@ == SearchView::fresh(
                frame as nat,
                candidate_jobs(0, Some((from as int, to as int)), patterns as nat),
            ),
            r@.wf(),
    {
        let mut jobs: Vec<Job> = Vec::new();
        push_jobs(&mut jobs, 0, from, to, patterns);
        let r = Search { frame, jobs, at: 0, trials: Vec::new(), trial: 0, found: false };
        assert(r@.trials =~= seq![]);
        assert(r@.jobs =~= candidate_jobs(0, Some((from as int, to as int)), patterns as nat));
        r
    }

    /// What is to be done next.
    pub fn action(&self) -> (r: SearchAction)
        requires
            self@.wf(),
        ensures
            r == (if self@.found {
                SearchAction::Found(self@.jobs[self@.at as int])
            } else if self@.at >= self@.jobs.len() {
                SearchAction::Exhausted
            } else if self@.trials.len() == 0 {
                SearchAction::Sync(self@.jobs[self@.at as int])
            } else {
                SearchAction::Try {
                    job: self@.jobs[self@.at as int],
                    start: self@.trials[self@.trial as int] as usize,
                }
            }),
    {
        assert(self@.trials.len() == self.trials@.len());
        if self.found {
            SearchAction::Found(self.jobs[self.at])
        } else if self.at >= self.jobs.len() {
            SearchAction::Exhausted
        } else if self.trials.len() == 0 {
            SearchAction::Sync(self.jobs[self.at])
        } else {
            SearchAction::Try { job: self.jobs[self.at], start: self.trials[self.trial] }
        }
    }

    /// Takes in a sync: whether it succeeded, and its peaks.
    pub fn on_sync(&mut self, success: bool, peaks: &Vec<usize>)
        requires
            old(self)@.wf(),
            old(self)@.syncing(),
            forall|i: int| 0 <= i < peaks@.len() ==> #[trigger] peaks@[i] < old(self)@.frame,
        ensures
            final(self)@ == old(self)@.after_sync(
                if success {
                    offered_starts(peaks@, old(self)@.frame as int)
                } else {
                    seq![]
                },
            ),
            final(self)@.wf(),
    {
        let mut list: Vec<usize> = Vec::new();
        let frame: usize = self.frame;
        if success {
            let mut k: usize = 0;
            assert(peaks@.take(0) =~= Seq::<usize>::empty());
            assert(starts(list@) =~= seq![]);
            while k < peaks.len()
                invariant
                    k <= peaks@.len(),
                    forall|i: int| 0 <= i < peaks@.len() ==> #[trigger] peaks@[i] < frame,
                    starts(list@) == offered_starts(peaks@.take(k as int), frame as int),
                decreases peaks.len() - k,
            {
                let ghost before = starts(list@);
                let peak: usize = peaks[k];
                assert(peaks@[k as int] < frame);
                assert(peaks@.take(k + 1).drop_last() =~= peaks@.take(k as int));
                list.push(tried_start(peak, 0, frame));
                list.push(tried_start(peak, 1, frame));
                list.push(tried_start(peak, 2, frame));
                assert(starts(list@) =~= before + seq![
                    tried(peak as int, 0, frame as int),
                    tried(peak as int, 1, frame as int),
                    tried(peak as int, 2, frame as int),
                ]);
                k = k + 1;
            }
            assert(peaks@.take(k as int) =~= peaks@);
        } else {
            assert(starts(list@) =~= seq![]);
        }
        assert(starts(list@).len() == list@.len());
        let ghost offered = starts(list@);
        assert(self.jobs.len() == self.jobs@.len());
        if list.len() == 0 {
            self.at = self.at + 1;
        } else {
            self.trials = list;
        }
        assert(self@ =~= old(self)@.after_sync(offered));
    }

    /// Takes in whether a trial was accepted.
    pub fn on_try(&mut self, accepted: bool)
        requires
            old(self)@.wf(),
            old(self)@.trying(),
        ensures
            final(self)@ == old(self)@.after_try(accepted),
            final(self)@.wf(),
    {
        assert(self@.trials.len() == self.trials.len());
        assert(self.jobs.len() == self.jobs@.len());
        if accepted {
            self.found = true;
        } else if self.trial + 1 < self.trials.len() {
            self.trial = self.trial + 1;
        } else {
            self.at = self.at + 1;
            self.trials = Vec::new();
            self.trial = 0;
            assert(self@.trials =~= seq![]);
        }
        assert(self@ =~= old(self)@.after_try(accepted));
    }
}

fn push_jobs(jobs: &mut Vec<Job>, c: usize, from: usize, to: usize, patterns: usize)
    ensures
        final(jobs)@ == old(jobs)@ + candidate_jobs(c as int, Some((from as int, to as int)), patterns as nat),
{
    let ghost own = candidate_jobs(c as int, Some((from as int, to as int)), patterns as nat);
    let mut p: usize = 0;
    assert(jobs@ =~= old(jobs)@ + own.take(0));
    while p < patterns
        invariant
            p <= patterns,
            own == candidate_jobs(c as int, Some((from as int, to as int)), patterns as nat),
            jobs@ == old(jobs)@ + own.take(p as int),
        decreases patterns - p,
    {
        jobs.push(Job { candidate: c, pattern: p, from, to });
        assert(own.take(p + 1) =~= own.take(p as int).push(own[p as int]));
        assert(jobs@ =~= old(jobs)@ + own.take(p + 1));
        p = p + 1;
    }
    assert(own.take(p as int) =~= own);
}

/// The first start, from place `k` on, that is accepted.
pub open spec fn first_accepted(offered: Seq<int>, ok: spec_fn(int) -> bool, k: nat) -> Option<nat>
    decreases offered.len() - k,
{
    if k >= offered.len() {
        None
    } else if ok(offered[k as int]) {
        Some(k)
    } else {
        first_accepted(offered, ok, k + 1)
    }
}

/// The first job, from number `j` on, that offers a start that is accepted, and the
/// first such start.
pub open spec fn first_hit(
    jobs: Seq<Job>,
    offers: spec_fn(Job) -> Seq<int>,
    ok: spec_fn(Job, int) -> bool,
    j: nat,
) -> Option<(nat, nat)>
    decreases jobs.len() - j,
{
    if j >= jobs.len() {
        None
    } else {
        let job = jobs[j as int];
        match first_accepted(offers(job), |s: int| ok(job, s), 0) {
            Some(k) => Some((j, k)),
            None => first_hit(jobs, offers, ok, j + 1),
        }
    }
}

/// The end of a search in which the sync of a job offers `offers(job)` and the trials
/// with `ok(job, start)` are the ones that are accepted.
pub open spec fn conducted(
    s: SearchView,
    offers: spec_fn(Job) -> Seq<int>,
    ok: spec_fn(Job, int) -> bool,
) -> SearchView
    decreases
            s.jobs.len() - s.at,
            if s.trials.len() == 0 {
                offers(s.jobs[s.at as int]).len() + 1
            } else {
                (s.trials.len() - s.trial) as nat
            },
{
    if !s.wf() {
        s
    } else if s.syncing() {
        conducted(s.after_sync(offers(s.jobs[s.at as int])), offers, ok)
    } else if s.trying() {
        if ok(s.jobs[s.at as int], s.trials[s.trial as int]) {
            s.after_try(true)
        } else {
            conducted(s.after_try(false), offers, ok)
        }
    } else {
        s
    }
}

/// The hit that a search under way comes to.
spec fn coming(s: SearchView, offers: spec_fn(Job) -> Seq<int>, ok: spec_fn(Job, int) -> bool) -> Option<
    (nat, nat),
> {
    if s.trials.len() == 0 {
        first_hit(s.jobs, offers, ok, s.at)
    } else {
        let job = s.jobs[s.at as int];
        match first_accepted(s.trials, |x: int| ok(job, x), s.trial) {
            Some(k) => Some((s.at, k)),
            None => first_hit(s.jobs, offers, ok, s.at + 1),
        }
    }
}

proof fn lemma_conducted(s: SearchView, offers: spec_fn(Job) -> Seq<int>, ok: spec_fn(Job, int) -> bool)
    requires
        s.wf(),
        !s.found,
        s.trials.len() > 0 ==> s.trials == offers(s.jobs[s.at as int]),
    ensures
        ({
            let e = conducted(s, offers, ok);
            match coming(s, offers, ok) {
                Some((j, k)) => e.found && e.at == j && e.trial == k && e.jobs == s.jobs && e.trials == offers(
                    s.jobs[j as int],
                ) && k < e.trials.len() && j < s.jobs.len(),
                None => !e.found && e.at == e.jobs.len() && e.jobs == s.jobs,
            }
        }),
    decreases
            s.jobs.len() - s.at,
            if s.trials.len() == 0 {
                offers(s.jobs[s.at as int]).len() + 1
            } else {
                (s.trials.len() - s.trial) as nat
            },
{
    if s.syncing() {
        lemma_conducted(s.after_sync(offers(s.jobs[s.at as int])), offers, ok);
    } else if s.trying() {
        let job = s.jobs[s.at as int];
        let accepts = |x: int| ok(job, x);
        assert(accepts(s.trials[s.trial as int]) == ok(job, s.trials[s.trial as int]));
        if !ok(job, s.trials[s.trial as int]) {
            lemma_conducted(s.after_try(false), offers, ok);
            assert(first_accepted(s.trials, accepts, s.trial) == first_accepted(s.trials, accepts, s.trial + 1));
        }
    }
}

/// A search finds the first trial that is accepted, job by job and start by start,
/// and is exhausted exactly where there is none.
pub proof fn law_search_finds_first(
    frame: nat,
    jobs: Seq<Job>,
    offers: spec_fn(Job) -> Seq<int>,
    ok: spec_fn(Job, int) -> bool,
)
    ensures
        ({
            let e = conducted(SearchView::fresh(frame, jobs), offers, ok);
            match first_hit(jobs, offers, ok, 0) {
                Some((j, k)) => e.found && e.at == j && e.trials[e.trial as int] == offers(jobs[j as int])[k as int],
                None => !e.found && e.at == jobs.len(),
            }
        }),
{
    lemma_conducted(SearchView::fresh(frame, jobs), offers, ok);
}

proof fn lemma_first_accepted(offered: Seq<int>, ok: spec_fn(int) -> bool, k: nat)
    ensures
        match first_accepted(offered, ok, k) {
            Some(i) => k <= i < offered.len() && ok(offered[i as int]) && forall|x: int|
                k <= x < i ==> !ok(#[trigger] offered[x]),
            None => forall|x: int| k <= x < offered.len() ==> !ok(#[trigger] offered[x]),
        },
    decreases offered.len() - k,
{
    if k < offered.len() && !ok(offered[k as int]) {
        lemma_first_accepted(offered, ok, k + 1);
    }
}

/// No trial before the hit is accepted, and without a hit none is: nothing is passed
/// over.
pub proof fn law_nothing_is_passed_over(
    jobs: Seq<Job>,
    offers: spec_fn(Job) -> Seq<int>,
    ok: spec_fn(Job, int) -> bool,
    from: nat,
)
    ensures
        match first_hit(jobs, offers, ok, from) {
            Some((j, k)) => {
                &&& from <= j < jobs.len()
                &&& k < offers(jobs[j as int]).len()
                &&& ok(jobs[j as int], offers(jobs[j as int])[k as int])
                &&& forall|i: int, x: int|
                    from <= i < j && 0 <= x < offers(jobs[i]).len() ==> !ok(
                        jobs[i],
                        #[trigger] offers(jobs[i])[x],
                    )
                &&& forall|x: int| 0 <= x < k ==> !ok(jobs[j as int], #[trigger] offers(jobs[j as int])[x])
            },
            None => forall|i: int, x: int|
                from <= i < jobs.len() && 0 <= x < offers(jobs[i]).len() ==> !ok(
                    jobs[i],
                    #[trigger] offers(jobs[i])[x],
                ),
        },
    decreases jobs.len() - from,
{
    if from < jobs.len() {
        let job = jobs[from as int];
        lemma_first_accepted(offers(job), |s: int| ok(job, s), 0);
        if first_accepted(offers(job), |s: int| ok(job, s), 0) is None {
            law_nothing_is_passed_over(jobs, offers, ok, from + 1);
        }
    }
}

/// The jobs of a search go candidate by candidate, and for each through the patterns
/// in their order, all of them in the candidate's window.
pub proof fn law_jobs_in_order(starts: Seq<usize>, frame: int, n: int, patterns: nat, c: int, p: int)
    requires
        n >= 3 * frame,
        frame > 0,
        starts.len() <= usize::MAX,
        patterns <= usize::MAX,
        0 <= c < starts.len(),
        0 <= p < patterns,
    ensures
        ({
            let jobs = jobs_around(starts, frame, n, patterns);
            let job = jobs[c * patterns + p];
            let w = window(starts[c] as int, frame, n)->0;
            &&& jobs.len() == starts.len() * patterns
            &&& job.candidate == c && job.pattern == p
            &&& job.from == w.0 as usize && job.to == w.1 as usize
        }),
    decreases starts.len(),
{
    let t = starts.drop_last();
    lemma_jobs_len(starts, frame, n, patterns);
    lemma_jobs_len(t, frame, n, patterns);
    if c < t.len() {
        law_jobs_in_order(t, frame, n, patterns, c, p);
        assert(c * patterns + p < t.len() * patterns) by (nonlinear_arith)
            requires
                c + 1 <= t.len(),
                0 <= p < patterns,
        ;
        assert(0 <= c * patterns) by (nonlinear_arith)
            requires
                c >= 0,
        ;
    } else {
        assert(c * patterns + p >= t.len() * patterns);
    }
}

proof fn lemma_jobs_len(starts: Seq<usize>, frame: int, n: int, patterns: nat)
    requires
        n >= 3 * frame,
        frame > 0,
    ensures
        jobs_around(starts, frame, n, patterns).len() == starts.len() * patterns,
    decreases starts.len(),
{
    if starts.len() > 0 {
        let t = starts.drop_last();
        lemma_jobs_len(t, frame, n, patterns);
        assert((t.len() + 1) * patterns == t.len() * patterns + patterns) by (nonlinear_arith);
    }
}

/// In a buffer shorter than three frames nothing is looked for.
pub proof fn law_short_buffer_has_no_jobs(starts: Seq<usize>, frame: int, n: int, patterns: nat)
    requires
        n < 3 * frame,
    ensures
        jobs_around(starts, frame, n, patterns).len() == 0,
    decreases starts.len(),
{
    if starts.len() > 0 {
        law_short_buffer_has_no_jobs(starts.drop_last(), frame, n, patterns);
    }
}

/// The starts that are tried go peak by peak, and at each peak first the peak, then
/// the sample before it, then the one behind it.
pub proof fn law_offered_in_order(peaks: Seq<usize>, frame: int, i: int)
    requires
        0 <= i < peaks.len(),
        forall|k: int| 0 <= k < peaks.len() ==> #[trigger] peaks[k] < frame,
    ensures
        ({
            let o = offered_starts(peaks, frame);
            &&& o.len() == 3 * peaks.len()
            &&& o[3 * i] == peaks[i]
            &&& peaks[i] > 0 ==> o[3 * i + 1] == peaks[i] - 1
            &&& peaks[i] + 1 < frame ==> o[3 * i + 2] == peaks[i] + 1
            &&& 0 <= o[3 * i + 1] < frame && 0 <= o[3 * i + 2] < frame
        }),
    decreases peaks.len(),
{
    let t = peaks.drop_last();
    assert forall|k: int| 0 <= k < t.len() implies #[trigger] t[k] < frame by {
        assert(peaks[k] < frame);
    }
    if i < t.len() {
        law_offered_in_order(t, frame, i);
    } else {
        lemma_offered_len(t, frame);
    }
}

proof fn lemma_offered_len(peaks: Seq<usize>, frame: int)
    ensures
        offered_starts(peaks, frame).len() == 3 * peaks.len(),
    decreases peaks.len(),
{
    if peaks.len() > 0 {
        lemma_offered_len(peaks.drop_last(), frame);
    }
}

} // verus!
