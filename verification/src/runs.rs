//! Programs a plugin asked to be run, and what they printed.
//!
//! A plugin cannot call anything that waits, so running a program is an ask
//! whose answer arrives as a read. Three properties are bounds rather than
//! conventions:
//!
//! - asking is idempotent while the answer is fresh;
//! - what a plugin asks for is clamped to what the kernel will do;
//! - concurrency is bounded and the excess queues.
//!
//! The store decides; its caller runs what [`RunStore::drain_queue`] hands it
//! on workers and folds the results back in with [`RunStore::poll`]. Times
//! are milliseconds on the caller's monotonic clock.
use vstd::prelude::*;
use crate::keyed::{lookup, put, first_key, lemma_first_key, lemma_no_key};

verus! {

/// How long a program may run before it is given up on, in milliseconds.
pub const DEFAULT_TIMEOUT_MS: u64 = 30000;

/// The longest timeout a plugin may ask for, in milliseconds.
pub const MAX_TIMEOUT_MS: u64 = 600000;

/// How long an answer stays fresh when the asker does not say, in
/// milliseconds.
pub const DEFAULT_TTL_MS: u64 = 2000;

/// The shortest TTL the kernel will honour, in milliseconds: a plugin asking
/// for zero would run a process per frame.
pub const MIN_TTL_MS: u64 = 250;

/// Programs running at once. The rest queue.
pub const MAX_CONCURRENT: usize = 4;

/// What a plugin asked for.
#[derive(Debug, Clone, PartialEq, Eq)]
pub struct Ask {
    /// The plugin's own name for this run. Namespaced by the kernel, so two
    /// plugins may both call theirs `status`.
    pub key: String,
    /// The command line, run through the session's own shell.
    pub program: String,
    /// The session whose directory — and whose machine — it runs in.
    pub session: String,
    pub ttl_ms: u64,
    pub timeout_ms: u64,
    /// Run it again even if the answer is fresh.
    pub refresh: bool,
}

/// An ask, as the contracts see it.
pub struct AskView {
    pub key: Seq<char>,
    pub program: Seq<char>,
    pub session: Seq<char>,
    pub ttl_ms: u64,
    pub timeout_ms: u64,
    pub refresh: bool,
}

impl View for Ask {
    type V = AskView;

    open spec fn view(&self) -> AskView {
        AskView {
            key: self.key@,
            program: self.program@,
            session: self.session@,
            ttl_ms: self.ttl_ms,
            timeout_ms: self.timeout_ms,
            refresh: self.refresh,
        }
    }
}

/// What the kernel will do of an ask: a TTL no shorter than [`MIN_TTL_MS`],
/// a timeout no longer than [`MAX_TIMEOUT_MS`].
pub open spec fn clamp(a: AskView) -> AskView {
    AskView {
        ttl_ms: if a.ttl_ms < MIN_TTL_MS { MIN_TTL_MS } else { a.ttl_ms },
        timeout_ms: if a.timeout_ms > MAX_TIMEOUT_MS { MAX_TIMEOUT_MS } else { a.timeout_ms },
        ..a
    }
}

impl Ask {
    /// Clamp what a plugin asked for into what the kernel will do.
    pub fn clamped(self) -> (r: Ask)
        ensures
            r@ == clamp(self@),
    {
        let mut a = self;
        if a.ttl_ms < MIN_TTL_MS {
            a.ttl_ms = MIN_TTL_MS;
        }
        if a.timeout_ms > MAX_TIMEOUT_MS {
            a.timeout_ms = MAX_TIMEOUT_MS;
        }
        a
    }
}

#[derive(Debug, Clone, PartialEq, Eq)]
pub struct Output {
    pub stdout: String,
    pub stderr: String,
    /// `None` when the program was killed by a signal or timed out.
    pub status: Option<i32>,
    /// Either stream hit the cap.
    pub truncated: bool,
    /// It ran out of time rather than finishing.
    pub timed_out: bool,
}

/// What a program did.
#[derive(Debug, Clone, PartialEq, Eq)]
pub enum Run {
    /// Asked for, not finished. Distinct from a finished run that printed
    /// nothing.
    Pending,
    Done(Output),
    /// It could not be run at all.
    Failed(String),
}

pub enum RunView {
    Pending,
    Done(Seq<char>, Seq<char>, Option<i32>, bool, bool),
    Failed(Seq<char>),
}

impl View for Run {
    type V = RunView;

    open spec fn view(&self) -> RunView {
        match self {
            Run::Pending => RunView::Pending,
            Run::Done(o) => RunView::Done(o.stdout@, o.stderr@, o.status, o.truncated, o.timed_out),
            Run::Failed(why) => RunView::Failed(why@),
        }
    }
}

/// One finished run, on its way back to the store: whose, and when it landed.
pub struct Finished {
    pub plugin: String,
    pub key: String,
    pub run: Run,
    pub at: u64,
}

/// A stored answer and when it landed.
struct Held {
    run: Run,
    /// `None` while pending — a run still going has not produced an answer.
    at: Option<u64>,
    ttl_ms: u64,
    /// A run for this key is queued or executing. Tracked apart from the run:
    /// a refresh leaves the previous answer readable while the next is on its
    /// way.
    inflight: bool,
}

/// A stored answer, as the contracts see it.
pub struct HeldView {
    pub run: RunView,
    pub at: Option<u64>,
    pub ttl_ms: u64,
    pub inflight: bool,
}

/// Whether an answer is old enough to run again at `now`. One still pending
/// never is.
pub open spec fn held_stale(h: HeldView, now: u64) -> bool {
    match h.at {
        None => false,
        Some(at) => now >= at && now - at >= h.ttl_ms,
    }
}

/// What a run store holds.
pub struct RunsView {
    pub answers: Seq<((Seq<char>, Seq<char>), HeldView)>,
    pub queued: Seq<(Seq<char>, AskView)>,
    pub running: nat,
    /// Whether any ask was ever taken.
    pub asked: bool,
}

/// Every run a plugin asked for, keyed by plugin and key.
pub struct RunStore {
    answers: Vec<((String, String), Held)>,
    /// Asks waiting for a slot, in the order they arrived.
    queued: Vec<(String, Ask)>,
    running: usize,
    /// Whether any ask was ever taken: the loop's one-bool check.
    asked: bool,
}

impl View for RunStore {
    type V = RunsView;

    closed spec fn view(&self) -> RunsView {
        RunsView {
            answers: self.answers@.map_values(|e: ((String, String), Held)| ((e.0.0@, e.0.1@), HeldView {
                run: e.1.run@,
                at: e.1.at,
                ttl_ms: e.1.ttl_ms,
                inflight: e.1.inflight,
            })),
            queued: self.queued@.map_values(|e: (String, Ask)| (e.0@, e.1@)),
            running: self.running as nat,
            asked: self.asked,
        }
    }
}

/// Whether an ask starts a run: nothing is queued or running for its key,
/// and the answer held is missing, stale, or being refreshed.
pub open spec fn starts(v: RunsView, plugin: Seq<char>, ask: AskView, now: u64) -> bool {
    match lookup(v.answers, (plugin, ask.key)) {
        Some(h) => !h.inflight && (ask.refresh || held_stale(h, now)),
        None => true,
    }
}

/// The store once an ask has started: its key marked in flight (its previous
/// answer kept readable, or pending for a key never asked before) and the ask
/// queued.
pub open spec fn started(v: RunsView, plugin: Seq<char>, ask: AskView) -> RunsView {
    let id = (plugin, ask.key);
    let entry = match lookup(v.answers, id) {
        Some(h) => HeldView { inflight: true, ..h },
        None => HeldView { run: RunView::Pending, at: None, ttl_ms: ask.ttl_ms, inflight: true },
    };
    RunsView { answers: put(v.answers, id, entry), queued: v.queued.push((plugin, ask)), asked: true, ..v }
}

/// How many queued asks start now: as many as there are free slots.
pub open spec fn startable(v: RunsView) -> int {
    let free = if v.running < MAX_CONCURRENT { MAX_CONCURRENT - v.running } else { 0 };
    if free < v.queued.len() {
        free
    } else {
        v.queued.len() as int
    }
}

/// A finished run folded in: its slot freed, its answer stored with the TTL
/// its key was asked with, no longer in flight.
pub open spec fn finish(v: RunsView, f: (Seq<char>, Seq<char>, RunView, u64)) -> RunsView {
    let id = (f.0, f.1);
    let ttl = match lookup(v.answers, id) {
        Some(h) => h.ttl_ms,
        None => DEFAULT_TTL_MS,
    };
    RunsView {
        answers: put(v.answers, id, HeldView { run: f.2, at: Some(f.3), ttl_ms: ttl, inflight: false }),
        running: if v.running > 0 { (v.running - 1) as nat } else { 0 },
        ..v
    }
}

pub open spec fn finish_all(v: RunsView, fs: Seq<(Seq<char>, Seq<char>, RunView, u64)>) -> RunsView
    decreases fs.len(),
{
    if fs.len() == 0 {
        v
    } else {
        finish(finish_all(v, fs.drop_last()), fs.last())
    }
}

pub open spec fn finished_view(fs: Seq<Finished>) -> Seq<(Seq<char>, Seq<char>, RunView, u64)> {
    fs.map_values(|f: Finished| (f.plugin@, f.key@, f.run@, f.at))
}

/// Once an ask was taken, the store says so for good: finishing runs and
/// forgetting plugins keep the mark.
pub proof fn lemma_once_asked_always_asked(v: RunsView, plugin: Seq<char>, ask: AskView, fs: Seq<(Seq<char>, Seq<char>, RunView, u64)>)
    ensures
        started(v, plugin, ask).asked,
        v.asked ==> finish_all(v, fs).asked,
    decreases fs.len(),
{
    if fs.len() > 0 {
        lemma_once_asked_always_asked(v, plugin, ask, fs.drop_last());
    }
}

impl RunStore {
    /// Never more than [`MAX_CONCURRENT`] programs running: what every
    /// operation keeps.
    pub open spec fn wf(&self) -> bool {
        self@.running <= MAX_CONCURRENT
    }

    pub fn new() -> (s: RunStore)
        ensures
            s@.answers.len() == 0,
            s@.queued.len() == 0,
            s@.running == 0,
            !s@.asked,
            s.wf(),
    {
        RunStore { answers: Vec::new(), queued: Vec::new(), running: 0, asked: false }
    }

    fn find(&self, plugin: &String, key: &String) -> (r: Option<usize>)
        ensures
            first_key(self@.answers, (plugin@, key@), r),
    {
        let mut i: usize = 0;
        while i < self.answers.len()
            invariant
                i <= self.answers@.len(),
                self@.answers.len() == self.answers@.len(),
                forall|j: int| 0 <= j < i ==> self@.answers[j].0 != (plugin@, key@),
            decreases self.answers.len() - i,
        {
            assert(self@.answers[i as int].0 == (self.answers@[i as int].0.0@, self.answers@[i as int].0.1@));
            if self.answers[i].0.0 == *plugin && self.answers[i].0.1 == *key {
                return Some(i);
            }
            i += 1;
        }
        None
    }

    /// Ask for a program at `now`, or do nothing because the answer is still
    /// fresh or already on its way. True when it was queued; the caller then
    /// starts what [`Self::drain_queue`] allows.
    pub fn request(&mut self, plugin: &str, ask: Ask, now: u64) -> (queued: bool)
        requires
            old(self).wf(),
        ensures
            final(self).wf(),
            queued == starts(old(self)@, plugin@, clamp(ask@), now),
            queued ==> final(self)@ == started(old(self)@, plugin@, clamp(ask@)),
            !queued ==> final(self)@ == old(self)@,
    {
        let ask = ask.clamped();
        let owner = plugin.to_string();
        let key = ask.key.clone();
        let ghost id = (plugin@, ask@.key);
        let ghost blank = HeldView { run: RunView::Pending, at: None, ttl_ms: 0, inflight: false };
        let found = self.find(&owner, &key);
        match found {
            Some(i) => {
                proof { lemma_first_key(self@.answers, id, i as int, blank); }
                let held = &self.answers[i].1;
                let stale = match held.at {
                    None => false,
                    Some(at) => now >= at && now - at >= held.ttl_ms,
                };
                if held.inflight || (!ask.refresh && !stale) {
                    return false;
                }
                let ghost entry = HeldView { inflight: true, ..self@.answers[i as int].1 };
                proof { lemma_first_key(self@.answers, id, i as int, entry); }
                let ((p, k), mut h) = self.answers.remove(i);
                h.inflight = true;
                let ghost before = self.answers@;
                self.answers.insert(i, ((p, k), h));
                assert(self@.answers =~= old(self)@.answers.update(i as int, (id, entry)));
            },
            None => {
                let ghost entry = HeldView { run: RunView::Pending, at: None, ttl_ms: ask.ttl_ms, inflight: true };
                proof { lemma_no_key(self@.answers, id, entry); }
                self.answers.push(((owner, key), Held { run: Run::Pending, at: None, ttl_ms: ask.ttl_ms, inflight: true }));
                assert(self@.answers =~= old(self)@.answers.push((id, entry)));
            },
        }
        let ghost before = self.queued@;
        self.queued.push((plugin.to_string(), ask));
        self.asked = true;
        assert(self@.queued =~= old(self)@.queued.push((plugin@, clamp(ask@))));
        true
    }

    /// Take the queued asks the concurrency bound lets start now, oldest
    /// first, and count them as running.
    pub fn drain_queue(&mut self) -> (start: Vec<(String, Ask)>)
        requires
            old(self).wf(),
        ensures
            final(self).wf(),
            start@.map_values(|e: (String, Ask)| (e.0@, e.1@)) == old(self)@.queued.take(startable(old(self)@)),
            final(self)@ == (RunsView {
                queued: old(self)@.queued.skip(startable(old(self)@)),
                running: (old(self)@.running + startable(old(self)@)) as nat,
                ..old(self)@
            }),
    {
        let ghost n = startable(old(self)@);
        let mut start: Vec<(String, Ask)> = Vec::new();
        let mut taken: usize = 0;
        while self.running < MAX_CONCURRENT && self.queued.len() > 0
            invariant
                0 <= n <= old(self)@.queued.len(),
                taken <= n,
                self.running == old(self)@.running + taken,
                self.running <= MAX_CONCURRENT,
                self@.answers == old(self)@.answers,
                self@.asked == old(self)@.asked,
                self@.queued == old(self)@.queued.skip(taken as int),
                start@.map_values(|e: (String, Ask)| (e.0@, e.1@)) == old(self)@.queued.take(taken as int),
                n == startable(old(self)@),
            decreases self.queued.len(),
        {
            assert(self@.queued.len() == self.queued@.len());
            let ghost q_before = self@.queued;
            let ghost vec_before = self.queued@;
            let next = self.queued.remove(0);
            assert(next == vec_before[0]);
            assert(q_before[0] == (next.0@, next.1@));
            assert(self@.queued =~= q_before.drop_first());
            let ghost before = start@;
            start.push(next);
            proof {
                assert(old(self)@.queued.take(taken + 1) =~= old(self)@.queued.take(taken as int).push(old(self)@.queued[taken as int]));
                assert(start@.map_values(|e: (String, Ask)| (e.0@, e.1@)) =~= before.map_values(|e: (String, Ask)| (e.0@, e.1@)).push(old(self)@.queued[taken as int]));
                assert(self@.queued =~= old(self)@.queued.skip(taken + 1));
            }
            self.running = self.running + 1;
            taken = taken + 1;
        }
        start
    }

    /// Fold finished runs in, in the order they landed. True when anything
    /// arrived, so the caller can repaint and start what was waiting.
    pub fn poll(&mut self, finished: Vec<Finished>) -> (changed: bool)
        requires
            old(self).wf(),
        ensures
            final(self).wf(),
            changed == (finished@.len() > 0),
            final(self)@ == finish_all(old(self)@, finished_view(finished@)),
    {
        let ghost all = finished_view(finished@);
        let n = finished.len();
        let mut rest = finished;
        let mut i: usize = 0;
        assert(all.take(0) =~= Seq::empty());
        while i < n
            invariant
                n == all.len(),
                all == finished_view(finished@),
                i <= n,
                rest@ == finished@.subrange(i as int, n as int),
                self@ == finish_all(old(self)@, all.take(i as int)),
                self.wf(),
            decreases n - i,
        {
            let done = rest.remove(0);
            proof {
                assert(all.take(i + 1).drop_last() =~= all.take(i as int));
                assert(all.take(i + 1).last() == (done.plugin@, done.key@, done.run@, done.at));
                assert(rest@ =~= finished@.subrange(i + 1, n as int));
            }
            if self.running > 0 {
                self.running = self.running - 1;
            }
            let Finished { plugin, key, run, at } = done;
            let ghost id = (plugin@, key@);
            let ghost blank = HeldView { run: RunView::Pending, at: None, ttl_ms: 0, inflight: false };
            match self.find(&plugin, &key) {
                Some(j) => {
                    proof { lemma_first_key(self@.answers, id, j as int, blank); }
                    let ttl = self.answers[j].1.ttl_ms;
                    let ghost entry = HeldView { run: run@, at: Some(at), ttl_ms: ttl, inflight: false };
                    proof { lemma_first_key(self@.answers, id, j as int, entry); }
                    let ghost before = self@.answers;
                    self.answers.set(j, ((plugin, key), Held { run, at: Some(at), ttl_ms: ttl, inflight: false }));
                    assert(self@.answers =~= before.update(j as int, (id, entry)));
                },
                None => {
                    let ghost entry = HeldView { run: run@, at: Some(at), ttl_ms: DEFAULT_TTL_MS, inflight: false };
                    proof { lemma_no_key(self@.answers, id, entry); }
                    let ghost before = self@.answers;
                    self.answers.push(((plugin, key), Held { run, at: Some(at), ttl_ms: DEFAULT_TTL_MS, inflight: false }));
                    assert(self@.answers =~= before.push((id, entry)));
                },
            }
            i += 1;
        }
        assert(all.take(n as int) =~= all);
        n > 0
    }

    /// Programs running now: never more than [`MAX_CONCURRENT`], however the
    /// store has been used.
    pub fn running(&self) -> (n: usize)
        requires
            self.wf(),
        ensures
            n == self@.running,
            n <= MAX_CONCURRENT,
    {
        self.running
    }

    /// Has anything ever been asked for? The common answer is no — most
    /// interfaces have no plugin that runs programs — and the loop checks it
    /// every iteration, so it is one bool rather than a walk.
    pub fn is_empty(&self) -> (r: bool)
        ensures
            r == !self@.asked,
    {
        !self.asked
    }

    /// What is known of `plugin`'s run `key`.
    pub fn get(&self, plugin: &str, key: &str) -> (r: Option<&Run>)
        ensures
            match lookup(self@.answers, (plugin@, key@)) {
                Some(h) => r matches Some(run) && run@ == h.run,
                None => r is None,
            },
    {
        let p = plugin.to_string();
        let k = key.to_string();
        let ghost blank = HeldView { run: RunView::Pending, at: None, ttl_ms: 0, inflight: false };
        match self.find(&p, &k) {
            Some(i) => {
                proof { lemma_first_key(self@.answers, (plugin@, key@), i as int, blank); }
                Some(&self.answers[i].1.run)
            },
            None => {
                proof { lemma_no_key(self@.answers, (plugin@, key@), blank); }
                None
            },
        }
    }

    /// Every answer belonging to one plugin, for publishing: its keys and runs,
    /// in the order they were first asked for.
    pub fn for_plugin(&self, plugin: &str) -> (r: Vec<(String, Run)>)
        ensures
            r@.map_values(|e: (String, Run)| (e.0@, e.1@)) == owned_by(self@.answers, plugin@),
    {
        let owner = plugin.to_string();
        let mut out: Vec<(String, Run)> = Vec::new();
        let mut i: usize = 0;
        let ghost all = self@.answers;
        assert(all.take(0) =~= Seq::empty());
        while i < self.answers.len()
            invariant
                owner@ == plugin@,
                all == self@.answers,
                all.len() == self.answers@.len(),
                i <= all.len(),
                out@.map_values(|e: (String, Run)| (e.0@, e.1@)) == owned_by(all.take(i as int), plugin@),
            decreases self.answers.len() - i,
        {
            assert(all.take(i + 1).drop_last() =~= all.take(i as int));
            assert(all[i as int] == ((self.answers@[i as int].0.0@, self.answers@[i as int].0.1@), all[i as int].1));
            assert(all[i as int].1.run == self.answers@[i as int].1.run@);
            if self.answers[i].0.0 == owner {
                let ghost before = out@;
                let key = self.answers[i].0.1.clone();
                let run = copy_run(&self.answers[i].1.run);
                out.push((key, run));
                assert(out@.map_values(|e: (String, Run)| (e.0@, e.1@)) =~= before.map_values(|e: (String, Run)| (e.0@, e.1@)).push((all[i as int].0.1, all[i as int].1.run)));
            }
            i += 1;
        }
        assert(all.take(i as int) =~= all);
        out
    }

    /// Forget everything belonging to plugins that no longer exist.
    pub fn retain_plugins(&mut self, live: &Vec<String>)
        requires
            old(self).wf(),
        ensures
            final(self).wf(),
            final(self)@ == (RunsView {
                answers: live_answers(old(self)@.answers, live@.map_values(|s: String| s@)),
                queued: live_queued(old(self)@.queued, live@.map_values(|s: String| s@)),
                ..old(self)@
            }),
    {
        let ghost names = live@.map_values(|s: String| s@);
        let mut answers: Vec<((String, String), Held)> = Vec::new();
        let mut old_answers: Vec<((String, String), Held)> = Vec::new();
        std::mem::swap(&mut old_answers, &mut self.answers);
        let ghost all = old(self)@.answers;
        let n = old_answers.len();
        let mut i: usize = 0;
        assert(all.take(0) =~= Seq::empty());
        while i < n
            invariant
                n == all.len(),
                i <= n,
                names == live@.map_values(|s: String| s@),
                old_answers@.map_values(|e: ((String, String), Held)| ((e.0.0@, e.0.1@), HeldView {
                    run: e.1.run@,
                    at: e.1.at,
                    ttl_ms: e.1.ttl_ms,
                    inflight: e.1.inflight,
                })) == all.skip(i as int),
                answers@.map_values(|e: ((String, String), Held)| ((e.0.0@, e.0.1@), HeldView {
                    run: e.1.run@,
                    at: e.1.at,
                    ttl_ms: e.1.ttl_ms,
                    inflight: e.1.inflight,
                })) == live_answers(all.take(i as int), names),
            decreases n - i,
        {
            assert(old_answers@.len() == all.skip(i as int).len());
            let entry = old_answers.remove(0);
            proof {
                assert(all.take(i + 1).drop_last() =~= all.take(i as int));
                assert(all.skip(i as int)[0] == all[i as int]);
                assert(all.skip(i + 1) =~= all.skip(i as int).drop_first());
            }
            if contains_name(live, &entry.0.0) {
                let ghost before = answers@;
                answers.push(entry);
                assert(answers@.map_values(|e: ((String, String), Held)| ((e.0.0@, e.0.1@), HeldView {
                    run: e.1.run@,
                    at: e.1.at,
                    ttl_ms: e.1.ttl_ms,
                    inflight: e.1.inflight,
                })) =~= before.map_values(|e: ((String, String), Held)| ((e.0.0@, e.0.1@), HeldView {
                    run: e.1.run@,
                    at: e.1.at,
                    ttl_ms: e.1.ttl_ms,
                    inflight: e.1.inflight,
                })).push(all[i as int]));
            }
            i += 1;
        }
        assert(all.take(n as int) =~= all);
        self.answers = answers;
        let mut queued: Vec<(String, Ask)> = Vec::new();
        let mut old_queued: Vec<(String, Ask)> = Vec::new();
        std::mem::swap(&mut old_queued, &mut self.queued);
        let ghost waiting = old(self)@.queued;
        let m = old_queued.len();
        let mut k: usize = 0;
        assert(waiting.take(0) =~= Seq::empty());
        while k < m
            invariant
                m == waiting.len(),
                k <= m,
                names == live@.map_values(|s: String| s@),
                self@.answers == live_answers(old(self)@.answers, names),
                self.running == old(self).running,
                old_queued@.map_values(|e: (String, Ask)| (e.0@, e.1@)) == waiting.skip(k as int),
                queued@.map_values(|e: (String, Ask)| (e.0@, e.1@)) == live_queued(waiting.take(k as int), names),
            decreases m - k,
        {
            assert(old_queued@.len() == waiting.skip(k as int).len());
            let entry = old_queued.remove(0);
            proof {
                assert(waiting.take(k + 1).drop_last() =~= waiting.take(k as int));
                assert(waiting.skip(k as int)[0] == waiting[k as int]);
                assert(waiting.skip(k + 1) =~= waiting.skip(k as int).drop_first());
            }
            if contains_name(live, &entry.0) {
                let ghost before = queued@;
                queued.push(entry);
                assert(queued@.map_values(|e: (String, Ask)| (e.0@, e.1@)) =~= before.map_values(|e: (String, Ask)| (e.0@, e.1@)).push(waiting[k as int]));
            }
            k += 1;
        }
        assert(waiting.take(m as int) =~= waiting);
        self.queued = queued;
    }
}

/// The answers of `plugin`, by key, in store order.
pub open spec fn owned_by(answers: Seq<((Seq<char>, Seq<char>), HeldView)>, plugin: Seq<char>) -> Seq<(Seq<char>, RunView)>
    decreases answers.len(),
{
    if answers.len() == 0 {
        seq![]
    } else {
        let before = owned_by(answers.drop_last(), plugin);
        let last = answers.last();
        if last.0.0 == plugin {
            before.push((last.0.1, last.1.run))
        } else {
            before
        }
    }
}

/// The answers whose plugin is still live.
pub open spec fn live_answers(answers: Seq<((Seq<char>, Seq<char>), HeldView)>, live: Seq<Seq<char>>) -> Seq<((Seq<char>, Seq<char>), HeldView)>
    decreases answers.len(),
{
    if answers.len() == 0 {
        seq![]
    } else {
        let before = live_answers(answers.drop_last(), live);
        if live.contains(answers.last().0.0) {
            before.push(answers.last())
        } else {
            before
        }
    }
}

/// The queued asks whose plugin is still live.
pub open spec fn live_queued(queued: Seq<(Seq<char>, AskView)>, live: Seq<Seq<char>>) -> Seq<(Seq<char>, AskView)>
    decreases queued.len(),
{
    if queued.len() == 0 {
        seq![]
    } else {
        let before = live_queued(queued.drop_last(), live);
        if live.contains(queued.last().0) {
            before.push(queued.last())
        } else {
            before
        }
    }
}

fn contains_name(v: &Vec<String>, x: &String) -> (r: bool)
    ensures
        r == v@.map_values(|s: String| s@).contains(x@),
{
    let mut i: usize = 0;
    while i < v.len()
        invariant
            i <= v@.len(),
            forall|k: int| 0 <= k < i ==> v@[k]@ != x@,
        decreases v.len() - i,
    {
        if v[i] == *x {
            assert(v@.map_values(|s: String| s@)[i as int] == x@);
            return true;
        }
        i += 1;
    }
    let ghost names = v@.map_values(|s: String| s@);
    assert forall|k: int| 0 <= k < names.len() implies #[trigger] names[k] != x@ by {
        assert(names[k] == v@[k]@);
    }
    false
}

fn copy_run(run: &Run) -> (r: Run)
    ensures
        r@ == run@,
{
    match run {
        Run::Pending => Run::Pending,
        Run::Done(o) => Run::Done(Output {
            stdout: o.stdout.clone(),
            stderr: o.stderr.clone(),
            status: o.status,
            truncated: o.truncated,
            timed_out: o.timed_out,
        }),
        Run::Failed(why) => Run::Failed(why.clone()),
    }
}

/// Asking on every frame is free while a run is in flight: once an ask has
/// started, asking for the same key again — refresh or not, at any time —
/// starts nothing until its answer lands.
pub proof fn lemma_one_run_in_flight(v: RunsView, plugin: Seq<char>, ask: AskView, again: AskView, now: u64)
    requires
        again.key == ask.key,
    ensures
        !starts(started(v, plugin, ask), plugin, again, now),
{
    let id = (plugin, ask.key);
    let entry = match lookup(v.answers, id) {
        Some(h) => HeldView { inflight: true, ..h },
        None => HeldView { run: RunView::Pending, at: None, ttl_ms: ask.ttl_ms, inflight: true },
    };
    crate::keyed::lemma_put(v.answers, id, entry, id);
}

/// A fresh answer is not run again: within its TTL of landing, an ask that
/// does not force a refresh starts nothing.
pub proof fn lemma_fresh_answer_not_run_again(v: RunsView, plugin: Seq<char>, ask: AskView, now: u64)
    requires
        lookup(v.answers, (plugin, ask.key)) matches Some(h) && h.at matches Some(at)
            && now >= at && now - at < h.ttl_ms,
        !ask.refresh,
    ensures
        !starts(v, plugin, ask, now),
{
}

/// The most output kept from either stream of one run, in bytes: a program
/// that prints without end must not take the interface's memory with it.
pub const OUTPUT_CAP: usize = 262144;

/// `held` once a chunk read from a pipe is taken in: all of it while that
/// stays under the cap, else as much as fits, and the stream is cut there.
pub open spec fn absorbed(held: Seq<u8>, chunk: Seq<u8>) -> (Seq<u8>, bool) {
    if held.len() + chunk.len() >= OUTPUT_CAP {
        let room = if held.len() < OUTPUT_CAP { OUTPUT_CAP - held.len() } else { 0 };
        (held + chunk.take(room), true)
    } else {
        (held + chunk, false)
    }
}

/// Take a chunk read from a pipe into what is held, stopping at the cap.
/// True when the stream was cut: reading stops there.
pub fn absorb(held: &mut Vec<u8>, chunk: &[u8]) -> (cut: bool)
    ensures
        (final(held)@, cut) == absorbed(old(held)@, chunk@),
        old(held)@.len() <= OUTPUT_CAP ==> final(held)@.len() <= OUTPUT_CAP,
{
    let cut = held.len() >= OUTPUT_CAP || chunk.len() >= OUTPUT_CAP - held.len();
    let take = if cut {
        if held.len() < OUTPUT_CAP { OUTPUT_CAP - held.len() } else { 0 }
    } else {
        chunk.len()
    };
    let ghost before = held@;
    let mut i: usize = 0;
    while i < take
        invariant
            i <= take,
            take <= chunk@.len(),
            held@ == before + chunk@.take(i as int),
        decreases take - i,
    {
        held.push(chunk[i]);
        assert(chunk@.take(i + 1) =~= chunk@.take(i as int).push(chunk@[i as int]));
        i += 1;
    }
    assert(!cut ==> chunk@.take(take as int) =~= chunk@);
    cut
}

} // verus!
