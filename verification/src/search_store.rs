//! The decisions of the search worker's owner: when a request is run, when an
//! answer is news, when everything read can be let go.
//!
//! The owner lives on the render loop, so it only compares: it says what to
//! do — run a request, wait, or release what was read — and its caller does
//! the running on a worker and hands the finished answer back. Time is in
//! milliseconds on the caller's monotonic clock.
use vstd::prelude::*;
use crate::results::{Request, Answer, Hit, HitView};

verus! {

/// How often an unchanged query is re-run because a terminal printed.
///
/// A query change is served at once. Output alone is not: an agent mid-turn
/// prints on every frame, and re-reading its history that often would keep a
/// core busy for as long as the strip is open.
pub const RESCAN_INTERVAL_MS: u64 = 1000;

/// A request, as the contracts compare it.
pub struct RequestView {
    pub query: Seq<char>,
    pub sessions: Option<Seq<Seq<char>>>,
}

impl View for Request {
    type V = RequestView;

    open spec fn view(&self) -> RequestView {
        RequestView {
            query: self.query@,
            sessions: match self.sessions {
                Some(v) => Some(v@.map_values(|s: String| s@)),
                None => None,
            },
        }
    }
}

/// An answer, timing aside — what a pane would draw.
pub struct AnswerView {
    pub request: RequestView,
    pub hits: Seq<HitView>,
    pub total: usize,
    pub sessions: usize,
    pub lines: usize,
    pub error: Option<Seq<char>>,
}

impl View for Answer {
    type V = AnswerView;

    open spec fn view(&self) -> AnswerView {
        AnswerView {
            request: self.request@,
            hits: self.hits@.map_values(|h: Hit| h@),
            total: self.total,
            sessions: self.sessions,
            lines: self.lines,
            error: match self.error {
                Some(e) => Some(e@),
                None => None,
            },
        }
    }
}

fn same_names(a: &Vec<String>, b: &Vec<String>) -> (r: bool)
    ensures
        r == (a@.map_values(|s: String| s@) == b@.map_values(|s: String| s@)),
{
    if a.len() != b.len() {
        assert(a@.map_values(|s: String| s@).len() != b@.map_values(|s: String| s@).len());
        return false;
    }
    let mut k: usize = 0;
    while k < a.len()
        invariant
            a@.len() == b@.len(),
            k <= a@.len(),
            forall|m: int| 0 <= m < k ==> a@[m]@ == b@[m]@,
        decreases a.len() - k,
    {
        if a[k] != b[k] {
            assert(a@.map_values(|s: String| s@)[k as int] != b@.map_values(|s: String| s@)[k as int]);
            return false;
        }
        k += 1;
    }
    assert(a@.map_values(|s: String| s@) =~= b@.map_values(|s: String| s@));
    true
}

fn same_request(a: &Request, b: &Request) -> (r: bool)
    ensures
        r == (a@ == b@),
{
    if a.query != b.query {
        return false;
    }
    match (&a.sessions, &b.sessions) {
        (Some(x), Some(y)) => same_names(x, y),
        (None, None) => true,
        _ => false,
    }
}

fn same_ranges(a: &Vec<(usize, usize)>, b: &Vec<(usize, usize)>) -> (r: bool)
    ensures
        r == (a@ == b@),
{
    if a.len() != b.len() {
        return false;
    }
    let mut k: usize = 0;
    while k < a.len()
        invariant
            a@.len() == b@.len(),
            k <= a@.len(),
            forall|m: int| 0 <= m < k ==> a@[m] == b@[m],
        decreases a.len() - k,
    {
        if a[k].0 != b[k].0 || a[k].1 != b[k].1 {
            return false;
        }
        k += 1;
    }
    assert(a@ =~= b@);
    true
}

fn same_hit(a: &Hit, b: &Hit) -> (r: bool)
    ensures
        r == (a@ == b@),
{
    a.session == b.session && a.shell == b.shell && a.text == b.text && same_ranges(&a.ranges, &b.ranges)
        && a.back == b.back && a.scroll == b.scroll && a.row == b.row && a.exact == b.exact && a.score == b.score
}

fn same_hits(a: &Vec<Hit>, b: &Vec<Hit>) -> (r: bool)
    ensures
        r == (a@.map_values(|h: Hit| h@) == b@.map_values(|h: Hit| h@)),
{
    if a.len() != b.len() {
        assert(a@.map_values(|h: Hit| h@).len() != b@.map_values(|h: Hit| h@).len());
        return false;
    }
    let mut k: usize = 0;
    while k < a.len()
        invariant
            a@.len() == b@.len(),
            k <= a@.len(),
            forall|m: int| 0 <= m < k ==> a@[m]@ == b@[m]@,
        decreases a.len() - k,
    {
        if !same_hit(&a[k], &b[k]) {
            assert(a@.map_values(|h: Hit| h@)[k as int] != b@.map_values(|h: Hit| h@)[k as int]);
            return false;
        }
        k += 1;
    }
    assert(a@.map_values(|h: Hit| h@) =~= b@.map_values(|h: Hit| h@));
    true
}

impl Answer {
    /// The same answer, timing aside — what a pane would draw is unchanged.
    pub fn same(&self, other: &Self) -> (r: bool)
        ensures
            r == (self@ == other@),
    {
        let errors_match = match (&self.error, &other.error) {
            (Some(x), Some(y)) => *x == *y,
            (None, None) => true,
            _ => false,
        };
        same_request(&self.request, &other.request) && same_hits(&self.hits, &other.hits) && self.total == other.total
            && self.sessions == other.sessions && self.lines == other.lines && errors_match
    }
}

/// What the owner of the search worker asks its caller to do.
pub enum Serve {
    /// Nobody is searching: let go of every history read. True when an
    /// answer was being held and has been dropped, so the caller republishes.
    Released(bool),
    /// Nothing to do now.
    Wait,
    /// Run this request on the worker and hand the answer to
    /// [`SearchStore::poll`].
    Dispatch(Request),
}

/// The state of a search worker's owner, as the contracts see it.
pub struct StoreView {
    pub running: Option<RequestView>,
    pub answer: Option<AnswerView>,
    pub dispatched: Option<u64>,
    pub generation: u64,
}

/// Serves search requests on a worker, one at a time, newest wins.
pub struct SearchStore {
    /// The request on the worker right now.
    running: Option<Request>,
    answer: Option<Answer>,
    /// When the answer being held was dispatched, for [`RESCAN_INTERVAL_MS`].
    dispatched: Option<u64>,
    /// The output generation the held answer was read at.
    generation: u64,
}

impl View for SearchStore {
    type V = StoreView;

    closed spec fn view(&self) -> StoreView {
        StoreView {
            running: match self.running {
                Some(r) => Some(r@),
                None => None,
            },
            answer: match self.answer {
                Some(a) => Some(a@),
                None => None,
            },
            dispatched: self.dispatched,
            generation: self.generation,
        }
    }
}

/// Whether the rescan interval has passed since `dispatched`, at `now`; a
/// clock that went back counts as no time passed.
pub open spec fn rescan_due(dispatched: Option<u64>, now: u64) -> bool {
    match dispatched {
        Some(at) => now >= at && now - at >= RESCAN_INTERVAL_MS,
        None => true,
    }
}

/// Whether a request is to run now: nothing is on the worker, and the held
/// answer is for another request, or a terminal printed since it was read
/// and the rescan interval has passed.
pub open spec fn runs_now(s: StoreView, request: RequestView, generation: u64, now: u64) -> bool {
    &&& s.running is None
    &&& match s.answer {
        Some(a) => a.request != request || (generation != s.generation && rescan_due(s.dispatched, now)),
        None => true,
    }
}

impl SearchStore {
    pub fn new() -> (s: Self)
        ensures
            s@ == (StoreView { running: None, answer: None, dispatched: None, generation: 0 }),
    {
        SearchStore { running: None, answer: None, dispatched: None, generation: 0 }
    }

    /// The last finished search, if one is being held.
    pub fn answer(&self) -> (r: Option<&Answer>)
        ensures
            match self@.answer {
                Some(a) => r matches Some(held) && held@ == a,
                None => r is None,
            },
    {
        self.answer.as_ref()
    }

    /// Whether a run is on the worker.
    pub fn running(&self) -> (r: bool)
        ensures
            r == self@.running is Some,
    {
        self.running.is_some()
    }

    /// Ask for `request`, or for nothing, at `now` with the terminals at
    /// output `generation`. A run already on the worker is left to finish; the
    /// next call after it lands dispatches whatever is being asked for by then.
    pub fn serve(&mut self, request: Option<Request>, generation: u64, now: u64) -> (r: Serve)
        ensures
            match request {
                None => {
                    &&& r == Serve::Released(old(self)@.answer is Some)
                    &&& final(self)@ == (StoreView { answer: None, dispatched: None, ..old(self)@ })
                },
                Some(req) => if runs_now(old(self)@, req@, generation, now) {
                    &&& r matches Serve::Dispatch(sent) && sent@ == req@
                    &&& final(self)@ == (StoreView { running: Some(req@), dispatched: Some(now), generation, ..old(self)@ })
                } else {
                    &&& r is Wait
                    &&& final(self)@ == old(self)@
                },
            },
    {
        let request = match request {
            None => {
                let had = self.answer.is_some();
                self.answer = None;
                self.dispatched = None;
                return Serve::Released(had);
            },
            Some(request) => request,
        };
        if self.running.is_some() {
            return Serve::Wait;
        }
        if let Some(answer) = &self.answer {
            if same_request(&answer.request, &request) {
                let printed = generation != self.generation;
                let due = match self.dispatched {
                    Some(at) => now >= at && now - at >= RESCAN_INTERVAL_MS,
                    None => true,
                };
                if !(printed && due) {
                    return Serve::Wait;
                }
            }
        }
        self.generation = generation;
        self.dispatched = Some(now);
        self.running = Some(request.clone_request());
        Serve::Dispatch(request)
    }

    /// Fold a finished run in. True only when the answer changed: a re-run
    /// on output that found the same lines moves nothing a pane reads.
    pub fn poll(&mut self, answer: Answer) -> (changed: bool)
        ensures
            changed == !(old(self)@.answer matches Some(held) && held == answer@),
            final(self)@ == (StoreView {
                running: None,
                answer: if changed { Some(answer@) } else { old(self)@.answer },
                ..old(self)@
            }),
    {
        self.running = None;
        let same = match &self.answer {
            Some(held) => held.same(&answer),
            None => false,
        };
        if same {
            false
        } else {
            self.answer = Some(answer);
            true
        }
    }
}

impl Request {
    /// A copy of the request.
    pub fn clone_request(&self) -> (r: Request)
        ensures
            r@ == self@,
    {
        let sessions = match &self.sessions {
            Some(names) => {
                let mut copy: Vec<String> = Vec::new();
                let mut k: usize = 0;
                while k < names.len()
                    invariant
                        k <= names@.len(),
                        copy@.map_values(|s: String| s@) == names@.take(k as int).map_values(|s: String| s@),
                    decreases names.len() - k,
                {
                    let ghost before = copy@;
                    copy.push(names[k].clone());
                    proof {
                        let f = |s: String| s@;
                        assert(names@.take(k + 1) =~= names@.take(k as int).push(names@[k as int]));
                        assert(before.map_values(f).len() == before.len());
                        assert(names@.take(k as int).map_values(f).len() == k);
                        assert forall|m: int| 0 <= m < k + 1 implies copy@.map_values(f)[m] == names@.take(k + 1).map_values(f)[m] by {
                            if m < k {
                                assert(copy@[m] == before[m]);
                                assert(before.map_values(f)[m] == names@.take(k as int).map_values(f)[m]);
                            }
                        }
                        assert(copy@.map_values(f) =~= names@.take(k + 1).map_values(f));
                    }
                    k += 1;
                }
                assert(names@.take(k as int) =~= names@);
                Some(copy)
            },
            None => None,
        };
        Request { query: self.query.clone(), sessions }
    }
}

/// A request is run once: once its answer is held, asking for it again with
/// nothing printed since runs nothing, however often it is asked.
pub proof fn lemma_an_answered_request_is_not_run_again(s: StoreView, request: RequestView, answer: AnswerView, generation: u64, at: u64, now: u64)
    requires
        answer.request == request,
    ensures
        !runs_now(StoreView { running: None, answer: Some(answer), dispatched: Some(at), generation, ..s }, request, generation, now),
{
}

/// Nothing runs while a run is on the worker: the request asked for then is
/// dispatched by a later call, after the answer lands.
pub proof fn lemma_one_run_at_a_time(s: StoreView, request: RequestView, generation: u64, now: u64)
    requires
        s.running is Some,
    ensures
        !runs_now(s, request, generation, now),
{
}

} // verus!
