//! When a soft-deleted session's agent should be let go.
//!
//! Deleting softly keeps the row and the worktrees so the delete can be
//! undone, but the agent is not part of what an undo restores. A session
//! disappears from the snapshot the moment it is deleted, so the question is
//! "has it stayed gone long enough" — arithmetic over ids and instants. The
//! killing itself is dispatched as a command by the caller.
//!
//! Instants are milliseconds on a monotonic clock.
use vstd::prelude::*;
use crate::snapshot::Snapshot;

verus! {

/// How long a deleted session keeps its agent, so the delete can still be
/// undone.
pub const UNDO_WINDOW_MS: u64 = 10_000;

/// Whether `id` is among `ids`.
pub open spec fn holds(ids: Seq<String>, id: Seq<char>) -> bool {
    exists|k: int| 0 <= k < ids.len() && ids[k]@ == id
}

/// The deadline `id` is held under, if it is.
pub open spec fn deadline_of(doomed: Seq<(String, u64)>, id: Seq<char>) -> Option<u64>
    decreases doomed.len(),
{
    if doomed.len() == 0 {
        None
    } else if doomed.last().0@ == id {
        Some(doomed.last().1)
    } else {
        deadline_of(doomed.drop_last(), id)
    }
}

/// Watches sessions leave the snapshot and says when to let their agents go.
pub struct Reaper {
    /// Ids seen in the last snapshot — what "left" is measured against.
    seen: Vec<String>,
    /// Ids that left, and when their undo window closes.
    doomed: Vec<(String, u64)>,
}

/// What a reaper holds.
pub struct ReaperView {
    pub seen: Seq<String>,
    pub doomed: Seq<(String, u64)>,
}

impl View for Reaper {
    type V = ReaperView;

    closed spec fn view(&self) -> ReaperView {
        ReaperView { seen: self.seen@, doomed: self.doomed@ }
    }
}

impl ReaperView {
    /// Each id is doomed at most once.
    pub open spec fn wf(self) -> bool {
        forall|i: int, j: int| 0 <= i < j < self.doomed.len() ==> self.doomed[i].0@ != self.doomed[j].0@
    }

    /// When `id`'s undo window closes after `observe(live, now)`, before the
    /// due ones are let go: a returning id is forgiven, one that just left is
    /// given the window from now, and one already doomed keeps its deadline.
    pub open spec fn deadline_after(self, live: Seq<String>, now: u64, id: Seq<char>) -> Option<u64> {
        if holds(live, id) {
            None
        } else if deadline_of(self.doomed, id) is Some {
            deadline_of(self.doomed, id)
        } else if holds(self.seen, id) {
            Some((now + UNDO_WINDOW_MS) as u64)
        } else {
            None
        }
    }

    /// Whether `observe(live, now)` lets `id` go now.
    pub open spec fn due(self, live: Seq<String>, now: u64, id: Seq<char>) -> bool {
        self.deadline_after(live, now, id) matches Some(d) && d <= now
    }
}

impl Default for Reaper {
    /// A reaper that has seen nothing and holds nothing.
    fn default() -> (r: Self)
        ensures
            r@.seen.len() == 0,
            r@.doomed.len() == 0,
            r.wf(),
    {
        Reaper { seen: Vec::new(), doomed: Vec::new() }
    }
}

impl Reaper {
    pub open spec fn wf(&self) -> bool {
        self@.wf()
    }

    /// A reaper that has seen nothing and holds nothing.
    pub fn new() -> (r: Self)
        ensures
            r@.seen.len() == 0,
            r@.doomed.len() == 0,
            r.wf(),
    {
        Reaper { seen: Vec::new(), doomed: Vec::new() }
    }

    /// The ids of a snapshot's sessions.
    pub open spec fn live_ids(snapshot: Snapshot) -> Seq<String> {
        snapshot.sessions@.map_values(|row: crate::snapshot::SessionRow| row.id)
    }

    /// Fold in a snapshot and return the sessions whose window has closed.
    ///
    /// A returning id cancels its own reap: that is exactly what an undo is,
    /// and it needs no separate signal.
    pub fn observe(&mut self, snapshot: &Snapshot, now: u64) -> (due: Vec<String>)
        requires
            old(self).wf(),
            now <= u64::MAX - UNDO_WINDOW_MS,
        ensures
            final(self).wf(),
            final(self)@.seen == Self::live_ids(*snapshot),
            forall|id: Seq<char>| #[trigger] holds(due@, id) == old(self)@.due(Self::live_ids(*snapshot), now, id),
            forall|i: int, j: int| 0 <= i < j < due@.len() ==> due@[i]@ != due@[j]@,
            forall|id: Seq<char>| #[trigger] deadline_of(final(self)@.doomed, id) == if old(self)@.due(
                Self::live_ids(*snapshot),
                now,
                id,
            ) {
                None
            } else {
                old(self)@.deadline_after(Self::live_ids(*snapshot), now, id)
            },
    {
        let ghost live_spec = Self::live_ids(*snapshot);
        let ghost before = self@;
        let mut live: Vec<String> = Vec::new();
        let mut i: usize = 0;
        while i < snapshot.sessions.len()
            invariant
                i <= snapshot.sessions@.len(),
                live@ == live_spec.subrange(0, i as int),
                live_spec == Self::live_ids(*snapshot),
            decreases snapshot.sessions.len() - i,
        {
            live.push(snapshot.sessions[i].id.clone());
            assert(live_spec.subrange(0, i + 1) =~= live_spec.subrange(0, i as int).push(live_spec[i as int]));
            i += 1;
        }
        assert(live@ =~= live_spec);

        // Everything that was held and is not back, plus everything that just
        // left, with its deadline.
        let mut next: Vec<(String, u64)> = Vec::new();
        let mut k: usize = 0;
        while k < self.doomed.len()
            invariant
                self@ == before,
                before.wf(),
                live@ == live_spec,
                k <= before.doomed.len(),
                forall|a: int, b: int| 0 <= a < b < next@.len() ==> next@[a].0@ != next@[b].0@,
                forall|id: Seq<char>| #[trigger] deadline_of(next@, id) == if holds(live_spec, id) {
                    None
                } else {
                    deadline_of(before.doomed.subrange(0, k as int), id)
                },
            decreases self.doomed.len() - k,
        {
            let entry = &self.doomed[k];
            let back = contains(&live, entry.0.as_str());
            let ghost prefix = before.doomed.subrange(0, k as int);
            proof {
                assert(before.doomed.subrange(0, k + 1).drop_last() =~= prefix);
                lemma_deadline_absent_prefix(before.doomed, k as int);
            }
            if !back {
                proof {
                    assert forall|a: int| 0 <= a < next@.len() implies next@[a].0@ != entry.0@ by {
                        lemma_deadline_some_if_present(next@, a);
                        if next@[a].0@ == entry.0@ {
                            let b = lemma_deadline_some_implies_present(prefix, entry.0@);
                            assert(before.doomed[b].0@ == before.doomed[k as int].0@);
                        }
                    }
                    lemma_deadline_push(next@, (entry.0, entry.1));
                }
                next.push((entry.0.clone(), entry.1));
            }
            k += 1;
        }
        assert(before.doomed.subrange(0, k as int) =~= before.doomed);

        let mut s: usize = 0;
        while s < self.seen.len()
            invariant
                self@ == before,
                before.wf(),
                live@ == live_spec,
                now <= u64::MAX - UNDO_WINDOW_MS,
                s <= before.seen.len(),
                forall|a: int, b: int| 0 <= a < b < next@.len() ==> next@[a].0@ != next@[b].0@,
                forall|id: Seq<char>| #[trigger] deadline_of(next@, id) == if holds(live_spec, id) {
                    None
                } else if deadline_of(before.doomed, id) is Some {
                    deadline_of(before.doomed, id)
                } else if holds(before.seen.subrange(0, s as int), id) {
                    Some((now + UNDO_WINDOW_MS) as u64)
                } else {
                    None
                },
            decreases self.seen.len() - s,
        {
            let id = &self.seen[s];
            let back = contains(&live, id.as_str());
            let known = find_deadline(&next, id.as_str()).is_some();
            proof {
                assert(before.seen.subrange(0, s + 1) =~= before.seen.subrange(0, s as int).push(before.seen[s as int]));
                lemma_holds_push(before.seen.subrange(0, s as int), before.seen[s as int]);
            }
            if !back && !known {
                proof {
                    assert forall|a: int| 0 <= a < next@.len() implies next@[a].0@ != id@ by {
                        lemma_deadline_some_if_present(next@, a);
                    }
                    lemma_deadline_push(next@, (*id, (now + UNDO_WINDOW_MS) as u64));
                }
                next.push((id.clone(), now + UNDO_WINDOW_MS));
            }
            s += 1;
        }
        assert(before.seen.subrange(0, s as int) =~= before.seen);

        // Let go of everything whose window has closed.
        let mut due: Vec<String> = Vec::new();
        let mut kept: Vec<(String, u64)> = Vec::new();
        let mut d: usize = 0;
        while d < next.len()
            invariant
                d <= next@.len(),
                forall|a: int, b: int| 0 <= a < b < next@.len() ==> next@[a].0@ != next@[b].0@,
                forall|a: int, b: int| 0 <= a < b < kept@.len() ==> kept@[a].0@ != kept@[b].0@,
                forall|a: int, b: int| 0 <= a < b < due@.len() ==> due@[a]@ != due@[b]@,
                forall|id: Seq<char>| #[trigger] deadline_of(kept@, id) == match deadline_of(next@.subrange(0, d as int), id) {
                    Some(t) => if t <= now { None } else { Some(t) },
                    None => None,
                },
                forall|id: Seq<char>| #[trigger] holds(due@, id) == (deadline_of(next@.subrange(0, d as int), id) matches Some(t) && t <= now),
            decreases next.len() - d,
        {
            let ghost prefix = next@.subrange(0, d as int);
            proof {
                assert(next@.subrange(0, d + 1).drop_last() =~= prefix);
                lemma_deadline_absent_prefix(next@, d as int);
            }
            let entry = &next[d];
            proof {
                if deadline_of(prefix, entry.0@) is Some {
                    let b = lemma_deadline_some_implies_present(prefix, entry.0@);
                    assert(next@[b].0@ == next@[d as int].0@);
                }
            }
            if entry.1 <= now {
                proof {
                    assert forall|a: int| 0 <= a < due@.len() implies due@[a]@ != entry.0@ by {
                        assert(holds(due@, due@[a]@));
                        if due@[a]@ == entry.0@ {
                            let b = lemma_deadline_some_implies_present(prefix, entry.0@);
                            assert(next@[b].0@ == next@[d as int].0@);
                        }
                    }
                    lemma_holds_push(due@, entry.0);
                }
                due.push(entry.0.clone());
            } else {
                proof {
                    assert forall|a: int| 0 <= a < kept@.len() implies kept@[a].0@ != entry.0@ by {
                        lemma_deadline_some_if_present(kept@, a);
                        if kept@[a].0@ == entry.0@ {
                            let b = lemma_deadline_some_implies_present(prefix, entry.0@);
                            assert(next@[b].0@ == next@[d as int].0@);
                        }
                    }
                    lemma_deadline_push(kept@, (entry.0, entry.1));
                }
                kept.push((entry.0.clone(), entry.1));
            }
            d += 1;
        }
        assert(next@.subrange(0, d as int) =~= next@);
        self.doomed = kept;
        self.seen = live;
        due
    }
}

proof fn lemma_holds_push(ids: Seq<String>, x: String)
    ensures
        forall|id: Seq<char>| #[trigger] holds(ids.push(x), id) == (holds(ids, id) || id == x@),
{
    assert forall|id: Seq<char>| #[trigger] holds(ids.push(x), id) == (holds(ids, id) || id == x@) by {
        if holds(ids.push(x), id) {
            let w = choose|w: int| 0 <= w < ids.len() + 1 && (#[trigger] ids.push(x)[w])@ == id;
            if w < ids.len() {
                assert(ids[w]@ == id);
            }
        }
        if holds(ids, id) {
            let w = choose|w: int| 0 <= w < ids.len() && (#[trigger] ids[w])@ == id;
            assert(ids.push(x)[w]@ == id);
        }
        if id == x@ {
            assert(ids.push(x)[ids.len() as int]@ == id);
        }
    }
}

/// Whether `ids` holds `id`.
fn contains(ids: &Vec<String>, id: &str) -> (r: bool)
    ensures
        r == holds(ids@, id@),
{
    let mut i: usize = 0;
    while i < ids.len()
        invariant
            i <= ids@.len(),
            forall|k: int| 0 <= k < i ==> ids@[k]@ != id@,
        decreases ids.len() - i,
    {
        if crate::text::same_text(ids[i].as_str(), id) {
            return true;
        }
        i += 1;
    }
    false
}

/// The deadline `id` is held under.
fn find_deadline(doomed: &Vec<(String, u64)>, id: &str) -> (r: Option<u64>)
    ensures
        r == deadline_of(doomed@, id@),
{
    let mut i: usize = doomed.len();
    assert(doomed@.subrange(0, i as int) =~= doomed@);
    while i > 0
        invariant
            i <= doomed@.len(),
            deadline_of(doomed@, id@) == deadline_of(doomed@.subrange(0, i as int), id@),
        decreases i,
    {
        assert(doomed@.subrange(0, i as int).drop_last() =~= doomed@.subrange(0, i - 1));
        if crate::text::same_text(doomed[i - 1].0.as_str(), id) {
            return Some(doomed[i - 1].1);
        }
        i -= 1;
    }
    None
}

proof fn lemma_deadline_push(doomed: Seq<(String, u64)>, e: (String, u64))
    ensures
        forall|id: Seq<char>| #[trigger] deadline_of(doomed.push(e), id) == if id == e.0@ {
            Some(e.1)
        } else {
            deadline_of(doomed, id)
        },
{
    assert(doomed.push(e).drop_last() =~= doomed);
}

proof fn lemma_deadline_some_implies_present(doomed: Seq<(String, u64)>, id: Seq<char>) -> (a: int)
    requires
        deadline_of(doomed, id) is Some,
    ensures
        0 <= a < doomed.len(),
        doomed[a].0@ == id,
    decreases doomed.len(),
{
    if doomed.last().0@ == id {
        doomed.len() - 1
    } else {
        lemma_deadline_some_implies_present(doomed.drop_last(), id)
    }
}

proof fn lemma_deadline_some_if_present(doomed: Seq<(String, u64)>, a: int)
    requires
        0 <= a < doomed.len(),
    ensures
        deadline_of(doomed, doomed[a].0@) is Some,
    decreases doomed.len(),
{
    if a < doomed.len() - 1 && doomed.last().0@ != doomed[a].0@ {
        lemma_deadline_some_if_present(doomed.drop_last(), a);
    }
}

/// Growing a prefix by one entry sets that entry's id to its deadline and
/// leaves every other id where it was.
proof fn lemma_deadline_absent_prefix(doomed: Seq<(String, u64)>, k: int)
    requires
        0 <= k < doomed.len(),
    ensures
        forall|id: Seq<char>| #[trigger] deadline_of(doomed.subrange(0, k + 1), id) == if id == doomed[k].0@ {
            Some(doomed[k].1)
        } else {
            deadline_of(doomed.subrange(0, k), id)
        },
{
    assert(doomed.subrange(0, k + 1).drop_last() =~= doomed.subrange(0, k));
}

/// A session present in the snapshot is never let go, one never seen alive
/// is never let go, and one that just left is not let go before its undo
/// window closes.
pub proof fn lemma_reaping_needs_absence(r: ReaperView, live: Seq<String>, now: u64, id: Seq<char>)
    requires
        now <= u64::MAX - UNDO_WINDOW_MS,
    ensures
        holds(live, id) ==> !r.due(live, now, id),
        !holds(r.seen, id) && deadline_of(r.doomed, id) is None ==> !r.due(live, now, id),
        !holds(live, id) && holds(r.seen, id) && deadline_of(r.doomed, id) is None ==> r.deadline_after(live, now, id) == Some((now + UNDO_WINDOW_MS) as u64) && !r.due(live, now, id),
{
}


/// The ids a reaper fed `trace` — each entry a snapshot's ids and the instant
/// it was observed at — had seen before its call `n`.
pub open spec fn seen_before(trace: Seq<(Seq<String>, u64)>, n: int) -> Seq<String> {
    if n <= 0 {
        Seq::empty()
    } else {
        trace[n - 1].0
    }
}

/// The deadline `id` is held under before call `n` of `trace`.
pub open spec fn held_before(trace: Seq<(Seq<String>, u64)>, n: int, id: Seq<char>) -> Option<u64>
    decreases n, 0int,
{
    if n <= 0 {
        None
    } else if reaped_at(trace, n - 1, id) {
        None
    } else {
        held_through(trace, n - 1, id)
    }
}

/// The deadline `id` is held under during call `n` of `trace`, before the due
/// ones are let go.
pub open spec fn held_through(trace: Seq<(Seq<String>, u64)>, n: int, id: Seq<char>) -> Option<u64>
    decreases n, 1int,
{
    if holds(trace[n].0, id) {
        None
    } else if held_before(trace, n, id) is Some {
        held_before(trace, n, id)
    } else if holds(seen_before(trace, n), id) {
        Some((trace[n].1 + UNDO_WINDOW_MS) as u64)
    } else {
        None
    }
}

/// Whether call `n` of `trace` lets `id` go.
pub open spec fn reaped_at(trace: Seq<(Seq<String>, u64)>, n: int, id: Seq<char>) -> bool
    decreases n, 2int,
{
    held_through(trace, n, id) matches Some(d) && d <= trace[n].1
}

/// What a reaper holds agrees with `n` calls of `trace` from a fresh reaper.
pub open spec fn follows(r: ReaperView, trace: Seq<(Seq<String>, u64)>, n: int) -> bool {
    &&& forall|id: Seq<char>| #[trigger] holds(r.seen, id) == holds(seen_before(trace, n), id)
    &&& forall|id: Seq<char>| #[trigger] deadline_of(r.doomed, id) == held_before(trace, n, id)
}

/// A reaper that has seen nothing and holds nothing is where every trace
/// starts.
pub proof fn lemma_a_fresh_reaper_follows_every_trace(r: ReaperView, trace: Seq<(Seq<String>, u64)>)
    requires
        r.seen.len() == 0,
        r.doomed.len() == 0,
    ensures
        follows(r, trace, 0),
{
    assert forall|id: Seq<char>| #[trigger] holds(r.seen, id) == holds(seen_before(trace, 0), id) by {
        assert(seen_before(trace, 0) =~= Seq::<String>::empty());
    }
}

/// Observing call `n` of a trace keeps a reaper on it: what `observe` lets go
/// is exactly what the trace lets go at that call, and the reaper it leaves
/// follows the trace one call further.
pub proof fn lemma_observe_follows_the_trace(
    r: ReaperView,
    next: ReaperView,
    trace: Seq<(Seq<String>, u64)>,
    n: int,
)
    requires
        0 <= n < trace.len(),
        follows(r, trace, n),
        next.seen == trace[n].0,
        forall|id: Seq<char>| #[trigger] deadline_of(next.doomed, id) == if r.due(trace[n].0, trace[n].1, id) {
            None
        } else {
            r.deadline_after(trace[n].0, trace[n].1, id)
        },
    ensures
        forall|id: Seq<char>| #[trigger] r.due(trace[n].0, trace[n].1, id) == reaped_at(trace, n, id),
        follows(next, trace, n + 1),
{
    assert forall|id: Seq<char>| #[trigger] r.due(trace[n].0, trace[n].1, id) == reaped_at(trace, n, id) by {
        assert(holds(r.seen, id) == holds(seen_before(trace, n), id));
        assert(deadline_of(r.doomed, id) == held_before(trace, n, id));
        assert(r.deadline_after(trace[n].0, trace[n].1, id) == held_through(trace, n, id));
    }
    assert forall|id: Seq<char>| #[trigger] deadline_of(next.doomed, id) == held_before(trace, n + 1, id) by {
        assert(holds(r.seen, id) == holds(seen_before(trace, n), id));
        assert(deadline_of(r.doomed, id) == held_before(trace, n, id));
        assert(r.deadline_after(trace[n].0, trace[n].1, id) == held_through(trace, n, id));
        assert(r.due(trace[n].0, trace[n].1, id) == reaped_at(trace, n, id));
    }
    assert forall|id: Seq<char>| #[trigger] holds(next.seen, id) == holds(seen_before(trace, n + 1), id) by {
        assert(seen_before(trace, n + 1) == trace[n].0);
    }
}

/// Every instant of the trace leaves room for a window after it.
pub open spec fn instants_fit(trace: Seq<(Seq<String>, u64)>) -> bool {
    forall|k: int| 0 <= k < trace.len() ==> #[trigger] trace[k].1 <= u64::MAX - UNDO_WINDOW_MS
}

/// A held deadline comes from one departure: the id was live at call `m`,
/// has been absent and not let go at every call since, and its window opened
/// at call `m + 1`.
proof fn lemma_held_means_departed(trace: Seq<(Seq<String>, u64)>, n: int, id: Seq<char>) -> (m: int)
    requires
        0 <= n <= trace.len(),
        instants_fit(trace),
        held_before(trace, n, id) is Some,
    ensures
        0 <= m,
        m + 1 < n,
        holds(trace[m].0, id),
        forall|j: int| m < j < n ==> !holds(#[trigger] trace[j].0, id) && !reaped_at(trace, j, id),
        held_before(trace, n, id) == Some((trace[m + 1].1 + UNDO_WINDOW_MS) as u64),
    decreases n,
{
    assert(!reaped_at(trace, n - 1, id));
    assert(held_through(trace, n - 1, id) is Some);
    assert(!holds(trace[n - 1].0, id));
    if held_before(trace, n - 1, id) is Some {
        let m = lemma_held_means_departed(trace, n - 1, id);
        m
    } else {
        assert(holds(seen_before(trace, n - 1), id));
        assert(n - 1 > 0);
        let m = n - 2;
        assert forall|j: int| m < j < n implies !holds(#[trigger] trace[j].0, id) && !reaped_at(trace, j, id) by {
            assert(j == n - 1);
        }
        m
    }
}

/// An id is let go only after it left: it is absent from the snapshot it is
/// let go at, it was live at some earlier call, it has been absent at every
/// call since, its undo window — opened at the first call that saw it gone —
/// has closed, and it was not let go at any call in between: once per
/// departure.
pub proof fn lemma_reaped_only_after_its_window(trace: Seq<(Seq<String>, u64)>, n: int, id: Seq<char>)
    requires
        0 <= n < trace.len(),
        instants_fit(trace),
        reaped_at(trace, n, id),
    ensures
        !holds(trace[n].0, id),
        exists|m: int|
            #![trigger trace[m]]
            0 <= m && m + 1 < n && holds(trace[m].0, id) && trace[m + 1].1 + UNDO_WINDOW_MS <= trace[n].1
                && forall|j: int| m < j <= n ==> !holds(#[trigger] trace[j].0, id),
        exists|m: int|
            #![trigger trace[m]]
            0 <= m && holds(trace[m].0, id) && forall|j: int| m < j < n ==> !(#[trigger] reaped_at(trace, j, id)),
{
    assert(held_through(trace, n, id) is Some);
    assert(!holds(trace[n].0, id));
    if held_before(trace, n, id) is None {
        assert(holds(seen_before(trace, n), id));
        assert(held_through(trace, n, id) == Some((trace[n].1 + UNDO_WINDOW_MS) as u64));
        assert(trace[n].1 <= u64::MAX - UNDO_WINDOW_MS);
        assert(false);
    }
    let m = lemma_held_means_departed(trace, n, id);
    assert(trace[m + 1].1 <= u64::MAX - UNDO_WINDOW_MS);
    assert(holds(trace[m].0, id));
}

/// From the call after it opened until the call it is let go at, a
/// departure's window stays held.
proof fn lemma_window_stays_open(trace: Seq<(Seq<String>, u64)>, m: int, j: int, id: Seq<char>)
    requires
        0 <= m,
        m + 1 < j <= trace.len(),
        instants_fit(trace),
        holds(trace[m].0, id),
        forall|k: int| m < k < j ==> !holds(#[trigger] trace[k].0, id),
    ensures
        (exists|k: int| m < k < j && #[trigger] reaped_at(trace, k, id))
            || held_before(trace, j, id) == Some((trace[m + 1].1 + UNDO_WINDOW_MS) as u64),
    decreases j,
{
    let d = (trace[m + 1].1 + UNDO_WINDOW_MS) as u64;
    assert(trace[m + 1].1 <= u64::MAX - UNDO_WINDOW_MS);
    if j == m + 2 {
        assert(!holds(trace[m + 1].0, id));
        assert(held_through(trace, m, id) is None);
        assert(held_before(trace, m + 1, id) is None);
        assert(seen_before(trace, m + 1) == trace[m].0);
        assert(held_through(trace, m + 1, id) == Some(d));
        assert(!reaped_at(trace, m + 1, id));
    } else {
        lemma_window_stays_open(trace, m, j - 1, id);
        assert(!holds(trace[j - 1].0, id));
        if held_before(trace, j - 1, id) == Some(d) {
            assert(held_through(trace, j - 1, id) == Some(d));
            if reaped_at(trace, j - 1, id) {
                assert(m < j - 1 < j && reaped_at(trace, j - 1, id));
            }
        } else {
            let k = choose|k: int| m < k < j - 1 && #[trigger] reaped_at(trace, k, id);
            assert(m < k < j && reaped_at(trace, k, id));
        }
    }
}

/// An id that left is let go once its undo window has closed: live at call
/// `m`, absent since, and the window opened at call `m + 1` closed by call
/// `n`, some call after `m` and no later than `n` lets it go.
pub proof fn lemma_a_departure_is_reaped_once_its_window_closes(
    trace: Seq<(Seq<String>, u64)>,
    m: int,
    n: int,
    id: Seq<char>,
)
    requires
        0 <= m < n < trace.len(),
        instants_fit(trace),
        holds(trace[m].0, id),
        forall|j: int| m < j <= n ==> !holds(#[trigger] trace[j].0, id),
        trace[m + 1].1 + UNDO_WINDOW_MS <= trace[n].1,
    ensures
        exists|j: int| m < j <= n && #[trigger] reaped_at(trace, j, id),
{
    let d = (trace[m + 1].1 + UNDO_WINDOW_MS) as u64;
    // The window opens at call `m + 1` and cannot close at once.
    assert(trace[m + 1].1 <= u64::MAX - UNDO_WINDOW_MS);
    assert(m + 1 < n);
    lemma_window_stays_open(trace, m, n, id);
    if held_before(trace, n, id) == Some(d) {
        assert(!holds(trace[n].0, id));
        assert(held_through(trace, n, id) == Some(d));
        assert(reaped_at(trace, n, id));
    }
}

} // verus!
