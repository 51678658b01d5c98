//! What agents report about themselves over their own terminals, kept per
//! session for the panes that show it, and which of them are printing.
use vstd::prelude::*;
use crate::keyed::{lookup, put, lemma_put, lemma_first_key, lemma_no_key, lemma_lookup_push};
use crate::snapshot::opt_string;
use crate::text::same_text;

verus! {

/// What an agent reported about itself over its own terminal.
#[derive(Debug, Clone, PartialEq)]
pub struct AgentMeta {
    /// The window title, which agents use as a live activity line.
    pub activity: Option<String>,
    /// The message from the most recent attention notification.
    pub notification: Option<String>,
}

/// An agent's report as text: its activity line and its notification.
pub type MetaView = (Option<Seq<char>>, Option<Seq<char>>);

impl View for AgentMeta {
    type V = MetaView;

    open spec fn view(&self) -> MetaView {
        (opt_string(self.activity), opt_string(self.notification))
    }
}

impl Default for AgentMeta {
    fn default() -> (r: Self)
        ensures
            r@ == (None::<Seq<char>>, None::<Seq<char>>),
    {
        AgentMeta { activity: None, notification: None }
    }
}

/// Each session's entry, as text.
pub open spec fn metas_view(v: Seq<(String, AgentMeta)>) -> Seq<(Seq<char>, MetaView)> {
    v.map_values(|e: (String, AgentMeta)| (e.0@, e.1@))
}

/// What each live session's terminal reported this time, as text: a report,
/// or nothing new.
pub open spec fn reports_view(v: Seq<(String, Option<AgentMeta>)>) -> Seq<(Seq<char>, Option<MetaView>)> {
    v.map_values(|e: (String, Option<AgentMeta>)| (e.0@, match e.1 { Some(m) => Some(m@), None => None }))
}

/// No session is named twice.
pub open spec fn distinct_sessions<V>(v: Seq<(Seq<char>, V)>) -> bool {
    forall|i: int, j: int| 0 <= i < j < v.len() ==> #[trigger] v[i].0 != #[trigger] v[j].0
}

/// What a session's entry reads after a sync: a live session's fresh report
/// replaces its entry, a live one with nothing new keeps its own, and a
/// session that went away keeps no stale title.
pub open spec fn synced(meta: Seq<(Seq<char>, MetaView)>, reports: Seq<(Seq<char>, Option<MetaView>)>, id: Seq<char>) -> Option<MetaView> {
    match lookup(reports, id) {
        None => None,
        Some(None) => lookup(meta, id),
        Some(Some(m)) => Some(m),
    }
}

/// Whether a report changes what `id`'s entry reads; a session with no entry
/// reads as reporting nothing.
pub open spec fn report_moves(meta: Seq<(Seq<char>, MetaView)>, id: Seq<char>, m: MetaView) -> bool {
    match lookup(meta, id) {
        Some(held) => held != m,
        None => m != (None::<Seq<char>>, None::<Seq<char>>),
    }
}

/// Whether a sync changed anything a reader sees: an entry now reads
/// differently, or one went with its session. A report that matches what is
/// held changes nothing, so readers' caches stay good.
pub open spec fn meta_moved(meta: Seq<(Seq<char>, MetaView)>, reports: Seq<(Seq<char>, Option<MetaView>)>) -> bool {
    exists|id: Seq<char>| #![trigger lookup(reports, id)] {
        ||| (lookup(reports, id) matches Some(Some(m)) && report_moves(meta, id, m))
        ||| (lookup(meta, id) is Some && lookup(reports, id) is None)
    }
}

fn copy_meta(m: &AgentMeta) -> (r: AgentMeta)
    ensures
        r@ == m@,
{
    AgentMeta {
        activity: match &m.activity {
            Some(s) => Some(s.clone()),
            None => None,
        },
        notification: match &m.notification {
            Some(s) => Some(s.clone()),
            None => None,
        },
    }
}

fn same_opt(a: &Option<String>, b: &Option<String>) -> (r: bool)
    ensures
        r == (opt_string(*a) == opt_string(*b)),
{
    match (a, b) {
        (Some(x), Some(y)) => same_text(x.as_str(), y.as_str()),
        (None, None) => true,
        _ => false,
    }
}

fn same_meta(a: &AgentMeta, b: &AgentMeta) -> (r: bool)
    ensures
        r == (a@ == b@),
{
    same_opt(&a.activity, &b.activity) && same_opt(&a.notification, &b.notification)
}

/// Where `id`'s first entry stands.
fn entry_of(meta: &Vec<(String, AgentMeta)>, id: &str) -> (r: Option<usize>)
    ensures
        match r {
            Some(i) => i < meta@.len() && metas_view(meta@)[i as int].0 == id@
                && forall|j: int| 0 <= j < i ==> metas_view(meta@)[j].0 != id@,
            None => forall|j: int| 0 <= j < meta@.len() ==> metas_view(meta@)[j].0 != id@,
        },
{
    let mut i: usize = 0;
    while i < meta.len()
        invariant
            i <= meta@.len(),
            forall|j: int| 0 <= j < i ==> metas_view(meta@)[j].0 != id@,
        decreases meta.len() - i,
    {
        if same_text(meta[i].0.as_str(), id) {
            return Some(i);
        }
        i += 1;
    }
    None
}

/// Whether `id` is one of the live sessions reported.
fn is_reported(reports: &Vec<(String, Option<AgentMeta>)>, id: &str) -> (r: bool)
    ensures
        r == lookup(reports_view(reports@), id@) is Some,
{
    let ghost rv = reports_view(reports@);
    let mut i: usize = 0;
    while i < reports.len()
        invariant
            i <= reports@.len(),
            rv == reports_view(reports@),
            forall|j: int| 0 <= j < i ==> rv[j].0 != id@,
        decreases reports.len() - i,
    {
        if same_text(reports[i].0.as_str(), id) {
            proof { lemma_first_key(rv, id@, i as int, None); }
            return true;
        }
        i += 1;
    }
    proof { lemma_no_key(rv, id@, None); }
    false
}

/// Fold this sync's reports into the per-session entries: each live session
/// named once in `reports`, with what its terminal reported or nothing new.
/// An entry is compared before it is assigned, so a report that changes
/// nothing does not count as a change. Returns whether anything a reader
/// sees changed.
pub fn sync_meta(meta: &mut Vec<(String, AgentMeta)>, reports: &Vec<(String, Option<AgentMeta>)>) -> (moved: bool)
    requires
        distinct_sessions(reports_view(reports@)),
    ensures
        forall|id: Seq<char>| #[trigger] lookup(metas_view(final(meta)@), id) == synced(metas_view(old(meta)@), reports_view(reports@), id),
        moved == meta_moved(metas_view(old(meta)@), reports_view(reports@)),
{
    let ghost m0 = metas_view(meta@);
    let ghost rv = reports_view(reports@);
    let mut moved = false;
    let mut k: usize = 0;
    while k < reports.len()
        invariant
            k <= reports@.len(),
            rv == reports_view(reports@),
            distinct_sessions(rv),
            forall|id: Seq<char>| #[trigger] lookup(metas_view(meta@), id) == match lookup(rv.take(k as int), id) {
                Some(Some(m)) => Some(m),
                _ => lookup(m0, id),
            },
            moved == exists|id: Seq<char>| #![trigger lookup(rv.take(k as int), id)]
                lookup(rv.take(k as int), id) matches Some(Some(m)) && report_moves(m0, id, m),
        decreases reports.len() - k,
    {
        let ghost before = metas_view(meta@);
        let ghost x = rv[k as int];
        proof {
            assert(rv.take(k + 1) =~= rv.take(k as int).push(x));
            assert forall|id: Seq<char>| #[trigger] lookup(rv.take(k + 1), id) == match lookup(rv.take(k as int), id) {
                Some(v) => Some(v),
                None => if x.0 == id { Some(x.1) } else { None },
            } by {
                lemma_lookup_push(rv.take(k as int), x, id);
            }
            // The session named here is named nowhere before it.
            assert(lookup(rv.take(k as int), x.0) is None) by {
                assert forall|j: int| 0 <= j < k implies rv.take(k as int)[j].0 != x.0 by {
                    assert(rv[j].0 != rv[k as int].0);
                }
                lemma_no_key(rv.take(k as int), x.0, None);
            }
        }
        let ghost moved_before = moved;
        match &reports[k].1 {
            None => {},
            Some(m) => {
                let id = &reports[k].0;
                match entry_of(meta, id.as_str()) {
                    Some(i) => {
                        proof { lemma_first_key(before, id@, i as int, m@); }
                        if !same_meta(&meta[i].1, m) {
                            let _ = meta.remove(i);
                            meta.insert(i, (id.clone(), copy_meta(m)));
                            moved = true;
                            proof {
                                assert(metas_view(meta@) =~= before.update(i as int, (id@, m@)));
                            }
                        }
                        proof {
                            assert forall|other: Seq<char>| #[trigger] lookup(metas_view(meta@), other) == lookup(put(before, id@, m@), other) by {
                                lemma_put(before, id@, m@, other);
                                if metas_view(meta@) == before {
                                    lemma_first_key(before, id@, i as int, m@);
                                    assert(before.update(i as int, (id@, m@)) =~= before);
                                }
                            }
                        }
                    },
                    None => {
                        proof { lemma_no_key(before, id@, m@); }
                        meta.push((id.clone(), copy_meta(m)));
                        if !(m.activity.is_none() && m.notification.is_none()) {
                            moved = true;
                        }
                        proof {
                            assert(metas_view(meta@) =~= before.push((id@, m@)));
                            assert forall|other: Seq<char>| #[trigger] lookup(metas_view(meta@), other) == lookup(put(before, id@, m@), other) by {
                                lemma_put(before, id@, m@, other);
                            }
                        }
                    },
                }
                proof {
                    assert forall|other: Seq<char>| #[trigger] lookup(metas_view(meta@), other) == match lookup(rv.take(k + 1), other) {
                        Some(Some(mm)) => Some(mm),
                        _ => lookup(m0, other),
                    } by {
                        lemma_put(before, id@, m@, other);
                    }
                    assert(report_moves(m0, id@, m@) == report_moves(before, id@, m@));
                }
            },
        }
        proof {
            let t1 = rv.take(k + 1);
            let t0 = rv.take(k as int);
            if moved {
                if !moved_before {
                    assert(lookup(t1, x.0) == Some(x.1));
                } else {
                    let w = choose|id: Seq<char>| #![trigger lookup(t0, id)] lookup(t0, id) matches Some(Some(m)) && report_moves(m0, id, m);
                    assert(lookup(t1, w) == lookup(t0, w));
                }
            } else {
                assert forall|id: Seq<char>| !(#[trigger] lookup(t1, id) matches Some(Some(m)) && report_moves(m0, id, m)) by {
                    if id != x.0 {
                        assert(lookup(t1, id) == lookup(t0, id));
                    }
                }
            }
        }
        k += 1;
    }
    proof {
        assert(rv.take(k as int) =~= rv);
    }
    let ghost m1 = metas_view(meta@);
    let mut kept: Vec<(String, AgentMeta)> = Vec::new();
    let mut dropped = false;
    let mut i: usize = 0;
    assert(m1.take(0) =~= Seq::<(Seq<char>, MetaView)>::empty());
    while i < meta.len()
        invariant
            i <= meta@.len(),
            m1 == metas_view(meta@),
            rv == reports_view(reports@),
            forall|id: Seq<char>| #[trigger] lookup(metas_view(kept@), id) == if lookup(rv, id) is Some { lookup(m1.take(i as int), id) } else { None },
            dropped == exists|j: int| 0 <= j < i && #[trigger] lookup(rv, m1[j].0) is None,
        decreases meta.len() - i,
    {
        let ghost e = m1[i as int];
        let ghost kv = metas_view(kept@);
        proof {
            assert(m1.take(i + 1) =~= m1.take(i as int).push(e));
        }
        let ghost dropped_before = dropped;
        if is_reported(reports, meta[i].0.as_str()) {
            kept.push((meta[i].0.clone(), copy_meta(&meta[i].1)));
            proof {
                assert(lookup(rv, m1[i as int].0) is Some);
                if dropped_before {
                    let w = choose|j: int| 0 <= j < i && #[trigger] lookup(rv, m1[j].0) is None;
                    assert(0 <= w < i + 1);
                } else {
                    assert forall|j: int| 0 <= j < i + 1 implies !(#[trigger] lookup(rv, m1[j].0) is None) by {
                        if j < i {
                        }
                    }
                }
                assert(metas_view(kept@) =~= kv.push(e));
                assert forall|id: Seq<char>| #[trigger] lookup(metas_view(kept@), id) == if lookup(rv, id) is Some { lookup(m1.take(i + 1), id) } else { None } by {
                    lemma_lookup_push(kv, e, id);
                    lemma_lookup_push(m1.take(i as int), e, id);
                }
            }
        } else {
            dropped = true;
            proof {
                assert(lookup(rv, m1[i as int].0) is None);
                assert forall|id: Seq<char>| #[trigger] lookup(metas_view(kept@), id) == if lookup(rv, id) is Some { lookup(m1.take(i + 1), id) } else { None } by {
                    lemma_lookup_push(m1.take(i as int), e, id);
                }
            }
        }
        i += 1;
    }
    proof {
        assert(m1.take(i as int) =~= m1);
        // A dropped entry is one whose session went away.
        if dropped {
            let j = choose|j: int| 0 <= j < m1.len() && #[trigger] lookup(rv, m1[j].0) is None;
            lemma_present(m1, j);
            assert(lookup(m1, m1[j].0) == lookup(m0, m1[j].0));
            assert(lookup(m0, m1[j].0) is Some);
        }
        if !dropped {
            assert forall|id: Seq<char>| !(lookup(m0, id) is Some && #[trigger] lookup(rv, id) is None) by {
                if lookup(m0, id) is Some && lookup(rv, id) is None {
                    assert(lookup(m1, id) == lookup(m0, id));
                    let j = lemma_found_at(m1, id);
                    assert(lookup(rv, m1[j].0) is None);
                }
            }
        }
        if moved {
            let w = choose|id: Seq<char>| #![trigger lookup(rv, id)] lookup(rv, id) matches Some(Some(m)) && report_moves(m0, id, m);
            assert(meta_moved(m0, rv));
        }
        if !moved && !dropped {
            assert(!meta_moved(m0, rv));
        }
    }
    *meta = kept;
    moved || dropped
}

/// Syncing the same reports again changes nothing: every entry already reads
/// as reported, and the gone sessions' entries have already gone.
pub proof fn lemma_a_repeat_sync_is_quiet(meta: Seq<(Seq<char>, MetaView)>, after: Seq<(Seq<char>, MetaView)>, reports: Seq<(Seq<char>, Option<MetaView>)>)
    requires
        forall|id: Seq<char>| #[trigger] lookup(after, id) == synced(meta, reports, id),
    ensures
        !meta_moved(after, reports),
{
    assert forall|id: Seq<char>| !({
        ||| (#[trigger] lookup(reports, id) matches Some(Some(m)) && report_moves(after, id, m))
        ||| (lookup(after, id) is Some && lookup(reports, id) is None)
    }) by {
        assert(lookup(after, id) == synced(meta, reports, id));
    }
}

/// The sessions printing: those whose last output is at most `quiet_ms` old,
/// by `(session, milliseconds since its last output)`.
pub open spec fn printing_now(idle_for: Seq<(String, u64)>, quiet_ms: u64) -> Set<Seq<char>> {
    Set::new(|id: Seq<char>| exists|k: int| 0 <= k < idle_for.len() && #[trigger] idle_for[k].0@ == id && idle_for[k].1 <= quiet_ms)
}

/// Sessions as a set of names.
pub open spec fn names_set(v: Seq<String>) -> Set<Seq<char>> {
    Set::new(|id: Seq<char>| exists|k: int| 0 <= k < v.len() && #[trigger] v[k]@ == id)
}

fn holds_name(v: &Vec<String>, id: &String) -> (r: bool)
    ensures
        r == names_set(v@).contains(id@),
{
    let mut i: usize = 0;
    while i < v.len()
        invariant
            i <= v@.len(),
            forall|k: int| 0 <= k < i ==> v@[k]@ != id@,
        decreases v.len() - i,
    {
        if same_text(v[i].as_str(), id.as_str()) {
            assert(v@[i as int]@ == id@);
            return true;
        }
        i += 1;
    }
    false
}

/// Whether every name of `a` is one of `b`'s.
fn all_held(a: &Vec<String>, b: &Vec<String>) -> (r: bool)
    ensures
        r == names_set(a@).subset_of(names_set(b@)),
{
    let mut i: usize = 0;
    while i < a.len()
        invariant
            i <= a@.len(),
            forall|k: int| 0 <= k < i ==> names_set(b@).contains(#[trigger] a@[k]@),
        decreases a.len() - i,
    {
        if !holds_name(b, &a[i]) {
            assert(names_set(a@).contains(a@[i as int]@));
            return false;
        }
        i += 1;
    }
    assert forall|id: Seq<char>| names_set(a@).contains(id) implies names_set(b@).contains(id) by {
        let k = choose|k: int| 0 <= k < a@.len() && #[trigger] a@[k]@ == id;
    }
    true
}

/// Note which sessions are printing, and move `version` — the signal readers
/// compare against — only when that set changed: a write that changed
/// nothing would still invalidate everything cached against it.
pub fn sync_printing(printing: &mut Vec<String>, version: &mut u64, idle_for: &Vec<(String, u64)>, quiet_ms: u64)
    ensures
        names_set(final(printing)@) == printing_now(idle_for@, quiet_ms),
        *final(version) == if names_set(old(printing)@) == printing_now(idle_for@, quiet_ms) {
            *old(version)
        } else {
            crate::surfaces::wrap_add(*old(version), 1)
        },
{
    let mut now: Vec<String> = Vec::new();
    let mut i: usize = 0;
    while i < idle_for.len()
        invariant
            i <= idle_for@.len(),
            forall|id: Seq<char>| names_set(now@).contains(id) <==> exists|k: int| 0 <= k < i && #[trigger] idle_for@[k].0@ == id && idle_for@[k].1 <= quiet_ms,
        decreases idle_for.len() - i,
    {
        let ghost before = now@;
        if idle_for[i].1 <= quiet_ms {
            now.push(idle_for[i].0.clone());
            proof {
                assert forall|id: Seq<char>| names_set(now@).contains(id) <==> exists|k: int| 0 <= k < i + 1 && #[trigger] idle_for@[k].0@ == id && idle_for@[k].1 <= quiet_ms by {
                    if names_set(now@).contains(id) {
                        let j = choose|j: int| 0 <= j < now@.len() && #[trigger] now@[j]@ == id;
                        if j < before.len() {
                            assert(before[j]@ == id);
                            assert(names_set(before).contains(id));
                        }
                    }
                    if exists|k: int| 0 <= k < i + 1 && #[trigger] idle_for@[k].0@ == id && idle_for@[k].1 <= quiet_ms {
                        let k = choose|k: int| 0 <= k < i + 1 && #[trigger] idle_for@[k].0@ == id && idle_for@[k].1 <= quiet_ms;
                        if k < i {
                            assert(names_set(before).contains(id));
                            let j = choose|j: int| 0 <= j < before.len() && #[trigger] before[j]@ == id;
                            assert(now@[j]@ == id);
                        } else {
                            assert(now@[before.len() as int]@ == id);
                        }
                    }
                }
            }
        } else {
            proof {
                assert forall|id: Seq<char>| names_set(now@).contains(id) <==> exists|k: int| 0 <= k < i + 1 && #[trigger] idle_for@[k].0@ == id && idle_for@[k].1 <= quiet_ms by {
                    if exists|k: int| 0 <= k < i + 1 && #[trigger] idle_for@[k].0@ == id && idle_for@[k].1 <= quiet_ms {
                        let k = choose|k: int| 0 <= k < i + 1 && #[trigger] idle_for@[k].0@ == id && idle_for@[k].1 <= quiet_ms;
                        assert(k < i);
                    }
                }
            }
        }
        i += 1;
    }
    assert(names_set(now@) =~= printing_now(idle_for@, quiet_ms));
    let same = all_held(&now, printing) && all_held(printing, &now);
    proof {
        if same {
            assert(names_set(now@) =~= names_set(printing@));
        } else {
            assert(names_set(now@) != names_set(printing@));
        }
    }
    if !same {
        *printing = now;
        *version = version.wrapping_add(1);
    }
}

/// An entry's key is found.
proof fn lemma_present<V>(s: Seq<(Seq<char>, V)>, j: int)
    requires
        0 <= j < s.len(),
    ensures
        lookup(s, s[j].0) is Some,
    decreases j,
{
    if j > 0 && s[0].0 != s[j].0 {
        assert(s.drop_first()[j - 1] == s[j]);
        lemma_present(s.drop_first(), j - 1);
    }
}

/// A key that is found stands at some entry.
proof fn lemma_found_at<V>(s: Seq<(Seq<char>, V)>, key: Seq<char>) -> (j: int)
    requires
        lookup(s, key) is Some,
    ensures
        0 <= j < s.len(),
        s[j].0 == key,
    decreases s.len(),
{
    if s[0].0 == key {
        0
    } else {
        let j = lemma_found_at(s.drop_first(), key);
        j + 1
    }
}

} // verus!
