//! Terminal surfaces: how a surface is named, when a backend is surveyed or
//! mirrored again, which pane a session is attached to and when that is tried
//! again, and how a mouse event is spelled to the program inside a pane.
//!
//! Times are milliseconds on one monotonic clock.
use vstd::prelude::*;
use crate::text::{push_str, same_text, to_chars, string_of};
use crate::keyed::{lookup, lemma_first_key, lemma_no_key, lemma_lookup_push};
use crate::registry::{add_text, strictly_sorted, texts_view, text_slot};
use crate::snapshot::{is_remote_backend, remote_backend, opt_string};

verus! {

/// How often a local backend's windows may be listed.
pub const DISCOVERY_INTERVAL_MS: u64 = 500;
/// The same, for a backend reached over ssh or `wsl.exe`.
pub const REMOTE_DISCOVERY_INTERVAL_MS: u64 = 5000;
/// How long the same failed attach is left alone before it is made again.
pub const ATTACH_RETRY_INTERVAL_MS: u64 = 20000;
/// How often a shareable host's database is mirrored.
pub const MIRROR_INTERVAL_MS: u64 = 10000;
/// How long a host is left alone after a mirror pass that could not run.
pub const MIRROR_RETRY_INTERVAL_MS: u64 = 60000;

/// The suffix that addresses a session's companion shell.
pub open spec fn shell_suffix() -> Seq<char> {
    "#shell"@
}

/// The surface name of a session's companion shell: its id, then `#shell`.
pub fn shell_surface(session: &str) -> (s: String)
    ensures
        s@ == session@ + shell_suffix(),
{
    let mut s = String::new();
    push_str(&mut s, session);
    proof { reveal_strlit("#shell"); }
    push_str(&mut s, "#shell");
    s
}

/// The session a surface names, and whether it names that session's shell.
pub open spec fn surface_parts(surface: Seq<char>) -> (Seq<char>, bool) {
    let n = surface.len() - shell_suffix().len();
    if n >= 0 && surface.subrange(n, surface.len() as int) == shell_suffix() {
        (surface.take(n), true)
    } else {
        (surface, false)
    }
}

/// The session a surface name belongs to, and whether it names that session's
/// companion shell: the one place the `<id>#shell` spelling is read.
pub fn split_surface(surface: &str) -> (r: (String, bool))
    ensures
        (r.0@, r.1) == surface_parts(surface@),
{
    let chars = to_chars(surface);
    proof { reveal_strlit("#shell"); }
    let suffix = to_chars("#shell");
    if chars.len() >= suffix.len() {
        let n = chars.len() - suffix.len();
        let mut k: usize = 0;
        let mut same = true;
        while k < suffix.len()
            invariant
                chars@ == surface@,
                suffix@ == shell_suffix(),
                n + suffix@.len() == chars.len(),
                k <= suffix@.len(),
                same == forall|m: int| 0 <= m < k ==> chars@[n + m] == suffix@[m],
            decreases suffix.len() - k,
        {
            if chars[n + k] != suffix[k] {
                same = false;
            }
            k += 1;
        }
        if same {
            assert(surface@.subrange(n as int, surface@.len() as int) =~= shell_suffix());
            let id = string_of(chars.as_slice(), 0, n);
            return (id, true);
        }
        assert(surface@.subrange(n as int, surface@.len() as int) != shell_suffix()) by {
            let m = choose|m: int| 0 <= m < suffix@.len() && chars@[n + m] != suffix@[m];
            assert(surface@.subrange(n as int, surface@.len() as int)[m] != shell_suffix()[m]);
        }
    }
    (surface.to_string(), false)
}

/// How long a backend's windows are left alone between listings.
pub open spec fn listing_interval(backend: Seq<char>) -> u64 {
    if remote_backend(backend) { REMOTE_DISCOVERY_INTERVAL_MS } else { DISCOVERY_INTERVAL_MS }
}

/// How long to leave `backend` alone between window listings: the local
/// cadence, or the slower remote one for a listing that travels over ssh.
pub fn discovery_interval(backend: &str) -> (ms: u64)
    ensures
        ms == listing_interval(backend@),
{
    if is_remote_backend(backend) {
        REMOTE_DISCOVERY_INTERVAL_MS
    } else {
        DISCOVERY_INTERVAL_MS
    }
}

/// How long until `backend` is listed again after a survey: its own cadence
/// when the survey readied the backend and listed it, else the attach retry,
/// since the next survey would learn the same nothing.
pub fn survey_backoff(backend: &str, readied: bool, listed: bool) -> (ms: u64)
    ensures
        ms == if readied && listed { listing_interval(backend@) } else { ATTACH_RETRY_INTERVAL_MS },
{
    if readied && listed {
        discovery_interval(backend)
    } else {
        ATTACH_RETRY_INTERVAL_MS
    }
}

/// How long until a host is mirrored again: the ordinary cadence after a pass
/// that ran, the longer retry after one that could not.
pub fn mirror_backoff(ran: bool) -> (ms: u64)
    ensures
        ms == if ran { MIRROR_INTERVAL_MS } else { MIRROR_RETRY_INTERVAL_MS },
{
    if ran { MIRROR_INTERVAL_MS } else { MIRROR_RETRY_INTERVAL_MS }
}

/// Whether a per-backend timer has come due at `now`. An entry is when it may
/// next run, so a name with no entry has never run and is due.
pub open spec fn due(schedule: Seq<(Seq<char>, u64)>, name: Seq<char>, now: u64) -> bool {
    !(lookup(schedule, name) matches Some(at) && at > now)
}

/// Whether `name`'s timer in `schedule` has come due at `now`.
pub fn due_now(schedule: &Vec<(String, u64)>, name: &str, now: u64) -> (r: bool)
    ensures
        r == due(schedule@.map_values(|e: (String, u64)| (e.0@, e.1)), name@, now),
{
    let ghost views = schedule@.map_values(|e: (String, u64)| (e.0@, e.1));
    let mut i: usize = 0;
    while i < schedule.len()
        invariant
            i <= schedule@.len(),
            views == schedule@.map_values(|e: (String, u64)| (e.0@, e.1)),
            forall|k: int| 0 <= k < i ==> views[k].0 != name@,
        decreases schedule.len() - i,
    {
        if same_text(schedule[i].0.as_str(), name) {
            proof { lemma_first_key(views, name@, i as int, 0u64); }
            return !(schedule[i].1 > now);
        }
        i += 1;
    }
    proof { lemma_no_key(views, name@, 0u64); }
    true
}

/// Entries keyed by text, read as text.
pub open spec fn stamps_view(v: Seq<(String, u64)>) -> Seq<(Seq<char>, u64)> {
    v.map_values(|e: (String, u64)| (e.0@, e.1))
}

/// Rows as their id and backend, read as text.
pub open spec fn pairs_view(v: Seq<(String, String)>) -> Seq<(Seq<char>, Seq<char>)> {
    v.map_values(|e: (String, String)| (e.0@, e.1@))
}

/// Where a row that is waiting for a pane stands: the listing count its
/// backend had when the row first showed up unresolved, kept for as long as
/// it stays unresolved. A row that stopped waiting has no stamp, so a session
/// deleted and restored is judged afresh.
pub open spec fn waiting_after(
    before: Seq<(Seq<char>, u64)>,
    unresolved: Seq<(Seq<char>, Seq<char>)>,
    surveys: Seq<(Seq<char>, u64)>,
    id: Seq<char>,
) -> Option<u64> {
    match lookup(unresolved, id) {
        None => None,
        Some(backend) => match lookup(before, id) {
            Some(v) => Some(v),
            None => Some(match lookup(surveys, backend) {
                Some(n) => n,
                None => 0,
            }),
        },
    }
}

/// The value held under `key`.
fn value_of(entries: &Vec<(String, u64)>, key: &str) -> (r: Option<u64>)
    ensures
        r == lookup(stamps_view(entries@), key@),
{
    let ghost views = stamps_view(entries@);
    let mut i: usize = 0;
    while i < entries.len()
        invariant
            i <= entries@.len(),
            views == stamps_view(entries@),
            forall|k: int| 0 <= k < i ==> views[k].0 != key@,
        decreases entries.len() - i,
    {
        if same_text(entries[i].0.as_str(), key) {
            proof { lemma_first_key(views, key@, i as int, 0u64); }
            return Some(entries[i].1);
        }
        i += 1;
    }
    proof { lemma_no_key(views, key@, 0u64); }
    None
}

/// The backend of the first row called `id`.
fn backend_of<'a>(rows: &'a Vec<(String, String)>, id: &str) -> (r: Option<&'a String>)
    ensures
        match lookup(pairs_view(rows@), id@) {
            Some(b) => r matches Some(x) && x@ == b,
            None => r is None,
        },
{
    let ghost views = pairs_view(rows@);
    let mut i: usize = 0;
    while i < rows.len()
        invariant
            i <= rows@.len(),
            views == pairs_view(rows@),
            forall|k: int| 0 <= k < i ==> views[k].0 != id@,
        decreases rows.len() - i,
    {
        if same_text(rows[i].0.as_str(), id) {
            proof { lemma_first_key(views, id@, i as int, Seq::<char>::empty()); }
            return Some(&rows[i].1);
        }
        i += 1;
    }
    proof { lemma_no_key(views, id@, Seq::<char>::empty()); }
    None
}

/// Stamp each unresolved row — its id and its backend — with where its
/// backend's listing count stood when it first showed up unresolved; a row
/// no longer waiting forgets its stamp.
pub fn note_waiting(waiting_since: &mut Vec<(String, u64)>, unresolved: &Vec<(String, String)>, surveys: &Vec<(String, u64)>)
    ensures
        forall|id: Seq<char>| #[trigger] lookup(stamps_view(final(waiting_since)@), id)
            == waiting_after(stamps_view(old(waiting_since)@), pairs_view(unresolved@), stamps_view(surveys@), id),
{
    let ghost before = stamps_view(waiting_since@);
    let ghost unres = pairs_view(unresolved@);
    let mut kept: Vec<(String, u64)> = Vec::new();
    let mut i: usize = 0;
    assert(before.take(0) =~= Seq::<(Seq<char>, u64)>::empty());
    while i < waiting_since.len()
        invariant
            i <= waiting_since@.len(),
            before == stamps_view(waiting_since@),
            unres == pairs_view(unresolved@),
            forall|id: Seq<char>| #[trigger] lookup(stamps_view(kept@), id) == if lookup(unres, id) is Some {
                lookup(before.take(i as int), id)
            } else {
                None
            },
        decreases waiting_since.len() - i,
    {
        let ghost e = before[i as int];
        proof {
            assert(before.take(i + 1) =~= before.take(i as int).push(e));
        }
        let ghost old_kept = stamps_view(kept@);
        if backend_of(unresolved, waiting_since[i].0.as_str()).is_some() {
            kept.push((waiting_since[i].0.clone(), waiting_since[i].1));
            proof {
                assert(stamps_view(kept@) =~= old_kept.push(e));
                assert forall|id: Seq<char>| #[trigger] lookup(stamps_view(kept@), id) == if lookup(unres, id) is Some {
                    lookup(before.take(i + 1), id)
                } else {
                    None
                } by {
                    lemma_lookup_push(old_kept, e, id);
                    lemma_lookup_push(before.take(i as int), e, id);
                }
            }
        } else {
            proof {
                assert forall|id: Seq<char>| #[trigger] lookup(stamps_view(kept@), id) == if lookup(unres, id) is Some {
                    lookup(before.take(i + 1), id)
                } else {
                    None
                } by {
                    lemma_lookup_push(before.take(i as int), e, id);
                }
            }
        }
        i += 1;
    }
    assert(before.take(i as int) =~= before);
    let ghost sv = stamps_view(surveys@);
    let mut j: usize = 0;
    assert(unres.take(0) =~= Seq::<(Seq<char>, Seq<char>)>::empty());
    while j < unresolved.len()
        invariant
            j <= unresolved@.len(),
            unres == pairs_view(unresolved@),
            sv == stamps_view(surveys@),
            forall|id: Seq<char>| #[trigger] lookup(stamps_view(kept@), id) == match lookup(unres.take(j as int), id) {
                Some(b) => match lookup(before, id) {
                    Some(v) => Some(v),
                    None => Some(match lookup(sv, b) { Some(n) => n, None => 0 }),
                },
                None => if lookup(unres, id) is Some { lookup(before, id) } else { None },
            },
        decreases unresolved.len() - j,
    {
        let ghost x = unres[j as int];
        proof {
            assert(unres.take(j + 1) =~= unres.take(j as int).push(x));
        }
        let ghost old_kept = stamps_view(kept@);
        let id = &unresolved[j].0;
        if value_of(&kept, id.as_str()).is_none() {
            let seen = match value_of(surveys, unresolved[j].1.as_str()) {
                Some(n) => n,
                None => 0,
            };
            kept.push((id.clone(), seen));
            proof {
                assert(stamps_view(kept@) =~= old_kept.push((x.0, seen)));
            }
        }
        proof {
            assert forall|k: Seq<char>| #[trigger] lookup(stamps_view(kept@), k) == match lookup(unres.take(j + 1), k) {
                Some(b) => match lookup(before, k) {
                    Some(v) => Some(v),
                    None => Some(match lookup(sv, b) { Some(n) => n, None => 0 }),
                },
                None => if lookup(unres, k) is Some { lookup(before, k) } else { None },
            } by {
                lemma_lookup_push(unres.take(j as int), x, k);
                lemma_lookup_push(old_kept, (x.0, match lookup(sv, x.1) { Some(n) => n, None => 0 }), k);
                assert(unres[j as int] == x);
                lemma_in_prefix(unres, j as int, x.0);
            }
        }
        j += 1;
    }
    assert(unres.take(j as int) =~= unres);
    *waiting_since = kept;
}

/// What a sequence holds once `x` is put in at `p`: `x`, and what it held.
proof fn lemma_insert_contains<T>(v: Seq<T>, p: int, x: T)
    requires
        0 <= p <= v.len(),
    ensures
        forall|c: T| v.insert(p, x).contains(c) <==> (v.contains(c) || c == x),
{
    let w = v.insert(p, x);
    assert forall|c: T| w.contains(c) <==> (v.contains(c) || c == x) by {
        if w.contains(c) {
            let q = choose|q: int| 0 <= q < w.len() && w[q] == c;
            if q < p {
                assert(v[q] == c);
            } else if q > p {
                assert(v[q - 1] == c);
            }
        }
        if v.contains(c) {
            let q = choose|q: int| 0 <= q < v.len() && v[q] == c;
            if q < p {
                assert(w[q] == c);
            } else {
                assert(w[q + 1] == c);
            }
        }
        if c == x {
            assert(w[p] == x);
        }
    }
}

/// A key found in a prefix is found the same in the whole.
proof fn lemma_in_prefix<K, V>(s: Seq<(K, V)>, j: int, key: K)
    requires
        0 <= j < s.len(),
        s[j].0 == key,
    ensures
        lookup(s, key) is Some,
    decreases j,
{
    if j > 0 && s[0].0 != key {
        lemma_in_prefix(s.drop_first(), j - 1, key);
    }
}

/// The backends with a row waiting on them: each once, in text order, so
/// one listing serves every row on a backend.
pub fn waiting_backends(unresolved: &Vec<(String, String)>) -> (r: Vec<String>)
    ensures
        strictly_sorted(texts_view(r@)),
        forall|b: Seq<char>| texts_view(r@).contains(b) <==> exists|k: int| 0 <= k < unresolved@.len() && #[trigger] unresolved@[k].1@ == b,
{
    let mut out: Vec<String> = Vec::new();
    let mut j: usize = 0;
    while j < unresolved.len()
        invariant
            j <= unresolved@.len(),
            strictly_sorted(texts_view(out@)),
            forall|b: Seq<char>| texts_view(out@).contains(b) <==> exists|k: int| 0 <= k < j && #[trigger] unresolved@[k].1@ == b,
        decreases unresolved.len() - j,
    {
        let ghost v = texts_view(out@);
        assert(forall|c: Seq<char>| v.contains(c) <==> exists|k: int| 0 <= k < j && #[trigger] unresolved@[k].1@ == c);
        let b = &unresolved[j].1;
        match text_slot(&out, b.as_str()) {
            Ok(i) => {
                proof {
                    assert(v[i as int] == b@);
                    assert(v.contains(b@));
                }
            },
            Err(p) => {
                out.insert(p, b.clone());
                proof {
                    assert(texts_view(out@) =~= v.insert(p as int, b@));
                    lemma_insert_contains(v, p as int, b@);
                }
            },
        }
        proof {
            assert(forall|c: Seq<char>| texts_view(out@).contains(c) <==> (v.contains(c) || c == b@));
            assert forall|c: Seq<char>| texts_view(out@).contains(c) <==> exists|k: int| 0 <= k < j + 1 && #[trigger] unresolved@[k].1@ == c by {
                if c == b@ {
                    assert(unresolved@[j as int].1@ == c);
                }
                if v.contains(c) {
                    let k = choose|k: int| 0 <= k < j && #[trigger] unresolved@[k].1@ == c;
                    assert(0 <= k < j + 1 && unresolved@[k].1@ == c);
                }
                if exists|k: int| 0 <= k < j + 1 && #[trigger] unresolved@[k].1@ == c {
                    let k = choose|k: int| 0 <= k < j + 1 && #[trigger] unresolved@[k].1@ == c;
                    if k < j {
                        assert(v.contains(c));
                    }
                }
            }
        }
        j += 1;
    }
    out
}

/// The grid row painted at the top of a rect `height` rows tall: the bottom
/// rows of a taller grid are the ones shown.
pub fn grid_top(grid_rows: u16, height: u16) -> (top: u16)
    ensures
        top == if grid_rows > height { (grid_rows - height) as u16 } else { 0u16 },
{
    if grid_rows > height { grid_rows - height } else { 0 }
}

/// Whether a listing taken since the row appeared exists: `surveys` is how
/// many listings its backend has had, `seen_at` the count when the row was
/// first seen waiting (none: it is not waiting, and counts as seen now).
pub fn surveyed_since(surveys: u64, seen_at: Option<u64>) -> (r: bool)
    ensures
        r == match seen_at { Some(s) => surveys > s, None => false },
{
    match seen_at {
        Some(s) => surveys > s,
        None => false,
    }
}

/// The pane to attach a row to, and whether it was found by window name: the
/// row's own pane id unless a listing contradicts it, else whatever the
/// listing places in the session's own window.
pub fn candidate_pane(backend_id: Option<String>, contradicted: bool, by_name: Option<String>) -> (r: (Option<String>, bool))
    ensures
        match backend_id {
            Some(id) if !contradicted => r.0 == Some(id) && !r.1,
            _ => r.0 == by_name && r.1,
        },
{
    match backend_id {
        Some(id) if !contradicted => (Some(id), false),
        _ => (by_name, true),
    }
}

/// What one unresolved row's attach does this frame.
#[derive(Debug, PartialEq, Eq)]
pub enum AttachStep {
    /// Nothing now: attached or attaching already, the same attempt failed
    /// too recently, or its backend is still being opened.
    Hold,
    /// Record that the session has no pane.
    Fail,
    /// Attach to this pane.
    Start(String),
}

/// Whether a failed attempt still holds off its retry at `now`: it tried the
/// same pane, less than the retry interval ago.
pub open spec fn held_off(failure: Option<(Option<Seq<char>>, u64)>, candidate: Option<Seq<char>>, now: u64) -> bool {
    match failure {
        Some((pane, at)) => pane == candidate && (now < at || now - at < ATTACH_RETRY_INTERVAL_MS),
        None => false,
    }
}

/// A recorded failure as text: the pane it tried and when.
pub open spec fn failure_view(f: Option<(Option<String>, u64)>) -> Option<(Option<Seq<char>>, u64)> {
    match f {
        Some((pane, at)) => Some((opt_string(pane), at)),
        None => None,
    }
}

fn same_pane(a: &Option<String>, b: &Option<String>) -> (r: bool)
    ensures
        r == (opt_string(*a) == opt_string(*b)),
{
    match (a, b) {
        (Some(x), Some(y)) => same_text(x.as_str(), y.as_str()),
        (None, None) => true,
        _ => false,
    }
}

/// Decide one row's attach: skipped while it is live or attaching; held off
/// while the same attempt failed within the retry interval; failed when there
/// is no pane to try; held while its backend's connection is being opened by
/// another attach; otherwise started on its candidate pane.
pub fn attach_step(busy: bool, candidate: Option<String>, failure: Option<(Option<String>, u64)>, now: u64, ready: bool, opening: bool) -> (r: AttachStep)
    ensures
        busy ==> r == AttachStep::Hold,
        !busy && held_off(failure_view(failure), opt_string(candidate), now) ==> r == AttachStep::Hold,
        !busy && !held_off(failure_view(failure), opt_string(candidate), now) ==> match candidate {
            None => r == AttachStep::Fail,
            Some(pane) => if !ready && opening { r == AttachStep::Hold } else { r matches AttachStep::Start(p) && p@ == pane@ },
        },
{
    if busy {
        return AttachStep::Hold;
    }
    if let Some((pane, at)) = &failure {
        if same_pane(pane, &candidate) && (now < *at || now - *at < ATTACH_RETRY_INTERVAL_MS) {
            return AttachStep::Hold;
        }
    }
    match candidate {
        None => AttachStep::Fail,
        Some(pane) => {
            if !ready && opening {
                AttachStep::Hold
            } else {
                AttachStep::Start(pane)
            }
        },
    }
}

/// Whether a live session's pane is lost: its stream ended, or the row now
/// names a different, non-empty pane — one a listing places in the session's
/// own window, or any for a remote row, which no listing speaks for.
pub open spec fn pane_lost(row_pane: Option<Seq<char>>, live_pane: Seq<char>, exited: bool, remote: bool, placed: bool) -> bool {
    exited || match row_pane {
        Some(id) => id.len() > 0 && id != live_pane && (remote || placed),
        None => false,
    }
}

/// Why a lost pane is recorded as failing: a remote host is unreachable; a
/// local pane is simply gone.
pub open spec fn lost_message(remote: bool) -> Seq<char> {
    if remote { "host unreachable"@ } else { "session has no pane yet"@ }
}

/// Decide whether a live session lets go of its pane, and the failure it is
/// recorded with if so. `placed` says whether the latest listing places the
/// row's pane in the session's own window.
pub fn lost_pane(row_pane: &Option<String>, live_pane: &str, exited: bool, remote: bool, placed: bool) -> (r: Option<String>)
    ensures
        match r {
            Some(m) => pane_lost(opt_string(*row_pane), live_pane@, exited, remote, placed) && m@ == lost_message(remote),
            None => !pane_lost(opt_string(*row_pane), live_pane@, exited, remote, placed),
        },
{
    let moved = match row_pane {
        Some(id) => {
            proof { reveal_strlit(""); }
            let empty = same_text(id.as_str(), "");
            assert(id@.len() == 0 ==> id@ =~= ""@);
            assert(empty <==> id@.len() == 0);
            !empty && !same_text(id.as_str(), live_pane) && (remote || placed)
        },
        None => false,
    };
    if exited || moved {
        if remote {
            Some("host unreachable".to_string())
        } else {
            Some("session has no pane yet".to_string())
        }
    } else {
        None
    }
}

/// The mouse encodings a program inside a pane may ask for.
#[derive(Debug, Clone, Copy, PartialEq, Eq)]
pub enum MouseEncoding {
    /// xterm's original `CSI M`, each field offset by 32.
    Default,
    /// `?1005`, never emitted: it cannot be told from the default.
    Utf8,
    /// `?1006`, `CSI < Cb ; Cx ; Cy M` (or `m` for a release).
    Sgr,
}

/// The decimal digits of `n`, as bytes.
pub open spec fn digits(n: nat) -> Seq<u8>
    decreases n,
{
    if n < 10 {
        seq![(48 + n) as u8]
    } else {
        digits(n / 10).push((48 + n % 10) as u8)
    }
}

fn push_digits(out: &mut Vec<u8>, n: u32)
    ensures
        final(out)@ == old(out)@ + digits(n as nat),
    decreases n,
{
    if n >= 10 {
        push_digits(out, n / 10);
    }
    let d: u8 = (n % 10) as u8;
    out.push(48 + d);
    proof {
        if n < 10 {
            assert(digits(n as nat) == seq![(48 + n) as u8]);
        }
    }
}

/// One report as the encoding spells it: SGR always; the default encoding
/// only while every field fits a byte once offset, with a release spelt as
/// button 3; nothing for UTF-8.
pub open spec fn report_bytes(encoding: MouseEncoding, button: u32, col: u32, row: u32, press: bool) -> Option<Seq<u8>> {
    match encoding {
        MouseEncoding::Sgr => Some(seq![0x1bu8, 0x5bu8, 0x3cu8] + digits(button as nat) + seq![0x3bu8] + digits(col as nat)
            + seq![0x3bu8] + digits(row as nat) + seq![if press { 0x4du8 } else { 0x6du8 }]),
        MouseEncoding::Default => {
            let b: int = if press { button as int } else { 3 };
            if b + 32 <= 255 && col + 32 <= 255 && row + 32 <= 255 {
                Some(seq![0x1bu8, 0x5bu8, 0x4du8, (b + 32) as u8, (col + 32) as u8, (row + 32) as u8])
            } else {
                None
            }
        },
        MouseEncoding::Utf8 => None,
    }
}

/// One mouse report, in the encoding the program inside the pane asked for.
/// `button` is xterm's Cb before the offset: 0 for the left button, 32 for a
/// move with it held, 64 and 65 for the wheel.
pub fn mouse_report(encoding: MouseEncoding, button: u32, col: u32, row: u32, press: bool) -> (r: Option<Vec<u8>>)
    requires
        encoding == MouseEncoding::Default ==> (!press || button + 32 <= u32::MAX) && col + 32 <= u32::MAX && row + 32 <= u32::MAX,
    ensures
        match report_bytes(encoding, button, col, row, press) {
            Some(b) => r matches Some(v) && v@ == b,
            None => r is None,
        },
{
    match encoding {
        MouseEncoding::Sgr => {
            let mut v: Vec<u8> = Vec::new();
            v.push(0x1b);
            v.push(0x5b);
            v.push(0x3c);
            push_digits(&mut v, button);
            v.push(0x3b);
            push_digits(&mut v, col);
            v.push(0x3b);
            push_digits(&mut v, row);
            v.push(if press { 0x4d } else { 0x6d });
            assert(v@ =~= seq![0x1bu8, 0x5bu8, 0x3cu8] + digits(button as nat) + seq![0x3bu8] + digits(col as nat)
                + seq![0x3bu8] + digits(row as nat) + seq![if press { 0x4du8 } else { 0x6du8 }]);
            Some(v)
        },
        MouseEncoding::Default => {
            let b: u32 = if press { button } else { 3 };
            if b > 223 || col > 223 || row > 223 {
                return None;
            }
            let mut v: Vec<u8> = Vec::new();
            v.push(0x1b);
            v.push(0x5b);
            v.push(0x4d);
            v.push((b + 32) as u8);
            v.push((col + 32) as u8);
            v.push((row + 32) as u8);
            assert(v@ =~= seq![0x1bu8, 0x5bu8, 0x4du8, (b + 32) as u8, (col + 32) as u8, (row + 32) as u8]);
            Some(v)
        },
        MouseEncoding::Utf8 => None,
    }
}

/// A grid cell, 1-based as a pty counts them, of a screen point inside a
/// painted rect whose top edge shows grid row `top`.
pub fn pty_cell(x: u16, y: u16, left: u16, upper: u16, top: u16) -> (r: (u32, u32))
    requires
        left <= x,
        upper <= y,
    ensures
        r.0 == x - left + 1,
        r.1 == y - upper + top + 1,
{
    ((x - left) as u32 + 1, (y - upper) as u32 + top as u32 + 1)
}

/// What is known of a session row when deciding whether its agent is gone
/// and should be launched again.
pub struct AgentCheck {
    pub id: String,
    /// The session is attached, or an attach is in flight.
    pub busy: bool,
    /// The session was parked on purpose: its missing pane was asked for.
    pub stopped: bool,
    /// Its backend has been listed since the row appeared.
    pub surveyed: bool,
    /// The pane the row names, if any.
    pub pane: Option<String>,
    /// The latest listing places that pane in the session's own window.
    pub placed: bool,
    /// The latest listing positively says the session's window is absent.
    pub absent: bool,
}

/// Whether a row's agent is missing and may be launched again. A parked
/// session is not repaired; a listing older than the row cannot speak for
/// it; a row naming a live pane is failing to attach, not missing its agent
/// — unless the listing does not place that pane in its window, the phantom
/// a restarted server leaves; and only a listing that says the window is
/// absent may relaunch, since an ambiguous name resolves to nothing.
pub open spec fn agent_missing(c: AgentCheck) -> bool {
    &&& !c.busy
    &&& !c.stopped
    &&& c.surveyed
    &&& match c.pane {
        Some(p) => p@.len() == 0 || !c.placed,
        None => true,
    }
    &&& c.absent
}

/// The ids of the rows whose agents are missing, in row order.
pub open spec fn missing_ids(rows: Seq<AgentCheck>) -> Seq<Seq<char>>
    decreases rows.len(),
{
    if rows.len() == 0 {
        Seq::empty()
    } else if agent_missing(rows.last()) {
        missing_ids(rows.drop_last()).push(rows.last().id@)
    } else {
        missing_ids(rows.drop_last())
    }
}

/// The sessions whose agents are missing and may be launched again.
pub fn missing_agents(rows: &Vec<AgentCheck>) -> (r: Vec<String>)
    ensures
        r@.map_values(|s: String| s@) == missing_ids(rows@),
{
    let mut out: Vec<String> = Vec::new();
    let mut i: usize = 0;
    assert(rows@.take(0) =~= Seq::<AgentCheck>::empty());
    while i < rows.len()
        invariant
            i <= rows@.len(),
            out@.map_values(|s: String| s@) == missing_ids(rows@.take(i as int)),
        decreases rows.len() - i,
    {
        let c = &rows[i];
        proof {
            assert(rows@.take(i + 1).drop_last() =~= rows@.take(i as int));
            assert(rows@.take(i + 1).last() == *c);
        }
        let pane_ok = match &c.pane {
            Some(p) => p.as_str().is_empty() || !c.placed,
            None => true,
        };
        if !c.busy && !c.stopped && c.surveyed && pane_ok && c.absent {
            let ghost before = out@.map_values(|s: String| s@);
            out.push(c.id.clone());
            assert(out@.map_values(|s: String| s@) =~= before.push(c.id@));
        }
        i += 1;
    }
    assert(rows@.take(i as int) =~= rows@);
    out
}

/// A session's companion shell as its pane stands.
pub enum ShellPane {
    /// No shell pane.
    Absent,
    /// A shell pane that is running.
    Running,
    /// A shell pane whose program ended, by its pane id.
    Exited(String),
}

/// Whether to ask for a replacement shell, and what is remembered as asked
/// for after: a running shell asks for nothing and forgets what was asked,
/// so a later end is asked about again; a missing or ended one is asked for
/// once per pane it was (the empty id for none).
pub open spec fn shell_want(shell: ShellPane, asked: Option<Seq<char>>) -> (bool, Option<Seq<char>>) {
    let current = match shell {
        ShellPane::Running => None,
        ShellPane::Exited(id) => Some(id@),
        ShellPane::Absent => Some(Seq::<char>::empty()),
    };
    match current {
        None => (false, None),
        Some(c) => if asked == Some(c) { (false, asked) } else { (true, Some(c)) },
    }
}

/// Decide whether a session wants a replacement shell, given what was last
/// asked for it.
pub fn want_a_live_shell(shell: &ShellPane, asked: &mut Option<String>) -> (want: bool)
    ensures
        (want, crate::snapshot::opt_string(*final(asked))) == shell_want(*shell, crate::snapshot::opt_string(*old(asked))),
{
    let current = match shell {
        ShellPane::Running => {
            *asked = None;
            return false;
        },
        ShellPane::Exited(id) => id.clone(),
        ShellPane::Absent => String::new(),
    };
    let same = match &*asked {
        Some(a) => same_text(a.as_str(), current.as_str()),
        None => false,
    };
    if same {
        return false;
    }
    *asked = Some(current);
    true
}

/// The grid cell, 1-based as a pty counts them, of a press or drag at a
/// screen point, held to the painted rect — from `(left, upper)`, `width` by
/// `height`, its top edge showing grid row `top` — so a drag that leaves the
/// pane lands on its edge.
pub fn button_cell(x: u16, y: u16, left: u16, upper: u16, width: u16, height: u16, top: u16) -> (r: (u32, u32))
    requires
        width >= 1,
        height >= 1,
        left + width - 1 <= u16::MAX,
        upper + height - 1 <= u16::MAX,
    ensures
        r.0 == (if x < left { left as int } else if x > left + width - 1 { left + width - 1 } else { x as int }) - left + 1,
        r.1 == (if y < upper { upper as int } else if y > upper + height - 1 { upper + height - 1 } else { y as int }) - upper + top + 1,
{
    let right = left + (width - 1);
    let bottom = upper + (height - 1);
    let cx = if x < left { left } else if x > right { right } else { x };
    let cy = if y < upper { upper } else if y > bottom { bottom } else { y };
    ((cx - left) as u32 + 1, (cy - upper) as u32 + top as u32 + 1)
}

/// Whether a session pane's grid is dropped: only when a limit is set, the
/// grid is held here and can be given back, the pane was not painted in the
/// last frame, and it was never shown or was last shown at least `keep_ms`
/// ago. Frames are drawn on demand, so a pane on screen and quiet can go a
/// long time between paints; its rect is what says it is still there.
pub fn should_evict(keep_ms: Option<u64>, resident: bool, on_screen: bool, shown_ago_ms: Option<u64>) -> (r: bool)
    ensures
        r == (keep_ms matches Some(keep) && resident && !on_screen && !(shown_ago_ms matches Some(ago) && ago < keep)),
{
    match keep_ms {
        None => false,
        Some(keep) => {
            if !resident || on_screen {
                return false;
            }
            match shown_ago_ms {
                Some(ago) => ago >= keep,
                None => true,
            }
        },
    }
}

/// `a + b`, wrapping at the top of the range.
pub open spec fn wrap_add(a: u64, b: u64) -> u64 {
    if a + b > u64::MAX { (a + b - 0x1_0000_0000_0000_0000) as u64 } else { (a + b) as u64 }
}

/// The wrapping sum of the stamps of sessions — each the agent's and, when
/// it has one, its shell's — then of programs.
pub open spec fn stamp_sum(sessions: Seq<(u64, Option<u64>)>, programs: Seq<u64>) -> u64
    decreases sessions.len() + programs.len(),
{
    if programs.len() > 0 {
        wrap_add(stamp_sum(sessions, programs.drop_last()), programs.last())
    } else if sessions.len() > 0 {
        let (agent, shell) = sessions.last();
        wrap_add(wrap_add(stamp_sum(sessions.drop_last(), programs), agent), match shell { Some(s) => s, None => 0 })
    } else {
        0
    }
}

/// A cheap signature of every pane's output so far: the loop's signal to
/// repaint, moving whenever any agent, shell or program pane printed.
pub fn output_generation(sessions: &Vec<(u64, Option<u64>)>, programs: &Vec<u64>) -> (r: u64)
    ensures
        r == stamp_sum(sessions@, programs@),
{
    let mut acc: u64 = 0;
    let mut i: usize = 0;
    assert(sessions@.take(0) =~= Seq::<(u64, Option<u64>)>::empty());
    assert(programs@.take(0) =~= Seq::<u64>::empty());
    while i < sessions.len()
        invariant
            i <= sessions@.len(),
            acc == stamp_sum(sessions@.take(i as int), programs@.take(0)),
        decreases sessions.len() - i,
    {
        let (agent, shell) = sessions[i];
        proof {
            assert(sessions@.take(i + 1).drop_last() =~= sessions@.take(i as int));
            assert(sessions@.take(i + 1).last() == sessions@[i as int]);
        }
        let shell_stamp = match shell {
            Some(s) => s,
            None => 0,
        };
        acc = acc.wrapping_add(agent).wrapping_add(shell_stamp);
        i += 1;
    }
    assert(sessions@.take(i as int) =~= sessions@);
    let mut k: usize = 0;
    while k < programs.len()
        invariant
            k <= programs@.len(),
            acc == stamp_sum(sessions@, programs@.take(k as int)),
        decreases programs.len() - k,
    {
        proof {
            assert(programs@.take(k + 1).drop_last() =~= programs@.take(k as int));
        }
        acc = acc.wrapping_add(programs[k]);
        k += 1;
    }
    assert(programs@.take(k as int) =~= programs@);
    acc
}

/// `s` without the white space at its end.
pub open spec fn trim_end(s: Seq<char>) -> Seq<char>
    decreases s.len(),
{
    if s.len() > 0 && crate::text::unicode_whitespace(s.last()) {
        trim_end(s.drop_last())
    } else {
        s
    }
}

/// `s` without the white space at its start.
pub open spec fn trim_start(s: Seq<char>) -> Seq<char>
    decreases s.len(),
{
    if s.len() > 0 && crate::text::unicode_whitespace(s[0]) {
        trim_start(s.drop_first())
    } else {
        s
    }
}

/// `s` without white space at either end, as `str::trim` leaves it.
pub open spec fn trimmed(s: Seq<char>) -> Seq<char> {
    trim_end(trim_start(s))
}

/// `str::trim`: `s` without white space at either end.
pub fn trim(s: &str) -> (r: String)
    ensures
        r@ == trimmed(s@),
{
    let chars = to_chars(s);
    let mut a: usize = 0;
    assert(chars@.skip(0) =~= s@);
    while a < chars.len() && crate::text::is_whitespace(chars[a])
        invariant
            chars@ == s@,
            a <= chars@.len(),
            trim_start(chars@.skip(a as int)) == trim_start(s@),
        decreases chars.len() - a,
    {
        assert(chars@.skip(a as int).drop_first() =~= chars@.skip(a + 1));
        a += 1;
    }
    assert(trim_start(chars@.skip(a as int)) == chars@.skip(a as int));
    let mut n: usize = chars.len();
    assert(chars@.subrange(a as int, n as int) =~= chars@.skip(a as int));
    while n > a && crate::text::is_whitespace(chars[n - 1])
        invariant
            chars@ == s@,
            a <= n <= chars@.len(),
            trim_end(chars@.subrange(a as int, n as int)) == trimmed(s@),
        decreases n,
    {
        assert(chars@.subrange(a as int, n as int).drop_last() =~= chars@.subrange(a as int, n - 1));
        n -= 1;
    }
    assert(trim_end(chars@.subrange(a as int, n as int)) == chars@.subrange(a as int, n as int));
    let r = string_of(chars.as_slice(), a, n);
    assert(r@ =~= chars@.subrange(a as int, n as int));
    r
}

/// A screen's rows as one text: each row with its trailing blanks trimmed,
/// and a line ending after every row.
pub open spec fn shown_text(rows: Seq<Seq<char>>) -> Seq<char>
    decreases rows.len(),
{
    if rows.len() == 0 {
        Seq::empty()
    } else {
        shown_text(rows.drop_last()) + trim_end(rows.last()) + seq!['\n']
    }
}

fn push_trimmed(out: &mut String, row: &str)
    ensures
        final(out)@ == old(out)@ + trim_end(row@),
{
    let chars = to_chars(row);
    let mut n: usize = chars.len();
    assert(chars@.take(n as int) =~= row@);
    while n > 0 && crate::text::is_whitespace(chars[n - 1])
        invariant
            chars@ == row@,
            n <= chars@.len(),
            trim_end(chars@.take(n as int)) == trim_end(row@),
        decreases n,
    {
        assert(chars@.take(n as int).drop_last() =~= chars@.take(n - 1));
        n -= 1;
    }
    assert(trim_end(chars@.take(n as int)) == chars@.take(n as int));
    let kept = string_of(chars.as_slice(), 0, n);
    assert(kept@ =~= chars@.take(n as int));
    push_str(out, kept.as_str());
}

/// The text a session's pane shows, row by row, or nothing for a pane off
/// screen long enough that its grid was dropped: "nothing to copy" is the
/// honest answer, not two blank rows.
pub fn visible_text(resident: bool, rows: &Vec<String>) -> (r: Option<String>)
    ensures
        match r {
            Some(t) => resident && t@ == shown_text(rows@.map_values(|s: String| s@)),
            None => !resident,
        },
{
    if !resident {
        return None;
    }
    let ghost rv = rows@.map_values(|s: String| s@);
    let mut out = String::new();
    let mut i: usize = 0;
    assert(rv.take(0) =~= Seq::<Seq<char>>::empty());
    while i < rows.len()
        invariant
            i <= rows@.len(),
            rv == rows@.map_values(|s: String| s@),
            out@ == shown_text(rv.take(i as int)),
        decreases rows.len() - i,
    {
        proof {
            assert(rv.take(i + 1).drop_last() =~= rv.take(i as int));
            assert(rv.take(i + 1).last() == rows@[i as int]@);
        }
        push_trimmed(&mut out, rows[i].as_str());
        crate::text::push_char(&mut out, '\n');
        i += 1;
    }
    assert(rv.take(i as int) =~= rv);
    Some(out)
}

/// Splitting text into lines, one character at a time: the lines finished,
/// and the one being read. A line ending is `\n`, or `\r\n`.
pub open spec fn line_scan(s: Seq<char>) -> (Seq<Seq<char>>, Seq<char>)
    decreases s.len(),
{
    if s.len() == 0 {
        (Seq::empty(), Seq::empty())
    } else {
        let (done, cur) = line_scan(s.drop_last());
        if s.last() == '\n' {
            (done.push(if cur.len() > 0 && cur.last() == '\r' { cur.drop_last() } else { cur }), Seq::empty())
        } else {
            (done, cur.push(s.last()))
        }
    }
}

/// The lines of a text, as `str::lines` reads them: the final line ending is
/// optional, and a text that ends with one has no empty last line.
pub open spec fn lines_of(s: Seq<char>) -> Seq<Seq<char>> {
    let (done, cur) = line_scan(s);
    if cur.len() > 0 { done.push(cur) } else { done }
}

/// How many lines of a screen a plugin is handed, at most.
pub const CONTENT_LINE_CAP: usize = 500;

/// The last `cap` lines of `text` (all of them when there are fewer), joined
/// by line endings.
pub open spec fn last_lines(text: Seq<char>, cap: int) -> Seq<char> {
    let lines = lines_of(text);
    crate::text::join_with(if lines.len() > cap { lines.skip(lines.len() - cap) } else { lines }, "\n"@)
}

/// The lines of a text, as `str::lines` reads them.
pub fn split_lines(text: &str) -> (r: Vec<String>)
    ensures
        r@.map_values(|s: String| s@) == lines_of(text@),
{
    let chars = to_chars(text);
    let mut done: Vec<String> = Vec::new();
    let mut cur: Vec<char> = Vec::new();
    let mut i: usize = 0;
    assert(chars@.take(0) =~= Seq::<char>::empty());
    while i < chars.len()
        invariant
            chars@ == text@,
            i <= chars@.len(),
            (done@.map_values(|s: String| s@), cur@) == line_scan(chars@.take(i as int)),
        decreases chars.len() - i,
    {
        proof {
            assert(chars@.take(i + 1).drop_last() =~= chars@.take(i as int));
            assert(chars@.take(i + 1).last() == chars@[i as int]);
        }
        let c = chars[i];
        if c == '\n' {
            let n = if cur.len() > 0 && cur[cur.len() - 1] == '\r' { cur.len() - 1 } else { cur.len() };
            let line = string_of(cur.as_slice(), 0, n);
            let ghost before = done@.map_values(|s: String| s@);
            proof {
                if cur@.len() > 0 && cur@.last() == '\r' {
                    assert(line@ =~= cur@.drop_last());
                } else {
                    assert(line@ =~= cur@);
                }
            }
            done.push(line);
            assert(done@.map_values(|s: String| s@) =~= before.push(line@));
            cur = Vec::new();
            assert(cur@ =~= Seq::<char>::empty());
        } else {
            cur.push(c);
        }
        i += 1;
    }
    assert(chars@.take(i as int) =~= text@);
    if cur.len() > 0 {
        let line = string_of(cur.as_slice(), 0, cur.len());
        let ghost before = done@.map_values(|s: String| s@);
        assert(line@ =~= cur@);
        done.push(line);
        assert(done@.map_values(|s: String| s@) =~= before.push(cur@));
    }
    done
}

/// A screen's text as a plugin is handed it: its last
/// [`CONTENT_LINE_CAP`] lines.
pub fn screen_text(text: &str) -> (r: String)
    ensures
        r@ == last_lines(text@, CONTENT_LINE_CAP as int),
{
    let done = split_lines(text);
    let ghost lines = done@.map_values(|s: String| s@);
    let from: usize = if done.len() > CONTENT_LINE_CAP { done.len() - CONTENT_LINE_CAP } else { 0 };
    let ghost kept = lines.skip(from as int);
    assert(kept == (if lines.len() > CONTENT_LINE_CAP { lines.skip(lines.len() - CONTENT_LINE_CAP) } else { lines })) by {
        if lines.len() <= CONTENT_LINE_CAP {
            assert(lines.skip(0) =~= lines);
        }
    }
    let mut out = String::new();
    let mut k: usize = from;
    assert(kept.take(0) =~= Seq::<Seq<char>>::empty());
    while k < done.len()
        invariant
            from <= k <= done@.len(),
            lines == done@.map_values(|s: String| s@),
            kept == lines.skip(from as int),
            out@ == crate::text::join_with(kept.take(k - from), "\n"@),
        decreases done.len() - k,
    {
        proof {
            reveal_strlit("\n");
            crate::perf::lemma_join_push(kept.take(k - from), "\n"@, kept[k - from]);
            assert(kept.take(k - from + 1) =~= kept.take(k - from).push(kept[k - from]));
            assert(kept[k - from] == done@[k as int]@);
        }
        if k > from {
            push_str(&mut out, "\n");
        }
        push_str(&mut out, done[k].as_str());
        k += 1;
    }
    assert(kept.take(k - from) =~= kept);
    out
}

/// A session's shell surface reads back as that session's shell: the one
/// spelling is written by `shell_surface` and read by `split_surface`.
pub proof fn lemma_shell_surface_round_trip(session: Seq<char>)
    ensures
        surface_parts(session + shell_suffix()) == (session, true),
{
    let s = session + shell_suffix();
    assert(s.subrange(session.len() as int, s.len() as int) =~= shell_suffix());
    assert(s.take(session.len() as int) =~= session);
}

} // verus!
