//! The read side: an in-memory picture of the session engine that plugins
//! read from.
//!
//! A plugin renders on the UI thread many times a second, so every read is
//! served from a snapshot and never touches the database, git or a host. The
//! rows are plain owned values; what is derived from the engine's raw state —
//! a session's status, its host, the repositories it spans — is derived here.
use vstd::prelude::*;
use crate::text::{to_chars, same_text, starts_with, string_of};
use crate::keyed::{lookup, put, first_key, lemma_first_key, lemma_no_key};
use crate::results::{text_lt, text_less};

verus! {

/// A session's git working tree, when it has been computed.
///
/// `None` on a row means *not computed yet*, which is deliberately distinct
/// from a clean tree.
#[derive(Debug, Clone, Copy, PartialEq, Eq, Structural)]
pub struct GitState {
    pub files_changed: usize,
    pub insertions: usize,
    pub deletions: usize,
    pub untracked: usize,
    pub dirty: bool,
    pub ahead: usize,
    pub behind: usize,
}

/// One session, flattened to what a plugin needs to draw it. Paths are held
/// as their text.
#[derive(Debug, Clone, PartialEq)]
pub struct SessionRow {
    pub id: String,
    pub name: String,
    pub agent: String,
    /// `working` / `blocked` / `done` / `idle` — derived, not raw.
    pub status: String,
    pub cwd: Option<String>,
    pub repo: Option<String>,
    /// Every repository the session spans, in member order.
    pub repos: Vec<String>,
    /// The directories those repositories are checked out in, in the same order.
    pub member_dirs: Vec<String>,
    pub branch: Option<String>,
    /// The branch this session's work is measured against.
    pub base_branch: Option<String>,
    pub backend: String,
    /// Backend pane identifier (a tmux `%N`), once the session has a pane.
    pub backend_id: Option<String>,
    /// Bare host name for a remote session; `None` when local.
    pub remote_host: Option<String>,
    /// The agent's own session id.
    pub agent_session_id: Option<String>,
    pub parent_id: Option<String>,
    pub display_order: Option<i64>,
    pub worktree_count: usize,
    /// Working-tree state, once it has been computed off the render path.
    pub git: Option<GitState>,
    /// The pane id of this session's companion shell, if it had one.
    pub shell_backend_id: Option<String>,
    /// The raw persisted hook state, before it is interpreted.
    pub hook_state: Option<String>,
}

/// A session that was deleted but not purged.
#[derive(Debug, Clone, PartialEq)]
pub struct DeletedRow {
    pub id: String,
    pub name: String,
    /// The worktree directory was removed as well.
    pub partial: bool,
}

/// A task, flattened for rendering.
#[derive(Debug, Clone, PartialEq)]
pub struct TaskRow {
    pub id: i64,
    pub title: String,
    pub description: Option<String>,
    /// `todo` / `in_progress` / `done`.
    pub status: String,
    /// `local`, or the tracker an imported task came from.
    pub source: String,
    pub external_url: Option<String>,
    /// Epoch seconds.
    pub created_at: u64,
    pub updated_at: u64,
}

/// One recorded run of an automation.
#[derive(Debug, Clone, PartialEq, Eq)]
pub struct RunRow {
    pub started_at: i64,
    pub status: String,
    pub detail: String,
}

/// An automation, flattened for rendering.
#[derive(Debug, Clone, PartialEq)]
pub struct AutomationRow {
    pub id: i64,
    pub name: String,
    pub schedule: String,
    pub action: String,
    pub enabled: bool,
    pub last_outcome: Option<String>,
    pub last_detail: Option<String>,
    /// Recent runs, newest first.
    pub runs: Vec<RunRow>,
}

/// Something a session can be created against.
#[derive(Debug, Clone, PartialEq)]
pub struct RepoRow {
    pub path: String,
    pub name: String,
}

/// An agent a session can be launched with.
#[derive(Debug, Clone, PartialEq)]
pub struct AgentRow {
    pub name: String,
    pub command: String,
}

/// A machine a session can be created on.
#[derive(Debug, Clone, PartialEq)]
pub struct HostRow {
    pub name: String,
    pub detail: String,
    pub backend: String,
}

/// An immutable picture of the engine at one instant.
#[derive(Debug, Clone, Default)]
pub struct Snapshot {
    pub sessions: Vec<SessionRow>,
    /// Deleted-but-restorable sessions.
    pub deleted: Vec<DeletedRow>,
    /// Repositories a new session can be created against.
    pub repos: Vec<RepoRow>,
    pub agents: Vec<AgentRow>,
    /// The registry's default agent.
    pub agent_default: String,
    /// Configured and discovered hosts; empty means local only.
    pub hosts: Vec<HostRow>,
    pub tasks: Vec<TaskRow>,
    pub automations: Vec<AutomationRow>,
    /// Epoch milliseconds this snapshot represents.
    pub taken_at_ms: i64,
    /// Set when the last refresh failed; the previous rows are retained.
    pub error: Option<String>,
}

/// The first row at or after `i` whose id is `id`.
pub open spec fn row_from(rows: Seq<SessionRow>, id: Seq<char>, i: int) -> Option<int>
    decreases rows.len() - i,
{
    if i < 0 || i >= rows.len() {
        None
    } else if rows[i].id@ == id {
        Some(i)
    } else {
        row_from(rows, id, i + 1)
    }
}

impl Snapshot {
    /// The session called `id`, the first one if two share it.
    pub fn session(&self, id: &str) -> (r: Option<&SessionRow>)
        ensures
            match row_from(self.sessions@, id@, 0) {
                Some(i) => r == Some(&self.sessions@[i]),
                None => r is None,
            },
    {
        let mut i: usize = 0;
        while i < self.sessions.len()
            invariant
                i <= self.sessions@.len(),
                row_from(self.sessions@, id@, i as int) == row_from(self.sessions@, id@, 0),
            decreases self.sessions.len() - i,
        {
            if same_text(self.sessions[i].id.as_str(), id) {
                return Some(&self.sessions[i]);
            }
            i += 1;
        }
        None
    }
}

/// How long a `working` state may stand without an update before it is
/// treated as finished.
pub const WORKING_STALE_MS: i64 = 10_000;

/// The status drawn for a persisted hook state, at `now`.
///
/// Agents fire no hook when a turn is interrupted, so a `working` state that
/// has not moved for a while reads as idle. A `done` reads as idle once the
/// user acknowledged it, by moving off it at or after the state changed.
pub open spec fn status_at(state: Option<Seq<char>>, state_at: Option<i64>, seen_at: Option<i64>, now: i64) -> Seq<char> {
    if state == Some("working"@) {
        if state_at matches Some(at) && now - at > WORKING_STALE_MS {
            "idle"@
        } else {
            "working"@
        }
    } else if state == Some("blocked"@) {
        "blocked"@
    } else if state == Some("done"@) {
        if seen_at matches Some(seen) && state_at matches Some(at) && seen >= at {
            "idle"@
        } else {
            "done"@
        }
    } else {
        "idle"@
    }
}

/// An optional text, by its characters.
pub open spec fn opt_text(s: Option<&str>) -> Option<Seq<char>> {
    match s {
        Some(t) => Some(t@),
        None => None,
    }
}

/// `SystemTime::now().duration_since(UNIX_EPOCH)` in whole milliseconds, or
/// `None` for a clock set before the epoch. What the clock reads is not
/// stated: it is the machine's.
#[verifier::external_body]
fn since_epoch_ms() -> (r: Option<u128>) {
    match std::time::SystemTime::now().duration_since(std::time::UNIX_EPOCH) {
        Ok(since) => Some(since.as_millis()),
        Err(_) => None,
    }
}

/// A clock reading as epoch milliseconds: zero before the epoch, and the
/// count cut to 64 bits as a cast cuts it.
fn epoch_ms(reading: Option<u128>) -> (r: i64)
    ensures
        r == match reading {
            Some(ms) => ms as i64,
            None => 0,
        },
{
    match reading {
        Some(ms) => #[verifier::truncate] (ms as i64),
        None => 0,
    }
}

/// Milliseconds since the Unix epoch, by the system clock.
fn now_ms() -> i64 {
    epoch_ms(since_epoch_ms())
}

/// Map a persisted hook state onto a status name, at a given instant.
pub fn derive_status_at(state: Option<&str>, state_at: Option<i64>, seen_at: Option<i64>, now: i64) -> (r: String)
    ensures
        r@ == status_at(
            match state {
                Some(s) => Some(s@),
                None => None,
            },
            state_at,
            seen_at,
            now,
        ),
{
    proof {
        reveal_strlit("working");
        reveal_strlit("blocked");
        reveal_strlit("done");
    }
    let s = match state {
        Some(s) => Some(to_chars(s)),
        None => None,
    };
    let is = |want: &str, s: &Option<Vec<char>>| -> (b: bool)
        ensures
            b == (s matches Some(v) && v@ == want@),
    {
        match s {
            Some(v) => {
                let w = to_chars(want);
                if v.len() != w.len() {
                    assert(v@.len() != want@.len());
                    false
                } else {
                    let mut i: usize = 0;
                    let mut same = true;
                    while i < v.len()
                        invariant
                            v.len() == w.len(),
                            w@ == want@,
                            i <= v.len(),
                            same == (forall|k: int| 0 <= k < i ==> v@[k] == w@[k]),
                        decreases v.len() - i,
                    {
                        if v[i] != w[i] {
                            same = false;
                        }
                        i += 1;
                    }
                    if same {
                        assert(v@ =~= w@);
                    }
                    same
                }
            },
            None => false,
        }
    };
    if is("working", &s) {
        let stale = match state_at {
            Some(at) => (now as i128) - (at as i128) > WORKING_STALE_MS as i128,
            None => false,
        };
        if stale {
            String::from_str("idle")
        } else {
            String::from_str("working")
        }
    } else if is("blocked", &s) {
        String::from_str("blocked")
    } else if is("done", &s) {
        let acknowledged = match (seen_at, state_at) {
            (Some(seen), Some(at)) => seen >= at,
            _ => false,
        };
        if acknowledged {
            String::from_str("idle")
        } else {
            String::from_str("done")
        }
    } else {
        String::from_str("idle")
    }
}

/// Map the persisted hook state onto a status name, as of now.
///
/// Mirrors v1's derivation, including the stuck-`working` fallback. The
/// stored row is not touched: this is a read-time decision.
pub fn derive_status(state: Option<&str>, state_at: Option<i64>, seen_at: Option<i64>) -> (r: String)
    ensures
        exists|now: i64|
            r@ == #[trigger] status_at(
                opt_text(state),
                state_at,
                seen_at,
                now,
            ),
{
    let now = now_ms();
    derive_status_at(state, state_at, seen_at, now)
}

/// `blocked` is never time-gated, an acknowledged `done` is idle, and any
/// state that is not a known one is idle.
pub proof fn lemma_status_rules(state_at: Option<i64>, seen_at: Option<i64>, now: i64, other: Seq<char>)
    requires
        other != "working"@,
        other != "blocked"@,
        other != "done"@,
    ensures
        status_at(Some("blocked"@), state_at, seen_at, now) == "blocked"@,
        status_at(None, state_at, seen_at, now) == "idle"@,
        status_at(Some(other), state_at, seen_at, now) == "idle"@,
        (seen_at matches Some(s) && state_at matches Some(a) && s >= a) ==> status_at(Some("done"@), state_at, seen_at, now) == "idle"@,
        (state_at matches Some(a) && now - a <= WORKING_STALE_MS) ==> status_at(Some("working"@), state_at, seen_at, now) == "working"@,
{
    reveal_strlit("working");
    reveal_strlit("blocked");
    reveal_strlit("done");
    assert("blocked"@[0] != "working"@[0]);
}

/// A backend whose panes live on another machine.
pub open spec fn remote_backend(backend: Seq<char>) -> bool {
    (backend.len() >= 4 && backend.subrange(0, 4) == "ssh:"@) || (backend.len() >= 4 && backend.subrange(0, 4) == "wsl:"@)
}

/// Whether `backend` names a remote machine — an ssh host or a WSL distro.
pub fn is_remote_backend(backend: &str) -> (r: bool)
    ensures
        r == remote_backend(backend@),
{
    proof {
        reveal_strlit("ssh:");
        reveal_strlit("wsl:");
    }
    starts_with(backend, "ssh:") || starts_with(backend, "wsl:")
}

/// The status to draw once what the terminal store knows is folded in: a
/// remote session whose pane could not be attached is `unreachable`.
pub open spec fn reachability(status: Seq<char>, backend: Seq<char>, attach_failed: bool) -> Seq<char> {
    if attach_failed && remote_backend(backend) {
        "unreachable"@
    } else {
        status
    }
}

/// Fold what the terminal store knows into a session's status.
///
/// Local sessions are never unreachable: this is their machine, and a missing
/// pane there means the agent has not been launched.
pub fn with_reachability(status: &str, backend: &str, attach_error: Option<&str>) -> (r: String)
    ensures
        r@ == reachability(status@, backend@, attach_error is Some),
{
    if attach_error.is_some() && is_remote_backend(backend) {
        return String::from_str("unreachable");
    }
    String::from_str(status)
}

/// A remote session's bare host name.
pub open spec fn host_of(backend: Seq<char>) -> Option<Seq<char>> {
    if remote_backend(backend) {
        Some(backend.subrange(4, backend.len() as int))
    } else {
        None
    }
}

/// A remote session's bare host name, read off its backend name.
pub fn remote_host_of(backend: &str) -> (r: Option<String>)
    ensures
        match r {
            Some(h) => host_of(backend@) == Some(h@),
            None => host_of(backend@) is None,
        },
{
    if is_remote_backend(backend) {
        let chars = to_chars(backend);
        Some(string_of(chars.as_slice(), 4, chars.len()))
    } else {
        None
    }
}

/// The final component of a path, as `Path::file_name` reads it. How a
/// path splits is the build target's: on Windows a backslash separates too
/// and a drive prefix is a component of its own.
pub uninterp spec fn path_leaf(path: Seq<char>) -> Option<Seq<char>>;

/// `Path::file_name`, as text: the last normal component, `None` for a root
/// or a path ending in `..`.
#[verifier::external_body]
pub fn leaf(path: &str) -> (r: Option<String>)
    ensures
        match r {
            Some(name) => path_leaf(path@) == Some(name@),
            None => path_leaf(path@) is None,
        },
{
    match std::path::Path::new(path).file_name() {
        Some(name) => Some(name.to_string_lossy().to_string()),
        None => None,
    }
}

/// One repository of a session's worktrees: where it lives and where it is
/// checked out.
#[derive(Debug, Clone, PartialEq)]
pub struct SharedWorktree {
    pub repo_path: String,
    pub worktree_path: String,
    pub branch: String,
}

/// A member: the repository's name, and the directory it is checked out in.
pub type Member = (Option<String>, String);

pub open spec fn member_view(m: Member) -> (Option<Seq<char>>, Seq<char>) {
    (
        match m.0 {
            Some(n) => Some(n@),
            None => None,
        },
        m.1@,
    )
}

pub open spec fn worktree_member(wt: SharedWorktree) -> (Option<Seq<char>>, Seq<char>) {
    (path_leaf(wt.repo_path@), wt.worktree_path@)
}

/// Whether `dir` is one of the worktrees' checkouts.
pub open spec fn is_checkout(worktrees: Seq<SharedWorktree>, dir: Seq<char>) -> bool {
    exists|k: int| 0 <= k < worktrees.len() && worktrees[k].worktree_path@ == dir
}

/// The attached directories among the first `k` that are not already a
/// worktree, each as a member.
pub open spec fn extra_members(worktrees: Seq<SharedWorktree>, dirs: Seq<String>, k: int) -> Seq<(Option<Seq<char>>, Seq<char>)>
    decreases k,
{
    if k <= 0 {
        seq![]
    } else {
        let before = extra_members(worktrees, dirs, k - 1);
        let dir = dirs[k - 1]@;
        if is_checkout(worktrees, dir) {
            before
        } else {
            before.push((path_leaf(dir), dir))
        }
    }
}

/// Every repository a session spans, in member order: one per worktree (or
/// the cwd when there are none), then each attached directory that is not
/// already a worktree.
pub open spec fn members_spec(cwd: Option<Seq<char>>, worktrees: Seq<SharedWorktree>, dirs: Seq<String>) -> Seq<(Option<Seq<char>>, Seq<char>)> {
    let first = if worktrees.len() == 0 {
        match cwd {
            Some(p) => seq![(path_leaf(p), p)],
            None => seq![],
        }
    } else {
        worktrees.map_values(|wt: SharedWorktree| worktree_member(wt))
    };
    first + extra_members(worktrees, dirs, dirs.len() as int)
}

/// Every repository a session spans, in member order — mirroring v1's
/// `session_member_dirs`.
///
/// The name comes from the repository, the directory from the checkout: for
/// a worktree those differ, and each is wanted by a different caller.
pub fn session_members(cwd: Option<&str>, worktrees: &[SharedWorktree], additional_dirs: &[String]) -> (r: Vec<Member>)
    ensures
        r@.map_values(|m: Member| member_view(m)) == members_spec(
            match cwd {
                Some(p) => Some(p@),
                None => None,
            },
            worktrees@,
            additional_dirs@,
        ),
{
    let ghost cwd_v = match cwd {
        Some(p) => Some(p@),
        None => None,
    };
    let mut members: Vec<Member> = Vec::new();
    if worktrees.len() == 0 {
        if let Some(path) = cwd {
            members.push((leaf(path), String::from_str(path)));
        }
        assert(members@.map_values(|m: Member| member_view(m)) =~= members_spec(cwd_v, worktrees@, additional_dirs@).subrange(0, members@.len() as int));
    } else {
        let mut i: usize = 0;
        while i < worktrees.len()
            invariant
                i <= worktrees@.len(),
                members@.len() == i,
                forall|k: int| 0 <= k < i ==> member_view(#[trigger] members@[k]) == worktree_member(worktrees@[k]),
            decreases worktrees.len() - i,
        {
            let wt = &worktrees[i];
            members.push((leaf(wt.repo_path.as_str()), wt.worktree_path.clone()));
            i += 1;
        }
    }
    let ghost first = members@.map_values(|m: Member| member_view(m));
    assert(first =~= (if worktrees@.len() == 0 {
        match cwd_v {
            Some(p) => seq![(path_leaf(p), p)],
            None => seq![],
        }
    } else {
        worktrees@.map_values(|wt: SharedWorktree| worktree_member(wt))
    }));
    let mut j: usize = 0;
    while j < additional_dirs.len()
        invariant
            j <= additional_dirs@.len(),
            members@.map_values(|m: Member| member_view(m)) == first + extra_members(worktrees@, additional_dirs@, j as int),
        decreases additional_dirs.len() - j,
    {
        let dir = &additional_dirs[j];
        let mut covered = false;
        let mut k: usize = 0;
        while k < worktrees.len()
            invariant
                k <= worktrees@.len(),
                covered == (exists|m: int| 0 <= m < k && worktrees@[m].worktree_path@ == dir@),
            decreases worktrees.len() - k,
        {
            if worktrees[k].worktree_path == *dir {
                covered = true;
            }
            k += 1;
        }
        let ghost before = members@.map_values(|m: Member| member_view(m));
        if !covered {
            members.push((leaf(dir.as_str()), dir.clone()));
            assert(members@.map_values(|m: Member| member_view(m)) =~= before.push((path_leaf(dir@), dir@)));
        }
        j += 1;
    }
    assert(additional_dirs@.len() == j);
    members
}

/// A single-repository session has one member, named for its directory and
/// pointing at it; a worktree member points at its checkout, not at the
/// repository it is named for.
pub proof fn lemma_members_point_at_checkouts(cwd: Seq<char>, worktrees: Seq<SharedWorktree>, dirs: Seq<String>)
    ensures
        worktrees.len() == 0 && dirs.len() == 0 ==> members_spec(Some(cwd), worktrees, dirs) == seq![(path_leaf(cwd), cwd)],
        forall|k: int| 0 <= k < worktrees.len() ==> #[trigger] members_spec(Some(cwd), worktrees, dirs)[k].1 == worktrees[k].worktree_path@,
{
    if worktrees.len() == 0 && dirs.len() == 0 {
        assert(members_spec(Some(cwd), worktrees, dirs) =~= seq![(path_leaf(cwd), cwd)]);
    }
}

/// An optional string, by its characters.
pub open spec fn opt_string(s: Option<String>) -> Option<Seq<char>> {
    match s {
        Some(t) => Some(t@),
        None => None,
    }
}

/// A session's repository label: the worktree's repository's name, else its
/// directory's.
pub open spec fn repo_name_spec(cwd: Option<Seq<char>>, repo_path: Option<Seq<char>>) -> Option<Seq<char>> {
    match repo_path {
        Some(p) => path_leaf(p),
        None => match cwd {
            Some(c) => path_leaf(c),
            None => None,
        },
    }
}

/// Best-effort repo label: the worktree's repo directory name, else the cwd's.
pub fn repo_name(cwd: &Option<String>, repo_path: Option<&String>) -> (r: Option<String>)
    ensures
        opt_string(r) == repo_name_spec(opt_string(*cwd), match repo_path { Some(p) => Some(p@), None => None }),
{
    match repo_path {
        Some(p) => leaf(p.as_str()),
        None => match cwd {
            Some(c) => leaf(c.as_str()),
            None => None,
        },
    }
}

// ── Rebuilding ──────────────────────────────────────────────────────────────

/// How often the snapshot is rebuilt, in milliseconds. A read never waits on
/// this; it only bounds how out of date the answer may be.
pub const REFRESH_INTERVAL_MS: u64 = 400;

/// One session as the database hands it over.
#[derive(Debug, Clone, PartialEq)]
pub struct StoredSession {
    pub id: String,
    pub name: String,
    pub agent: String,
    pub cwd: Option<String>,
    pub worktrees: Vec<SharedWorktree>,
    pub additional_dirs: Vec<String>,
    pub backend_type: String,
    pub backend_id: String,
    pub agent_session_id: Option<String>,
    pub parent_session_id: Option<String>,
    pub display_order: Option<i64>,
    pub shell_backend_id: Option<String>,
}

/// What a session's hooks last reported, as persisted.
#[derive(Debug, Clone, PartialEq)]
pub struct HookState {
    pub state: Option<String>,
    pub state_at: Option<i64>,
    pub seen_at: Option<i64>,
}

/// A session row, as the contracts see it.
pub struct SessionRowView {
    pub id: Seq<char>,
    pub name: Seq<char>,
    pub agent: Seq<char>,
    pub status: Seq<char>,
    pub cwd: Option<Seq<char>>,
    pub repo: Option<Seq<char>>,
    pub repos: Seq<Seq<char>>,
    pub member_dirs: Seq<Seq<char>>,
    pub branch: Option<Seq<char>>,
    pub base_branch: Option<Seq<char>>,
    pub backend: Seq<char>,
    pub backend_id: Option<Seq<char>>,
    pub remote_host: Option<Seq<char>>,
    pub agent_session_id: Option<Seq<char>>,
    pub parent_id: Option<Seq<char>>,
    pub display_order: Option<i64>,
    pub worktree_count: usize,
    pub git: Option<GitState>,
    pub shell_backend_id: Option<Seq<char>>,
    pub hook_state: Option<Seq<char>>,
}

impl View for SessionRow {
    type V = SessionRowView;

    open spec fn view(&self) -> SessionRowView {
        SessionRowView {
            id: self.id@,
            name: self.name@,
            agent: self.agent@,
            status: self.status@,
            cwd: opt_string(self.cwd),
            repo: opt_string(self.repo),
            repos: self.repos@.map_values(|s: String| s@),
            member_dirs: self.member_dirs@.map_values(|s: String| s@),
            branch: opt_string(self.branch),
            base_branch: opt_string(self.base_branch),
            backend: self.backend@,
            backend_id: opt_string(self.backend_id),
            remote_host: opt_string(self.remote_host),
            agent_session_id: opt_string(self.agent_session_id),
            parent_id: opt_string(self.parent_id),
            display_order: self.display_order,
            worktree_count: self.worktree_count,
            git: self.git,
            shell_backend_id: opt_string(self.shell_backend_id),
            hook_state: opt_string(self.hook_state),
        }
    }
}

/// The names among a session's members, in member order.
pub open spec fn member_names(members: Seq<(Option<Seq<char>>, Seq<char>)>) -> Seq<Seq<char>>
    decreases members.len(),
{
    if members.len() == 0 {
        seq![]
    } else {
        let before = member_names(members.drop_last());
        match members.last().0 {
            Some(n) => before.push(n),
            None => before,
        }
    }
}

/// A session's row, from what the database holds of it, what its hooks last
/// reported and the branch its work is measured against, at `now`.
pub open spec fn session_row_spec(st: StoredSession, hook: Option<HookState>, base: Option<Seq<char>>, now: i64) -> SessionRowView {
    let members = members_spec(opt_string(st.cwd), st.worktrees@, st.additional_dirs@);
    SessionRowView {
        id: st.id@,
        name: st.name@,
        agent: st.agent@,
        status: match hook {
            Some(h) => status_at(opt_string(h.state), h.state_at, h.seen_at, now),
            None => status_at(None, None, None, now),
        },
        cwd: opt_string(st.cwd),
        repo: repo_name_spec(opt_string(st.cwd), if st.worktrees@.len() > 0 { Some(st.worktrees@[0].repo_path@) } else { None }),
        repos: member_names(members),
        member_dirs: members.map_values(|m: (Option<Seq<char>>, Seq<char>)| m.1),
        branch: if st.worktrees@.len() > 0 { Some(st.worktrees@[0].branch@) } else { None },
        base_branch: base,
        backend: st.backend_type@,
        backend_id: if st.backend_id@.len() > 0 { Some(st.backend_id@) } else { None },
        remote_host: host_of(st.backend_type@),
        agent_session_id: opt_string(st.agent_session_id),
        parent_id: opt_string(st.parent_session_id),
        display_order: st.display_order,
        worktree_count: st.worktrees@.len() as usize,
        git: None,
        shell_backend_id: opt_string(st.shell_backend_id),
        hook_state: match hook {
            Some(h) => opt_string(h.state),
            None => None,
        },
    }
}

fn clone_opt(o: &Option<String>) -> (r: Option<String>)
    ensures
        opt_string(r) == opt_string(*o),
{
    match o {
        Some(s) => Some(s.clone()),
        None => None,
    }
}

fn opt_str(o: &Option<String>) -> (r: Option<&str>)
    ensures
        opt_text(r) == opt_string(*o),
{
    match o {
        Some(s) => Some(s.as_str()),
        None => None,
    }
}

/// A session's row, from what the database holds of it, what its hooks last
/// reported and its base branch, at `now`.
pub fn session_row(st: &StoredSession, hook: Option<&HookState>, base: Option<&String>, now: i64) -> (r: SessionRow)
    ensures
        r@ == session_row_spec(
            *st,
            match hook { Some(h) => Some(*h), None => None },
            match base { Some(b) => Some(b@), None => None },
            now,
        ),
{
    let status = match hook {
        Some(h) => derive_status_at(opt_str(&h.state), h.state_at, h.seen_at, now),
        None => derive_status_at(None, None, None, now),
    };
    let members = session_members(opt_str(&st.cwd), st.worktrees.as_slice(), st.additional_dirs.as_slice());
    let ghost mv = members@.map_values(|m: Member| member_view(m));
    let mut repos: Vec<String> = Vec::new();
    let mut member_dirs: Vec<String> = Vec::new();
    let mut i: usize = 0;
    assert(mv.take(0) =~= Seq::<(Option<Seq<char>>, Seq<char>)>::empty());
    while i < members.len()
        invariant
            i <= members@.len(),
            mv == members@.map_values(|m: Member| member_view(m)),
            repos@.map_values(|s: String| s@) == member_names(mv.take(i as int)),
            member_dirs@.map_values(|s: String| s@) == mv.take(i as int).map_values(|m: (Option<Seq<char>>, Seq<char>)| m.1),
        decreases members.len() - i,
    {
        assert(mv[i as int] == member_view(members@[i as int]));
        assert(mv.take(i + 1).drop_last() =~= mv.take(i as int));
        assert(mv.take(i + 1).last() == mv[i as int]);
        let ghost names_before = repos@;
        match &members[i].0 {
            Some(n) => {
                repos.push(n.clone());
                assert(repos@.map_values(|s: String| s@) =~= names_before.map_values(|s: String| s@).push(n@));
            },
            None => {},
        }
        let ghost dirs_before = member_dirs@;
        member_dirs.push(members[i].1.clone());
        assert(member_dirs@.map_values(|s: String| s@) =~= dirs_before.map_values(|s: String| s@).push(mv[i as int].1));
        assert(mv.take(i + 1).map_values(|m: (Option<Seq<char>>, Seq<char>)| m.1) =~= mv.take(i as int).map_values(|m: (Option<Seq<char>>, Seq<char>)| m.1).push(mv[i as int].1));
        i += 1;
    }
    assert(mv.take(i as int) =~= mv);
    let first = if st.worktrees.len() > 0 { Some(&st.worktrees[0]) } else { None };
    let repo = repo_name(&st.cwd, match first { Some(w) => Some(&w.repo_path), None => None });
    let branch = match first {
        Some(w) => Some(w.branch.clone()),
        None => None,
    };
    let backend_id = if to_chars(st.backend_id.as_str()).len() > 0 { Some(st.backend_id.clone()) } else { None };
    let hook_state = match hook {
        Some(h) => clone_opt(&h.state),
        None => None,
    };
    SessionRow {
        id: st.id.clone(),
        name: st.name.clone(),
        agent: st.agent.clone(),
        status,
        cwd: clone_opt(&st.cwd),
        repo,
        repos,
        member_dirs,
        branch,
        base_branch: match base {
            Some(b) => Some(b.clone()),
            None => None,
        },
        backend: st.backend_type.clone(),
        backend_id,
        remote_host: remote_host_of(st.backend_type.as_str()),
        agent_session_id: clone_opt(&st.agent_session_id),
        parent_id: clone_opt(&st.parent_session_id),
        display_order: st.display_order,
        worktree_count: st.worktrees.len(),
        git: None,
        shell_backend_id: clone_opt(&st.shell_backend_id),
        hook_state,
    }
}

pub open spec fn hooks_view(hooks: Seq<(String, HookState)>) -> Seq<(Seq<char>, HookState)> {
    hooks.map_values(|e: (String, HookState)| (e.0@, e.1))
}

pub open spec fn bases_view(bases: Seq<(String, String)>) -> Seq<(Seq<char>, Seq<char>)> {
    bases.map_values(|e: (String, String)| (e.0@, e.1@))
}

/// Every stored session as a row, its hook state and base branch looked up
/// by its id, in the order the database listed them.
pub open spec fn rows_spec(sessions: Seq<StoredSession>, hooks: Seq<(String, HookState)>, bases: Seq<(String, String)>, now: i64) -> Seq<SessionRowView> {
    sessions.map_values(|st: StoredSession| session_row_spec(st, lookup(hooks_view(hooks), st.id@), lookup(bases_view(bases), st.id@), now))
}

fn find_hook<'a>(hooks: &'a Vec<(String, HookState)>, id: &String) -> (r: Option<&'a HookState>)
    ensures
        match lookup(hooks_view(hooks@), id@) {
            Some(h) => r == Some(&h),
            None => r is None,
        },
{
    let mut i: usize = 0;
    while i < hooks.len()
        invariant
            i <= hooks@.len(),
            forall|j: int| 0 <= j < i ==> hooks_view(hooks@)[j].0 != id@,
        decreases hooks.len() - i,
    {
        assert(hooks_view(hooks@)[i as int] == (hooks@[i as int].0@, hooks@[i as int].1));
        if hooks[i].0 == *id {
            proof { lemma_first_key(hooks_view(hooks@), id@, i as int, hooks@[i as int].1); }
            return Some(&hooks[i].1);
        }
        i += 1;
    }
    proof {
        if hooks@.len() > 0 {
            lemma_no_key(hooks_view(hooks@), id@, hooks@[0].1);
        } else {
            assert(hooks_view(hooks@).len() == 0);
        }
    }
    None
}

fn find_base<'a>(bases: &'a Vec<(String, String)>, id: &String) -> (r: Option<&'a String>)
    ensures
        match lookup(bases_view(bases@), id@) {
            Some(b) => r matches Some(x) && x@ == b,
            None => r is None,
        },
{
    let mut i: usize = 0;
    while i < bases.len()
        invariant
            i <= bases@.len(),
            forall|j: int| 0 <= j < i ==> bases_view(bases@)[j].0 != id@,
        decreases bases.len() - i,
    {
        assert(bases_view(bases@)[i as int] == (bases@[i as int].0@, bases@[i as int].1@));
        if bases[i].0 == *id {
            proof { lemma_first_key(bases_view(bases@), id@, i as int, Seq::empty()); }
            return Some(&bases[i].1);
        }
        i += 1;
    }
    proof { lemma_no_key(bases_view(bases@), id@, Seq::empty()); }
    None
}

/// Every stored session as a row.
pub fn session_rows(sessions: &Vec<StoredSession>, hooks: &Vec<(String, HookState)>, bases: &Vec<(String, String)>, now: i64) -> (r: Vec<SessionRow>)
    ensures
        r@.map_values(|row: SessionRow| row@) == rows_spec(sessions@, hooks@, bases@, now),
{
    let ghost want = rows_spec(sessions@, hooks@, bases@, now);
    let mut rows: Vec<SessionRow> = Vec::new();
    let mut i: usize = 0;
    while i < sessions.len()
        invariant
            i <= sessions@.len(),
            want == rows_spec(sessions@, hooks@, bases@, now),
            rows@.map_values(|row: SessionRow| row@) == want.take(i as int),
        decreases sessions.len() - i,
    {
        let st = &sessions[i];
        let hook = find_hook(hooks, &st.id);
        let base = find_base(bases, &st.id);
        let ghost before = rows@;
        let row = session_row(st, hook, base, now);
        rows.push(row);
        proof {
            assert(want[i as int] == session_row_spec(sessions@[i as int], lookup(hooks_view(hooks@), sessions@[i as int].id@), lookup(bases_view(bases@), sessions@[i as int].id@), now));
            assert(want.take(i + 1) =~= want.take(i as int).push(want[i as int]));
            assert(rows@.map_values(|row: SessionRow| row@) =~= before.map_values(|row: SessionRow| row@).push(want[i as int]));
        }
        i += 1;
    }
    assert(want.take(i as int) =~= want);
    rows
}

/// The repositories worth offering, before ordering: each directory a
/// session lives in, once, named for its repository or else by its path.
pub open spec fn repo_candidates(rows: Seq<SessionRowView>, k: int) -> Seq<(Seq<char>, Seq<char>)>
    decreases k,
{
    if k <= 0 {
        seq![]
    } else {
        let before = repo_candidates(rows, k - 1);
        match rows[k - 1].cwd {
            None => before,
            Some(p) => if exists|i: int| 0 <= i < before.len() && before[i].1 == p {
                before
            } else {
                before.push((
                    match rows[k - 1].repo {
                        Some(n) => n,
                        None => p,
                    },
                    p,
                ))
            },
        }
    }
}

/// Where a repository goes among ones ordered by name: after every one whose
/// name is not after its own.
pub open spec fn name_slot(s: Seq<(Seq<char>, Seq<char>)>, x: (Seq<char>, Seq<char>)) -> int
    decreases s.len(),
{
    if s.len() == 0 {
        0
    } else if text_lt(x.0, s[0].0) {
        0
    } else {
        1 + name_slot(s.drop_first(), x)
    }
}

/// Repositories ordered by name, equal names keeping their order.
pub open spec fn by_name(s: Seq<(Seq<char>, Seq<char>)>) -> Seq<(Seq<char>, Seq<char>)>
    decreases s.len(),
{
    if s.len() == 0 {
        seq![]
    } else {
        let sorted = by_name(s.drop_last());
        sorted.insert(name_slot(sorted, s.last()), s.last())
    }
}

proof fn lemma_name_slot(s: Seq<(Seq<char>, Seq<char>)>, x: (Seq<char>, Seq<char>))
    ensures
        0 <= name_slot(s, x) <= s.len(),
        forall|i: int| 0 <= i < name_slot(s, x) ==> !text_lt(x.0, #[trigger] s[i].0),
        name_slot(s, x) < s.len() ==> text_lt(x.0, s[name_slot(s, x)].0),
    decreases s.len(),
{
    if s.len() > 0 && !text_lt(x.0, s[0].0) {
        lemma_name_slot(s.drop_first(), x);
        assert forall|i: int| 0 <= i < name_slot(s, x) implies !text_lt(x.0, #[trigger] s[i].0) by {
            if i > 0 {
                assert(s[i] == s.drop_first()[i - 1]);
            }
        }
    }
}

proof fn lemma_by_name_len(s: Seq<(Seq<char>, Seq<char>)>)
    ensures
        by_name(s).len() == s.len(),
    decreases s.len(),
{
    if s.len() > 0 {
        lemma_by_name_len(s.drop_last());
        lemma_name_slot(by_name(s.drop_last()), s.last());
    }
}

pub open spec fn repo_rows_view(v: Seq<RepoRow>) -> Seq<(Seq<char>, Seq<char>)> {
    v.map_values(|r: RepoRow| (r.name@, r.path@))
}

/// Repositories worth offering: the ones sessions already live in, by name.
pub fn offered_repos(rows: &Vec<SessionRow>) -> (r: Vec<RepoRow>)
    ensures
        repo_rows_view(r@) == by_name(repo_candidates(rows@.map_values(|row: SessionRow| row@), rows@.len() as int)),
{
    let ghost rv = rows@.map_values(|row: SessionRow| row@);
    let mut found: Vec<RepoRow> = Vec::new();
    let mut k: usize = 0;
    while k < rows.len()
        invariant
            k <= rows@.len(),
            rv == rows@.map_values(|row: SessionRow| row@),
            repo_rows_view(found@) == repo_candidates(rv, k as int),
        decreases rows.len() - k,
    {
        let row = &rows[k];
        assert(rv[k as int] == row@);
        if let Some(path) = &row.cwd {
            let ghost before = repo_rows_view(found@);
            let mut seen = false;
            let mut j: usize = 0;
            while j < found.len()
                invariant
                    j <= found@.len(),
                    before == repo_rows_view(found@),
                    seen == exists|i: int| 0 <= i < j && before[i].1 == path@,
                decreases found.len() - j,
            {
                assert(before[j as int] == (found@[j as int].name@, found@[j as int].path@));
                if found[j].path == *path {
                    seen = true;
                }
                j += 1;
            }
            if !seen {
                let name = match &row.repo {
                    Some(n) => n.clone(),
                    None => path.clone(),
                };
                found.push(RepoRow { path: path.clone(), name });
                assert(repo_rows_view(found@) =~= before.push((repo_rows_view(found@).last().0, path@)));
            }
        }
        k += 1;
    }
    let ghost cands = repo_rows_view(found@);
    assert(cands == repo_candidates(rv, rows@.len() as int));
    // Ordered by name, equal names keeping their order.
    let mut sorted: Vec<RepoRow> = Vec::new();
    let mut names: Vec<Vec<char>> = Vec::new();
    let mut i: usize = 0;
    let n = found.len();
    let mut rest = found;
    assert(cands.take(0) =~= Seq::<(Seq<char>, Seq<char>)>::empty());
    while i < n
        invariant
            n == cands.len(),
            i <= n,
            repo_rows_view(rest@) == cands.skip(i as int),
            repo_rows_view(sorted@) == by_name(cands.take(i as int)),
            names@.len() == sorted@.len(),
            forall|m: int| 0 <= m < names@.len() ==> (#[trigger] names@[m])@ == sorted@[m].name@,
        decreases n - i,
    {
        assert(repo_rows_view(rest@).len() == rest@.len());
        let ghost rest_before = rest@;
        let next = rest.remove(0);
        let ghost x = (next.name@, next.path@);
        proof {
            assert(next == rest_before[0]);
            assert(repo_rows_view(rest@) =~= repo_rows_view(rest_before).drop_first());
            assert(cands.skip(i as int).drop_first() =~= cands.skip(i + 1));
            assert(cands.skip(i as int)[0] == x);
            assert(cands[i as int] == x);
            assert(repo_rows_view(rest@) =~= cands.skip(i + 1));
            assert(cands.take(i + 1).drop_last() =~= cands.take(i as int));
            assert(cands.take(i + 1).last() == x);
        }
        let key = to_chars(next.name.as_str());
        let ghost cur = repo_rows_view(sorted@);
        let mut p: usize = 0;
        while p < sorted.len() && !text_less(&key, &names[p])
            invariant
                p <= sorted@.len(),
                names@.len() == sorted@.len(),
                key@ == x.0,
                cur == repo_rows_view(sorted@),
                forall|m: int| 0 <= m < names@.len() ==> (#[trigger] names@[m])@ == sorted@[m].name@,
                forall|m: int| 0 <= m < p ==> !text_lt(x.0, #[trigger] cur[m].0),
            decreases sorted.len() - p,
        {
            assert(cur[p as int].0 == names@[p as int]@);
            p += 1;
        }
        proof {
            lemma_name_slot(cur, x);
            let q = name_slot(cur, x);
            if p < sorted@.len() {
                assert(cur[p as int].0 == names@[p as int]@);
            }
            if q < p {
                assert(!text_lt(x.0, cur[q].0));
            }
            if p < q {
                assert(!text_lt(x.0, cur[p as int].0));
            }
            assert(p == q);
        }
        sorted.insert(p, next);
        names.insert(p, key);
        assert(repo_rows_view(sorted@) =~= cur.insert(p as int, x));
        i += 1;
    }
    assert(cands.take(n as int) =~= cands);
    sorted
}

/// When an automation runs: a cron expression, or another kind of trigger by
/// its name.
#[derive(Debug, Clone, PartialEq)]
pub enum Schedule {
    Cron(String),
    Other(String),
}

/// One automation as the database hands it over.
#[derive(Debug, Clone, PartialEq)]
pub struct StoredAutomation {
    pub id: i64,
    pub name: String,
    pub schedule: Schedule,
    /// The kind of action it takes.
    pub action: String,
    pub enabled: bool,
}

pub open spec fn run_rows_view(runs: Seq<RunRow>) -> Seq<(i64, Seq<char>, Seq<char>)> {
    runs.map_values(|r: RunRow| (r.started_at, r.status@, r.detail@))
}

/// An automation row: what it is, and its recent runs, newest first — the
/// newest saying how it last went, with its detail when there is one.
pub open spec fn automation_row_spec(a: StoredAutomation, history: Seq<RunRow>, row: AutomationRow) -> bool {
    &&& row.id == a.id
    &&& row.name@ == a.name@
    &&& row.schedule@ == match a.schedule {
        Schedule::Cron(expr) => expr@,
        Schedule::Other(kind) => kind@,
    }
    &&& row.action@ == a.action@
    &&& row.enabled == a.enabled
    &&& opt_string(row.last_outcome) == if history.len() > 0 { Some(history[0].status@) } else { None }
    &&& opt_string(row.last_detail) == if history.len() > 0 && history[0].detail@.len() > 0 { Some(history[0].detail@) } else { None }
    &&& run_rows_view(row.runs@) == run_rows_view(history)
}

fn copy_runs(runs: &Vec<RunRow>) -> (r: Vec<RunRow>)
    ensures
        run_rows_view(r@) == run_rows_view(runs@),
{
    let mut out: Vec<RunRow> = Vec::new();
    let mut i: usize = 0;
    while i < runs.len()
        invariant
            i <= runs@.len(),
            run_rows_view(out@) == run_rows_view(runs@).take(i as int),
        decreases runs.len() - i,
    {
        let ghost before = out@;
        let ghost want = run_rows_view(runs@);
        out.push(RunRow { started_at: runs[i].started_at, status: runs[i].status.clone(), detail: runs[i].detail.clone() });
        assert(want[i as int] == (runs@[i as int].started_at, runs@[i as int].status@, runs@[i as int].detail@));
        assert(run_rows_view(out@) =~= run_rows_view(before).push(want[i as int]));
        assert(want.take(i + 1) =~= want.take(i as int).push(want[i as int]));
        i += 1;
    }
    assert(run_rows_view(runs@).take(i as int) =~= run_rows_view(runs@));
    out
}

/// An automation, flattened for rendering, with its recent runs newest first.
pub fn automation_row(a: &StoredAutomation, history: &Vec<RunRow>) -> (row: AutomationRow)
    ensures
        automation_row_spec(*a, history@, row),
{
    let schedule = match &a.schedule {
        Schedule::Cron(expr) => expr.clone(),
        Schedule::Other(kind) => kind.clone(),
    };
    let (last_outcome, last_detail) = if history.len() > 0 {
        let detail = if to_chars(history[0].detail.as_str()).len() > 0 { Some(history[0].detail.clone()) } else { None };
        (Some(history[0].status.clone()), detail)
    } else {
        (None, None)
    };
    AutomationRow {
        id: a.id,
        name: a.name.clone(),
        schedule,
        action: a.action.clone(),
        enabled: a.enabled,
        last_outcome,
        last_detail,
        runs: copy_runs(history),
    }
}

/// What one rebuild reads from the database.
pub struct Reads {
    pub sessions: Vec<StoredSession>,
    /// Each session's hook state, by session id.
    pub hooks: Vec<(String, HookState)>,
    /// Each session's base branch, by session id.
    pub bases: Vec<(String, String)>,
    pub deleted: Vec<DeletedRow>,
    pub tasks: Vec<TaskRow>,
    /// Each automation with its recent runs, newest first.
    pub automations: Vec<(StoredAutomation, Vec<RunRow>)>,
}

/// How long a git stat is trusted before it is computed again, in
/// milliseconds.
pub const GIT_STAT_TTL_MS: u64 = 5000;

/// What the git stats hold: each session's last answer (none when its
/// directory is not a repository) and when it landed, and the sessions whose
/// stats are being computed.
pub struct GitView {
    pub known: Seq<(Seq<char>, (Option<GitState>, u64))>,
    pub inflight: Seq<Seq<char>>,
}

/// Git stats computed off the render path: asked for by session, answered
/// by a worker, remembered for a while.
pub struct GitStats {
    known: Vec<(String, (Option<GitState>, u64))>,
    inflight: Vec<String>,
}

impl View for GitStats {
    type V = GitView;

    closed spec fn view(&self) -> GitView {
        GitView {
            known: self.known@.map_values(|e: (String, (Option<GitState>, u64))| (e.0@, e.1)),
            inflight: self.inflight@.map_values(|s: String| s@),
        }
    }
}

/// Whether a session's stats are to be computed at `now`: none are being
/// computed, and none are known or the known ones are old.
pub open spec fn stat_wanted(g: GitView, session: Seq<char>, now: u64) -> bool {
    &&& !g.inflight.contains(session)
    &&& !(lookup(g.known, session) matches Some(k) && now >= k.1 && now - k.1 < GIT_STAT_TTL_MS)
}

/// `s` without `x`.
pub open spec fn all_but(s: Seq<Seq<char>>, x: Seq<char>) -> Seq<Seq<char>>
    decreases s.len(),
{
    if s.len() == 0 {
        seq![]
    } else if s.last() == x {
        all_but(s.drop_last(), x)
    } else {
        all_but(s.drop_last(), x).push(s.last())
    }
}

/// The answers whose session is among `present`.
pub open spec fn known_for(known: Seq<(Seq<char>, (Option<GitState>, u64))>, present: Seq<Seq<char>>) -> Seq<(Seq<char>, (Option<GitState>, u64))>
    decreases known.len(),
{
    if known.len() == 0 {
        seq![]
    } else {
        let before = known_for(known.drop_last(), present);
        if present.contains(known.last().0) {
            before.push(known.last())
        } else {
            before
        }
    }
}

impl GitStats {
    pub fn new() -> (g: GitStats)
        ensures
            g@.known.len() == 0,
            g@.inflight.len() == 0,
    {
        GitStats { known: Vec::new(), inflight: Vec::new() }
    }

    fn find(&self, session: &String) -> (r: Option<usize>)
        ensures
            first_key(self@.known, session@, r),
    {
        let mut i: usize = 0;
        while i < self.known.len()
            invariant
                i <= self.known@.len(),
                self@.known.len() == self.known@.len(),
                forall|j: int| 0 <= j < i ==> self@.known[j].0 != session@,
            decreases self.known.len() - i,
        {
            assert(self@.known[i as int].0 == self.known@[i as int].0@);
            if self.known[i].0 == *session {
                return Some(i);
            }
            i += 1;
        }
        None
    }

    /// Ask for a session's stats at `now`. True when a computation is to
    /// start; the session is then marked as being computed.
    pub fn request(&mut self, session: &String, now: u64) -> (start: bool)
        ensures
            start == stat_wanted(old(self)@, session@, now),
            start ==> final(self)@ == (GitView { inflight: old(self)@.inflight.push(session@), ..old(self)@ }),
            !start ==> final(self)@ == old(self)@,
    {
        let mut i: usize = 0;
        while i < self.inflight.len()
            invariant
                i <= self.inflight@.len(),
                self@.inflight.len() == self.inflight@.len(),
                forall|j: int| 0 <= j < i ==> self@.inflight[j] != session@,
            decreases self.inflight.len() - i,
        {
            assert(self@.inflight[i as int] == self.inflight@[i as int]@);
            if self.inflight[i] == *session {
                assert(self@.inflight.contains(session@));
                return false;
            }
            i += 1;
        }
        match self.find(session) {
            Some(at) => {
                proof { lemma_first_key(self@.known, session@, at as int, (None, 0u64)); }
                let landed = self.known[at].1.1;
                if now >= landed && now - landed < GIT_STAT_TTL_MS {
                    return false;
                }
            },
            None => {
                proof { lemma_no_key(self@.known, session@, (None, 0u64)); }
            },
        }
        self.inflight.push(session.clone());
        assert(self@.inflight =~= old(self)@.inflight.push(session@));
        true
    }

    /// Fold one finished computation in at `now`: a miss is an answer too.
    pub fn land(&mut self, session: String, state: Option<GitState>, now: u64)
        ensures
            final(self)@ == (GitView {
                known: put(old(self)@.known, session@, (state, now)),
                inflight: all_but(old(self)@.inflight, session@),
            }),
    {
        let mut kept: Vec<String> = Vec::new();
        let ghost all = old(self)@.inflight;
        let mut i: usize = 0;
        assert(all.take(0) =~= Seq::<Seq<char>>::empty());
        while i < self.inflight.len()
            invariant
                self@ == old(self)@,
                all == self@.inflight,
                all.len() == self.inflight@.len(),
                i <= all.len(),
                kept@.map_values(|s: String| s@) == all_but(all.take(i as int), session@),
            decreases self.inflight.len() - i,
        {
            assert(all[i as int] == self.inflight@[i as int]@);
            assert(all.take(i + 1).drop_last() =~= all.take(i as int));
            assert(all.take(i + 1).last() == all[i as int]);
            if self.inflight[i] != session {
                let ghost before = kept@;
                kept.push(self.inflight[i].clone());
                assert(kept@.map_values(|s: String| s@) =~= before.map_values(|s: String| s@).push(all[i as int]));
            }
            i += 1;
        }
        assert(all.take(i as int) =~= all);
        self.inflight = kept;
        let ghost v = (state, now);
        match self.find(&session) {
            Some(at) => {
                proof { lemma_first_key(self@.known, session@, at as int, v); }
                let ghost before = self@.known;
                self.known.set(at, (session, (state, now)));
                assert(self@.known =~= before.update(at as int, (before[at as int].0, v)));
            },
            None => {
                proof { lemma_no_key(self@.known, session@, v); }
                let ghost before = self@.known;
                self.known.push((session, (state, now)));
                assert(self@.known =~= before.push((self@.known.last().0, v)));
            },
        }
    }

    /// Forget sessions that are no longer in the snapshot, so the cache tracks
    /// what exists rather than everything that ever did.
    pub fn retain(&mut self, present: &Vec<String>)
        ensures
            final(self)@ == (GitView { known: known_for(old(self)@.known, present@.map_values(|s: String| s@)), ..old(self)@ }),
    {
        let ghost names = present@.map_values(|s: String| s@);
        let ghost all = old(self)@.known;
        let mut kept: Vec<(String, (Option<GitState>, u64))> = Vec::new();
        let mut i: usize = 0;
        assert(all.take(0) =~= Seq::empty());
        while i < self.known.len()
            invariant
                self@ == old(self)@,
                all == self@.known,
                all.len() == self.known@.len(),
                names == present@.map_values(|s: String| s@),
                i <= all.len(),
                kept@.map_values(|e: (String, (Option<GitState>, u64))| (e.0@, e.1)) == known_for(all.take(i as int), names),
            decreases self.known.len() - i,
        {
            assert(all[i as int] == (self.known@[i as int].0@, self.known@[i as int].1));
            assert(all.take(i + 1).drop_last() =~= all.take(i as int));
            assert(all.take(i + 1).last() == all[i as int]);
            let mut live = false;
            let mut j: usize = 0;
            while j < present.len()
                invariant
                    j <= present@.len(),
                    names == present@.map_values(|s: String| s@),
                    i < all.len(),
                    all.len() == self.known@.len(),
                    live == exists|m: int| 0 <= m < j && names[m] == all[i as int].0,
                    all[i as int].0 == self.known@[i as int].0@,
                decreases present.len() - j,
            {
                assert(names[j as int] == present@[j as int]@);
                if present[j] == self.known[i].0 {
                    live = true;
                }
                j += 1;
            }
            if live {
                let ghost before = kept@;
                kept.push((self.known[i].0.clone(), self.known[i].1));
                assert(kept@.map_values(|e: (String, (Option<GitState>, u64))| (e.0@, e.1)) =~= before.map_values(|e: (String, (Option<GitState>, u64))| (e.0@, e.1)).push(all[i as int]));
            }
            i += 1;
        }
        assert(all.take(i as int) =~= all);
        self.known = kept;
    }

    /// The state last known for a session, if it is a repository.
    pub fn state_of(&self, session: &String) -> (r: Option<GitState>)
        ensures
            r == match lookup(self@.known, session@) {
                Some(k) => k.0,
                None => None,
            },
    {
        match self.find(session) {
            Some(at) => {
                proof { lemma_first_key(self@.known, session@, at as int, (None, 0u64)); }
                self.known[at].1.0
            },
            None => {
                proof { lemma_no_key(self@.known, session@, (None, 0u64)); }
                None
            },
        }
    }
}

/// A remote hook report waiting for the session it names to appear: the
/// backend and pane it came from, the state it reports, and when it arrived.
#[derive(Debug, Clone, PartialEq)]
pub struct PendingHook {
    pub backend: String,
    pub pane: String,
    pub state: String,
    pub arrived: u64,
}

/// How long an unmatched hook report is kept for a session that has not
/// appeared yet, in milliseconds.
pub const PENDING_TTL_MS: u64 = 120000;

/// Most unmatched hook reports kept, so another instance's panes cannot
/// accumulate here.
pub const PENDING_CAP: usize = 256;

/// What to do with a remote hook report.
#[derive(Debug, Clone, PartialEq)]
pub enum HookAction {
    /// Not a state a hook may report, or the session already reads it.
    Ignore,
    /// No session holds that pane yet: kept to try again.
    Parked,
    /// Dropped: too old, or no room to keep it.
    Dropped,
    /// Record the state for the session in row `row`.
    Write { row: usize, session: String, state: String },
}

fn copy_agents(v: &Vec<AgentRow>) -> (r: Vec<AgentRow>)
    ensures
        r@.map_values(|a: AgentRow| (a.name@, a.command@)) == v@.map_values(|a: AgentRow| (a.name@, a.command@)),
{
    let mut out: Vec<AgentRow> = Vec::new();
    let mut i: usize = 0;
    while i < v.len()
        invariant
            i <= v@.len(),
            out@.map_values(|a: AgentRow| (a.name@, a.command@)) == v@.map_values(|a: AgentRow| (a.name@, a.command@)).take(i as int),
        decreases v.len() - i,
    {
        let ghost before = out@;
        let ghost want = v@.map_values(|a: AgentRow| (a.name@, a.command@));
        out.push(AgentRow { name: v[i].name.clone(), command: v[i].command.clone() });
        assert(want[i as int] == (v@[i as int].name@, v@[i as int].command@));
        assert(out@.map_values(|a: AgentRow| (a.name@, a.command@)) =~= before.map_values(|a: AgentRow| (a.name@, a.command@)).push(want[i as int]));
        assert(want.take(i + 1) =~= want.take(i as int).push(want[i as int]));
        i += 1;
    }
    assert(v@.map_values(|a: AgentRow| (a.name@, a.command@)).take(i as int) =~= v@.map_values(|a: AgentRow| (a.name@, a.command@)));
    out
}

fn copy_hosts(v: &Vec<HostRow>) -> (r: Vec<HostRow>)
    ensures
        r@.map_values(|h: HostRow| (h.name@, h.detail@, h.backend@)) == v@.map_values(|h: HostRow| (h.name@, h.detail@, h.backend@)),
{
    let mut out: Vec<HostRow> = Vec::new();
    let mut i: usize = 0;
    while i < v.len()
        invariant
            i <= v@.len(),
            out@.map_values(|h: HostRow| (h.name@, h.detail@, h.backend@)) == v@.map_values(|h: HostRow| (h.name@, h.detail@, h.backend@)).take(i as int),
        decreases v.len() - i,
    {
        let ghost before = out@;
        let ghost want = v@.map_values(|h: HostRow| (h.name@, h.detail@, h.backend@));
        out.push(HostRow { name: v[i].name.clone(), detail: v[i].detail.clone(), backend: v[i].backend.clone() });
        assert(want[i as int] == (v@[i as int].name@, v@[i as int].detail@, v@[i as int].backend@));
        assert(out@.map_values(|h: HostRow| (h.name@, h.detail@, h.backend@)) =~= before.map_values(|h: HostRow| (h.name@, h.detail@, h.backend@)).push(want[i as int]));
        assert(want.take(i + 1) =~= want.take(i as int).push(want[i as int]));
        i += 1;
    }
    assert(v@.map_values(|h: HostRow| (h.name@, h.detail@, h.backend@)).take(i as int) =~= v@.map_values(|h: HostRow| (h.name@, h.detail@, h.backend@)));
    out
}

/// Asking for each row's git stat in turn, at `now`: the rows with a
/// directory whose stat is wanted are marked as being computed and become
/// jobs, in row order.
pub open spec fn request_all(g: GitView, rows: Seq<SessionRowView>, now: u64) -> (GitView, Seq<(Seq<char>, Seq<char>)>)
    decreases rows.len(),
{
    if rows.len() == 0 {
        (g, seq![])
    } else {
        let (g1, jobs) = request_all(g, rows.drop_last(), now);
        let r = rows.last();
        match r.cwd {
            None => (g1, jobs),
            Some(c) => if stat_wanted(g1, r.id, now) {
                (GitView { inflight: g1.inflight.push(r.id), ..g1 }, jobs.push((r.id, c)))
            } else {
                (g1, jobs)
            },
        }
    }
}

/// Owns the snapshot and decides when to rebuild it. Refresh happens on the
/// kernel's schedule, never inside a plugin call. The database is reached
/// through what the caller hands over — rows it read, or the reads and
/// writes themselves; times are milliseconds on the caller's monotonic
/// clock, stamps are epoch milliseconds.
pub struct SnapshotStore {
    has_database: bool,
    agents: Vec<AgentRow>,
    agent_default: String,
    hosts: Vec<HostRow>,
    current: Snapshot,
    last_refresh: Option<u64>,
    /// The database's data version as of the last successful rebuild; `None`
    /// means never read, which forces one.
    last_data_version: Option<i64>,
    /// Remote hook reports that named a pane no session claims yet.
    pending_hooks: Vec<PendingHook>,
    git: GitStats,
}

impl SnapshotStore {
    /// The snapshot being served.
    pub closed spec fn snapshot(&self) -> Snapshot {
        self.current
    }

    pub closed spec fn last_refresh_at(&self) -> Option<u64> {
        self.last_refresh
    }

    pub closed spec fn data_version(&self) -> Option<i64> {
        self.last_data_version
    }

    pub closed spec fn database(&self) -> bool {
        self.has_database
    }

    pub closed spec fn agent_rows(&self) -> Seq<AgentRow> {
        self.agents@
    }

    pub closed spec fn git_view(&self) -> GitView {
        self.git@
    }

    /// The default agent as read at startup.
    pub closed spec fn held_agent_default(&self) -> Seq<char> {
        self.agent_default@
    }

    /// The hosts as read at startup.
    pub closed spec fn host_rows(&self) -> Seq<HostRow> {
        self.hosts@
    }

    /// A store over a database (or none), with the agents and hosts read at
    /// startup, serving an empty snapshot that carries `error` until the first
    /// rebuild.
    pub fn new(has_database: bool, error: Option<String>, agents: Vec<AgentRow>, agent_default: String, hosts: Vec<HostRow>) -> (s: SnapshotStore)
        ensures
            s.database() == has_database,
            s.snapshot().sessions@.len() == 0,
            s.snapshot().deleted@.len() == 0,
            s.snapshot().repos@.len() == 0,
            s.snapshot().agents@.len() == 0,
            s.snapshot().agent_default@.len() == 0,
            s.snapshot().hosts@.len() == 0,
            s.snapshot().tasks@.len() == 0,
            s.snapshot().automations@.len() == 0,
            s.snapshot().taken_at_ms == 0,
            s.snapshot().error == error,
            s.agent_rows() == agents@,
            s.held_agent_default() == agent_default@,
            s.host_rows() == hosts@,
            s.pending().len() == 0,
            s.git_view().known.len() == 0,
            s.git_view().inflight.len() == 0,
            s.last_refresh_at() is None,
            s.data_version() is None,
    {
        let current = Snapshot {
            sessions: Vec::new(),
            deleted: Vec::new(),
            repos: Vec::new(),
            agents: Vec::new(),
            agent_default: String::new(),
            hosts: Vec::new(),
            tasks: Vec::new(),
            automations: Vec::new(),
            taken_at_ms: 0,
            error,
        };
        SnapshotStore {
            has_database,
            agents,
            agent_default,
            hosts,
            current,
            last_refresh: None,
            last_data_version: None,
            pending_hooks: Vec::new(),
            git: GitStats::new(),
        }
    }

    /// The current snapshot. Always immediate.
    pub fn current(&self) -> (r: &Snapshot)
        ensures
            *r == self.snapshot(),
    {
        &self.current
    }

    /// Whether the refresh interval has passed at `now`.
    pub fn refresh_due(&self, now: u64) -> (due: bool)
        ensures
            due == due_at(self.last_refresh_at(), now),
    {
        match self.last_refresh {
            None => true,
            Some(at) => now >= at && now - at >= REFRESH_INTERVAL_MS,
        }
    }

    /// Whether the stored rows still reflect the database, given the version
    /// it reports now (`None` when reading it failed): false before the first
    /// successful read and as soon as anything else commits. With no database
    /// there is nothing to re-read.
    pub fn rows_are_current(&self, version: Option<i64>) -> (r: bool)
        ensures
            r == current_at(self.database(), self.data_version(), version),
    {
        if !self.has_database {
            return true;
        }
        match (self.last_data_version, version) {
            (Some(seen), Some(now)) => seen == now,
            _ => false,
        }
    }

    /// Stamp the snapshot without re-reading: nothing committed since.
    pub fn stamp(&mut self, now: u64, taken_at_ms: i64)
        ensures
            stamped(*old(self), *final(self), now, taken_at_ms),
    {
        self.last_refresh = Some(now);
        self.current.taken_at_ms = taken_at_ms;
    }

    /// Rebuild from what was read: `reads` is `None` with no database, and an
    /// error when listing the sessions failed, which keeps the previous rows
    /// and records the error. `version` is the database's data version read
    /// before the rows.
    pub fn refresh(&mut self, version: Option<i64>, reads: Option<Result<Reads, String>>, now: u64, taken_at_ms: i64)
        ensures
            rebuilt(*old(self), *final(self), version, reads, now, taken_at_ms),
    {
        self.last_refresh = Some(now);
        self.last_data_version = version;
        let reads = match reads {
            None => {
                self.current.taken_at_ms = taken_at_ms;
                return;
            },
            Some(Err(e)) => {
                let mut message = String::from_str("list sessions: ");
                push_str_of(&mut message, &e);
                proof { reveal_strlit("list sessions: "); }
                self.current.error = Some(message);
                self.current.taken_at_ms = taken_at_ms;
                return;
            },
            Some(Ok(reads)) => reads,
        };
        let rows = session_rows(&reads.sessions, &reads.hooks, &reads.bases, taken_at_ms);
        let repos = offered_repos(&rows);
        let mut automations: Vec<AutomationRow> = Vec::new();
        let mut k: usize = 0;
        while k < reads.automations.len()
            invariant
                k <= reads.automations@.len(),
                automations@.len() == k,
                forall|m: int| 0 <= m < k ==> automation_row_spec(reads.automations@[m].0, reads.automations@[m].1@, #[trigger] automations@[m]),
            decreases reads.automations.len() - k,
        {
            let row = automation_row(&reads.automations[k].0, &reads.automations[k].1);
            automations.push(row);
            k += 1;
        }
        let Reads { sessions: _, hooks: _, bases: _, deleted, tasks, automations: _ } = reads;
        self.current = Snapshot {
            sessions: rows,
            deleted,
            repos,
            agents: copy_agents(&self.agents),
            agent_default: self.agent_default.clone(),
            hosts: copy_hosts(&self.hosts),
            tasks,
            automations,
            taken_at_ms,
            error: None,
        };
    }

    /// Fold a finished git stat in at `now`.
    pub fn land_git(&mut self, session: String, state: Option<GitState>, now: u64)
        ensures
            final(self).git_view() == (GitView {
                known: put(old(self).git_view().known, session@, (state, now)),
                inflight: all_but(old(self).git_view().inflight, session@),
            }),
            final(self).snapshot() == old(self).snapshot(),
    {
        self.git.land(session, state, now);
    }

    /// Attach whatever git stats are known to the rows, forget those of
    /// sessions that are gone, and say which stats to compute: each session
    /// with a directory whose stat is missing or old and not being computed.
    pub fn attach_git_stats(&mut self, now: u64) -> (jobs: Vec<(String, String)>)
        ensures
            attached(*old(self), *final(self), now, jobs@.map_values(|j: (String, String)| (j.0@, j.1@))),
    {
        let mut present: Vec<String> = Vec::new();
        let mut i: usize = 0;
        while i < self.current.sessions.len()
            invariant
                i <= self.current.sessions@.len(),
                *self == *old(self),
                present@ == self.current.sessions@.map_values(|r: SessionRow| r.id).take(i as int),
            decreases self.current.sessions.len() - i,
        {
            present.push(self.current.sessions[i].id.clone());
            assert(present@ =~= self.current.sessions@.map_values(|r: SessionRow| r.id).take(i + 1));
            i += 1;
        }
        assert(present@ =~= self.current.sessions@.map_values(|r: SessionRow| r.id));
        assert(present@.map_values(|s: String| s@) =~= old(self).current.sessions@.map_values(|r: SessionRow| r.id@));
        self.git.retain(&present);
        assert(self.git@ == (GitView {
            known: known_for(old(self).git@.known, old(self).current.sessions@.map_values(|r: SessionRow| r.id@)),
            inflight: old(self).git@.inflight,
        }));
        let ghost kept = self.git@.known;
        let ghost git_before = self.git@;
        let ghost olds = old(self).current.sessions@;
        let n = self.current.sessions.len();
        let mut j: usize = 0;
        while j < n
            invariant
                *self == (SnapshotStore { current: Snapshot { sessions: self.current.sessions, ..old(self).current }, git: self.git, ..*old(self) }),
                n == self.current.sessions@.len(),
                n == olds.len(),
                j <= n,
                kept == self.git@.known,
                self.git@ == git_before,
                kept == known_for(old(self).git@.known, olds.map_values(|r: SessionRow| r.id@)),
                forall|m: int| j <= m < n ==> self.current.sessions@[m] == olds[m],
                forall|m: int| 0 <= m < j ==> (#[trigger] self.current.sessions@[m])@ == (SessionRowView {
                    git: match lookup(kept, olds[m].id@) {
                        Some(k) => k.0,
                        None => None,
                    },
                    ..olds[m]@
                }),
            decreases n - j,
        {
            let state = self.git.state_of(&self.current.sessions[j].id);
            let mut row = self.current.sessions.remove(j);
            row.git = state;
            self.current.sessions.insert(j, row);
            j += 1;
        }
        let ghost cur = self.current;
        let ghost start = self.git@;
        let ghost rows = olds.map_values(|r: SessionRow| r@);
        let mut jobs: Vec<(String, String)> = Vec::new();
        let mut k: usize = 0;
        assert(rows.take(0) =~= Seq::<SessionRowView>::empty());
        while k < n
            invariant
                *self == (SnapshotStore { current: cur, git: self.git, ..*old(self) }),
                cur == (Snapshot { sessions: cur.sessions, ..old(self).current }),
                n == self.current.sessions@.len(),
                n == olds.len(),
                rows == olds.map_values(|r: SessionRow| r@),
                k <= n,
                self.current == cur,
                forall|m: int| 0 <= m < n ==> (#[trigger] self.current.sessions@[m]).id@ == olds[m].id@
                    && opt_string(self.current.sessions@[m].cwd) == opt_string(olds[m].cwd),
                (self.git@, jobs@.map_values(|j: (String, String)| (j.0@, j.1@))) == request_all(start, rows.take(k as int), now),
            decreases n - k,
        {
            let ghost before = jobs@;
            proof {
                assert(rows.take(k + 1).drop_last() =~= rows.take(k as int));
                assert(rows.take(k + 1).last() == rows[k as int]);
                assert(rows[k as int] == olds[k as int]@);
            }
            let row = &self.current.sessions[k];
            if let Some(cwd) = &row.cwd {
                if self.git.request(&row.id, now) {
                    jobs.push((row.id.clone(), cwd.clone()));
                    assert(jobs@.map_values(|j: (String, String)| (j.0@, j.1@)) =~= before.map_values(|j: (String, String)| (j.0@, j.1@)).push((olds[k as int].id@, cwd@)));
                }
            }
            k += 1;
        }
        assert(rows.take(n as int) =~= rows);
        assert(start == (GitView {
            known: known_for(old(self).git_view().known, old(self).snapshot().sessions@.map_values(|r: SessionRow| r.id@)),
            inflight: old(self).git_view().inflight,
        }));
        jobs
    }
}

/// `b` is `a` stamped at `now` without a re-read: nothing committed since.
pub open spec fn stamped(a: SnapshotStore, b: SnapshotStore, now: u64, taken_at_ms: i64) -> bool {
    &&& b.last_refresh_at() == Some(now)
    &&& b.snapshot() == (Snapshot { taken_at_ms, ..a.snapshot() })
    &&& b.data_version() == a.data_version()
    &&& b.git_view() == a.git_view()
    &&& b.database() == a.database()
    &&& b.pending() == a.pending()
    &&& b.agent_rows() == a.agent_rows()
}

/// Whether the refresh interval has passed at `now`, since the rebuild (or
/// stamp) at `last`.
pub open spec fn due_at(last: Option<u64>, now: u64) -> bool {
    match last {
        None => true,
        Some(at) => now >= at && now - at >= REFRESH_INTERVAL_MS,
    }
}

/// Whether rows read at data version `seen` still reflect a database that
/// reports `version` now: never before the first read, and not once anything
/// else committed. With no database there is nothing to re-read.
pub open spec fn current_at(database: bool, seen: Option<i64>, version: Option<i64>) -> bool {
    !database || (seen matches Some(v) && version == Some(v))
}

/// How a due refresh went: `version` is the data version the database
/// reported (read only with a database), `got` what a re-read returned —
/// the version then and the rows — and `mid` the store before the git stats
/// were attached.
pub open spec fn refresh_went<V: FnOnce() -> Option<i64>, R: FnOnce() -> (Option<i64>, Option<Result<Reads, String>>)>(
    a: SnapshotStore,
    b: SnapshotStore,
    now: u64,
    taken_at_ms: i64,
    read_version: V,
    reread: R,
    version: Option<i64>,
    got: (Option<i64>, Option<Result<Reads, String>>),
    mid: SnapshotStore,
    rebuilt_now: bool,
    jobs: Seq<(Seq<char>, Seq<char>)>,
) -> bool {
    &&& (a.database() ==> call_ensures(read_version, (), version))
    &&& if current_at(a.database(), a.data_version(), version) {
        &&& !rebuilt_now
        &&& stamped(a, mid, now, taken_at_ms)
        &&& attached(mid, b, now, jobs)
    } else {
        &&& rebuilt_now
        &&& call_ensures(reread, (), got)
        &&& rebuilt(a, mid, got.0, got.1, now, taken_at_ms)
        &&& if got.1 matches Some(Ok(_)) {
            attached(mid, b, now, jobs)
        } else {
            b == mid && jobs.len() == 0
        }
    }
}

/// `b` is `a` rebuilt at `now` from what was read: `reads` is `None` with no
/// database, and an error when listing the sessions failed, which keeps the
/// previous rows and records the error; `version` is the database's data
/// version read before the rows.
pub open spec fn rebuilt(a: SnapshotStore, b: SnapshotStore, version: Option<i64>, reads: Option<Result<Reads, String>>, now: u64, taken_at_ms: i64) -> bool {
    &&& b.last_refresh_at() == Some(now)
    &&& b.data_version() == version
    &&& b.database() == a.database()
    &&& b.agent_rows() == a.agent_rows()
    &&& b.git_view() == a.git_view()
    &&& b.snapshot().taken_at_ms == taken_at_ms
    &&& match reads {
        None => b.snapshot() == (Snapshot { taken_at_ms, ..a.snapshot() }),
        Some(Err(e)) => {
            &&& b.snapshot().error matches Some(m) && m@ == "list sessions: "@ + e@
            &&& b.snapshot() == (Snapshot { error: b.snapshot().error, taken_at_ms, ..a.snapshot() })
        },
        Some(Ok(r)) => {
            let rows = rows_spec(r.sessions@, r.hooks@, r.bases@, taken_at_ms);
            &&& b.snapshot().sessions@.map_values(|row: SessionRow| row@) == rows
            &&& repo_rows_view(b.snapshot().repos@) == by_name(repo_candidates(rows, rows.len() as int))
            &&& b.snapshot().deleted == r.deleted
            &&& b.snapshot().tasks == r.tasks
            &&& b.snapshot().automations@.len() == r.automations@.len()
            &&& forall|k: int| 0 <= k < r.automations@.len() ==> automation_row_spec(r.automations@[k].0, r.automations@[k].1@, #[trigger] b.snapshot().automations@[k])
            &&& b.snapshot().agents@.map_values(|x: AgentRow| (x.name@, x.command@)) == a.agent_rows().map_values(|x: AgentRow| (x.name@, x.command@))
            &&& b.snapshot().error is None
        },
    }
    &&& b.pending() == a.pending()
}

/// `b` is `a` with the git stats known attached to its rows, the stats of
/// sessions gone forgotten, and `jobs` — session and directory — the stats
/// asked for at `now`: each session with a directory whose stat is missing or
/// old and not being computed. Nothing else changes.
pub open spec fn attached(a: SnapshotStore, b: SnapshotStore, now: u64, jobs: Seq<(Seq<char>, Seq<char>)>) -> bool {
    let ids = a.snapshot().sessions@.map_values(|r: SessionRow| r.id@);
    &&& b.snapshot().sessions@.len() == a.snapshot().sessions@.len()
    &&& forall|i: int| 0 <= i < b.snapshot().sessions@.len() ==> {
        let row = #[trigger] b.snapshot().sessions@[i];
        let was = a.snapshot().sessions@[i];
        &&& row@ == (SessionRowView {
            git: match lookup(known_for(a.git_view().known, ids), was.id@) {
                Some(k) => k.0,
                None => None,
            },
            ..was@
        })
    }
    &&& (b.git_view(), jobs) == request_all(
        GitView { known: known_for(a.git_view().known, ids), inflight: a.git_view().inflight },
        a.snapshot().sessions@.map_values(|r: SessionRow| r@),
        now,
    )
    &&& b.snapshot() == (Snapshot { sessions: b.snapshot().sessions, ..a.snapshot() })
    &&& b.database() == a.database()
    &&& b.data_version() == a.data_version()
    &&& b.last_refresh_at() == a.last_refresh_at()
    &&& b.pending() == a.pending()
    &&& b.agent_rows() == a.agent_rows()
}

/// The first row at or after `k` whose pane is `pane` on `backend`. Pane ids
/// collide across hosts, so a report is matched by both.
pub open spec fn hook_row(rows: Seq<SessionRowView>, backend: Seq<char>, pane: Seq<char>, k: int) -> Option<int>
    decreases rows.len() - k,
{
    if k < 0 || k >= rows.len() {
        None
    } else if rows[k].backend == backend && rows[k].backend_id == Some(pane) {
        Some(k)
    } else {
        hook_row(rows, backend, pane, k + 1)
    }
}

/// The rows as the contracts see them.
pub open spec fn rows_view(rows: Seq<SessionRow>) -> Seq<SessionRowView> {
    rows.map_values(|r: SessionRow| r@)
}

proof fn lemma_hook_row(rows: Seq<SessionRowView>, backend: Seq<char>, pane: Seq<char>, k: int)
    requires
        0 <= k,
    ensures
        hook_row(rows, backend, pane, k) matches Some(i) ==> k <= i < rows.len(),
    decreases rows.len() - k,
{
    if k < rows.len() && !(rows[k].backend == backend && rows[k].backend_id == Some(pane)) {
        lemma_hook_row(rows, backend, pane, k + 1);
    }
}

proof fn lemma_row_from(rows: Seq<SessionRow>, id: Seq<char>, k: int)
    requires
        0 <= k,
    ensures
        row_from(rows, id, k) matches Some(i) ==> k <= i < rows.len() && rows[i].id@ == id,
    decreases rows.len() - k,
{
    if k < rows.len() && rows[k].id@ != id {
        lemma_row_from(rows, id, k + 1);
    }
}

/// Whether a finished turn is to be acknowledged, and the stamp to record as
/// seen: the state is `done` and stamped, and it was not already seen at or
/// after that stamp.
pub open spec fn acknowledgement_spec(hook: HookState) -> Option<i64> {
    if opt_string(hook.state) == Some("done"@) {
        match hook.state_at {
            Some(at) => if hook.seen_at matches Some(seen) && seen >= at {
                None
            } else {
                Some(at)
            },
            None => None,
        }
    } else {
        None
    }
}

/// Whether a finished turn is to be acknowledged when focus leaves it, and
/// the stamp to record as seen.
pub fn acknowledgement(hook: &HookState) -> (r: Option<i64>)
    ensures
        r == acknowledgement_spec(*hook),
{
    let done = match &hook.state {
        Some(s) => same_text(s.as_str(), "done"),
        None => false,
    };
    if !done {
        return None;
    }
    match hook.state_at {
        Some(at) => match hook.seen_at {
            Some(seen) => if seen >= at { None } else { Some(at) },
            None => Some(at),
        },
        None => None,
    }
}

fn push_str_of(s: &mut String, t: &String)
    ensures
        final(s)@ == old(s)@ + t@,
{
    crate::text::push_str(s, t.as_str());
}

fn find_row(rows: &Vec<SessionRow>, id: &str) -> (r: Option<usize>)
    ensures
        match r {
            Some(i) => row_from(rows@, id@, 0) == Some(i as int) && i < rows@.len(),
            None => row_from(rows@, id@, 0) is None,
        },
{
    proof { lemma_row_from(rows@, id@, 0); }
    let mut i: usize = 0;
    while i < rows.len()
        invariant
            i <= rows@.len(),
            row_from(rows@, id@, i as int) == row_from(rows@, id@, 0),
        decreases rows.len() - i,
    {
        if same_text(rows[i].id.as_str(), id) {
            return Some(i);
        }
        i += 1;
    }
    None
}

impl SnapshotStore {
    pub closed spec fn pending(&self) -> Seq<PendingHook> {
        self.pending_hooks@
    }

    /// The rows once `id`'s row (the first with it) reads `status`: written
    /// in place, since our own writes do not move the database's data version
    /// and a refresh would re-derive from the row before them.
    fn set_status(&mut self, id: &str, status: String)
        ensures
            final(self).database() == old(self).database(),
            final(self).data_version() == old(self).data_version(),
            final(self).last_refresh_at() == old(self).last_refresh_at(),
            final(self).pending() == old(self).pending(),
            final(self).snapshot().sessions@ == match row_from(old(self).snapshot().sessions@, id@, 0) {
                Some(i) => old(self).snapshot().sessions@.update(i, SessionRow { status, ..old(self).snapshot().sessions@[i] }),
                None => old(self).snapshot().sessions@,
            },
    {
        proof { lemma_row_from(self.current.sessions@, id@, 0); }
        if let Some(i) = find_row(&self.current.sessions, id) {
            let mut row = self.current.sessions.remove(i);
            let ghost was = row;
            row.status = status;
            self.current.sessions.insert(i, row);
            assert(self.current.sessions@ =~= old(self).current.sessions@.update(i as int, SessionRow { status, ..was }));
        }
    }

    /// A finished turn was acknowledged: its row reads idle.
    fn mark_seen(&mut self, session: &str)
        ensures
            final(self).database() == old(self).database(),
            final(self).data_version() == old(self).data_version(),
            final(self).last_refresh_at() == old(self).last_refresh_at(),
            final(self).pending() == old(self).pending(),
            final(self).snapshot().sessions@.map_values(|r: SessionRow| r@) == match row_from(old(self).snapshot().sessions@, session@, 0) {
                Some(i) => old(self).snapshot().sessions@.map_values(|r: SessionRow| r@).update(i, SessionRowView { status: "idle"@, ..old(self).snapshot().sessions@[i]@ }),
                None => old(self).snapshot().sessions@.map_values(|r: SessionRow| r@),
            },
    {
        self.set_status(session, String::from_str("idle"));
        proof {
            lemma_row_from(old(self).snapshot().sessions@, session@, 0);
            assert(final(self).snapshot().sessions@.map_values(|r: SessionRow| r@) =~= match row_from(old(self).snapshot().sessions@, session@, 0) {
                Some(i) => old(self).snapshot().sessions@.map_values(|r: SessionRow| r@).update(i, SessionRowView { status: "idle"@, ..old(self).snapshot().sessions@[i]@ }),
                None => old(self).snapshot().sessions@.map_values(|r: SessionRow| r@),
            });
        }
    }

    /// Acknowledge a finished turn when focus leaves `session`: a `done` not
    /// yet seen since it was stamped gets its seen mark, which `write_seen`
    /// records in the database and answers whether it took. The row then
    /// reads idle at once: the write is this store's own, so the database's
    /// data version does not move, and a refresh would otherwise re-derive
    /// `done` from the row before it. `hook` is the session's stored hook
    /// state; without a database nothing is written. Returns whether the turn
    /// was acknowledged.
    pub fn acknowledge<F: FnOnce(i64) -> bool>(&mut self, session: &str, hook: Option<&HookState>, write_seen: F) -> (acknowledged: bool)
        requires
            forall|at: i64| call_requires(write_seen, (at,)),
        ensures
            ({
                let due = if old(self).database() {
                    match hook {
                        Some(h) => acknowledgement_spec(*h),
                        None => None,
                    }
                } else {
                    None
                };
                &&& acknowledged ==> due is Some
                &&& (due matches Some(at) ==> call_ensures(write_seen, (at,), acknowledged))
            }),
            !acknowledged ==> *final(self) == *old(self),
            acknowledged ==> final(self).snapshot().sessions@.map_values(|r: SessionRow| r@) == match row_from(old(self).snapshot().sessions@, session@, 0) {
                Some(i) => old(self).snapshot().sessions@.map_values(|r: SessionRow| r@).update(i, SessionRowView { status: "idle"@, ..old(self).snapshot().sessions@[i]@ }),
                None => old(self).snapshot().sessions@.map_values(|r: SessionRow| r@),
            },
            final(self).database() == old(self).database(),
            final(self).data_version() == old(self).data_version(),
            final(self).last_refresh_at() == old(self).last_refresh_at(),
            final(self).pending() == old(self).pending(),
    {
        if !self.has_database {
            return false;
        }
        let hook = match hook {
            Some(h) => h,
            None => return false,
        };
        let at = match acknowledgement(hook) {
            Some(at) => at,
            None => return false,
        };
        if !write_seen(at) {
            return false;
        }
        self.mark_seen(session);
        true
    }

    /// Take the hook reports parked earlier, to be tried again with new ones.
    pub fn take_pending_hooks(&mut self) -> (r: Vec<PendingHook>)
        ensures
            r@ == old(self).pending(),
            final(self).database() == old(self).database(),
            final(self).data_version() == old(self).data_version(),
            final(self).last_refresh_at() == old(self).last_refresh_at(),
            final(self).pending().len() == 0,
            final(self).snapshot() == old(self).snapshot(),
    {
        let mut taken: Vec<PendingHook> = Vec::new();
        std::mem::swap(&mut taken, &mut self.pending_hooks);
        taken
    }

    /// Decide what a remote hook report does at `now`, given the states a
    /// hook may report. A state outside them is ignored — it is free text
    /// from another machine; a report for a pane no session holds yet is
    /// kept a while in case the pane is adopted; one that changes nothing is
    /// ignored, since writing it again would re-stamp an acknowledged turn.
    pub fn hook_event(&mut self, event: PendingHook, now: u64, allowed: &Vec<String>) -> (r: HookAction)
        ensures
            final(self).snapshot() == old(self).snapshot(),
            final(self).database() == old(self).database(),
            final(self).data_version() == old(self).data_version(),
            final(self).last_refresh_at() == old(self).last_refresh_at(),
            old(self).pending().len() <= PENDING_CAP ==> final(self).pending().len() <= PENDING_CAP,
            !allowed@.map_values(|s: String| s@).contains(event.state@) ==> r == HookAction::Ignore && final(self).pending() == old(self).pending(),
            allowed@.map_values(|s: String| s@).contains(event.state@) ==> match hook_row(rows_view(old(self).snapshot().sessions@), event.backend@, event.pane@, 0) {
                None => if now >= event.arrived && now - event.arrived < PENDING_TTL_MS && old(self).pending().len() < PENDING_CAP {
                    r == HookAction::Parked && final(self).pending() == old(self).pending().push(event)
                } else {
                    r == HookAction::Dropped && final(self).pending() == old(self).pending()
                },
                Some(i) => final(self).pending() == old(self).pending() && if rows_view(old(self).snapshot().sessions@)[i].hook_state == Some(event.state@) {
                    r == HookAction::Ignore
                } else {
                    r matches HookAction::Write { row, session, state } && row == i && session@ == old(self).snapshot().sessions@[i].id@ && state@ == event.state@
                },
            },
    {
        let mut known = false;
        let mut a: usize = 0;
        while a < allowed.len()
            invariant
                a <= allowed@.len(),
                known == exists|m: int| 0 <= m < a && allowed@[m]@ == event.state@,
            decreases allowed.len() - a,
        {
            if allowed[a] == event.state {
                known = true;
            }
            a += 1;
        }
        proof {
            let names = allowed@.map_values(|s: String| s@);
            if known {
                let m = choose|m: int| 0 <= m < allowed@.len() && allowed@[m]@ == event.state@;
                assert(names[m] == event.state@);
                assert(names.contains(event.state@));
            } else {
                assert forall|m: int| 0 <= m < names.len() implies names[m] != event.state@ by {
                    assert(names[m] == allowed@[m]@);
                }
            }
        }
        if !known {
            return HookAction::Ignore;
        }
        let ghost rv = rows_view(self.current.sessions@);
        proof { lemma_hook_row(rv, event.backend@, event.pane@, 0); }
        let mut i: usize = 0;
        while i < self.current.sessions.len()
            invariant
                i <= self.current.sessions@.len(),
                self.current == old(self).current,
                self.pending_hooks == old(self).pending_hooks,
                rv == rows_view(self.current.sessions@),
                allowed@.map_values(|s: String| s@).contains(event.state@),
                hook_row(rv, event.backend@, event.pane@, i as int) == hook_row(rv, event.backend@, event.pane@, 0),
            decreases self.current.sessions.len() - i,
        {
            let row = &self.current.sessions[i];
            assert(rv[i as int] == row@);
            let here = row.backend == event.backend && match &row.backend_id {
                Some(pane) => *pane == event.pane,
                None => false,
            };
            if here {
                let same = match &row.hook_state {
                    Some(state) => *state == event.state,
                    None => false,
                };
                if same {
                    return HookAction::Ignore;
                }
                return HookAction::Write { row: i, session: row.id.clone(), state: event.state.clone() };
            }
            i += 1;
        }
        if now >= event.arrived && now - event.arrived < PENDING_TTL_MS && self.pending_hooks.len() < PENDING_CAP {
            self.pending_hooks.push(event);
            HookAction::Parked
        } else {
            HookAction::Dropped
        }
    }

    /// A hook report was recorded for row `i` at `now_ms`: the row reads the
    /// status that state derives to and carries the raw state. The write is
    /// this store's own, so the database's data version does not move and a
    /// refresh would otherwise re-derive from the row before it.
    fn hook_written(&mut self, i: usize, state: &str, now_ms: i64)
        requires
            i < old(self).snapshot().sessions@.len(),
        ensures
            final(self).database() == old(self).database(),
            final(self).data_version() == old(self).data_version(),
            final(self).last_refresh_at() == old(self).last_refresh_at(),
            final(self).pending() == old(self).pending(),
            rows_view(final(self).snapshot().sessions@) == rows_view(old(self).snapshot().sessions@).update(i as int, SessionRowView {
                status: status_at(Some(state@), Some(now_ms), None, now_ms),
                hook_state: Some(state@),
                ..old(self).snapshot().sessions@[i as int]@
            }),
    {
        let mut row = self.current.sessions.remove(i);
        let ghost was = row;
        row.status = derive_status_at(Some(state), Some(now_ms), None, now_ms);
        row.hook_state = Some(state.to_string());
        let ghost now_row = row;
        self.current.sessions.insert(i, row);
        assert(self.current.sessions@ =~= old(self).current.sessions@.update(i as int, now_row));
        assert(rows_view(self.current.sessions@) =~= rows_view(old(self).current.sessions@).update(i as int, now_row@));
    }

    /// The pane of `session`'s companion shell was recorded (or forgotten):
    /// its row carries it.
    fn shell_written(&mut self, session: &str, pane: Option<String>)
        ensures
            final(self).database() == old(self).database(),
            final(self).data_version() == old(self).data_version(),
            final(self).last_refresh_at() == old(self).last_refresh_at(),
            final(self).pending() == old(self).pending(),
            final(self).snapshot().sessions@.len() == old(self).snapshot().sessions@.len(),
            match row_from(old(self).snapshot().sessions@, session@, 0) {
                Some(i) => {
                    &&& final(self).snapshot().sessions@[i]@ == (SessionRowView {
                        shell_backend_id: opt_string(pane),
                        ..old(self).snapshot().sessions@[i]@
                    })
                    &&& forall|k: int| 0 <= k < old(self).snapshot().sessions@.len() && k != i ==> final(self).snapshot().sessions@[k] == old(self).snapshot().sessions@[k]
                },
                None => final(self).snapshot().sessions@ == old(self).snapshot().sessions@,
            },
    {
        proof { lemma_row_from(self.current.sessions@, session@, 0); }
        if let Some(i) = find_row(&self.current.sessions, session) {
            let mut row = self.current.sessions.remove(i);
            let ghost was = row;
            row.shell_backend_id = pane;
            let ghost now_row = row;
            self.current.sessions.insert(i, row);
            assert(self.current.sessions@ =~= old(self).current.sessions@.update(i as int, now_row));
            assert(now_row@ == (SessionRowView { shell_backend_id: opt_string(pane), ..was@ }));
            assert(row_from(old(self).snapshot().sessions@, session@, 0) == Some(i as int));
            assert(was == old(self).snapshot().sessions@[i as int]);
            assert(self.snapshot().sessions@[i as int] == now_row);
            assert forall|k: int| 0 <= k < old(self).snapshot().sessions@.len() && k != i implies self.snapshot().sessions@[k] == old(self).snapshot().sessions@[k] by {
            }
        }
    }
}


/// What the database holds of a session, as read before its companion
/// shell's pane is written.
#[derive(Debug)]
pub enum StoredShell {
    /// The name is not a session id.
    NotAnId,
    /// The read failed, in the database's words.
    Unreadable(String),
    /// No session has that id.
    Missing,
    /// The session, with the shell pane it records, if any.
    Found(Option<String>),
}

/// What writing `pane` as `session`'s shell comes to, once the stored row
/// was read as `stored` and — when it was written — the write answered
/// `wrote`: the error text, or none.
pub open spec fn shell_error(session: Seq<char>, pane: Option<Seq<char>>, stored: StoredShell, wrote: Result<(), String>) -> Option<Seq<char>> {
    match stored {
        StoredShell::NotAnId => Some("not a session id: "@ + session),
        StoredShell::Unreadable(e) => Some("read session: "@ + e@),
        StoredShell::Missing => Some("session not found: "@ + session),
        StoredShell::Found(p) => if opt_string(p) == pane {
            None
        } else {
            match wrote {
                Err(e) => Some("record shell pane: "@ + e@),
                Ok(()) => None,
            }
        },
    }
}

/// Whether a read of `stored` goes on to a write of `pane`.
pub open spec fn shell_changes(pane: Option<Seq<char>>, stored: StoredShell) -> bool {
    stored matches StoredShell::Found(p) && opt_string(p) != pane
}

impl SnapshotStore {
    /// Record — or, with `None`, forget — the pane of `session`'s companion
    /// shell. `read` reads the session's row from the database and `write`
    /// stores it with the new pane; nothing is written when the row already
    /// holds that pane. Once written, the row here carries it at once: the
    /// write is this store's own, so a refresh would otherwise re-read the
    /// row from before it.
    fn write_shell<R: FnOnce() -> StoredShell, W: FnOnce(Option<String>) -> Result<(), String>>(
        &mut self,
        session: &str,
        pane: Option<String>,
        read: R,
        write: W,
    ) -> (r: Result<(), String>)
        requires
            call_requires(read, ()),
            forall|p: Option<String>| call_requires(write, (p,)),
        ensures
            !old(self).database() ==> (r matches Err(e) && e@ == "no database"@ && *final(self) == *old(self)),
            old(self).database() ==> exists|stored: StoredShell, wrote: Result<(), String>|
                #![trigger call_ensures(read, (), stored), shell_error(session@, opt_string(pane), stored, wrote)]
            {
                &&& call_ensures(read, (), stored)
                &&& (shell_changes(opt_string(pane), stored) ==> call_ensures(write, (pane,), wrote))
                &&& match shell_error(session@, opt_string(pane), stored, wrote) {
                    Some(m) => r matches Err(e) && e@ == m,
                    None => r is Ok,
                }
                &&& if shell_changes(opt_string(pane), stored) && wrote is Ok {
                    shell_set(old(self).snapshot().sessions@, final(self).snapshot().sessions@, session@, opt_string(pane))
                } else {
                    *final(self) == *old(self)
                }
            },
            final(self).database() == old(self).database(),
            final(self).data_version() == old(self).data_version(),
            final(self).last_refresh_at() == old(self).last_refresh_at(),
            final(self).pending() == old(self).pending(),
    {
        if !self.has_database {
            proof { reveal_strlit("no database"); }
            return Err(String::from_str("no database"));
        }
        let stored = read();
        let ghost st = stored;
        proof {
            reveal_strlit("not a session id: ");
            reveal_strlit("read session: ");
            reveal_strlit("session not found: ");
            reveal_strlit("record shell pane: ");
        }
        let found = match stored {
            StoredShell::NotAnId => {
                let mut e = String::from_str("not a session id: ");
                crate::text::push_str(&mut e, session);
                assert(shell_error(session@, opt_string(pane), st, Ok(())) == Some(e@));
                return Err(e);
            },
            StoredShell::Unreadable(m) => {
                let mut e = String::from_str("read session: ");
                push_str_of(&mut e, &m);
                assert(shell_error(session@, opt_string(pane), st, Ok(())) == Some(e@));
                return Err(e);
            },
            StoredShell::Missing => {
                let mut e = String::from_str("session not found: ");
                crate::text::push_str(&mut e, session);
                assert(shell_error(session@, opt_string(pane), st, Ok(())) == Some(e@));
                return Err(e);
            },
            StoredShell::Found(p) => p,
        };
        let same = match (&found, &pane) {
            (Some(a), Some(b)) => same_text(a.as_str(), b.as_str()),
            (None, None) => true,
            _ => false,
        };
        if same {
            assert(!shell_changes(opt_string(pane), st));
            assert(shell_error(session@, opt_string(pane), st, Ok(())) is None);
            return Ok(());
        }
        assert(shell_changes(opt_string(pane), st));
        let kept = match &pane {
            Some(p) => Some(p.clone()),
            None => None,
        };
        let wrote = write(kept);
        let ghost w = wrote;
        match wrote {
            Err(m) => {
                let mut e = String::from_str("record shell pane: ");
                push_str_of(&mut e, &m);
                assert(shell_error(session@, opt_string(pane), st, w) == Some(e@));
                return Err(e);
            },
            Ok(()) => {},
        }
        let ghost p = pane;
        self.shell_written(session, pane);
        assert(shell_error(session@, opt_string(p), st, w) is None);
        assert(shell_set(old(self).snapshot().sessions@, self.snapshot().sessions@, session@, opt_string(p)));
        Ok(())
    }

    /// Record the pane of `session`'s companion shell; see
    /// [`SnapshotStore::write_shell`] for `read` and `write`.
    pub fn remember_shell<R: FnOnce() -> StoredShell, W: FnOnce(Option<String>) -> Result<(), String>>(
        &mut self,
        session: &str,
        pane: &str,
        read: R,
        write: W,
    ) -> (r: Result<(), String>)
        requires
            call_requires(read, ()),
            forall|p: Option<String>| call_requires(write, (p,)),
        ensures
            !old(self).database() ==> (r matches Err(e) && e@ == "no database"@ && *final(self) == *old(self)),
            old(self).database() ==> exists|stored: StoredShell, wrote: Result<(), String>, sent: Option<String>|
                #![trigger call_ensures(read, (), stored), shell_error(session@, Some(pane@), stored, wrote), opt_string(sent)]
            {
                &&& call_ensures(read, (), stored)
                &&& opt_string(sent) == Some(pane@)
                &&& (shell_changes(Some(pane@), stored) ==> call_ensures(write, (sent,), wrote))
                &&& match shell_error(session@, Some(pane@), stored, wrote) {
                    Some(m) => r matches Err(e) && e@ == m,
                    None => r is Ok,
                }
                &&& if shell_changes(Some(pane@), stored) && wrote is Ok {
                    shell_set(old(self).snapshot().sessions@, final(self).snapshot().sessions@, session@, Some(pane@))
                } else {
                    *final(self) == *old(self)
                }
            },
    {
        let p = Some(pane.to_string());
        let ghost sent = p;
        assert(opt_string(sent) == Some(pane@));
        let r = self.write_shell(session, p, read, write);
        assert(opt_string(sent) == Some(pane@));
        r
    }

    /// Forget the pane of `session`'s companion shell; see
    /// [`SnapshotStore::write_shell`] for `read` and `write`.
    pub fn forget_shell<R: FnOnce() -> StoredShell, W: FnOnce(Option<String>) -> Result<(), String>>(
        &mut self,
        session: &str,
        read: R,
        write: W,
    ) -> (r: Result<(), String>)
        requires
            call_requires(read, ()),
            forall|p: Option<String>| call_requires(write, (p,)),
        ensures
            !old(self).database() ==> (r matches Err(e) && e@ == "no database"@ && *final(self) == *old(self)),
            old(self).database() ==> exists|stored: StoredShell, wrote: Result<(), String>|
                #![trigger call_ensures(read, (), stored), shell_error(session@, None, stored, wrote)]
            {
                &&& call_ensures(read, (), stored)
                &&& (shell_changes(None, stored) ==> call_ensures(write, (None::<String>,), wrote))
                &&& match shell_error(session@, None, stored, wrote) {
                    Some(m) => r matches Err(e) && e@ == m,
                    None => r is Ok,
                }
                &&& if shell_changes(None, stored) && wrote is Ok {
                    shell_set(old(self).snapshot().sessions@, final(self).snapshot().sessions@, session@, None)
                } else {
                    *final(self) == *old(self)
                }
            },
    {
        assert(opt_string(None::<String>) == None::<Seq<char>>);
        self.write_shell(session, None, read, write)
    }
}

/// `after` is `before` with the first row called `id` carrying `pane` as
/// its shell's, and every other row as it was.
pub open spec fn shell_set(before: Seq<SessionRow>, after: Seq<SessionRow>, id: Seq<char>, pane: Option<Seq<char>>) -> bool {
    &&& after.len() == before.len()
    &&& match row_from(before, id, 0) {
        Some(i) => {
            &&& after[i]@ == (SessionRowView { shell_backend_id: pane, ..before[i]@ })
            &&& forall|k: int| 0 <= k < before.len() && k != i ==> after[k] == before[k]
        },
        None => after == before,
    }
}


/// Where a pass over queued hook reports stands: the rows as they read, the
/// reports parked to be tried again, and how many were applied.
pub struct HookPass {
    pub rows: Seq<SessionRowView>,
    pub parked: Seq<PendingHook>,
    pub applied: nat,
}

/// The write a report asks for in pass `p`, if any: the session in its row
/// and the state, when the state is one a hook may report, a row holds the
/// pane on that backend, and the row does not read that state already.
pub open spec fn hook_write(p: HookPass, e: PendingHook, allowed: Seq<Seq<char>>) -> Option<(int, Seq<char>, Seq<char>)> {
    if !allowed.contains(e.state@) {
        None
    } else {
        match hook_row(p.rows, e.backend@, e.pane@, 0) {
            Some(i) => if p.rows[i].hook_state == Some(e.state@) { None } else { Some((i, p.rows[i].id, e.state@)) },
            None => None,
        }
    }
}

/// One report's effect on the pass at `now` (`now_ms` on the wall clock),
/// given whether its write, if it asked for one, went through. A report for
/// a pane no row holds yet is parked while it is young and there is room.
pub open spec fn hook_step(p: HookPass, e: PendingHook, now: u64, now_ms: i64, allowed: Seq<Seq<char>>, wrote: bool) -> HookPass {
    if !allowed.contains(e.state@) {
        p
    } else {
        match hook_row(p.rows, e.backend@, e.pane@, 0) {
            None => if now >= e.arrived && now - e.arrived < PENDING_TTL_MS && p.parked.len() < PENDING_CAP {
                HookPass { parked: p.parked.push(e), ..p }
            } else {
                p
            },
            Some(i) => if p.rows[i].hook_state == Some(e.state@) || !wrote {
                p
            } else {
                HookPass {
                    rows: p.rows.update(i, SessionRowView {
                        status: status_at(Some(e.state@), Some(now_ms), None, now_ms),
                        hook_state: Some(e.state@),
                        ..p.rows[i]
                    }),
                    applied: p.applied + 1,
                    ..p
                }
            },
        }
    }
}

/// The pass after the first `k` reports of `queue`, the `j`-th write having
/// answered `wrote[j]`.
pub open spec fn hook_pass(p0: HookPass, queue: Seq<PendingHook>, wrote: Seq<bool>, now: u64, now_ms: i64, allowed: Seq<Seq<char>>, k: int) -> HookPass
    decreases k,
{
    if k <= 0 {
        p0
    } else {
        hook_step(hook_pass(p0, queue, wrote, now, now_ms, allowed, k - 1), queue[k - 1], now, now_ms, allowed, wrote[k - 1])
    }
}

/// Whether `write`, handed a session and a state with these texts, could
/// have answered `ok`.
pub open spec fn answered<W: Fn(String, String) -> bool>(write: W, session: Seq<char>, state: Seq<char>, ok: bool) -> bool {
    exists|x: String, y: String| #![trigger call_ensures(write, (x, y), ok)] x@ == session && y@ == state && call_ensures(write, (x, y), ok)
}

/// Whether each write of the pass answered as `wrote` says.
pub open spec fn answers<W: Fn(String, String) -> bool>(write: W, p0: HookPass, queue: Seq<PendingHook>, wrote: Seq<bool>, now: u64, now_ms: i64, allowed: Seq<Seq<char>>) -> bool {
    &&& wrote.len() == queue.len()
    &&& forall|k: int| 0 <= k < queue.len() ==> match #[trigger] hook_write(hook_pass(p0, queue, wrote, now, now_ms, allowed, k), queue[k], allowed) {
        Some((_, session, state)) => answered(write, session, state, wrote[k]),
        None => true,
    }
}

/// A pass's start: the rows as they read, nothing parked, nothing applied.
pub open spec fn hook_start(rows: Seq<SessionRow>) -> HookPass {
    HookPass { rows: rows_view(rows), parked: Seq::empty(), applied: 0 }
}

/// The pass over the whole of `queue`.
pub open spec fn hook_done(p0: HookPass, queue: Seq<PendingHook>, wrote: Seq<bool>, now: u64, now_ms: i64, allowed: Seq<Seq<char>>) -> HookPass {
    hook_pass(p0, queue, wrote, now, now_ms, allowed, queue.len() as int)
}

/// Strings as their texts.
pub open spec fn texts_of(v: Seq<String>) -> Seq<Seq<char>> {
    v.map_values(|s: String| s@)
}

/// The reports as they arrive at `now`: from `backend`, on `pane`, saying
/// `state`.
pub open spec fn arrivals(events: Seq<(String, String, String)>, now: u64) -> Seq<PendingHook> {
    events.map_values(|e: (String, String, String)| PendingHook { backend: e.0, pane: e.1, state: e.2, arrived: now })
}

impl SnapshotStore {
    /// Apply remote agents' hook reports — backend, pane and state each — to
    /// the sessions they name, with the reports parked earlier tried first.
    ///
    /// A remote agent's hooks cannot write this machine's database, so they
    /// arrive as reports instead; landing each in the same place a local
    /// signal writes is what makes a remote session's status work at all.
    /// A report is matched by backend *and* pane, since pane ids collide
    /// across hosts; until that pair exists it is parked, for a while and up
    /// to a bound. Only states in `allowed` are taken — the text comes from
    /// another machine. A report that changes nothing is not written again,
    /// since that would re-stamp an acknowledged turn. `write` records a
    /// session's state in the database and says whether it took; the row then
    /// reads the state at once, `now_ms` being the wall clock. Without a
    /// database nothing happens. Returns how many reports were applied.
    pub fn apply_hook_states<W: Fn(String, String) -> bool>(
        &mut self,
        events: Vec<(String, String, String)>,
        now: u64,
        now_ms: i64,
        allowed: &Vec<String>,
        write: W,
    ) -> (applied: usize)
        requires
            forall|x: String, y: String| call_requires(write, (x, y)),
        ensures
            final(self).database() == old(self).database(),
            final(self).data_version() == old(self).data_version(),
            final(self).last_refresh_at() == old(self).last_refresh_at(),
            !old(self).database() ==> applied == 0 && *final(self) == *old(self),
            old(self).database() ==> exists|wrote: Seq<bool>| {
                &&& #[trigger] answers(write, hook_start(old(self).snapshot().sessions@), old(self).pending() + arrivals(events@, now), wrote, now, now_ms, texts_of(allowed@))
                &&& hook_done(hook_start(old(self).snapshot().sessions@), old(self).pending() + arrivals(events@, now), wrote, now, now_ms, texts_of(allowed@))
                    == (HookPass { rows: rows_view(final(self).snapshot().sessions@), parked: final(self).pending(), applied: applied as nat })
            },
            old(self).database() ==> final(self).pending().len() <= PENDING_CAP,
    {
        if !self.has_database {
            return 0;
        }
        let ghost names = texts_of(allowed@);
        let ghost start = *self;
        let mut queue = self.take_pending_hooks();
        let ghost parked_before = queue@;
        let mut events = events;
        let ghost evs = events@;
        let mut m: usize = 0;
        let n = events.len();
        let mut rest: Vec<(String, String, String)> = Vec::new();
        proof {
            assert(queue@ =~= parked_before + arrivals(evs, now).take(0));
        }
        while events.len() > 0
            invariant
                self.has_database,
                self.last_data_version == start.last_data_version,
                self.last_refresh == start.last_refresh,
                self.current == start.current,
                self.pending_hooks@.len() == 0,
                m + events@.len() == n,
                n == evs.len(),
                events@ == evs.skip(m as int),
                queue@ == parked_before + arrivals(evs, now).take(m as int),
            decreases events.len(),
        {
            let (backend, pane, state) = events.remove(0);
            proof {
                assert(evs[m as int] == (backend, pane, state));
                assert(arrivals(evs, now).take(m + 1) =~= arrivals(evs, now).take(m as int).push(PendingHook { backend, pane, state, arrived: now }));
                assert(events@ =~= evs.skip(m + 1));
            }
            queue.push(PendingHook { backend, pane, state, arrived: now });
            m += 1;
        }
        proof {
            assert(arrivals(evs, now).take(n as int) =~= arrivals(evs, now));
        }
        let ghost full = queue@;
        let ghost p0 = hook_start(start.current.sessions@);
        let ghost mut wrote: Seq<bool> = Seq::empty();
        let mut applied: usize = 0;
        let mut k: usize = 0;
        let total = queue.len();
        while queue.len() > 0
            invariant
                k + queue@.len() == total,
                total == full.len(),
                queue@ == full.skip(k as int),
                wrote.len() == k,
                self.has_database,
                self.last_data_version == start.last_data_version,
                self.last_refresh == start.last_refresh,
                p0 == hook_start(start.current.sessions@),
                names == texts_of(allowed@),
                forall|j: int| 0 <= j < k ==> match #[trigger] hook_write(hook_pass(p0, full, wrote, now, now_ms, names, j), full[j], names) {
                    Some((_, session, state)) => answered(write, session, state, wrote[j]),
                    None => true,
                },
                ({
                    let p = hook_pass(p0, full, wrote, now, now_ms, names, k as int);
                    &&& rows_view(self.current.sessions@) == p.rows
                    &&& self.pending_hooks@ == p.parked
                    &&& applied == p.applied
                }),
                self.pending_hooks@.len() <= PENDING_CAP,
                applied <= k,
                forall|x: String, y: String| call_requires(write, (x, y)),
            decreases queue.len(),
        {
            let e = queue.remove(0);
            let ghost p = hook_pass(p0, full, wrote, now, now_ms, names, k as int);
            proof {
                assert(full[k as int] == e);
                assert(queue@ =~= full.skip(k + 1));
            }
            let ghost ev = e;
            proof { lemma_hook_row(rows_view(self.current.sessions@), e.backend@, e.pane@, 0); }
            let action = self.hook_event(e, now, allowed);
            let mut ok = false;
            match action {
                HookAction::Write { row, session, state } => {
                    let kept = state.clone();
                    ok = write(session, kept);
                    if ok {
                        self.hook_written(row, state.as_str(), now_ms);
                        applied += 1;
                    }
                },
                _ => {},
            }
            proof {
                let w2 = wrote.push(ok);
                assert forall|j: int| 0 <= j <= k implies hook_pass(p0, full, w2, now, now_ms, names, j) == hook_pass(p0, full, wrote, now, now_ms, names, j) by {
                    lemma_pass_prefix(p0, full, wrote, w2, now, now_ms, names, j);
                }
                assert(hook_pass(p0, full, w2, now, now_ms, names, k + 1) == hook_step(p, ev, now, now_ms, names, ok));
                wrote = w2;
            }
            k += 1;
        }
        proof {
            assert(wrote.len() == full.len());
            assert(answers(write, p0, full, wrote, now, now_ms, names));
        }
        applied
    }
}

/// A turn acknowledged is not acknowledged again: once its seen mark is the
/// stamp that was due, nothing more is due.
pub proof fn lemma_a_seen_turn_is_not_acknowledged_again(hook: HookState, at: i64)
    requires
        acknowledgement_spec(hook) == Some(at),
    ensures
        acknowledgement_spec(HookState { seen_at: Some(at), ..hook }) is None,
{
}

/// Rows changed only in their status and hook state still place each pane
/// where they did.
proof fn lemma_hook_row_keeps(rows: Seq<SessionRowView>, i: int, r: SessionRowView, backend: Seq<char>, pane: Seq<char>, k: int)
    requires
        0 <= i < rows.len(),
        0 <= k,
        r.backend == rows[i].backend,
        r.backend_id == rows[i].backend_id,
    ensures
        hook_row(rows.update(i, r), backend, pane, k) == hook_row(rows, backend, pane, k),
    decreases rows.len() - k,
{
    if k < rows.len() {
        lemma_hook_row_keeps(rows, i, r, backend, pane, k + 1);
    }
}

/// A report that was applied is not written again when it comes once more —
/// as it does on every reconnect — so an acknowledged turn is not stamped
/// anew.
pub proof fn lemma_a_repeated_report_is_not_written_again(p: HookPass, e: PendingHook, now: u64, now_ms: i64, allowed: Seq<Seq<char>>)
    requires
        hook_write(p, e, allowed) is Some,
    ensures
        hook_write(hook_step(p, e, now, now_ms, allowed, true), e, allowed) is None,
{
    let i = hook_row(p.rows, e.backend@, e.pane@, 0).unwrap();
    lemma_hook_row(p.rows, e.backend@, e.pane@, 0);
    let q = hook_step(p, e, now, now_ms, allowed, true);
    let r = SessionRowView {
        status: status_at(Some(e.state@), Some(now_ms), None, now_ms),
        hook_state: Some(e.state@),
        ..p.rows[i]
    };
    assert(q.rows == p.rows.update(i, r));
    lemma_hook_row_keeps(p.rows, i, r, e.backend@, e.pane@, 0);
}

/// A pass reads only the answers of the writes made so far.
proof fn lemma_pass_prefix(p0: HookPass, queue: Seq<PendingHook>, a: Seq<bool>, b: Seq<bool>, now: u64, now_ms: i64, allowed: Seq<Seq<char>>, k: int)
    requires
        k <= a.len(),
        k <= b.len(),
        forall|j: int| 0 <= j < k ==> a[j] == b[j],
    ensures
        hook_pass(p0, queue, a, now, now_ms, allowed, k) == hook_pass(p0, queue, b, now, now_ms, allowed, k),
    decreases k,
{
    if k > 0 {
        lemma_pass_prefix(p0, queue, a, b, now, now_ms, allowed, k - 1);
    }
}


/// Git stat jobs — session and directory — as text.
pub open spec fn jobs_view(jobs: Seq<(String, String)>) -> Seq<(Seq<char>, Seq<char>)> {
    jobs.map_values(|j: (String, String)| (j.0@, j.1@))
}

impl SnapshotStore {
    /// Rebuild if the refresh interval has passed at `now` *and* anything
    /// committed; returns whether it rebuilt, and the git stats to compute.
    ///
    /// The interval alone would re-read every table on every tick, on a
    /// database nobody wrote to; the database's data version moves whenever
    /// another connection commits, so an idle store stops reading altogether.
    /// `read_version` reads that version (`None` when the read fails, which
    /// forces a rebuild); `reread` reads it again and then the rows, for the
    /// rebuild. Git stats are attached either way, since they do not come
    /// from the database — but not after a read that failed.
    pub fn refresh_if_due<V: FnOnce() -> Option<i64>, R: FnOnce() -> (Option<i64>, Option<Result<Reads, String>>)>(
        &mut self,
        now: u64,
        taken_at_ms: i64,
        read_version: V,
        reread: R,
    ) -> (r: (bool, Vec<(String, String)>))
        requires
            call_requires(read_version, ()),
            call_requires(reread, ()),
        ensures
            !due_at(old(self).last_refresh_at(), now) ==> !r.0 && r.1@.len() == 0 && *final(self) == *old(self),
            due_at(old(self).last_refresh_at(), now) ==> exists|version: Option<i64>, got: (Option<i64>, Option<Result<Reads, String>>), mid: SnapshotStore|
                #[trigger] refresh_went(*old(self), *final(self), now, taken_at_ms, read_version, reread, version, got, mid, r.0, jobs_view(r.1@)),
    {
        if !self.refresh_due(now) {
            return (false, Vec::new());
        }
        let ghost start = *self;
        let version = if self.has_database { read_version() } else { None };
        if self.rows_are_current(version) {
            self.stamp(now, taken_at_ms);
            let ghost mid = *self;
            let jobs = self.attach_git_stats(now);
            let ghost got: (Option<i64>, Option<Result<Reads, String>>) = (None, None);
            let r = (false, jobs);
            assert(start == *old(self));
            assert(refresh_went(*old(self), *self, now, taken_at_ms, read_version, reread, version, got, mid, r.0, jobs_view(r.1@)));
            return r;
        }
        let got = reread();
        let ghost g = got;
        let (v, reads) = got;
        let ok = match &reads {
            Some(Ok(_)) => true,
            _ => false,
        };
        self.refresh(v, reads, now, taken_at_ms);
        let ghost mid = *self;
        if ok {
            let jobs = self.attach_git_stats(now);
            let r = (true, jobs);
            assert(start == *old(self));
            assert(refresh_went(*old(self), *self, now, taken_at_ms, read_version, reread, version, g, mid, r.0, jobs_view(r.1@)));
            r
        } else {
            let jobs: Vec<(String, String)> = Vec::new();
            assert(jobs_view(jobs@) =~= Seq::<(Seq<char>, Seq<char>)>::empty());
            let r = (true, jobs);
            assert(start == *old(self));
            assert(refresh_went(*old(self), *self, now, taken_at_ms, read_version, reread, version, g, mid, r.0, jobs_view(r.1@)));
            r
        }
    }
}


/// A session with a worktree is labelled by its first worktree's repository
/// directory, whatever its working directory is, and is on that worktree's
/// branch; a session without one is labelled by the last component of its
/// working directory (no label without that either) and has no branch.
pub proof fn lemma_a_worktree_names_the_repo(st: StoredSession, hook: Option<HookState>, base: Option<Seq<char>>, now: i64)
    ensures
        st.worktrees@.len() > 0 ==> session_row_spec(st, hook, base, now).repo == path_leaf(st.worktrees@[0].repo_path@),
        st.worktrees@.len() > 0 ==> session_row_spec(st, hook, base, now).branch == Some(st.worktrees@[0].branch@),
        st.worktrees@.len() == 0 ==> session_row_spec(st, hook, base, now).branch is None,
        st.worktrees@.len() == 0 ==> session_row_spec(st, hook, base, now).repo == match st.cwd {
            Some(c) => path_leaf(c@),
            None => None,
        },
{
}
} // verus!
