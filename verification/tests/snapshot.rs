use std::time::{SystemTime, UNIX_EPOCH};

use std::cell::RefCell;

use thurbox_kernel::snapshot::{
    derive_status, derive_status_at, remote_host_of, repo_name, session_members, with_reachability, HookState,
    Reads, SharedWorktree, SnapshotStore, StoredSession, StoredShell,
};

fn now_ms() -> i64 {
    SystemTime::now()
        .duration_since(UNIX_EPOCH)
        .map(|d| d.as_millis() as i64)
        .unwrap_or(0)
}

fn empty_reads() -> Reads {
    Reads {
        sessions: Vec::new(),
        hooks: Vec::new(),
        bases: Vec::new(),
        deleted: Vec::new(),
        tasks: Vec::new(),
        automations: Vec::new(),
    }
}

/// A store over an empty database, rebuilt once, as opening one does.
fn store_over_empty_database() -> SnapshotStore {
    let mut store = SnapshotStore::new(true, None, Vec::new(), "aider".to_string(), Vec::new());
    store.refresh(Some(1), Some(Ok(empty_reads())), 0, now_ms());
    store
}

#[test]
fn an_unreported_session_is_idle() {
    assert_eq!(derive_status(None, None, None), "idle");
    assert_eq!(derive_status(Some("unknown"), None, None), "idle");
}

#[test]
fn a_fresh_working_state_is_working() {
    let now = now_ms();
    assert_eq!(derive_status(Some("working"), Some(now), None), "working");
}

#[test]
fn a_stale_working_state_falls_back_to_idle() {
    let long_ago = now_ms() - 60_000;
    assert_eq!(derive_status(Some("working"), Some(long_ago), None), "idle");
}

#[test]
fn blocked_is_never_time_gated() {
    let long_ago = now_ms() - 600_000;
    assert_eq!(derive_status(Some("blocked"), Some(long_ago), None), "blocked");
}

#[test]
fn done_stays_done_until_acknowledged() {
    let at = now_ms();
    assert_eq!(derive_status(Some("done"), Some(at), None), "done");
    assert_eq!(derive_status(Some("done"), Some(at), Some(at - 1)), "done");
    assert_eq!(derive_status(Some("done"), Some(at), Some(at)), "idle");
}

#[test]
fn a_remote_backend_yields_its_host_name() {
    assert_eq!(remote_host_of("ssh:devbox").as_deref(), Some("devbox"));
    assert_eq!(remote_host_of("wsl:Ubuntu").as_deref(), Some("Ubuntu"));
    assert_eq!(remote_host_of("local-tmux"), None);
}

#[test]
fn a_repo_label_prefers_the_worktree_repo() {
    let cwd = Some("/tmp/worktrees/feature-x".to_string());
    let repo = "/home/me/src/thurbox".to_string();
    assert_eq!(repo_name(&cwd, Some(&repo)).as_deref(), Some("thurbox"));
    assert_eq!(repo_name(&cwd, None).as_deref(), Some("feature-x"));
    assert_eq!(repo_name(&None, None), None);
}

#[test]
fn an_in_memory_database_yields_an_empty_but_stamped_snapshot() {
    let store = store_over_empty_database();
    let snapshot = store.current();
    assert!(snapshot.sessions.is_empty());
    assert!(snapshot.taken_at_ms > 0, "snapshot must carry its instant");
    assert!(snapshot.error.is_none(), "{:?}", snapshot.error);
}

#[test]
fn a_read_is_immediate_and_repeatable() {
    let store = store_over_empty_database();
    for _ in 0..1000 {
        assert!(store.current().sessions.is_empty());
    }
}

#[test]
fn a_reachable_session_keeps_the_status_its_hooks_reported() {
    assert_eq!(with_reachability("working", "ssh:devbox", None), "working");
    assert_eq!(with_reachability("done", "local-tmux", None), "done");
}

#[test]
fn a_remote_session_with_no_pane_is_unreachable() {
    assert_eq!(with_reachability("idle", "ssh:devbox", Some("host unreachable")), "unreachable");
    assert_eq!(with_reachability("working", "wsl:ubuntu", Some("connect timed out")), "unreachable");
}

#[test]
fn a_local_session_without_a_pane_is_not_unreachable() {
    assert_eq!(with_reachability("idle", "local-tmux", Some("session has no pane yet")), "idle");
}

#[test]
fn a_single_repo_session_has_one_member_at_its_cwd() {
    let members = session_members(Some("/src/thurbox"), &[], &[]);
    assert_eq!(members, vec![(Some("thurbox".to_string()), "/src/thurbox".to_string())]);
}

#[test]
fn a_member_is_named_for_its_repository_but_points_at_its_checkout() {
    let worktrees = vec![SharedWorktree {
        repo_path: "/src/thurbox".to_string(),
        worktree_path: "/worktrees/fix-osc52".to_string(),
        branch: "fix/osc52".into(),
    }];
    let members = session_members(Some("/src/thurbox"), &worktrees, &[]);
    assert_eq!(members, vec![(Some("thurbox".to_string()), "/worktrees/fix-osc52".to_string())]);
}

#[test]
fn every_repository_of_a_multi_repo_session_is_a_member() {
    let worktrees = vec![
        SharedWorktree {
            repo_path: "/src/a".to_string(),
            worktree_path: "/worktrees/a".to_string(),
            branch: "feat/x".into(),
        },
        SharedWorktree {
            repo_path: "/src/b".to_string(),
            worktree_path: "/worktrees/b".to_string(),
            branch: "feat/x".into(),
        },
    ];
    let extra = vec!["/worktrees/a".to_string(), "/reference".to_string()];
    let members = session_members(None, &worktrees, &extra);
    let dirs: Vec<String> = members.into_iter().map(|(_, path)| path).collect();
    assert_eq!(
        dirs,
        vec!["/worktrees/a".to_string(), "/worktrees/b".to_string(), "/reference".to_string()]
    );
}

#[test]
fn a_status_is_derived_at_the_instant_it_is_asked_for() {
    assert_eq!(derive_status_at(Some("working"), Some(1_000), None, 5_000), "working");
    assert_eq!(derive_status_at(Some("working"), Some(1_000), None, 11_001), "idle");
}

fn stored(id: &str, backend: &str, pane: &str) -> StoredSession {
    StoredSession {
        id: id.to_string(),
        name: id.to_string(),
        agent: "aider".to_string(),
        cwd: None,
        worktrees: Vec::new(),
        additional_dirs: Vec::new(),
        backend_type: backend.to_string(),
        backend_id: pane.to_string(),
        agent_session_id: None,
        parent_session_id: None,
        display_order: None,
        shell_backend_id: None,
    }
}

fn hook(state: &str, state_at: i64, seen_at: Option<i64>) -> HookState {
    HookState { state: Some(state.to_string()), state_at: Some(state_at), seen_at }
}

/// A store whose rows are `sessions`, with their hooks, read at `now`.
fn store_with(sessions: Vec<StoredSession>, hooks: Vec<(String, HookState)>, now: i64) -> SnapshotStore {
    let mut store = SnapshotStore::new(true, None, Vec::new(), "aider".to_string(), Vec::new());
    let reads = Reads { sessions, hooks, ..empty_reads() };
    store.refresh(Some(1), Some(Ok(reads)), 0, now);
    store
}

fn status_of(store: &SnapshotStore, id: &str) -> String {
    store.current().session(id).expect("row").status.clone()
}

fn allowed() -> Vec<String> {
    ["working", "blocked", "done", "idle"].iter().map(|s| s.to_string()).collect()
}

#[test]
fn leaving_a_finished_turn_marks_it_seen_and_the_row_reads_idle() {
    let h = hook("done", 1_000, None);
    let mut store = store_with(vec![stored("s", "local-tmux", "%1")], vec![("s".to_string(), h.clone())], 2_000);
    assert_eq!(status_of(&store, "s"), "done");
    let seen = RefCell::new(None);
    assert!(store.acknowledge("s", Some(&h), |at| {
        *seen.borrow_mut() = Some(at);
        true
    }));
    assert_eq!(*seen.borrow(), Some(1_000), "the seen mark is the turn's own stamp");
    assert_eq!(status_of(&store, "s"), "idle");
}

#[test]
fn a_turn_already_seen_or_not_done_is_not_written_again() {
    let seen = hook("done", 1_000, Some(1_000));
    let working = hook("working", 1_000, None);
    let mut store = store_with(vec![stored("s", "local-tmux", "%1")], Vec::new(), 2_000);
    let calls = RefCell::new(0);
    assert!(!store.acknowledge("s", Some(&seen), |_| {
        *calls.borrow_mut() += 1;
        true
    }));
    assert!(!store.acknowledge("s", Some(&working), |_| {
        *calls.borrow_mut() += 1;
        true
    }));
    assert!(!store.acknowledge("s", None, |_| {
        *calls.borrow_mut() += 1;
        true
    }));
    assert_eq!(*calls.borrow(), 0);
}

#[test]
fn a_failed_seen_write_leaves_the_turn_done() {
    let h = hook("done", 1_000, None);
    let mut store = store_with(vec![stored("s", "local-tmux", "%1")], vec![("s".to_string(), h.clone())], 2_000);
    assert!(!store.acknowledge("s", Some(&h), |_| false));
    assert_eq!(status_of(&store, "s"), "done");
}

#[test]
fn without_a_database_nothing_is_acknowledged() {
    let mut store = SnapshotStore::new(false, None, Vec::new(), "aider".to_string(), Vec::new());
    assert!(!store.acknowledge("s", Some(&hook("done", 1, None)), |_| true));
}

#[test]
fn a_remote_report_lands_on_the_pane_it_names() {
    let mut store = store_with(
        vec![stored("a", "ssh:one", "%1"), stored("b", "ssh:two", "%1")],
        Vec::new(),
        2_000,
    );
    let written = RefCell::new(Vec::new());
    let applied = store.apply_hook_states(
        vec![("ssh:two".to_string(), "%1".to_string(), "blocked".to_string())],
        0,
        5_000,
        &allowed(),
        |session, state| {
            written.borrow_mut().push((session, state));
            true
        },
    );
    assert_eq!(applied, 1);
    assert_eq!(*written.borrow(), vec![("b".to_string(), "blocked".to_string())]);
    assert_eq!(status_of(&store, "b"), "blocked");
    assert_eq!(store.current().session("b").unwrap().hook_state.as_deref(), Some("blocked"));
    assert_eq!(status_of(&store, "a"), "idle");
}

#[test]
fn an_unknown_state_or_an_unchanged_one_is_not_written() {
    let mut store = store_with(
        vec![stored("a", "ssh:one", "%1")],
        vec![("a".to_string(), hook("working", 1_900, None))],
        2_000,
    );
    let calls = RefCell::new(0);
    let applied = store.apply_hook_states(
        vec![
            ("ssh:one".to_string(), "%1".to_string(), "rm -rf".to_string()),
            ("ssh:one".to_string(), "%1".to_string(), "working".to_string()),
        ],
        0,
        5_000,
        &allowed(),
        |_, _| {
            *calls.borrow_mut() += 1;
            true
        },
    );
    assert_eq!(applied, 0);
    assert_eq!(*calls.borrow(), 0);
}

fn adopt(store: &mut SnapshotStore, pane: &str, now: u64) {
    let reads = Reads { sessions: vec![stored("a", "ssh:one", pane)], ..empty_reads() };
    store.refresh(Some(2), Some(Ok(reads)), now, 6_000);
}

#[test]
fn a_report_for_a_pane_not_yet_adopted_waits_for_it() {
    let mut store = store_with(vec![stored("a", "ssh:one", "%1")], Vec::new(), 2_000);
    let early = vec![("ssh:one".to_string(), "%9".to_string(), "done".to_string())];
    assert_eq!(store.apply_hook_states(early, 1_000, 5_000, &allowed(), |_, _| true), 0);
    assert_eq!(store.apply_hook_states(Vec::new(), 60_000, 5_000, &allowed(), |_, _| true), 0);
    adopt(&mut store, "%9", 60_000);
    assert_eq!(store.apply_hook_states(Vec::new(), 61_000, 7_000, &allowed(), |_, _| true), 1);
    assert_eq!(status_of(&store, "a"), "done");
}

#[test]
fn a_parked_report_past_its_time_is_dropped() {
    let mut store = store_with(vec![stored("a", "ssh:one", "%1")], Vec::new(), 2_000);
    let early = vec![("ssh:one".to_string(), "%9".to_string(), "done".to_string())];
    assert_eq!(store.apply_hook_states(early, 1_000, 5_000, &allowed(), |_, _| true), 0);
    assert_eq!(store.apply_hook_states(Vec::new(), 121_000, 5_000, &allowed(), |_, _| true), 0);
    adopt(&mut store, "%9", 121_000);
    assert_eq!(store.apply_hook_states(Vec::new(), 122_000, 7_000, &allowed(), |_, _| true), 0);
    assert_eq!(status_of(&store, "a"), "idle");
}

#[test]
fn a_failed_write_applies_nothing() {
    let mut store = store_with(vec![stored("a", "ssh:one", "%1")], Vec::new(), 2_000);
    let applied = store.apply_hook_states(
        vec![("ssh:one".to_string(), "%1".to_string(), "done".to_string())],
        0,
        5_000,
        &allowed(),
        |_, _| false,
    );
    assert_eq!(applied, 0);
    assert_eq!(status_of(&store, "a"), "idle");
}

#[test]
fn a_shell_pane_is_recorded_and_forgotten_through_the_row() {
    let mut store = store_with(vec![stored("a", "local-tmux", "%1")], Vec::new(), 2_000);
    let writes = RefCell::new(Vec::new());
    let r = store.remember_shell("a", "%7", || StoredShell::Found(None), |pane| {
        writes.borrow_mut().push(pane);
        Ok(())
    });
    assert_eq!(r, Ok(()));
    assert_eq!(store.current().session("a").unwrap().shell_backend_id.as_deref(), Some("%7"));
    // Already recorded: nothing is written.
    let r = store.remember_shell("a", "%7", || StoredShell::Found(Some("%7".to_string())), |pane| {
        writes.borrow_mut().push(pane);
        Ok(())
    });
    assert_eq!(r, Ok(()));
    let r = store.forget_shell("a", || StoredShell::Found(Some("%7".to_string())), |pane| {
        writes.borrow_mut().push(pane);
        Ok(())
    });
    assert_eq!(r, Ok(()));
    assert_eq!(store.current().session("a").unwrap().shell_backend_id, None);
    assert_eq!(*writes.borrow(), vec![Some("%7".to_string()), None]);
}

#[test]
fn each_way_a_shell_write_can_fail_says_so() {
    let mut store = store_with(vec![stored("a", "local-tmux", "%1")], Vec::new(), 2_000);
    assert_eq!(
        store.remember_shell("x", "%7", || StoredShell::NotAnId, |_| Ok(())),
        Err("not a session id: x".to_string())
    );
    assert_eq!(
        store.remember_shell("a", "%7", || StoredShell::Unreadable("locked".to_string()), |_| Ok(())),
        Err("read session: locked".to_string())
    );
    assert_eq!(
        store.remember_shell("a", "%7", || StoredShell::Missing, |_| Ok(())),
        Err("session not found: a".to_string())
    );
    assert_eq!(
        store.remember_shell("a", "%7", || StoredShell::Found(None), |_| Err("disk full".to_string())),
        Err("record shell pane: disk full".to_string())
    );
    assert_eq!(store.current().session("a").unwrap().shell_backend_id, None);
    let mut none = SnapshotStore::new(false, None, Vec::new(), "aider".to_string(), Vec::new());
    assert_eq!(none.forget_shell("a", || StoredShell::Missing, |_| Ok(())), Err("no database".to_string()));
}

#[test]
fn a_refresh_waits_out_its_interval() {
    let mut store = store_with(vec![stored("a", "local-tmux", "%1")], Vec::new(), 2_000);
    let (rebuilt, jobs) = store.refresh_if_due(100, 3_000, || panic!("not read before the interval"), || panic!("not re-read"));
    assert!(!rebuilt);
    assert!(jobs.is_empty());
    assert_eq!(store.current().taken_at_ms, 2_000);
}

#[test]
fn an_idle_database_is_stamped_rather_than_re_read() {
    let mut with_dir = stored("a", "local-tmux", "%1");
    with_dir.cwd = Some("/work/a".to_string());
    let mut store = store_with(vec![with_dir], Vec::new(), 2_000);
    let (rebuilt, jobs) = store.refresh_if_due(400, 3_000, || Some(1), || panic!("nothing committed"));
    assert!(!rebuilt);
    assert_eq!(store.current().taken_at_ms, 3_000);
    assert_eq!(jobs, vec![("a".to_string(), "/work/a".to_string())], "git stats are asked for either way");
}

#[test]
fn a_commit_elsewhere_rebuilds_the_rows() {
    let mut store = store_with(vec![stored("a", "local-tmux", "%1")], Vec::new(), 2_000);
    let (rebuilt, _) = store.refresh_if_due(400, 3_000, || Some(2), || {
        let reads = Reads { sessions: vec![stored("a", "local-tmux", "%1"), stored("b", "local-tmux", "%2")], ..empty_reads() };
        (Some(2), Some(Ok(reads)))
    });
    assert!(rebuilt);
    assert_eq!(store.current().sessions.len(), 2);
    // Now current at version two: the next due tick only stamps.
    let (again, _) = store.refresh_if_due(800, 4_000, || Some(2), || panic!("nothing committed"));
    assert!(!again);
}

#[test]
fn a_failed_read_keeps_the_rows_and_says_why() {
    let mut store = store_with(vec![stored("a", "local-tmux", "%1")], Vec::new(), 2_000);
    let (rebuilt, jobs) = store.refresh_if_due(400, 3_000, || None, || (None, Some(Err("database is locked".to_string()))));
    assert!(rebuilt);
    assert!(jobs.is_empty());
    assert_eq!(store.current().sessions.len(), 1);
    assert_eq!(store.current().error.as_deref(), Some("list sessions: database is locked"));
}

#[test]
fn a_report_repeated_on_reconnect_is_not_written_again() {
    let mut store = store_with(vec![stored("a", "ssh:one", "%1")], Vec::new(), 2_000);
    let report = || vec![("ssh:one".to_string(), "%1".to_string(), "done".to_string())];
    let calls = RefCell::new(0);
    let write = |_: String, _: String| {
        *calls.borrow_mut() += 1;
        true
    };
    assert_eq!(store.apply_hook_states(report(), 0, 5_000, &allowed(), &write), 1);
    assert_eq!(store.apply_hook_states(report(), 0, 6_000, &allowed(), &write), 0);
    assert_eq!(*calls.borrow(), 1);
}
