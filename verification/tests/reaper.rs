use thurbox_kernel::reaper::{Reaper, UNDO_WINDOW_MS};
use thurbox_kernel::snapshot::{SessionRow, Snapshot};

fn row(id: &str) -> SessionRow {
    SessionRow {
        id: id.into(),
        name: id.into(),
        agent: "aider".into(),
        status: "idle".into(),
        cwd: None,
        repo: None,
        repos: Vec::new(),
        branch: None,
        base_branch: None,
        backend: "local-tmux".into(),
        backend_id: Some("%1".into()),
        remote_host: None,
        agent_session_id: None,
        parent_id: None,
        display_order: None,
        worktree_count: 0,
        git: None,
        hook_state: None,
        shell_backend_id: None,
        member_dirs: Vec::new(),
    }
}

fn snap(ids: &[&str]) -> Snapshot {
    Snapshot {
        sessions: ids.iter().map(|id| row(id)).collect(),
        ..Snapshot::default()
    }
}

const START: u64 = 1_000_000;

#[test]
fn a_session_that_is_present_is_never_reaped() {
    let mut reaper = Reaper::default();
    let start = START;
    assert!(reaper.observe(&snap(&["a"]), start).is_empty());
    assert!(reaper.observe(&snap(&["a"]), start + UNDO_WINDOW_MS * 10).is_empty());
}

#[test]
fn one_that_left_is_reaped_once_its_undo_window_closes() {
    let mut reaper = Reaper::default();
    let start = START;
    reaper.observe(&snap(&["a"]), start);
    assert!(reaper.observe(&snap(&[]), start).is_empty());
    assert!(reaper.observe(&snap(&[]), start + UNDO_WINDOW_MS - 1000).is_empty());
    assert_eq!(reaper.observe(&snap(&[]), start + UNDO_WINDOW_MS), vec!["a".to_string()]);
}

#[test]
fn it_is_reaped_once_and_not_again() {
    let mut reaper = Reaper::default();
    let start = START;
    reaper.observe(&snap(&["a"]), start);
    reaper.observe(&snap(&[]), start);
    assert_eq!(reaper.observe(&snap(&[]), start + UNDO_WINDOW_MS).len(), 1);
    assert!(reaper.observe(&snap(&[]), start + UNDO_WINDOW_MS * 2).is_empty());
}

#[test]
fn coming_back_cancels_the_reap() {
    let mut reaper = Reaper::default();
    let start = START;
    reaper.observe(&snap(&["a"]), start);
    reaper.observe(&snap(&[]), start);
    reaper.observe(&snap(&["a"]), start + 1000);
    assert!(reaper.observe(&snap(&["a"]), start + UNDO_WINDOW_MS * 2).is_empty());
}

#[test]
fn a_session_never_seen_alive_is_not_reaped() {
    let mut reaper = Reaper::default();
    let start = START;
    assert!(reaper.observe(&snap(&[]), start).is_empty());
    assert!(reaper.observe(&snap(&[]), start + UNDO_WINDOW_MS * 2).is_empty());
}

#[test]
fn each_session_carries_its_own_deadline() {
    let mut reaper = Reaper::default();
    let start = START;
    reaper.observe(&snap(&["a", "b"]), start);
    reaper.observe(&snap(&["b"]), start);
    let later = start + 5000;
    reaper.observe(&snap(&[]), later);

    assert_eq!(
        reaper.observe(&snap(&[]), start + UNDO_WINDOW_MS),
        vec!["a".to_string()],
        "b's window closes five seconds after a's"
    );
    assert_eq!(reaper.observe(&snap(&[]), later + UNDO_WINDOW_MS), vec!["b".to_string()]);
}
