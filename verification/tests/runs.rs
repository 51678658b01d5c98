use thurbox_kernel::runs::{
    Ask, Finished, Output, Run, RunStore, DEFAULT_TIMEOUT_MS, DEFAULT_TTL_MS, MAX_CONCURRENT, MAX_TIMEOUT_MS, MIN_TTL_MS,
};

fn ask(key: &str) -> Ask {
    Ask {
        key: key.to_string(),
        program: "echo hi".to_string(),
        session: "s".to_string(),
        ttl_ms: DEFAULT_TTL_MS,
        timeout_ms: DEFAULT_TIMEOUT_MS,
        refresh: false,
    }
}

fn ok() -> Run {
    Run::Done(Output {
        stdout: "ok\n".into(),
        stderr: String::new(),
        status: Some(0),
        truncated: false,
        timed_out: false,
    })
}

/// Start whatever the store lets start and hand each back finished at `at`.
fn run_all(store: &mut RunStore, at: u64) -> usize {
    let mut ran = 0;
    loop {
        let started = store.drain_queue();
        if started.is_empty() {
            return ran;
        }
        ran += started.len();
        let finished = started
            .into_iter()
            .map(|(plugin, ask)| Finished { plugin, key: ask.key, run: ok(), at })
            .collect();
        store.poll(finished);
    }
}

#[test]
fn what_a_plugin_asked_for_is_clamped_to_what_the_kernel_will_do() {
    let greedy = Ask {
        ttl_ms: 0,
        timeout_ms: 86_400_000,
        ..ask("k")
    }
    .clamped();
    assert_eq!(greedy.ttl_ms, MIN_TTL_MS);
    assert_eq!(greedy.timeout_ms, MAX_TIMEOUT_MS);
}

#[test]
fn a_fresh_answer_is_not_run_again() {
    let mut store = RunStore::new();
    store.request("p", ask("k"), 0);
    assert_eq!(run_all(&mut store, 0), 1);
    for _ in 0..10 {
        store.request("p", ask("k"), 10);
    }
    assert_eq!(run_all(&mut store, 10), 0);
}

#[test]
fn a_stale_answer_is_run_again_and_the_old_one_stays_readable() {
    let mut store = RunStore::new();
    let mut first = ask("k");
    first.ttl_ms = MIN_TTL_MS;
    store.request("p", first.clone(), 0);
    run_all(&mut store, 0);
    assert!(matches!(store.get("p", "k"), Some(Run::Done(_))));

    assert!(store.request("p", first, MIN_TTL_MS + 20));
    assert!(matches!(store.get("p", "k"), Some(Run::Done(_))));
    assert_eq!(run_all(&mut store, MIN_TTL_MS + 20), 1);
}

#[test]
fn asking_repeatedly_while_a_refresh_is_in_flight_starts_one_run() {
    let mut store = RunStore::new();
    let mut first = ask("k");
    first.ttl_ms = MIN_TTL_MS;
    store.request("p", first.clone(), 0);
    run_all(&mut store, 0);
    let later = MIN_TTL_MS + 20;
    assert!(store.request("p", first.clone(), later));
    for _ in 0..50 {
        assert!(!store.request("p", first.clone(), later + 1));
    }
    assert_eq!(store.drain_queue().len(), 1);
}

#[test]
fn a_refresh_overrides_freshness() {
    let mut store = RunStore::new();
    store.request("p", ask("k"), 0);
    run_all(&mut store, 0);
    let again = Ask { refresh: true, ..ask("k") };
    assert!(store.request("p", again, 1));
}

#[test]
fn two_plugins_may_use_the_same_key() {
    let mut store = RunStore::new();
    assert!(store.request("a", ask("status"), 0));
    assert!(store.request("b", ask("status"), 0));
    assert_eq!(run_all(&mut store, 0), 2);
    assert!(store.get("a", "status").is_some());
    assert!(store.get("b", "status").is_some());
}

#[test]
fn more_asks_than_the_bound_are_queued_and_all_run() {
    let mut store = RunStore::new();
    for i in 0..(MAX_CONCURRENT + 3) {
        store.request("p", ask(&format!("k{i}")), 0);
    }
    let first = store.drain_queue();
    assert_eq!(first.len(), MAX_CONCURRENT);
    assert_eq!(store.running(), MAX_CONCURRENT);
    let finished = first
        .into_iter()
        .map(|(plugin, ask)| Finished { plugin, key: ask.key, run: ok(), at: 0 })
        .collect();
    store.poll(finished);
    assert_eq!(run_all(&mut store, 0), 3);
}

#[test]
fn a_plugin_that_went_away_leaves_nothing_behind() {
    let mut store = RunStore::new();
    store.request("gone", ask("k"), 0);
    store.request("still-here", ask("k"), 0);
    run_all(&mut store, 0);
    store.retain_plugins(&vec!["still-here".to_string()]);
    assert!(store.get("gone", "k").is_none());
    assert!(store.get("still-here", "k").is_some());
}

#[test]
fn a_pending_run_reads_pending() {
    let mut store = RunStore::new();
    store.request("p", ask("k"), 0);
    assert_eq!(store.get("p", "k"), Some(&Run::Pending));
    assert!(!store.is_empty());
}

#[test]
fn a_store_once_asked_is_never_empty_again() {
    let mut store = RunStore::new();
    assert!(store.is_empty());
    assert!(store.request("p", ask("k"), 0));
    store.retain_plugins(&Vec::new());
    assert!(store.get("p", "k").is_none());
    assert!(!store.is_empty(), "it answers whether anything was ever asked");
}
