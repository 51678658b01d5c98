use thurbox_kernel::agent_meta::{sync_meta, sync_printing, AgentMeta};

fn meta(activity: Option<&str>, notification: Option<&str>) -> AgentMeta {
    AgentMeta {
        activity: activity.map(|s| s.to_string()),
        notification: notification.map(|s| s.to_string()),
    }
}

fn entry<'a>(v: &'a [(String, AgentMeta)], id: &str) -> Option<&'a AgentMeta> {
    v.iter().find(|e| e.0 == id).map(|e| &e.1)
}

#[test]
fn a_fresh_title_is_kept_and_counts_as_a_change() {
    let mut held: Vec<(String, AgentMeta)> = Vec::new();
    let reports = vec![("a".to_string(), Some(meta(Some("editing main.rs"), None)))];
    assert!(sync_meta(&mut held, &reports));
    assert_eq!(entry(&held, "a"), Some(&meta(Some("editing main.rs"), None)));
}

#[test]
fn the_same_report_again_changes_nothing() {
    let mut held = vec![("a".to_string(), meta(Some("thinking"), Some("needs you")))];
    let reports = vec![("a".to_string(), Some(meta(Some("thinking"), Some("needs you"))))];
    assert!(!sync_meta(&mut held, &reports));
    assert_eq!(held.len(), 1);
}

#[test]
fn an_empty_first_report_is_no_change() {
    let mut held: Vec<(String, AgentMeta)> = Vec::new();
    let reports = vec![("a".to_string(), Some(AgentMeta::default()))];
    assert!(!sync_meta(&mut held, &reports));
    assert_eq!(entry(&held, "a"), Some(&AgentMeta::default()));
}

#[test]
fn a_session_that_went_away_keeps_no_stale_title() {
    let mut held = vec![
        ("a".to_string(), meta(Some("old"), None)),
        ("b".to_string(), meta(None, Some("done"))),
    ];
    let reports = vec![("b".to_string(), None)];
    assert!(sync_meta(&mut held, &reports));
    assert_eq!(entry(&held, "a"), None);
    assert_eq!(entry(&held, "b"), Some(&meta(None, Some("done"))), "nothing new keeps what was held");
}

#[test]
fn the_printing_signal_moves_only_when_the_set_changes() {
    let mut printing: Vec<String> = Vec::new();
    let mut version = 0u64;
    let idle = vec![("a".to_string(), 100), ("b".to_string(), 5_000)];
    sync_printing(&mut printing, &mut version, &idle, 1_500);
    assert_eq!(printing, vec!["a".to_string()]);
    assert_eq!(version, 1);
    let later = vec![("b".to_string(), 6_000), ("a".to_string(), 40)];
    sync_printing(&mut printing, &mut version, &later, 1_500);
    assert_eq!(version, 1, "the same sessions printing: nothing moved");
    sync_printing(&mut printing, &mut version, &Vec::new(), 1_500);
    assert!(printing.is_empty());
    assert_eq!(version, 2);
    let mut top = u64::MAX;
    sync_printing(&mut printing, &mut top, &idle, 1_500);
    assert_eq!(top, 0, "the signal wraps");
}
