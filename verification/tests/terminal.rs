use thurbox_kernel::programs::{
    admit_program, is_program_surface, program_count, program_key, stale_program_keys, 
    validate_program_name, ProgramKey, MAX_PROGRAMS_PER_PLUGIN,
};

#[test]
fn terminal_a_program_surface_is_told_from_a_session_surface() {
    let key = ProgramKey::new("plugins/90_watch.lua", "watch");
    assert!(is_program_surface(&key.surface_id()));
    for not_a_program in [
        "5f9c1f6e-1b2a-4c3d-8e9f-0a1b2c3d4e5f",
        "5f9c1f6e-1b2a-4c3d-8e9f-0a1b2c3d4e5f#shell",
        "",
    ] {
        assert!(!is_program_surface(not_a_program), "{not_a_program:?}");
    }
}

#[test]
fn terminal_a_program_surface_resolves_by_lookup_not_by_splitting() {
    let keys: Vec<ProgramKey> = Vec::new();
    let key = ProgramKey::new("plugins/90_watch.lua", "watch");
    assert!(program_key(&keys, &key.surface_id()).is_none());
    assert!(program_key(&keys, "not-a-program").is_none());
}

#[test]
fn terminal_a_program_pane_name_is_checked_when_it_is_asked_for() {
    for good in ["watch", "top-2", "my_pane", "a1"] {
        assert!(validate_program_name(good).is_ok(), "{good}");
    }
    for bad in ["", "watch#2", "a b", "../x", "hé"] {
        assert!(validate_program_name(bad).is_err(), "{bad:?}");
    }
}

#[test]
fn terminal_a_plugin_may_not_hold_unbounded_panes() {
    for held in 0..MAX_PROGRAMS_PER_PLUGIN {
        assert!(admit_program("plugins/90_watch.lua", held, "watch").is_ok(), "{held} should be admitted");
    }
    let refused = admit_program("plugins/90_watch.lua", MAX_PROGRAMS_PER_PLUGIN, "watch").expect_err("the limit is a limit");
    assert!(refused.contains("90_watch.lua"), "{refused}");
    assert!(refused.contains(&MAX_PROGRAMS_PER_PLUGIN.to_string()), "{refused}");
}

#[test]
fn terminal_a_pane_with_no_program_named_is_refused() {
    assert!(admit_program("plugins/90_watch.lua", 0, "   ").is_err());
    assert!(admit_program("plugins/90_watch.lua", 0, "").is_err());
}

#[test]
fn terminal_an_absent_program_pane_accepts_nothing_and_reports_nothing() {
    let keys: Vec<ProgramKey> = Vec::new();
    assert_eq!(program_count(&keys, "plugins/90_watch.lua"), 0);
}

#[test]
fn terminal_a_reload_keeps_a_live_plugins_pane_and_releases_a_vanished_ones() {
    let watch = ProgramKey::new("plugins/90_watch.lua", "watch");
    let gone = ProgramKey::new("plugins/91_deleted.lua", "top");
    let keys = vec![watch.clone(), gone.clone()];

    let live = vec!["plugins/90_watch.lua".to_string(), "plugins/91_deleted.lua".to_string()];
    assert!(stale_program_keys(&keys, &live).is_empty());

    let live = vec!["plugins/90_watch.lua".to_string()];
    assert_eq!(stale_program_keys(&keys, &live), vec![gone]);

    let all: Vec<ProgramKey> = stale_program_keys(&keys, &Vec::new());
    assert_eq!(all.len(), 2);
    let _ = watch;
}
