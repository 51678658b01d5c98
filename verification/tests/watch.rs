use thurbox_kernel::watch::{changed, is_noise, Change};

fn event(paths: &[&str]) -> Change {
    Change {
        access: false,
        paths: paths.iter().map(|p| p.to_string()).collect(),
    }
}

#[test]
fn a_plugin_edit_is_not_noise() {
    assert!(!is_noise(&event(&["/ui/plugins/session_list.lua"])));
}

#[test]
fn editor_scratch_files_are_noise() {
    assert!(is_noise(&event(&["/ui/plugins/session_list.lua~"])));
    assert!(is_noise(&event(&["/ui/plugins/.#session_list.lua"])));
}

#[test]
fn version_control_bookkeeping_is_noise() {
    for path in [
        "/ui/.git/index.lock",
        "/ui/.git/refs/heads/main",
        "/ui/.git/objects/pack/pack-abc.pack",
        "/ui/doom/.git/FETCH_HEAD",
    ] {
        assert!(is_noise(&event(&[path])), "{path}");
    }
}

#[test]
fn a_file_merely_named_like_git_is_not_noise() {
    assert!(!is_noise(&event(&["/ui/plugins/.gitignore.lua"])));
    assert!(!is_noise(&event(&["/ui/mygit/plugins/a.lua"])));
    assert!(!is_noise(&event(&["/ui/lib/.gitkeep.lua"])));
}

#[test]
fn a_real_edit_beside_git_churn_still_wakes_it() {
    assert!(!is_noise(&event(&["/ui/.git/index", "/ui/plugins/session_list.lua"])));
}

#[test]
fn reading_a_file_is_not_a_change() {
    let read = Change {
        access: true,
        paths: vec!["/ui/layout.lua".to_string()],
    };
    assert!(is_noise(&read));
}

#[test]
fn a_mixed_batch_is_not_noise() {
    assert!(!is_noise(&event(&["/ui/plugins/a.lua~", "/ui/plugins/a.lua"])));
}

#[test]
fn an_event_naming_nothing_asks_for_a_look() {
    assert!(!is_noise(&event(&[])));
}

#[test]
fn a_drained_batch_asks_for_a_look_only_when_something_moved() {
    assert!(!changed(&Vec::new()));
    assert!(!changed(&vec![Some(event(&["/ui/.git/index"]))]));
    assert!(changed(&vec![Some(event(&["/ui/.git/index"])), Some(event(&["/ui/a.lua"]))]));
    assert!(changed(&vec![None]), "a watch error still means look again");
}
