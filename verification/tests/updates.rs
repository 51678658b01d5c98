use thurbox_kernel::updates::{Done, Updates};

#[test]
fn nothing_is_reported_until_something_was_installed() {
    let mut updates = Updates::new();
    assert_eq!(updates.poll(Vec::new()), None);
}

#[test]
fn both_switches_off_does_nothing_at_all() {
    let updates = Updates::start(false, Some("9.9.9".into()));
    assert!(updates.available().is_none());
}

#[test]
fn a_finished_check_updates_the_badge_without_a_message() {
    let mut updates = Updates::new();
    assert_eq!(updates.poll(vec![Done::Checked(Some("9.9.9".into()))]), None);
    assert_eq!(updates.available(), Some("9.9.9"));
}

#[test]
fn an_install_is_reported_because_it_changed_the_machine() {
    let mut updates = Updates::new();
    let message = updates.poll(vec![Done::Installed("9.9.9".into())]).unwrap_or_default();
    assert!(message.contains("9.9.9"), "{message}");
    assert!(message.contains("restart"), "the new version applies on the next launch, and has to say so: {message}");
    assert_eq!(updates.available(), Some("9.9.9"));
}

#[test]
fn a_check_that_finds_nothing_clears_the_badge() {
    let mut updates = Updates::start(true, Some("1.0.0".into()));
    updates.poll(vec![Done::Checked(None)]);
    assert!(updates.available().is_none());
}

#[test]
fn the_install_message_is_exact() {
    let mut updates = Updates::new();
    assert_eq!(
        updates.poll(vec![Done::Installed("2.1.0".into()), Done::Checked(Some("2.2.0".into()))]),
        Some("Updated to v2.1.0 — restart thurbox to apply.".to_string())
    );
    assert_eq!(updates.available(), Some("2.2.0"));
}
