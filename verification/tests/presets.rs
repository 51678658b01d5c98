use thurbox_kernel::presets::{
    chosen_or_default, default_preset, find, may_switch, names, not_in_force, presets, switch_step, Chosen, Step,
};

#[test]
fn every_preset_name_is_unique_and_the_default_ships() {
    let all = presets();
    let mut names: Vec<&str> = all.iter().map(|preset| preset.name).collect();
    names.sort_unstable();
    names.dedup();
    assert_eq!(names.len(), all.len());
    assert_eq!(all[0].name, default_preset());
}

#[test]
fn an_unknown_name_runs_the_default_rather_than_nothing() {
    assert_eq!(chosen_or_default("nope").name, default_preset());
}

#[test]
fn a_switch_may_write_the_users_copy_and_an_override_but_not_a_checkout() {
    let dir = "/x/ui";
    let reason = "no config directory";
    assert!(may_switch(dir, Chosen::UserCopy, reason).is_ok());
    assert!(may_switch(dir, Chosen::Override, reason).is_ok());
    assert!(may_switch(dir, Chosen::Checkout, reason).is_err());
    assert!(may_switch(dir, Chosen::Fallback, reason).is_err());
}

#[test]
fn a_known_name_runs_its_own_preset() {
    assert_eq!(chosen_or_default("ide").name, "ide");
    assert!(find("split-shell").is_some());
    assert!(find("Split-Shell").is_none());
}

#[test]
fn every_name_is_listed_for_a_message() {
    assert_eq!(names(), "classic, split-shell, focus, ide");
}

#[test]
fn a_refused_switch_says_why() {
    assert_eq!(
        may_switch("/x/ui", Chosen::Fallback, "no home").unwrap_err(),
        "there is no interface directory of your own to switch (no home)"
    );
    assert!(may_switch("/x/ui", Chosen::Checkout, "").unwrap_err().starts_with("/x/ui is a checkout"));
}

#[test]
fn only_an_edited_layout_is_backed_up() {
    assert_eq!(switch_step(Some("same"), "same", false), Step::Keep);
    assert_eq!(switch_step(None, "new", false), Step::Replace);
    assert_eq!(switch_step(Some("old delivered"), "new", true), Step::Replace);
    assert_eq!(switch_step(Some("-- mine"), "new", false), Step::BackUpThenReplace);
}

#[test]
fn an_edited_layout_under_a_chosen_preset_says_how_to_switch() {
    let message = not_in_force("focus", Some("-- mine"), "-- focus", false).expect("not in force");
    assert_eq!(
        message,
        "layout focus is chosen but your edited layout.lua is in use · `thurbox-cli layout set focus` switches, keeping a backup"
    );
    assert_eq!(not_in_force("focus", Some("-- focus"), "-- focus", false), None, "the preset itself is in force");
    assert_eq!(not_in_force("focus", Some("-- older focus"), "-- focus", true), None, "an untouched delivery is no edit");
    assert_eq!(not_in_force("classic", Some("-- mine"), "-- classic", false), None, "an edited default is the user's own");
    assert_eq!(not_in_force("nope", Some("-- mine"), "", false), None);
    assert_eq!(not_in_force("focus", None, "-- focus", false), None);
}
