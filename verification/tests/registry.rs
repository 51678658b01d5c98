use thurbox_kernel::chords::{canonical_chord, is_ctrl_letter_chord, normalise_chord, KeyPress};
use thurbox_kernel::registry::{
    binding_from, migrate_v1_bindings, read_overrides, reserved_chords, v1_actions, Binding, Overrides,
    RawOverrides, Registry, Scope, Setting, SettingValue,
};

fn press(name: &str, ch: Option<char>, ctrl: bool, shift: bool) -> KeyPress {
    KeyPress {
        name: name.to_string(),
        ch,
        ctrl,
        alt: false,
        shift,
    }
}

fn binding(plugin: &str, chord: &str, action: &str, scope: Scope) -> Binding {
    Binding {
        plugin: plugin.into(),
        action: action.into(),
        default_chord: normalise_chord(chord),
        chord: normalise_chord(chord),
        overridden: false,
        description: String::new(),
        scope,
        passthrough: false,
        group: plugin.into(),
    }
}

fn with_overrides(bindings: Vec<(String, String)>, settings: Vec<(String, SettingValue)>) -> Registry {
    Registry::load(
        Overrides {
            bindings,
            settings,
            trusted: Vec::new(),
            disabled: Vec::new(),
        },
        Vec::new(),
    )
}

fn setting_of<'a>(registry: &'a Registry, plugin: &str, id: &str) -> Option<SettingValue> {
    registry
        .settings_for(plugin)
        .into_iter()
        .find(|(key, _)| key == id)
        .map(|(_, value)| value)
}

#[test]
fn both_terminal_encodings_of_a_capital_agree() {
    let legacy = press("j", Some('J'), false, false);
    let kitty = press("j", Some('j'), false, true);
    assert_eq!(canonical_chord(&legacy), "shift+j");
    assert_eq!(canonical_chord(&kitty), "shift+j");
}

#[test]
fn every_encoding_of_ctrl_slash_agrees() {
    for name in ["7", "_", "/"] {
        assert_eq!(canonical_chord(&press(name, name.chars().next(), true, false)), "ctrl+/");
    }
}

#[test]
fn chords_canonicalise_consistently() {
    assert_eq!(canonical_chord(&press("d", Some('d'), true, false)), "ctrl+d");
    assert_eq!(canonical_chord(&press("f5", None, false, false)), "f5");
    assert_eq!(canonical_chord(&press("enter", None, false, false)), "enter");
    assert_eq!(canonical_chord(&press("backtab", None, false, true)), "shift+tab");
}

#[test]
fn hand_written_chords_normalise_to_the_same_form() {
    assert_eq!(normalise_chord("Ctrl+D"), "ctrl+d");
    assert_eq!(normalise_chord("CONTROL+d"), "ctrl+d");
    assert_eq!(normalise_chord("J"), "shift+j");
    assert_eq!(normalise_chord("shift+j"), "shift+j");
    assert_eq!(normalise_chord("shift+ctrl+a"), "ctrl+shift+a");
}

#[test]
fn a_plugin_scoped_key_fires_only_for_its_plugin() {
    let mut registry = Registry::default();
    registry.declare(
        vec![
            binding("sessions", "j", "sessions.next", Scope::Plugin),
            binding("themes", "j", "themes.next", Scope::Plugin),
        ],
        Vec::new(),
    );
    let key = press("j", Some('j'), false, false);
    assert_eq!(registry.resolve(&key, Some("sessions")).map(|b| b.action.as_str()), Some("sessions.next"));
    assert_eq!(registry.resolve(&key, Some("themes")).map(|b| b.action.as_str()), Some("themes.next"));
    assert!(registry.conflicts().is_empty(), "{:?}", registry.conflicts());
}

#[test]
fn a_global_key_fires_wherever_focus_is() {
    let mut registry = Registry::default();
    registry.declare(vec![binding("help", "ctrl+g", "help.toggle", Scope::Global)], Vec::new());
    let key = press("g", Some('g'), true, false);
    assert!(registry.resolve(&key, Some("anything")).is_some());
    assert!(registry.resolve(&key, None).is_some());
}

#[test]
fn overlapping_claims_are_reported_and_resolved_deterministically() {
    let mut registry = Registry::default();
    registry.declare(
        vec![
            binding("a", "ctrl+g", "a.go", Scope::Global),
            binding("b", "ctrl+g", "b.go", Scope::Global),
        ],
        Vec::new(),
    );
    assert_eq!(registry.conflicts().len(), 1);
    let conflict = &registry.conflicts()[0];
    assert_eq!(conflict.kept, "a.go");
    assert_eq!(conflict.shadowed, "b.go");
    let key = press("g", Some('g'), true, false);
    assert_eq!(registry.resolve(&key, None).map(|b| b.action.as_str()), Some("a.go"));
}

#[test]
fn a_global_claim_overlaps_a_plugin_scoped_one() {
    let mut registry = Registry::default();
    registry.declare(
        vec![binding("a", "x", "a.x", Scope::Global), binding("b", "x", "b.x", Scope::Plugin)],
        Vec::new(),
    );
    assert_eq!(registry.conflicts().len(), 1);
}

fn compact(default: bool) -> Setting {
    Setting {
        plugin: "sessions".into(),
        id: "compact".into(),
        description: String::new(),
        default: SettingValue::Bool(default),
        value: SettingValue::Bool(default),
    }
}

#[test]
fn settings_default_until_overridden() {
    let mut registry = Registry::default();
    registry.declare(Vec::new(), vec![compact(false)]);
    assert_eq!(setting_of(&registry, "sessions", "compact"), Some(SettingValue::Bool(false)));
}

#[test]
fn an_override_of_the_wrong_type_is_ignored() {
    let mut registry = with_overrides(Vec::new(), vec![("sessions.compact".into(), SettingValue::Text("yes".into()))]);
    registry.declare(Vec::new(), vec![compact(false)]);
    assert_eq!(setting_of(&registry, "sessions", "compact"), Some(SettingValue::Bool(false)));
}

#[test]
fn an_override_survives_a_reload_that_drops_its_action() {
    let mut registry = with_overrides(vec![("sessions.delete".into(), "ctrl+x".into())], Vec::new());
    registry.declare(Vec::new(), Vec::new());
    assert!(registry.bindings().is_empty());

    registry.declare(vec![binding("sessions", "d", "sessions.delete", Scope::Plugin)], Vec::new());
    assert_eq!(registry.bindings()[0].chord, "ctrl+x");
    assert_eq!(registry.bindings()[0].default_chord, "d");
}

#[test]
fn reserved_chords_cannot_be_rebound() {
    let mut registry = Registry::default();
    registry.declare(vec![binding("sessions", "d", "sessions.delete", Scope::Plugin)], Vec::new());
    for reserved in reserved_chords() {
        let error = registry.rebind("sessions.delete", Some(reserved)).unwrap_err();
        assert!(error.contains("reserved"), "{error}");
    }
}

#[test]
fn rebinding_an_unknown_action_is_refused() {
    let mut registry = Registry::default();
    let error = registry.rebind("nope.nothing", Some("ctrl+n")).unwrap_err();
    assert!(error.contains("no action"), "{error}");
}

#[test]
fn v1_action_names_map_onto_v2_actions() {
    for (v1, v2) in v1_actions() {
        assert!(!v1.is_empty() && v2.contains('.'), "{v1} -> {v2}");
    }
}

#[test]
fn a_setting_of_the_wrong_type_is_refused_with_both_types_named() {
    let mut registry = Registry::default();
    registry.declare(
        Vec::new(),
        vec![Setting {
            plugin: "sessions".into(),
            id: "width".into(),
            description: String::new(),
            default: SettingValue::Number(30.0f64.to_bits()),
            value: SettingValue::Number(30.0f64.to_bits()),
        }],
    );
    let error = registry
        .set_setting("sessions", "width", Some(SettingValue::Text("wide".into())))
        .unwrap_err();
    assert!(error.contains("number"), "{error}");
    assert!(error.contains("text"), "{error}");
}

#[test]
fn trust_is_recorded_with_the_contents_it_was_granted_for() {
    let mut registry = Registry::default();
    assert!(!registry.is_trusted("/ui/plugins/mine.lua"));

    registry.trust("/ui/plugins/mine.lua", "digest-of-return".to_string());
    assert!(registry.is_trusted("/ui/plugins/mine.lua"));
    assert_eq!(registry.trusted_digest("/ui/plugins/mine.lua"), Some("digest-of-return"));
    assert!(!registry.is_trusted("/ui/plugins/other.lua"));

    registry.revoke("/ui/plugins/mine.lua");
    assert!(!registry.is_trusted("/ui/plugins/mine.lua"));
    registry.revoke("/ui/plugins/never.lua");
}

#[test]
fn a_conflict_is_reported_once_however_often_the_interface_reloads() {
    let mut registry = Registry::default();
    let clash = || {
        vec![
            binding("first", "ctrl+g", "first.go", Scope::Global),
            binding("second", "ctrl+g", "second.go", Scope::Global),
        ]
    };
    registry.declare(clash(), Vec::new());
    let first = registry.warnings();
    assert_eq!(first.len(), 1, "one conflict, one warning: {first:?}");
    for _ in 0..5 {
        registry.declare(clash(), Vec::new());
    }
    assert_eq!(registry.warnings(), first, "reloading must not stack another copy of the same conflict");
}

#[test]
fn a_conflict_warning_names_who_wins() {
    let mut registry = Registry::default();
    registry.declare(
        vec![
            binding("first", "ctrl+g", "first.go", Scope::Global),
            binding("second", "ctrl+g", "second.go", Scope::Global),
        ],
        Vec::new(),
    );
    assert_eq!(
        registry.warnings(),
        vec!["ctrl+g is claimed by both first.go and second.go; first.go wins".to_string()]
    );
}

#[test]
fn an_override_outranks_a_default_on_the_same_chord() {
    let mut registry = with_overrides(vec![("b.go".into(), "ctrl+g".into())], Vec::new());
    registry.declare(
        vec![
            binding("a", "ctrl+g", "a.go", Scope::Global),
            binding("b", "f2", "b.go", Scope::Global),
        ],
        Vec::new(),
    );
    let key = press("g", Some('g'), true, false);
    assert_eq!(registry.resolve(&key, None).map(|b| b.action.as_str()), Some("b.go"));
    assert_eq!(registry.conflicts()[0].kept, "b.go");
    assert_eq!(registry.conflicts()[0].shadowed, "a.go");
}

#[test]
fn clearing_an_override_restores_the_default() {
    let mut registry = Registry::default();
    registry.declare(vec![binding("sessions", "d", "sessions.delete", Scope::Plugin)], Vec::new());
    registry.rebind("sessions.delete", Some("Ctrl+X")).expect("rebind");
    assert_eq!(registry.bindings()[0].chord, "ctrl+x");
    assert!(registry.bindings()[0].overridden);
    registry.rebind("sessions.delete", None).expect("clear");
    assert_eq!(registry.bindings()[0].chord, "d");
    assert!(!registry.bindings()[0].overridden);
}

#[test]
fn refusals_name_the_chord_and_the_action() {
    let mut registry = Registry::default();
    assert_eq!(
        registry.rebind("a.b", Some("CTRL+Q")).unwrap_err(),
        "ctrl+q is reserved and cannot be rebound"
    );
    assert_eq!(registry.rebind("a.b", Some("ctrl+n")).unwrap_err(), "no action named \"a.b\"");
    assert_eq!(
        registry.set_setting("p", "s", None).unwrap_err(),
        "no setting named \"p.s\""
    );
}

#[test]
fn a_setting_change_is_applied_and_cleared() {
    let mut registry = Registry::default();
    registry.declare(Vec::new(), vec![compact(false)]);
    registry.set_setting("sessions", "compact", Some(SettingValue::Bool(true))).expect("set");
    assert_eq!(setting_of(&registry, "sessions", "compact"), Some(SettingValue::Bool(true)));
    registry.set_setting("sessions", "compact", None).expect("clear");
    assert_eq!(setting_of(&registry, "sessions", "compact"), Some(SettingValue::Bool(false)));
}

#[test]
fn a_binding_is_built_from_its_declaration() {
    let b = binding_from("sessions", "Ctrl+D", "sessions.delete", "Delete", Some("global"), true, None);
    assert_eq!(b.chord, "ctrl+d");
    assert_eq!(b.default_chord, "ctrl+d");
    assert_eq!(b.scope, Scope::Global);
    assert_eq!(b.group, "sessions");
    assert!(!b.overridden);
    let c = binding_from("sessions", "j", "sessions.next", "Next", Some("pane"), false, Some("Navigation"));
    assert_eq!(c.scope, Scope::Plugin);
    assert_eq!(c.group, "Navigation");
}

#[test]
fn a_disabled_plugin_is_remembered_in_order() {
    let mut registry = Registry::default();
    assert!(registry.set_disabled("/ui/plugins/b.lua", true));
    registry.set_disabled("/ui/plugins/a.lua", true);
    registry.set_disabled("/ui/plugins/a.lua", true);
    assert!(registry.is_disabled("/ui/plugins/a.lua"));
    assert_eq!(registry.disabled(), vec!["/ui/plugins/a.lua".to_string(), "/ui/plugins/b.lua".to_string()]);
    assert!(!registry.set_disabled("/ui/plugins/a.lua", false));
    assert!(!registry.is_disabled("/ui/plugins/a.lua"));
}

#[test]
fn the_overrides_file_is_read_into_maps() {
    let raw = RawOverrides {
        bindings: vec![("sessions.next".into(), Some("Ctrl+N".into())), ("x.y".into(), None)],
        settings: vec![("sessions.compact".into(), Some(SettingValue::Bool(true)))],
        trusted: vec![("/ui/a.lua".into(), Some("abc".into()))],
        disabled: vec![Some("/ui/z.lua".into()), None, Some("/ui/b.lua".into())],
    };
    let o = read_overrides(&raw);
    assert_eq!(o.bindings, vec![("sessions.next".to_string(), "ctrl+n".to_string())]);
    assert_eq!(o.settings, vec![("sessions.compact".to_string(), SettingValue::Bool(true))]);
    assert_eq!(o.trusted, vec![("/ui/a.lua".to_string(), "abc".to_string())]);
    assert_eq!(o.disabled, vec!["/ui/b.lua".to_string(), "/ui/z.lua".to_string()]);
}

#[test]
fn v1_overrides_carry_over_and_the_rest_are_reported_in_order() {
    let (migrated, notes) = migrate_v1_bindings(&vec![
        ("ZoomPane".into(), Some("ctrl+z".into())),
        ("SelectNextSession".into(), Some("J".into())),
        ("AnotherThing".into(), Some("f3".into())),
        ("DeleteSession".into(), None),
    ]);
    assert_eq!(migrated, vec![("sessions.next".to_string(), "shift+j".to_string())]);
    assert_eq!(notes, vec!["not migrated (no v2 equivalent yet): AnotherThing, ZoomPane".to_string()]);
}

#[test]
fn a_ctrl_letter_is_readlines() {
    assert!(is_ctrl_letter_chord("ctrl+r"));
    assert!(!is_ctrl_letter_chord("ctrl+1"));
    assert!(!is_ctrl_letter_chord("ctrl+f5"));
}
