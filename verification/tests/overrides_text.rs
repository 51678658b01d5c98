use thurbox_kernel::json::Json;
use thurbox_kernel::registry::{raw_overrides_of, read_overrides, setting_value, v1_entries_of, RawOverrides, SettingValue};
use thurbox_kernel::text::is_whitespace;

fn bits(j: &Json) -> Option<u64> {
    match j {
        Json::Number(t) => t.parse::<f64>().ok().map(f64::to_bits),
        _ => None,
    }
}

#[test]
fn an_overrides_text_is_walked_into_its_parts() {
    let text = r#"{
        "bindings": {"app.quit": "Ctrl+Q", "app.help": 3},
        "settings": {"sessions.compact": true, "sessions.width": 30, "sessions.name": "x", "sessions.list": [1]},
        "trusted": {"/p/a.lua": "abc", "/p/b.lua": null},
        "disabled": ["/p/c.lua", 7, "/p/a.lua"],
        "other": 1
    }"#;
    let doc = raw_overrides_of(text).expect("parses");
    assert_eq!(
        doc.bindings,
        vec![("app.help".to_string(), None), ("app.quit".to_string(), Some("Ctrl+Q".to_string()))]
    );
    assert_eq!(
        doc.trusted,
        vec![("/p/a.lua".to_string(), Some("abc".to_string())), ("/p/b.lua".to_string(), None)]
    );
    assert_eq!(doc.disabled, vec![Some("/p/c.lua".to_string()), None, Some("/p/a.lua".to_string())]);
    let settings: Vec<(String, Option<SettingValue>)> = doc
        .settings
        .into_iter()
        .map(|(k, v)| {
            let b = bits(&v);
            (k, setting_value(v, b))
        })
        .collect();
    assert_eq!(
        settings,
        vec![
            ("sessions.compact".to_string(), Some(SettingValue::Bool(true))),
            ("sessions.list".to_string(), None),
            ("sessions.name".to_string(), Some(SettingValue::Text("x".to_string()))),
            ("sessions.width".to_string(), Some(SettingValue::Number(30.0f64.to_bits()))),
        ]
    );
    let o = read_overrides(&RawOverrides {
        bindings: doc.bindings,
        settings,
        trusted: doc.trusted,
        disabled: doc.disabled,
    });
    assert_eq!(o.bindings, vec![("app.quit".to_string(), "ctrl+q".to_string())]);
    assert_eq!(o.trusted, vec![("/p/a.lua".to_string(), "abc".to_string())]);
    assert_eq!(o.disabled, vec!["/p/a.lua".to_string(), "/p/c.lua".to_string()]);
}

#[test]
fn an_overrides_text_that_is_not_json_is_refused() {
    let err = raw_overrides_of("{ \"bindings\": ").err().expect("refused");
    assert!(!err.is_empty());
}

#[test]
fn an_overrides_document_that_is_not_an_object_holds_nothing() {
    let doc = raw_overrides_of("[1, 2]").expect("parses");
    assert!(doc.bindings.is_empty() && doc.settings.is_empty() && doc.trusted.is_empty() && doc.disabled.is_empty());
    let doc = raw_overrides_of(r#"{"bindings": [1], "disabled": {"a": "b"}}"#).expect("parses");
    assert!(doc.bindings.is_empty() && doc.disabled.is_empty());
}

#[test]
fn old_keybindings_give_each_action_its_first_chord() {
    let text = r#"{"Quit": ["ctrl+q", "q"], "Help": "?", "Other": [1, "x"], "Empty": [], "Num": 4}"#;
    let entries = v1_entries_of(text).expect("parses");
    assert_eq!(
        entries,
        vec![
            ("Empty".to_string(), None),
            ("Help".to_string(), Some("?".to_string())),
            ("Num".to_string(), None),
            ("Other".to_string(), None),
            ("Quit".to_string(), Some("ctrl+q".to_string())),
        ]
    );
    assert_eq!(v1_entries_of("[\"ctrl+q\"]").expect("parses"), Vec::new());
    assert!(v1_entries_of("not json").is_err());
}

#[test]
fn white_space_is_unicodes_list() {
    for n in 0u32..0x11000 {
        if let Some(c) = char::from_u32(n) {
            assert_eq!(is_whitespace(c), c.is_whitespace(), "U+{n:04X}");
        }
    }
    assert!(is_whitespace('\u{3000}'));
    assert!(!is_whitespace('\u{200b}'));
}
