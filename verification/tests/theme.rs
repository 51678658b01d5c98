use thurbox_kernel::theme::{palette_roles, resolve, Color, ThemeEntry, ThemePalette, Themes};

fn palette(seed: u8) -> ThemePalette {
    let c = |k: u8| Color::Rgb(seed, k, seed.wrapping_mul(3));
    ThemePalette {
        accent: c(1),
        accent_bright: c(2),
        status_working: c(3),
        status_blocked: c(4),
        status_done: c(5),
        status_idle: Color::Gray,
        status_error: Color::Red,
        status_unreachable: Color::DarkGray,
        text_primary: Color::White,
        text_secondary: Color::Indexed(250),
        text_muted: c(6),
        border_focused: c(7),
        border_unfocused: c(8),
        role_name: Color::Cyan,
        branch_name: Color::Magenta,
        search_bar: c(9),
        keybind_hint: Color::Yellow,
        tool_allowed: Color::Green,
        tool_disallowed: Color::LightRed,
        danger: Color::Red,
        selection_bg: c(10),
        selection_fg: Color::Black,
        modal_dim_bg: Color::Reset,
        modal_bg: c(11),
        modal_border: Color::LightBlue,
        inverted_fg: Color::Black,
        diff_added: Color::LightGreen,
        diff_removed: Color::LightMagenta,
        diff_added_bg: Color::LightCyan,
        diff_removed_bg: Color::LightYellow,
        app_bg: Color::Blue,
        nerd_font_enabled: false,
    }
}

/// The built-in themes: the default first, thirty-six in all, light and dark.
fn presets() -> Vec<ThemeEntry> {
    (0..36u8)
        .map(|i| ThemeEntry {
            name: if i == 0 { "default".to_string() } else { format!("preset-{i}") },
            display_name: if i == 0 { "Default".to_string() } else { format!("Preset {i}") },
            is_light: i % 2 == 1,
            palette: palette(i),
        })
        .collect()
}

fn load(wanted: Option<&str>) -> Themes {
    Themes::load(presets(), Vec::new(), Vec::new(), wanted)
}

/// A colour as a plugin may write it back: `#rrggbb`, a palette index or a
/// colour name.
fn parses_back(text: &str) -> bool {
    const NAMES: [&str; 18] = [
        "reset", "black", "red", "green", "yellow", "blue", "magenta", "cyan", "gray", "dark-gray",
        "light-red", "light-green", "light-yellow", "light-blue", "light-magenta", "light-cyan",
        "light-white", "white",
    ];
    if let Some(hex) = text.strip_prefix('#') {
        return hex.len() == 6 && hex.chars().all(|c| c.is_ascii_hexdigit());
    }
    text.parse::<u8>().is_ok() || NAMES.contains(&text)
}

#[test]
fn every_v1_preset_is_selectable() {
    let themes = load(None);
    assert_eq!(
        themes.choices().iter().filter(|c| !c.is_custom).count(),
        presets().len(),
        "every built-in theme must still be offered"
    );
    assert!(themes.choices().len() >= 36, "v1 shipped 36 presets");
}

#[test]
fn preset_identifiers_still_resolve() {
    let all = presets();
    for preset in &all {
        let resolved = resolve(Some(&preset.name), &Vec::new(), &all);
        assert_eq!(resolved.name, preset.name, "{} should resolve to itself", preset.name);
    }
}

#[test]
fn an_unknown_choice_falls_back_to_the_default() {
    let all = presets();
    let resolved = resolve(Some("no-such-theme"), &Vec::new(), &all);
    assert_eq!(resolved.name, all[0].name);
}

#[test]
fn no_recorded_choice_is_the_default() {
    let all = presets();
    let resolved = resolve(None, &Vec::new(), &all);
    assert_eq!(resolved.name, all[0].name);
}

#[test]
fn a_user_theme_shadows_a_preset_of_the_same_name() {
    let all = presets();
    let mut mine = all[0].clone();
    mine.display_name = "Mine".to_string();
    let resolved = resolve(Some(&mine.name.clone()), &vec![mine], &all);
    assert_eq!(resolved.display_name, "Mine");
}

#[test]
fn the_role_table_covers_every_palette_field() {
    let roles = palette_roles(&palette(0));
    assert_eq!(roles.len(), 31, "got {:?}", roles.iter().map(|(k, _)| k).collect::<Vec<_>>());
    for required in [
        "accent",
        "text_muted",
        "border_focused",
        "status_working",
        "status_blocked",
        "status_done",
        "status_idle",
        "danger",
    ] {
        assert!(roles.iter().any(|(k, _)| k == required), "missing role {required}");
    }
}

#[test]
fn published_colours_parse_back_through_the_node_vocabulary() {
    for preset in presets() {
        for (role, text) in palette_roles(&preset.palette) {
            assert!(parses_back(&text), "{role} = {text:?} does not parse back");
        }
    }
}

#[test]
fn light_and_dark_are_both_offered() {
    let themes = load(None);
    assert!(themes.choices().iter().any(|c| c.is_light));
    assert!(themes.choices().iter().any(|c| !c.is_light));
}

#[test]
fn selecting_an_unknown_theme_is_refused() {
    let mut themes = load(None);
    let before = themes.active_name().to_string();
    let error = themes.select("nonsense").unwrap_err();
    assert!(error.contains("unknown theme"), "{error}");
    assert_eq!(themes.active_name(), before, "the active theme must not move");
}

#[test]
fn selecting_a_known_theme_changes_the_palette() {
    let mut themes = load(None);
    let other = themes
        .choices()
        .iter()
        .find(|c| c.name != themes.active_name())
        .expect("more than one theme")
        .name
        .clone();
    let before = themes.roles();
    themes.select(&other).expect("select");
    assert_eq!(themes.active_name(), other);
    assert_ne!(before, themes.roles(), "the palette should have changed");
}

#[test]
fn the_choice_round_trips_through_the_database() {
    let mut themes = load(None);
    let other = themes
        .choices()
        .iter()
        .find(|c| c.name != themes.active_name())
        .expect("more than one theme")
        .name
        .clone();
    themes.select(&other).expect("select");
    let recorded = themes.active_name().to_string();

    let reloaded = load(Some(&recorded));
    assert_eq!(reloaded.active_name(), other);
}

#[test]
fn an_unknown_theme_is_named_in_its_refusal() {
    let mut themes = load(None);
    assert_eq!(themes.preview("nope").unwrap_err(), "unknown theme \"nope\"");
}

#[test]
fn a_colour_is_published_as_hex() {
    let roles = palette_roles(&palette(0x1f));
    let accent = roles.iter().find(|(k, _)| k == "accent").expect("accent").1.clone();
    assert_eq!(accent, "#1f015d");
}

#[test]
fn roles_are_published_in_name_order() {
    let roles = palette_roles(&palette(0));
    let names: Vec<&String> = roles.iter().map(|(k, _)| k).collect();
    let mut sorted = names.clone();
    sorted.sort();
    assert_eq!(names, sorted);
    assert_eq!(roles[0].0, "accent");
    assert_eq!(roles[2].0, "app_bg");
    assert_eq!(roles[30].0, "tool_disallowed");
}
