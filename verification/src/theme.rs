//! The active colour scheme, resolved once and published as named roles.
//!
//! Every plugin expresses colour by naming a role, so something must turn
//! roles into colours before any pane can draw. Choosing a theme is
//! presentation and stays a plugin; resolving one is a contract, and lives
//! here.
use vstd::prelude::*;
use crate::text::{push_char, push_str, decimal, decimal_text, quoted, debug_text};

verus! {

/// A colour as a palette holds it: a named terminal colour, the terminal's
/// own default, a palette index, or a 24-bit value.
#[derive(Debug, Clone, Copy, PartialEq, Eq, Structural)]
pub enum Color {
    Reset,
    Black,
    Red,
    Green,
    Yellow,
    Blue,
    Magenta,
    Cyan,
    Gray,
    DarkGray,
    LightRed,
    LightGreen,
    LightYellow,
    LightBlue,
    LightMagenta,
    LightCyan,
    White,
    Rgb(u8, u8, u8),
    Indexed(u8),
}

/// A theme's palette: a colour for each role, and whether icons may use a
/// Nerd Font.
#[derive(Debug, Clone, Copy, PartialEq, Eq, Structural)]
pub struct ThemePalette {
    pub accent: Color,
    pub accent_bright: Color,
    pub status_working: Color,
    pub status_blocked: Color,
    pub status_done: Color,
    pub status_idle: Color,
    pub status_error: Color,
    pub status_unreachable: Color,
    pub text_primary: Color,
    pub text_secondary: Color,
    pub text_muted: Color,
    pub border_focused: Color,
    pub border_unfocused: Color,
    pub role_name: Color,
    pub branch_name: Color,
    pub search_bar: Color,
    pub keybind_hint: Color,
    pub tool_allowed: Color,
    pub tool_disallowed: Color,
    pub danger: Color,
    pub selection_bg: Color,
    pub selection_fg: Color,
    pub modal_dim_bg: Color,
    pub modal_bg: Color,
    pub modal_border: Color,
    pub inverted_fg: Color,
    pub diff_added: Color,
    pub diff_removed: Color,
    pub diff_added_bg: Color,
    pub diff_removed_bg: Color,
    pub app_bg: Color,
    pub nerd_font_enabled: bool,
}

/// The digit of a nibble, lower case.
pub open spec fn hex_digit(d: u8) -> char {
    if d < 10 {
        ((48 + d) as u8) as char
    } else {
        ((87 + d) as u8) as char
    }
}

/// A byte as two lower-case hex digits.
pub open spec fn hex_pair(b: u8) -> Seq<char> {
    seq![hex_digit(b / 16), hex_digit(b % 16)]
}

/// How a colour is published: `#rrggbb`, a palette index, or its name. The
/// terminal's own colour is `reset` rather than nothing: a theme setting a
/// role to it is defining the role.
pub open spec fn color_text(c: Color) -> Seq<char> {
    match c {
        Color::Rgb(r, g, b) => seq!['#'] + hex_pair(r) + hex_pair(g) + hex_pair(b),
        Color::Indexed(n) => decimal_text(n as nat),
        Color::Black => "black"@,
        Color::Red => "red"@,
        Color::Green => "green"@,
        Color::Yellow => "yellow"@,
        Color::Blue => "blue"@,
        Color::Magenta => "magenta"@,
        Color::Cyan => "cyan"@,
        Color::Gray => "gray"@,
        Color::DarkGray => "dark-gray"@,
        Color::LightRed => "light-red"@,
        Color::LightGreen => "light-green"@,
        Color::LightYellow => "light-yellow"@,
        Color::LightBlue => "light-blue"@,
        Color::LightMagenta => "light-magenta"@,
        Color::LightCyan => "light-cyan"@,
        Color::White => "light-white"@,
        Color::Reset => "reset"@,
    }
}

fn hex_char(d: u8) -> (c: char)
    requires
        d < 16,
    ensures
        c == hex_digit(d),
{
    if d < 10 {
        (48 + d) as char
    } else {
        (87 + d) as char
    }
}

fn push_hex(s: &mut String, b: u8)
    ensures
        final(s)@ == old(s)@ + hex_pair(b),
{
    push_char(s, hex_char(b / 16));
    push_char(s, hex_char(b % 16));
    assert(final(s)@ =~= old(s)@ + hex_pair(b));
}

/// Render a colour in the form a plugin hands back as a style.
pub fn color_to_string(color: &Color) -> (r: String)
    ensures
        r@ == color_text(*color),
{
    match color {
        Color::Rgb(r, g, b) => {
            let mut s = String::new();
            push_char(&mut s, '#');
            push_hex(&mut s, *r);
            push_hex(&mut s, *g);
            push_hex(&mut s, *b);
            assert(s@ =~= seq!['#'] + hex_pair(*r) + hex_pair(*g) + hex_pair(*b));
            s
        },
        Color::Indexed(n) => decimal(*n as u64),
        Color::Black => String::from_str("black"),
        Color::Red => String::from_str("red"),
        Color::Green => String::from_str("green"),
        Color::Yellow => String::from_str("yellow"),
        Color::Blue => String::from_str("blue"),
        Color::Magenta => String::from_str("magenta"),
        Color::Cyan => String::from_str("cyan"),
        Color::Gray => String::from_str("gray"),
        Color::DarkGray => String::from_str("dark-gray"),
        Color::LightRed => String::from_str("light-red"),
        Color::LightGreen => String::from_str("light-green"),
        Color::LightYellow => String::from_str("light-yellow"),
        Color::LightBlue => String::from_str("light-blue"),
        Color::LightMagenta => String::from_str("light-magenta"),
        Color::LightCyan => String::from_str("light-cyan"),
        Color::White => String::from_str("light-white"),
        Color::Reset => String::from_str("reset"),
    }
}

/// Every role of a palette with its colour, in name order.
/// `nerd_font_enabled` is a flag, not a role.
pub open spec fn role_table(p: ThemePalette) -> Seq<(Seq<char>, Color)> {
    seq![
        ("accent"@, p.accent),
        ("accent_bright"@, p.accent_bright),
        ("app_bg"@, p.app_bg),
        ("border_focused"@, p.border_focused),
        ("border_unfocused"@, p.border_unfocused),
        ("branch_name"@, p.branch_name),
        ("danger"@, p.danger),
        ("diff_added"@, p.diff_added),
        ("diff_added_bg"@, p.diff_added_bg),
        ("diff_removed"@, p.diff_removed),
        ("diff_removed_bg"@, p.diff_removed_bg),
        ("inverted_fg"@, p.inverted_fg),
        ("keybind_hint"@, p.keybind_hint),
        ("modal_bg"@, p.modal_bg),
        ("modal_border"@, p.modal_border),
        ("modal_dim_bg"@, p.modal_dim_bg),
        ("role_name"@, p.role_name),
        ("search_bar"@, p.search_bar),
        ("selection_bg"@, p.selection_bg),
        ("selection_fg"@, p.selection_fg),
        ("status_blocked"@, p.status_blocked),
        ("status_done"@, p.status_done),
        ("status_error"@, p.status_error),
        ("status_idle"@, p.status_idle),
        ("status_unreachable"@, p.status_unreachable),
        ("status_working"@, p.status_working),
        ("text_muted"@, p.text_muted),
        ("text_primary"@, p.text_primary),
        ("text_secondary"@, p.text_secondary),
        ("tool_allowed"@, p.tool_allowed),
        ("tool_disallowed"@, p.tool_disallowed),
    ]
}

/// Every role in a palette, named as a plugin names it, with its colour as
/// published, in name order. Listed explicitly rather than derived: the field set is a
/// published contract, so adding a role is a visible edit here.
pub fn palette_roles(p: &ThemePalette) -> (r: Vec<(String, String)>)
    ensures
        r@.map_values(|e: (String, String)| (e.0@, e.1@)) == role_table(*p).map_values(|e: (Seq<char>, Color)| (e.0, color_text(e.1))),
{
    let mut roles: Vec<(String, String)> = Vec::new();
    roles.push((String::from_str("accent"), color_to_string(&p.accent)));
    roles.push((String::from_str("accent_bright"), color_to_string(&p.accent_bright)));
    roles.push((String::from_str("app_bg"), color_to_string(&p.app_bg)));
    roles.push((String::from_str("border_focused"), color_to_string(&p.border_focused)));
    roles.push((String::from_str("border_unfocused"), color_to_string(&p.border_unfocused)));
    roles.push((String::from_str("branch_name"), color_to_string(&p.branch_name)));
    roles.push((String::from_str("danger"), color_to_string(&p.danger)));
    roles.push((String::from_str("diff_added"), color_to_string(&p.diff_added)));
    roles.push((String::from_str("diff_added_bg"), color_to_string(&p.diff_added_bg)));
    roles.push((String::from_str("diff_removed"), color_to_string(&p.diff_removed)));
    roles.push((String::from_str("diff_removed_bg"), color_to_string(&p.diff_removed_bg)));
    roles.push((String::from_str("inverted_fg"), color_to_string(&p.inverted_fg)));
    roles.push((String::from_str("keybind_hint"), color_to_string(&p.keybind_hint)));
    roles.push((String::from_str("modal_bg"), color_to_string(&p.modal_bg)));
    roles.push((String::from_str("modal_border"), color_to_string(&p.modal_border)));
    roles.push((String::from_str("modal_dim_bg"), color_to_string(&p.modal_dim_bg)));
    roles.push((String::from_str("role_name"), color_to_string(&p.role_name)));
    roles.push((String::from_str("search_bar"), color_to_string(&p.search_bar)));
    roles.push((String::from_str("selection_bg"), color_to_string(&p.selection_bg)));
    roles.push((String::from_str("selection_fg"), color_to_string(&p.selection_fg)));
    roles.push((String::from_str("status_blocked"), color_to_string(&p.status_blocked)));
    roles.push((String::from_str("status_done"), color_to_string(&p.status_done)));
    roles.push((String::from_str("status_error"), color_to_string(&p.status_error)));
    roles.push((String::from_str("status_idle"), color_to_string(&p.status_idle)));
    roles.push((String::from_str("status_unreachable"), color_to_string(&p.status_unreachable)));
    roles.push((String::from_str("status_working"), color_to_string(&p.status_working)));
    roles.push((String::from_str("text_muted"), color_to_string(&p.text_muted)));
    roles.push((String::from_str("text_primary"), color_to_string(&p.text_primary)));
    roles.push((String::from_str("text_secondary"), color_to_string(&p.text_secondary)));
    roles.push((String::from_str("tool_allowed"), color_to_string(&p.tool_allowed)));
    roles.push((String::from_str("tool_disallowed"), color_to_string(&p.tool_disallowed)));
    assert(roles@.map_values(|e: (String, String)| (e.0@, e.1@)) =~= role_table(*p).map_values(|e: (Seq<char>, Color)| (e.0, color_text(e.1))));
    roles
}

// ── Themes ──────────────────────────────────────────────────────────────────

/// One selectable theme, flattened for publishing.
#[derive(Debug, Clone, PartialEq, Eq)]
pub struct ThemeChoice {
    /// Stable identifier, as persisted.
    pub name: String,
    pub display_name: String,
    pub is_light: bool,
    /// True for a theme the user defined rather than a built-in one.
    pub is_custom: bool,
}

/// A theme in full: its identifier, how it is shown, and its palette.
#[derive(Debug, Clone, PartialEq, Eq)]
pub struct ThemeEntry {
    pub name: String,
    pub display_name: String,
    pub is_light: bool,
    pub palette: ThemePalette,
}

pub struct EntryView {
    pub name: Seq<char>,
    pub display_name: Seq<char>,
    pub is_light: bool,
    pub palette: ThemePalette,
}

impl View for ThemeEntry {
    type V = EntryView;

    open spec fn view(&self) -> EntryView {
        EntryView { name: self.name@, display_name: self.display_name@, is_light: self.is_light, palette: self.palette }
    }
}

pub struct ChoiceView {
    pub name: Seq<char>,
    pub display_name: Seq<char>,
    pub is_light: bool,
    pub is_custom: bool,
}

impl View for ThemeChoice {
    type V = ChoiceView;

    open spec fn view(&self) -> ChoiceView {
        ChoiceView { name: self.name@, display_name: self.display_name@, is_light: self.is_light, is_custom: self.is_custom }
    }
}

pub open spec fn entries_view(v: Seq<ThemeEntry>) -> Seq<EntryView> {
    v.map_values(|e: ThemeEntry| e@)
}

/// The first theme called `name` among `entries` from `k` on.
pub open spec fn named(entries: Seq<EntryView>, name: Seq<char>, k: int) -> Option<EntryView>
    decreases entries.len() - k,
{
    if k < 0 || k >= entries.len() {
        None
    } else if entries[k].name == name {
        Some(entries[k])
    } else {
        named(entries, name, k + 1)
    }
}

/// Resolve a name against the user's themes and the presets: a user theme
/// shadows a preset of the same name, and no name, or one nothing answers to,
/// is the default — the first preset.
pub open spec fn resolve_spec(wanted: Option<Seq<char>>, custom: Seq<EntryView>, presets: Seq<EntryView>) -> EntryView {
    match wanted {
        None => presets[0],
        Some(name) => match named(custom, name, 0) {
            Some(e) => e,
            None => match named(presets, name, 0) {
                Some(e) => e,
                None => presets[0],
            },
        },
    }
}

/// The picker's list: the built-ins, then the user's own.
pub open spec fn choices_of(presets: Seq<EntryView>, custom: Seq<EntryView>) -> Seq<ChoiceView> {
    presets.map_values(|e: EntryView| ChoiceView { name: e.name, display_name: e.display_name, is_light: e.is_light, is_custom: false })
        + custom.map_values(|e: EntryView| ChoiceView { name: e.name, display_name: e.display_name, is_light: e.is_light, is_custom: true })
}

/// Whether a theme called `name` is offered.
pub open spec fn offered(choices: Seq<ChoiceView>, name: Seq<char>) -> bool {
    exists|i: int| 0 <= i < choices.len() && choices[i].name == name
}

fn copy_entry(e: &ThemeEntry) -> (r: ThemeEntry)
    ensures
        r@ == e@,
{
    ThemeEntry { name: e.name.clone(), display_name: e.display_name.clone(), is_light: e.is_light, palette: e.palette }
}

fn find_named(entries: &Vec<ThemeEntry>, name: &str) -> (r: Option<usize>)
    ensures
        match named(entries_view(entries@), name@, 0) {
            Some(e) => r matches Some(i) && i < entries@.len() && entries@[i as int]@ == e,
            None => r is None,
        },
{
    let mut i: usize = 0;
    while i < entries.len()
        invariant
            i <= entries@.len(),
            named(entries_view(entries@), name@, i as int) == named(entries_view(entries@), name@, 0),
        decreases entries.len() - i,
    {
        assert(entries_view(entries@)[i as int] == entries@[i as int]@);
        if crate::text::same_text(entries[i].name.as_str(), name) {
            return Some(i);
        }
        i += 1;
    }
    None
}

/// Resolve a name against the presets and the user's themes.
pub fn resolve(wanted: Option<&str>, custom: &Vec<ThemeEntry>, presets: &Vec<ThemeEntry>) -> (r: ThemeEntry)
    requires
        presets@.len() > 0,
    ensures
        r@ == resolve_spec(match wanted { Some(n) => Some(n@), None => None }, entries_view(custom@), entries_view(presets@)),
{
    assert(entries_view(presets@)[0] == presets@[0]@);
    let name = match wanted {
        None => return copy_entry(&presets[0]),
        Some(name) => name,
    };
    if let Some(i) = find_named(custom, name) {
        return copy_entry(&custom[i]);
    }
    match find_named(presets, name) {
        Some(i) => copy_entry(&presets[i]),
        None => copy_entry(&presets[0]),
    }
}

/// What the themes hold, as the contracts see it.
pub struct ThemesView {
    pub active: EntryView,
    pub choices: Seq<ChoiceView>,
    pub custom: Seq<EntryView>,
    pub presets: Seq<EntryView>,
    pub warnings: Seq<Seq<char>>,
}

/// The resolved theme plus everything a picker needs.
pub struct Themes {
    active: ThemeEntry,
    choices: Vec<ThemeChoice>,
    /// The user's own themes, kept so a palette other than the active one can
    /// be resolved without reading them again.
    custom: Vec<ThemeEntry>,
    /// The built-in themes, the default first.
    presets: Vec<ThemeEntry>,
    /// Problems found while loading user themes. Surfaced, never fatal.
    pub warnings: Vec<String>,
}

impl View for Themes {
    type V = ThemesView;

    closed spec fn view(&self) -> ThemesView {
        ThemesView {
            active: self.active@,
            choices: self.choices@.map_values(|c: ThemeChoice| c@),
            custom: entries_view(self.custom@),
            presets: entries_view(self.presets@),
            warnings: self.warnings@.map_values(|w: String| w@),
        }
    }
}

fn choice_of(e: &ThemeEntry, is_custom: bool) -> (c: ThemeChoice)
    ensures
        c@ == (ChoiceView { name: e@.name, display_name: e@.display_name, is_light: e@.is_light, is_custom }),
{
    ThemeChoice { name: e.name.clone(), display_name: e.display_name.clone(), is_light: e.is_light, is_custom }
}

fn push_choices(choices: &mut Vec<ThemeChoice>, entries: &Vec<ThemeEntry>, is_custom: bool)
    ensures
        final(choices)@.map_values(|c: ThemeChoice| c@) == old(choices)@.map_values(|c: ThemeChoice| c@)
            + entries_view(entries@).map_values(|e: EntryView| ChoiceView { name: e.name, display_name: e.display_name, is_light: e.is_light, is_custom }),
{
    let ghost want = entries_view(entries@).map_values(|e: EntryView| ChoiceView { name: e.name, display_name: e.display_name, is_light: e.is_light, is_custom });
    let mut i: usize = 0;
    while i < entries.len()
        invariant
            i <= entries@.len(),
            want == entries_view(entries@).map_values(|e: EntryView| ChoiceView { name: e.name, display_name: e.display_name, is_light: e.is_light, is_custom }),
            choices@.map_values(|c: ThemeChoice| c@) == old(choices)@.map_values(|c: ThemeChoice| c@) + want.take(i as int),
        decreases entries.len() - i,
    {
        let ghost before = choices@;
        choices.push(choice_of(&entries[i], is_custom));
        proof {
            assert(entries_view(entries@)[i as int] == entries@[i as int]@);
            assert(want.take(i + 1) =~= want.take(i as int).push(want[i as int]));
            assert(choices@.map_values(|c: ThemeChoice| c@) =~= before.map_values(|c: ThemeChoice| c@).push(want[i as int]));
        }
        i += 1;
    }
    assert(want.take(i as int) =~= want);
}

impl Themes {
    /// What every operation keeps: a default to fall back on, and the picker
    /// listing exactly the built-ins and then the user's own.
    pub open spec fn wf(&self) -> bool {
        &&& self@.presets.len() > 0
        &&& self@.choices == choices_of(self@.presets, self@.custom)
    }

    /// Resolve from the built-ins (the default first), the user's own themes
    /// and the recorded choice. A recorded choice that no longer resolves
    /// falls back to the default.
    pub fn load(presets: Vec<ThemeEntry>, custom: Vec<ThemeEntry>, warnings: Vec<String>, wanted: Option<&str>) -> (t: Themes)
        requires
            presets@.len() > 0,
        ensures
            t.wf(),
            t@.presets == entries_view(presets@),
            t@.custom == entries_view(custom@),
            t@.active == resolve_spec(match wanted { Some(n) => Some(n@), None => None }, entries_view(custom@), entries_view(presets@)),
            t@.warnings == warnings@.map_values(|w: String| w@),
    {
        let mut choices: Vec<ThemeChoice> = Vec::new();
        push_choices(&mut choices, &presets, false);
        push_choices(&mut choices, &custom, true);
        let active = resolve(wanted, &custom, &presets);
        let t = Themes { active, choices, custom, presets, warnings };
        assert(t@.choices =~= choices_of(t@.presets, t@.custom));
        t
    }

    fn is_offered(&self, name: &str) -> (r: bool)
        ensures
            r == offered(self@.choices, name@),
    {
        let mut i: usize = 0;
        while i < self.choices.len()
            invariant
                i <= self.choices@.len(),
                forall|k: int| 0 <= k < i ==> self@.choices[k].name != name@,
            decreases self.choices.len() - i,
        {
            assert(self@.choices[i as int] == self.choices@[i as int]@);
            if crate::text::same_text(self.choices[i].name.as_str(), name) {
                return true;
            }
            i += 1;
        }
        false
    }

    /// Resolve any offered theme to its full entry, palette included — the
    /// picker previews the theme under its cursor, not only the active one.
    pub fn entry(&self, name: &str) -> (r: Option<ThemeEntry>)
        requires
            self.wf(),
        ensures
            offered(self@.choices, name@) ==> (r matches Some(e) && e@ == resolve_spec(Some(name@), self@.custom, self@.presets)),
            !offered(self@.choices, name@) ==> r is None,
    {
        if self.is_offered(name) {
            Some(resolve(Some(name), &self.custom, &self.presets))
        } else {
            None
        }
    }

    /// The active theme's identifier.
    pub fn active_name(&self) -> (r: &str)
        ensures
            r@ == self@.active.name,
    {
        self.active.name.as_str()
    }

    pub fn active(&self) -> (r: &ThemeEntry)
        ensures
            r@ == self@.active,
    {
        &self.active
    }

    pub fn choices(&self) -> (r: &Vec<ThemeChoice>)
        ensures
            r@.map_values(|c: ThemeChoice| c@) == self@.choices,
    {
        &self.choices
    }

    /// Make `name` active and report whether it resolved. An unknown name is
    /// refused rather than silently ignored, and the active theme stays. The
    /// caller persists a choice that was made.
    pub fn select(&mut self, name: &str) -> (r: Result<(), String>)
        requires
            old(self).wf(),
        ensures
            final(self).wf(),
            offered(old(self)@.choices, name@) ==> r is Ok && final(self)@ == (ThemesView {
                active: resolve_spec(Some(name@), old(self)@.custom, old(self)@.presets),
                ..old(self)@
            }),
            !offered(old(self)@.choices, name@) ==> (r matches Err(e) && e@ == "unknown theme "@ + debug_text(name@) && final(self)@ == old(self)@),
    {
        if !self.is_offered(name) {
            let mut message = String::from_str("unknown theme ");
            let shown = quoted(name);
            push_str(&mut message, shown.as_str());
            proof { reveal_strlit("unknown theme "); }
            return Err(message);
        }
        self.active = resolve(Some(name), &self.custom, &self.presets);
        Ok(())
    }

    /// Make `name` active without it being recorded — the live preview a
    /// picker shows while you move through the list.
    pub fn preview(&mut self, name: &str) -> (r: Result<(), String>)
        requires
            old(self).wf(),
        ensures
            final(self).wf(),
            offered(old(self)@.choices, name@) ==> r is Ok && final(self)@ == (ThemesView {
                active: resolve_spec(Some(name@), old(self)@.custom, old(self)@.presets),
                ..old(self)@
            }),
            !offered(old(self)@.choices, name@) ==> (r matches Err(e) && e@ == "unknown theme "@ + debug_text(name@) && final(self)@ == old(self)@),
    {
        self.select(name)
    }

    /// The active palette as role name and colour text, ready to publish.
    pub fn roles(&self) -> (r: Vec<(String, String)>)
        ensures
            r@.map_values(|e: (String, String)| (e.0@, e.1@)) == role_table(self@.active.palette).map_values(|e: (Seq<char>, Color)| (e.0, color_text(e.1))),
    {
        palette_roles(&self.active.palette)
    }
}

/// A recorded choice that neither a user theme nor a preset answers to —
/// and no recorded choice at all — resolves to the default, the first preset.
pub proof fn lemma_unknown_choice_is_the_default(name: Seq<char>, custom: Seq<EntryView>, presets: Seq<EntryView>)
    requires
        named(custom, name, 0) is None,
        named(presets, name, 0) is None,
    ensures
        resolve_spec(Some(name), custom, presets) == presets[0],
        resolve_spec(None, custom, presets) == presets[0],
{
}

/// A user theme shadows a preset of the same name.
pub proof fn lemma_user_theme_shadows_a_preset(name: Seq<char>, custom: Seq<EntryView>, presets: Seq<EntryView>, i: int)
    requires
        0 <= i < custom.len(),
        custom[i].name == name,
    ensures
        named(custom, name, 0) is Some,
        resolve_spec(Some(name), custom, presets) == named(custom, name, 0)->0,
        resolve_spec(Some(name), custom, presets).name == name,
{
    lemma_named_reaches(custom, name, 0, i);
}

proof fn lemma_named_reaches(entries: Seq<EntryView>, name: Seq<char>, k: int, i: int)
    requires
        0 <= k <= i < entries.len(),
        entries[i].name == name,
    ensures
        named(entries, name, k) matches Some(e) && e.name == name,
    decreases i - k,
{
    if entries[k].name != name {
        lemma_named_reaches(entries, name, k + 1, i);
    }
}

} // verus!
