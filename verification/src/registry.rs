//! Keys and settings, declared by plugins and collected in one place.
//!
//! A plugin declares its keys and settings as data, so the kernel can list
//! them without running anything. The registry applies the user's overrides,
//! finds chords claimed twice in overlapping scopes, and says which action a
//! keypress fires. Reading and writing the overrides file is the caller's.
use vstd::prelude::*;
use crate::text::{push_str, same_text, quoted, debug_text, decimal, decimal_text};
use crate::chords::{KeyPress, canonical_chord, canonical_spec, normalise_chord, normalise_spec};
use crate::json::{Json, JsonView, json_of, json_refusal, parse_json, field, object_entries, string_entries, string_items, entries_view, opt_string, text_of, into_entries, into_string_entries, into_string_items, into_text};
use crate::keyed::{lookup, put, drop_key, lemma_put, lemma_first_key, lemma_no_key, lemma_drop_key, lemma_lookup_push};

verus! {

/// Where a declared key is active.
#[derive(Debug, Clone, Copy, PartialEq, Eq, Structural, PartialOrd, Ord)]
pub enum Scope {
    /// Fires wherever focus is.
    Global,
    /// Fires only while the declaring plugin holds focus.
    Plugin,
}

impl Scope {
    pub fn as_str(self) -> (s: &'static str)
        ensures
            s@ == match self { Scope::Global => "global"@, Scope::Plugin => "plugin"@ },
    {
        match self {
            Scope::Global => "global",
            Scope::Plugin => "plugin",
        }
    }

    /// `global` reads as global; anything else, or nothing, as plugin-scoped.
    pub fn parse(raw: Option<&str>) -> (s: Scope)
        ensures
            s == if raw matches Some(r) && r@ == "global"@ { Scope::Global } else { Scope::Plugin },
    {
        match raw {
            Some(r) => {
                proof { reveal_strlit("global"); }
                if same_text(r, "global") { Scope::Global } else { Scope::Plugin }
            },
            None => Scope::Plugin,
        }
    }
}

/// A key a plugin responds to.
#[derive(Debug, PartialEq, Eq)]
pub struct Binding {
    /// Plugin that declared it.
    pub plugin: String,
    /// Stable identifier the plugin is called back with.
    pub action: String,
    /// Chord as declared, canonicalised.
    pub default_chord: String,
    /// Chord actually in force: the override when one exists.
    pub chord: String,
    /// Whether `chord` came from an override; it decides who wins a clash.
    pub overridden: bool,
    pub description: String,
    pub scope: Scope,
    /// Whether a focused agent terminal keeps this chord instead.
    pub passthrough: bool,
    /// Section this key belongs to in help.
    pub group: String,
}

pub struct BindingView {
    pub plugin: Seq<char>,
    pub action: Seq<char>,
    pub default_chord: Seq<char>,
    pub chord: Seq<char>,
    pub overridden: bool,
    pub description: Seq<char>,
    pub scope: Scope,
    pub passthrough: bool,
    pub group: Seq<char>,
}

impl View for Binding {
    type V = BindingView;

    open spec fn view(&self) -> BindingView {
        BindingView {
            plugin: self.plugin@,
            action: self.action@,
            default_chord: self.default_chord@,
            chord: self.chord@,
            overridden: self.overridden,
            description: self.description@,
            scope: self.scope,
            passthrough: self.passthrough,
            group: self.group@,
        }
    }
}

impl Clone for Binding {
    fn clone(&self) -> (r: Self)
        ensures
            r@ == self@,
    {
        Binding {
            plugin: self.plugin.clone(),
            action: self.action.clone(),
            default_chord: self.default_chord.clone(),
            chord: self.chord.clone(),
            overridden: self.overridden,
            description: self.description.clone(),
            scope: self.scope,
            passthrough: self.passthrough,
            group: self.group.clone(),
        }
    }
}

/// A setting's value: a knob, not a document. A number is carried as the
/// bits of its `f64`, which is all the registry does with it: it copies
/// numbers and compares kinds.
#[derive(Debug, PartialEq, Eq)]
pub enum SettingValue {
    Bool(bool),
    Number(u64),
    Text(String),
}

pub enum ValueView {
    Bool(bool),
    Number(u64),
    Text(Seq<char>),
}

impl View for SettingValue {
    type V = ValueView;

    open spec fn view(&self) -> ValueView {
        match self {
            SettingValue::Bool(b) => ValueView::Bool(*b),
            SettingValue::Number(n) => ValueView::Number(*n),
            SettingValue::Text(t) => ValueView::Text(t@),
        }
    }
}

impl Clone for SettingValue {
    fn clone(&self) -> (r: Self)
        ensures
            r@ == self@,
    {
        match self {
            SettingValue::Bool(b) => SettingValue::Bool(*b),
            SettingValue::Number(n) => SettingValue::Number(*n),
            SettingValue::Text(t) => SettingValue::Text(t.clone()),
        }
    }
}

/// The name of a value's kind.
pub open spec fn kind_name(v: ValueView) -> Seq<char> {
    match v {
        ValueView::Bool(_) => "bool"@,
        ValueView::Number(_) => "number"@,
        ValueView::Text(_) => "text"@,
    }
}

/// Two values of one kind.
pub open spec fn same_kind(a: ValueView, b: ValueView) -> bool {
    match (a, b) {
        (ValueView::Bool(_), ValueView::Bool(_)) => true,
        (ValueView::Number(_), ValueView::Number(_)) => true,
        (ValueView::Text(_), ValueView::Text(_)) => true,
        _ => false,
    }
}

impl SettingValue {
    /// The name of the value's kind, as messages give it: `bool`, `number` or `text`.
    pub fn type_label(&self) -> (s: &'static str)
        ensures
            s@ == kind_name(self@),
    {
        match self {
            SettingValue::Bool(_) => "bool",
            SettingValue::Number(_) => "number",
            SettingValue::Text(_) => "text",
        }
    }

    fn same_kind_as(&self, other: &SettingValue) -> (r: bool)
        ensures
            r == same_kind(self@, other@),
    {
        match (self, other) {
            (SettingValue::Bool(_), SettingValue::Bool(_)) => true,
            (SettingValue::Number(_), SettingValue::Number(_)) => true,
            (SettingValue::Text(_), SettingValue::Text(_)) => true,
            _ => false,
        }
    }
}

/// A setting a plugin accepts.
#[derive(Debug, PartialEq, Eq)]
pub struct Setting {
    pub plugin: String,
    pub id: String,
    pub description: String,
    pub default: SettingValue,
    /// Effective value: the override when one applies, else the default.
    pub value: SettingValue,
}

pub struct SettingView {
    pub plugin: Seq<char>,
    pub id: Seq<char>,
    pub description: Seq<char>,
    pub default: ValueView,
    pub value: ValueView,
}

impl View for Setting {
    type V = SettingView;

    open spec fn view(&self) -> SettingView {
        SettingView { plugin: self.plugin@, id: self.id@, description: self.description@, default: self.default@, value: self.value@ }
    }
}

impl Clone for Setting {
    fn clone(&self) -> (r: Self)
        ensures
            r@ == self@,
    {
        Setting {
            plugin: self.plugin.clone(),
            id: self.id.clone(),
            description: self.description.clone(),
            default: self.default.clone(),
            value: self.value.clone(),
        }
    }
}

/// An action-band entry a plugin contributes.
#[derive(Debug, PartialEq, Eq)]
pub struct Pill {
    pub plugin: String,
    /// The action pressing it runs.
    pub action: String,
    pub label: String,
    /// Higher is kept longer when the band runs out of width.
    pub priority: i64,
}

impl Clone for Pill {
    fn clone(&self) -> (r: Self)
        ensures
            r.plugin@ == self.plugin@ && r.action@ == self.action@ && r.label@ == self.label@ && r.priority == self.priority,
    {
        Pill { plugin: self.plugin.clone(), action: self.action.clone(), label: self.label.clone(), priority: self.priority }
    }
}

/// A chord claimed by two declarations whose scopes overlap: the action that
/// fires and the one it shadows.
#[derive(Debug, PartialEq, Eq)]
pub struct Conflict {
    pub chord: String,
    pub kept: String,
    pub shadowed: String,
}

pub struct ConflictView {
    pub chord: Seq<char>,
    pub kept: Seq<char>,
    pub shadowed: Seq<char>,
}

impl View for Conflict {
    type V = ConflictView;

    open spec fn view(&self) -> ConflictView {
        ConflictView { chord: self.chord@, kept: self.kept@, shadowed: self.shadowed@ }
    }
}

impl Clone for Conflict {
    fn clone(&self) -> (r: Self)
        ensures
            r@ == self@,
    {
        Conflict { chord: self.chord.clone(), kept: self.kept.clone(), shadowed: self.shadowed.clone() }
    }
}

/// The chords the kernel keeps for itself, the escape route no plugin may
/// take: quit, reload, focus left and right, and the timing display.
pub open spec fn reserved(chord: Seq<char>) -> bool {
    reserved_list().contains(chord)
}

/// The chords the kernel keeps for itself, in the order they are listed.
pub open spec fn reserved_list() -> Seq<Seq<char>> {
    seq!["ctrl+q"@, "f10"@, "ctrl+h"@, "ctrl+l"@, "f12"@]
}

/// Whether the kernel keeps `chord` for itself.
pub fn is_reserved(chord: &str) -> (r: bool)
    ensures
        r == reserved(chord@),
{
    let all = reserved_chords();
    let mut i: usize = 0;
    while i < all.len()
        invariant
            i <= all@.len(),
            all@.map_values(|s: &str| s@) == reserved_list(),
            forall|k: int| 0 <= k < i ==> reserved_list()[k] != chord@,
        decreases all.len() - i,
    {
        assert(all@[i as int]@ == reserved_list()[i as int]);
        if same_text(all[i], chord) {
            assert(reserved_list()[i as int] == chord@);
            return true;
        }
        i += 1;
    }
    assert forall|k: int| 0 <= k < reserved_list().len() implies reserved_list()[k] != chord@ by {}
    false
}

/// The reserved chords, in order.
pub fn reserved_chords() -> (r: Vec<&'static str>)
    ensures
        r@.map_values(|s: &str| s@) == reserved_list(),
{
    let r = vec!["ctrl+q", "f10", "ctrl+h", "ctrl+l", "f12"];
    proof {
        reveal_strlit("ctrl+q");
        reveal_strlit("f10");
        reveal_strlit("ctrl+h");
        reveal_strlit("ctrl+l");
        reveal_strlit("f12");
    }
    assert(r@.map_values(|s: &str| s@) =~= reserved_list());
    r
}

/// Help sections, in order; a group not listed follows, alphabetically.
pub open spec fn help_sections() -> Seq<Seq<char>> {
    seq!["Navigation"@, "Sessions"@, "Project"@, "UI"@]
}

/// The help sections, in order.
pub fn help_sections_list() -> (r: Vec<&'static str>)
    ensures
        r@.map_values(|s: &str| s@) == help_sections(),
{
    let r = vec!["Navigation", "Sessions", "Project", "UI"];
    assert(r@.map_values(|s: &str| s@) =~= help_sections());
    r
}

/// Build a binding from a plugin's declaration table: its chord normalised
/// and in force, not overridden, scoped as `scope` reads, grouped under
/// `group` or else the plugin's name.
pub fn binding_from(
    plugin: &str,
    chord: &str,
    action: &str,
    description: &str,
    scope: Option<&str>,
    passthrough: bool,
    group: Option<&str>,
) -> (b: Binding)
    ensures
        b@ == (BindingView {
            plugin: plugin@,
            action: action@,
            default_chord: normalise_spec(chord@),
            chord: normalise_spec(chord@),
            overridden: false,
            description: description@,
            scope: if scope matches Some(r) && r@ == "global"@ { Scope::Global } else { Scope::Plugin },
            passthrough,
            group: match group { Some(g) => g@, None => plugin@ },
        }),
{
    let chord = normalise_chord(chord);
    let g = match group {
        Some(g) => g.to_string(),
        None => plugin.to_string(),
    };
    Binding {
        plugin: plugin.to_string(),
        action: action.to_string(),
        default_chord: chord.clone(),
        chord,
        overridden: false,
        description: description.to_string(),
        scope: Scope::parse(scope),
        passthrough,
        group: g,
    }
}

/// Do two declarations compete for the same chord? Two plugin-scoped claims
/// only when one plugin makes both; a global claim competes with everything.
pub open spec fn overlap(a: BindingView, b: BindingView) -> bool {
    match (a.scope, b.scope) {
        (Scope::Plugin, Scope::Plugin) => a.plugin == b.plugin,
        _ => true,
    }
}

fn scopes_overlap(a: &Binding, b: &Binding) -> (r: bool)
    ensures
        r == overlap(a@, b@),
{
    match (a.scope, b.scope) {
        (Scope::Plugin, Scope::Plugin) => same_text(a.plugin.as_str(), b.plugin.as_str()),
        _ => true,
    }
}

/// A binding with its chord in force: the override for its action, or its
/// default when none remains.
pub open spec fn in_force(b: BindingView, overrides: Seq<(Seq<char>, Seq<char>)>) -> BindingView {
    match lookup(overrides, b.action) {
        Some(c) => BindingView { chord: c, overridden: true, ..b },
        None => BindingView { chord: b.default_chord, overridden: false, ..b },
    }
}

/// The key a setting's override is stored under: `plugin.id`.
pub open spec fn setting_key(plugin: Seq<char>, id: Seq<char>) -> Seq<char> {
    plugin + "."@ + id
}

/// A setting once its override is applied: a stored value of its default's
/// kind replaces its value; one of another kind is ignored.
pub open spec fn setting_in_force(s: SettingView, overrides: Seq<(Seq<char>, ValueView)>) -> SettingView {
    match lookup(overrides, setting_key(s.plugin, s.id)) {
        Some(v) => if same_kind(v, s.default) { SettingView { value: v, ..s } } else { s },
        None => s,
    }
}

/// The first of the kept claims `seen` (indices into `bs`) that `b` competes
/// with for its chord.
pub open spec fn rival(bs: Seq<BindingView>, seen: Seq<int>, b: BindingView, i: int) -> Option<int>
    decreases seen.len() - i,
{
    if i < 0 || i >= seen.len() {
        None
    } else if bs[seen[i]].chord == b.chord && overlap(bs[seen[i]], b) {
        Some(seen[i])
    } else {
        rival(bs, seen, b, i + 1)
    }
}

/// The conflict between a later claim `b` and the earlier `e`, named the way
/// a keypress is resolved: an override beats a mere default, and otherwise
/// the earlier declaration wins.
pub open spec fn conflict_between(e: BindingView, b: BindingView) -> ConflictView {
    if b.overridden && !e.overridden {
        ConflictView { chord: b.chord, kept: b.action, shadowed: e.action }
    } else {
        ConflictView { chord: b.chord, kept: e.action, shadowed: b.action }
    }
}

/// Scanning the first `k` bindings in order: the claims kept so far, and the
/// conflicts found. A claim that competes with a kept one is a conflict;
/// anything else is kept.
pub open spec fn scan(bs: Seq<BindingView>, k: int) -> (Seq<int>, Seq<ConflictView>)
    decreases k,
{
    if k <= 0 {
        (Seq::empty(), Seq::empty())
    } else {
        let prev = scan(bs, k - 1);
        match rival(bs, prev.0, bs[k - 1], 0) {
            Some(j) => (prev.0, prev.1.push(conflict_between(bs[j], bs[k - 1]))),
            None => (prev.0.push(k - 1), prev.1),
        }
    }
}

/// Every chord claimed twice in overlapping scopes, in declaration order.
pub open spec fn conflicts_of(bs: Seq<BindingView>) -> Seq<ConflictView> {
    scan(bs, bs.len() as int).1
}

/// Whether a binding fires for `chord` with `focused` holding focus.
pub open spec fn active(b: BindingView, chord: Seq<char>, focused: Option<Seq<char>>) -> bool {
    b.chord == chord && match b.scope {
        Scope::Global => true,
        Scope::Plugin => focused == Some(b.plugin),
    }
}

/// The first binding from `i` on that is active (and overridden, when `only_overridden`).
pub open spec fn first_active(bs: Seq<BindingView>, chord: Seq<char>, focused: Option<Seq<char>>, only_overridden: bool, i: int) -> Option<int>
    decreases bs.len() - i,
{
    if i < 0 || i >= bs.len() {
        None
    } else if active(bs[i], chord, focused) && (!only_overridden || bs[i].overridden) {
        Some(i)
    } else {
        first_active(bs, chord, focused, only_overridden, i + 1)
    }
}

/// The binding a keypress on `chord` fires: the first active override, else
/// the first active declaration.
pub open spec fn resolved(bs: Seq<BindingView>, chord: Seq<char>, focused: Option<Seq<char>>) -> Option<int> {
    match first_active(bs, chord, focused, true, 0) {
        Some(i) => Some(i),
        None => first_active(bs, chord, focused, false, 0),
    }
}

proof fn lemma_first_active(bs: Seq<BindingView>, chord: Seq<char>, focused: Option<Seq<char>>, only: bool, k: int)
    requires
        0 <= k,
    ensures
        first_active(bs, chord, focused, only, k) matches Some(i) ==> k <= i < bs.len(),
    decreases bs.len() - k,
{
    if k < bs.len() && !(active(bs[k], chord, focused) && (!only || bs[k].overridden)) {
        lemma_first_active(bs, chord, focused, only, k + 1);
    }
}

/// The warning a conflict is shown as.
pub open spec fn conflict_warning(c: ConflictView) -> Seq<char> {
    c.chord + " is claimed by both "@ + c.kept + " and "@ + c.shadowed + "; "@ + c.kept + " wins"@
}

/// The registry as text: what was declared, and what the user changed.
pub struct RegistryView {
    pub bindings: Seq<BindingView>,
    pub settings: Seq<SettingView>,
    pub pills: Seq<(Seq<char>, Seq<char>, Seq<char>, i64)>,
    pub conflicts: Seq<ConflictView>,
    /// Action to chord.
    pub binding_overrides: Seq<(Seq<char>, Seq<char>)>,
    /// `plugin.setting` to value.
    pub setting_overrides: Seq<(Seq<char>, ValueView)>,
    /// Plugins the user turned off, by absolute path, in text order.
    pub disabled: Seq<Seq<char>>,
    /// Plugins the user trusted: absolute path to the digest trusted.
    pub trusted: Seq<(Seq<char>, Seq<char>)>,
    /// What would not load.
    pub load_warnings: Seq<Seq<char>>,
}

/// Everything declared, plus what the user changed.
pub struct Registry {
    bindings: Vec<Binding>,
    settings: Vec<Setting>,
    pills: Vec<Pill>,
    conflicts: Vec<Conflict>,
    binding_overrides: Vec<(String, String)>,
    setting_overrides: Vec<(String, SettingValue)>,
    disabled: Vec<String>,
    trusted: Vec<(String, String)>,
    load_warnings: Vec<String>,
}

pub open spec fn bindings_view(bs: Seq<Binding>) -> Seq<BindingView> {
    bs.map_values(|b: Binding| b@)
}

pub open spec fn settings_view(ss: Seq<Setting>) -> Seq<SettingView> {
    ss.map_values(|s: Setting| s@)
}

pub open spec fn pills_view(ps: Seq<Pill>) -> Seq<(Seq<char>, Seq<char>, Seq<char>, i64)> {
    ps.map_values(|p: Pill| (p.plugin@, p.action@, p.label@, p.priority))
}

pub open spec fn pairs_view(es: Seq<(String, String)>) -> Seq<(Seq<char>, Seq<char>)> {
    es.map_values(|e: (String, String)| (e.0@, e.1@))
}

pub open spec fn values_view(es: Seq<(String, SettingValue)>) -> Seq<(Seq<char>, ValueView)> {
    es.map_values(|e: (String, SettingValue)| (e.0@, e.1@))
}

pub open spec fn texts_view(es: Seq<String>) -> Seq<Seq<char>> {
    es.map_values(|e: String| e@)
}

impl View for Registry {
    type V = RegistryView;

    closed spec fn view(&self) -> RegistryView {
        RegistryView {
            bindings: bindings_view(self.bindings@),
            settings: settings_view(self.settings@),
            pills: pills_view(self.pills@),
            conflicts: self.conflicts@.map_values(|c: Conflict| c@),
            binding_overrides: pairs_view(self.binding_overrides@),
            setting_overrides: values_view(self.setting_overrides@),
            disabled: texts_view(self.disabled@),
            trusted: pairs_view(self.trusted@),
            load_warnings: texts_view(self.load_warnings@),
        }
    }
}

/// The first entry under `key`, and where it stands.
fn find_key<V>(entries: &Vec<(String, V)>, key: &str) -> (r: Option<usize>)
    ensures
        match r {
            Some(i) => i < entries@.len() && entries@[i as int].0@ == key@
                && forall|j: int| 0 <= j < i ==> entries@[j].0@ != key@,
            None => forall|j: int| 0 <= j < entries@.len() ==> entries@[j].0@ != key@,
        },
{
    let mut i: usize = 0;
    while i < entries.len()
        invariant
            i <= entries@.len(),
            forall|j: int| 0 <= j < i ==> entries@[j].0@ != key@,
        decreases entries.len() - i,
    {
        if same_text(entries[i].0.as_str(), key) {
            return Some(i);
        }
        i += 1;
    }
    None
}

/// Store `value` under `key`, replacing the first entry under it.
fn put_pair(entries: &mut Vec<(String, String)>, key: String, value: String)
    ensures
        pairs_view(final(entries)@) == put(pairs_view(old(entries)@), key@, value@),
{
    let ghost before = pairs_view(entries@);
    match find_key(entries, key.as_str()) {
        Some(i) => {
            proof { lemma_first_key(before, key@, i as int, value@); }
            entries.set(i, (key, value));
            assert(pairs_view(entries@) =~= before.update(i as int, (key@, value@)));
        },
        None => {
            proof { lemma_no_key(before, key@, value@); }
            entries.push((key, value));
            assert(pairs_view(entries@) =~= before.push((key@, value@)));
        },
    }
}

/// Store a setting's `value` under `key`.
fn put_value(entries: &mut Vec<(String, SettingValue)>, key: String, value: SettingValue)
    ensures
        values_view(final(entries)@) == put(values_view(old(entries)@), key@, value@),
{
    let ghost before = values_view(entries@);
    match find_key(entries, key.as_str()) {
        Some(i) => {
            proof { lemma_first_key(before, key@, i as int, value@); }
            let ghost v = value@;
            entries.set(i, (key, value));
            assert(values_view(entries@) =~= before.update(i as int, (key@, v)));
        },
        None => {
            proof { lemma_no_key(before, key@, value@); }
            let ghost v = value@;
            entries.push((key, value));
            assert(values_view(entries@) =~= before.push((key@, v)));
        },
    }
}

proof fn lemma_drop_key_push<K, V>(entries: Seq<(K, V)>, key: K)
    requires
        entries.len() > 0,
    ensures
        drop_key(entries, key) == if entries.last().0 == key {
            drop_key(entries.drop_last(), key)
        } else {
            drop_key(entries.drop_last(), key).push(entries.last())
        },
{
}

/// Drop every entry under `key`, the others keeping their order.
fn drop_pairs<V: View>(entries: &mut Vec<(String, V)>, key: &str)
    ensures
        final(entries)@.map_values(|e: (String, V)| (e.0@, e.1@))
            == drop_key(old(entries)@.map_values(|e: (String, V)| (e.0@, e.1@)), key@),
{
    let ghost all = entries@.map_values(|e: (String, V)| (e.0@, e.1@));
    let ghost orig = entries@;
    let ghost mut j: int = 0;
    let mut i: usize = 0;
    while i < entries.len()
        invariant
            0 <= i <= j <= orig.len(),
            i <= entries@.len(),
            all == orig.map_values(|e: (String, V)| (e.0@, e.1@)),
            entries@.subrange(0, i as int).map_values(|e: (String, V)| (e.0@, e.1@)) == drop_key(all.take(j), key@),
            entries@.subrange(i as int, entries@.len() as int) == orig.subrange(j, orig.len() as int),
        decreases entries.len() - i,
    {
        proof {
            assert(entries@.subrange(i as int, entries@.len() as int).len() == orig.subrange(j, orig.len() as int).len());
            assert(j < orig.len());
            assert(entries@.subrange(i as int, entries@.len() as int)[0] == orig.subrange(j, orig.len() as int)[0]);
            assert(entries@[i as int] == orig[j]);
            assert(all.take(j + 1).drop_last() =~= all.take(j));
            assert(all.take(j + 1).last() == (orig[j].0@, orig[j].1@));
            lemma_drop_key_push(all.take(j + 1), key@);
        }
        if same_text(entries[i].0.as_str(), key) {
            let ghost before = entries@;
            let ghost tail = before.subrange(i as int, before.len() as int);
            let _gone = entries.remove(i);
            proof {
                assert(entries@.subrange(0, i as int) =~= before.subrange(0, i as int));
                assert forall|k: int| 0 <= k < entries@.len() - i implies
                    #[trigger] entries@.subrange(i as int, entries@.len() as int)[k] == orig.subrange(j + 1, orig.len() as int)[k] by {
                    assert(entries@[i + k] == before[i + k + 1]);
                    assert(tail[k + 1] == orig.subrange(j, orig.len() as int)[k + 1]);
                }
                assert(entries@.subrange(i as int, entries@.len() as int) =~= orig.subrange(j + 1, orig.len() as int));
                j = j + 1;
            }
        } else {
            proof {
                assert(entries@.subrange(0, i + 1) =~= entries@.subrange(0, i as int).push(entries@[i as int]));
                let tail = entries@.subrange(i as int, entries@.len() as int);
                assert forall|k: int| 0 <= k < entries@.len() - i - 1 implies
                    #[trigger] entries@.subrange(i + 1, entries@.len() as int)[k] == orig.subrange(j + 1, orig.len() as int)[k] by {
                    assert(tail[k + 1] == orig.subrange(j, orig.len() as int)[k + 1]);
                }
                assert(entries@.subrange(i + 1, entries@.len() as int) =~= orig.subrange(j + 1, orig.len() as int));
                j = j + 1;
            }
            i += 1;
        }
    }
    proof {
        assert(entries@.subrange(0, i as int) =~= entries@);
        assert(j == orig.len());
        assert(all.take(j) =~= all);
    }
}

/// The conflicts found so far, as text.
pub open spec fn conflicts_view(cs: Seq<Conflict>) -> Seq<ConflictView> {
    cs.map_values(|c: Conflict| c@)
}

/// Kept claims, as positions.
pub open spec fn seen_view(seen: Seq<usize>) -> Seq<int> {
    seen.map_values(|x: usize| x as int)
}

proof fn lemma_rival(bs: Seq<BindingView>, seen: Seq<int>, b: BindingView, k: int)
    requires
        0 <= k,
    ensures
        rival(bs, seen, b, k) matches Some(j) ==> exists|i: int| k <= i < seen.len() && seen[i] == j,
    decreases seen.len() - k,
{
    if k < seen.len() && !(bs[seen[k]].chord == b.chord && overlap(bs[seen[k]], b)) {
        lemma_rival(bs, seen, b, k + 1);
    }
}

proof fn lemma_scan_seen(bs: Seq<BindingView>, k: int)
    requires
        0 <= k,
    ensures
        forall|i: int| 0 <= i < scan(bs, k).0.len() ==> 0 <= #[trigger] scan(bs, k).0[i] < k,
    decreases k,
{
    if k > 0 {
        lemma_scan_seen(bs, k - 1);
        let prev = scan(bs, k - 1);
        let now = scan(bs, k);
        assert forall|i: int| 0 <= i < now.0.len() implies 0 <= #[trigger] now.0[i] < k by {
            if i < prev.0.len() {
                assert(now.0[i] == prev.0[i]);
            }
        }
    }
}

/// The overrides file as it was read: each entry with its value where it was
/// of the kind expected (a chord, a setting's value, a digest, a path), and
/// `None` where it was not.
pub struct RawOverrides {
    pub bindings: Vec<(String, Option<String>)>,
    pub settings: Vec<(String, Option<SettingValue>)>,
    pub trusted: Vec<(String, Option<String>)>,
    pub disabled: Vec<Option<String>>,
}

/// What the overrides file carries once read.
pub struct Overrides {
    /// Action to chord, normalised.
    pub bindings: Vec<(String, String)>,
    /// `plugin.setting` to value.
    pub settings: Vec<(String, SettingValue)>,
    /// Absolute path to the digest its contents had when trusted.
    pub trusted: Vec<(String, String)>,
    /// Absolute paths turned off, in text order, each once.
    pub disabled: Vec<String>,
}

/// `s` in text order, each once, with `x` added.
pub open spec fn add_text(s: Seq<Seq<char>>, x: Seq<char>) -> Seq<Seq<char>>
    decreases s.len(),
{
    if s.len() == 0 {
        seq![x]
    } else if s[0] == x {
        s
    } else if crate::results::text_lt(x, s[0]) {
        seq![x] + s
    } else {
        seq![s[0]] + add_text(s.drop_first(), x)
    }
}

/// `s` without `x`.
pub open spec fn remove_text(s: Seq<Seq<char>>, x: Seq<char>) -> Seq<Seq<char>>
    decreases s.len(),
{
    if s.len() == 0 {
        s
    } else if s[0] == x {
        remove_text(s.drop_first(), x)
    } else {
        seq![s[0]] + remove_text(s.drop_first(), x)
    }
}

/// The chords read: each stored chord normalised, a later entry for an
/// action replacing an earlier one; entries that held no chord are skipped.
pub open spec fn chords_read(raw: Seq<(Seq<char>, Option<Seq<char>>)>) -> Seq<(Seq<char>, Seq<char>)>
    decreases raw.len(),
{
    if raw.len() == 0 {
        Seq::empty()
    } else {
        let rest = chords_read(raw.drop_last());
        match raw.last().1 {
            Some(c) => put(rest, raw.last().0, normalise_spec(c)),
            None => rest,
        }
    }
}

/// Entries read as they are, skipping those that held nothing usable.
pub open spec fn entries_read<V>(raw: Seq<(Seq<char>, Option<V>)>) -> Seq<(Seq<char>, V)>
    decreases raw.len(),
{
    if raw.len() == 0 {
        Seq::empty()
    } else {
        let rest = entries_read(raw.drop_last());
        match raw.last().1 {
            Some(v) => put(rest, raw.last().0, v),
            None => rest,
        }
    }
}

/// The paths read into one ordered set.
pub open spec fn paths_read(raw: Seq<Option<Seq<char>>>) -> Seq<Seq<char>>
    decreases raw.len(),
{
    if raw.len() == 0 {
        Seq::empty()
    } else {
        let rest = paths_read(raw.drop_last());
        match raw.last() {
            Some(p) => add_text(rest, p),
            None => rest,
        }
    }
}

pub open spec fn opt_text(o: Option<String>) -> Option<Seq<char>> {
    match o {
        Some(s) => Some(s@),
        None => None,
    }
}

pub open spec fn opt_value(o: Option<SettingValue>) -> Option<ValueView> {
    match o {
        Some(v) => Some(v@),
        None => None,
    }
}

/// In text order, each once.
pub open spec fn strictly_sorted(v: Seq<Seq<char>>) -> bool {
    forall|i: int, j: int| 0 <= i < j < v.len() ==> crate::results::text_lt(#[trigger] v[i], #[trigger] v[j])
}

proof fn lemma_remove_absent(v: Seq<Seq<char>>, x: Seq<char>)
    requires
        !v.contains(x),
    ensures
        remove_text(v, x) == v,
    decreases v.len(),
{
    if v.len() > 0 {
        assert(v[0] != x);
        assert forall|k: int| 0 <= k < v.drop_first().len() implies v.drop_first()[k] != x by {
            assert(v.drop_first()[k] == v[k + 1]);
        }
        lemma_remove_absent(v.drop_first(), x);
        assert(seq![v[0]] + v.drop_first() =~= v);
    }
}

proof fn lemma_remove_once(v: Seq<Seq<char>>, x: Seq<char>, i: int)
    requires
        0 <= i < v.len(),
        v[i] == x,
        forall|j: int| 0 <= j < v.len() && j != i ==> v[j] != x,
    ensures
        remove_text(v, x) == v.remove(i),
    decreases v.len(),
{
    if i == 0 {
        assert forall|k: int| 0 <= k < v.drop_first().len() implies v.drop_first()[k] != x by {
            assert(v.drop_first()[k] == v[k + 1]);
        }
        lemma_remove_absent(v.drop_first(), x);
        assert(v.drop_first() =~= v.remove(0));
    } else {
        assert(v[0] != x);
        let d = v.drop_first();
        assert forall|j: int| 0 <= j < d.len() && j != i - 1 implies d[j] != x by {
            assert(d[j] == v[j + 1]);
        }
        lemma_remove_once(d, x, i - 1);
        assert(seq![v[0]] + d.remove(i - 1) =~= v.remove(i));
    }
}

proof fn lemma_add_at(v: Seq<Seq<char>>, x: Seq<char>, i: int)
    requires
        0 <= i <= v.len(),
        forall|k: int| 0 <= k < i ==> #[trigger] v[k] != x && !crate::results::text_lt(x, v[k]),
        i < v.len() ==> crate::results::text_lt(x, v[i]) && v[i] != x,
    ensures
        add_text(v, x) == v.insert(i, x),
    decreases v.len(),
{
    if i == 0 {
        if v.len() > 0 {
            assert(seq![x] + v =~= v.insert(0, x));
        } else {
            assert(seq![x] =~= v.insert(0, x));
        }
    } else {
        let d = v.drop_first();
        assert forall|k: int| 0 <= k < i - 1 implies #[trigger] d[k] != x && !crate::results::text_lt(x, d[k]) by {
            assert(d[k] == v[k + 1]);
        }
        assert(v[0] != x && !crate::results::text_lt(x, v[0]));
        lemma_add_at(d, x, i - 1);
        assert(seq![v[0]] + d.insert(i - 1, x) =~= v.insert(i, x));
    }
}

/// Where `x` goes in the ordered set `s`: `Ok` with its place when it is
/// there, `Err` with where it would go.
pub(crate) fn text_slot(s: &Vec<String>, x: &str) -> (r: Result<usize, usize>)
    requires
        strictly_sorted(texts_view(s@)),
    ensures
        match r {
            Ok(i) => i < s@.len() && texts_view(s@)[i as int] == x@
                && add_text(texts_view(s@), x@) == texts_view(s@)
                && remove_text(texts_view(s@), x@) == texts_view(s@).remove(i as int),
            Err(i) => i <= s@.len() && add_text(texts_view(s@), x@) == texts_view(s@).insert(i as int, x@)
                && remove_text(texts_view(s@), x@) == texts_view(s@)
                && strictly_sorted(texts_view(s@).insert(i as int, x@)),
        },
{
    let xs = crate::text::to_chars(x);
    let ghost v = texts_view(s@);
    let mut i: usize = 0;
    while i < s.len()
        invariant
            i <= s@.len(),
            v == texts_view(s@),
            xs@ == x@,
            strictly_sorted(v),
            forall|k: int| 0 <= k < i ==> #[trigger] v[k] != x@ && !crate::results::text_lt(x@, v[k]),
        decreases s.len() - i,
    {
        let here = crate::text::to_chars(s[i].as_str());
        assert(v[i as int] == s@[i as int]@);
        if same_text(s[i].as_str(), x) {
            proof {
                lemma_add_absent_found(v, x@, i as int);
                assert forall|j: int| 0 <= j < v.len() && j != i implies v[j] != x@ by {
                    if j < i {
                    } else {
                        assert(crate::results::text_lt(v[i as int], v[j]));
                        crate::results::lemma_text_lt_strict(v[j], v[j]);
                    }
                }
                lemma_remove_once(v, x@, i as int);
            }
            return Ok(i);
        }
        if crate::results::text_less(&xs, &here) {
            proof { lemma_slot_found(v, x@, i as int); }
            return Err(i);
        }
        i += 1;
    }
    proof { lemma_slot_found(v, x@, i as int); }
    Err(i)
}

proof fn lemma_add_absent_found(v: Seq<Seq<char>>, x: Seq<char>, i: int)
    requires
        0 <= i < v.len(),
        v[i] == x,
        forall|k: int| 0 <= k < i ==> #[trigger] v[k] != x && !crate::results::text_lt(x, v[k]),
    ensures
        add_text(v, x) == v,
    decreases i,
{
    if i > 0 {
        let d = v.drop_first();
        assert forall|k: int| 0 <= k < i - 1 implies #[trigger] d[k] != x && !crate::results::text_lt(x, d[k]) by {
            assert(d[k] == v[k + 1]);
        }
        assert(v[0] != x && !crate::results::text_lt(x, v[0]));
        lemma_add_absent_found(d, x, i - 1);
        assert(seq![v[0]] + d =~= v);
    }
}

/// Once every place before `i` is neither `x` nor after it, and `x` is
/// before what stands at `i`, `x` is nowhere in `v` and goes at `i`.
proof fn lemma_slot_found(v: Seq<Seq<char>>, x: Seq<char>, i: int)
    requires
        0 <= i <= v.len(),
        strictly_sorted(v),
        forall|k: int| 0 <= k < i ==> #[trigger] v[k] != x && !crate::results::text_lt(x, v[k]),
        i < v.len() ==> crate::results::text_lt(x, v[i]),
    ensures
        add_text(v, x) == v.insert(i, x),
        remove_text(v, x) == v,
        strictly_sorted(v.insert(i, x)),
{
    if i < v.len() {
        crate::results::lemma_text_lt_strict(x, v[i]);
    }
    assert forall|k: int| 0 <= k < i implies crate::results::text_lt(#[trigger] v[k], x) by {
        crate::results::lemma_text_lt_strict(v[k], x);
    }
    assert forall|k: int| i <= k < v.len() implies crate::results::text_lt(x, #[trigger] v[k]) by {
        if k > i {
            crate::results::lemma_text_lt_trans(x, v[i], v[k]);
        }
    }
    assert forall|k: int| 0 <= k < v.len() implies #[trigger] v[k] != x by {
        if k >= i {
            crate::results::lemma_text_lt_strict(x, v[k]);
        }
    }
    lemma_add_at(v, x, i);
    lemma_remove_absent(v, x);
    let w = v.insert(i, x);
    assert forall|a: int, b: int| 0 <= a < b < w.len() implies crate::results::text_lt(#[trigger] w[a], #[trigger] w[b]) by {
        if b < i {
        } else if b == i {
            assert(w[a] == v[a]);
        } else if a < i {
            assert(w[b] == v[b - 1]);
            crate::results::lemma_text_lt_trans(v[a], x, v[b - 1]);
        } else if a == i {
            assert(w[b] == v[b - 1]);
        } else {
            assert(w[a] == v[a - 1]);
            assert(w[b] == v[b - 1]);
        }
    }
}

/// The bindings with their chords in force.
pub open spec fn bindings_in_force(bs: Seq<BindingView>, overrides: Seq<(Seq<char>, Seq<char>)>) -> Seq<BindingView> {
    bs.map_values(|b: BindingView| in_force(b, overrides))
}

/// The settings with their overrides applied.
pub open spec fn settings_in_force(ss: Seq<SettingView>, overrides: Seq<(Seq<char>, ValueView)>) -> Seq<SettingView> {
    ss.map_values(|s: SettingView| setting_in_force(s, overrides))
}

/// The settings back at their defaults, then with their overrides applied.
pub open spec fn settings_reset(ss: Seq<SettingView>, overrides: Seq<(Seq<char>, ValueView)>) -> Seq<SettingView> {
    ss.map_values(|s: SettingView| setting_in_force(SettingView { value: s.default, ..s }, overrides))
}

fn setting_key_of(plugin: &str, id: &str) -> (k: String)
    ensures
        k@ == setting_key(plugin@, id@),
{
    let mut k = String::new();
    push_str(&mut k, plugin);
    proof { reveal_strlit("."); }
    push_str(&mut k, ".");
    push_str(&mut k, id);
    k
}

fn find_value<'a>(entries: &'a Vec<(String, SettingValue)>, key: &str) -> (r: Option<&'a SettingValue>)
    ensures
        match lookup(values_view(entries@), key@) {
            Some(v) => r matches Some(x) && x@ == v,
            None => r is None,
        },
{
    match find_key(entries, key) {
        Some(i) => {
            proof { lemma_first_key(values_view(entries@), key@, i as int, entries@[i as int].1@); }
            Some(&entries[i].1)
        },
        None => {
            proof { lemma_no_key(values_view(entries@), key@, ValueView::Bool(false)); }
            None
        },
    }
}

fn find_text<'a>(entries: &'a Vec<(String, String)>, key: &str) -> (r: Option<&'a String>)
    ensures
        match lookup(pairs_view(entries@), key@) {
            Some(v) => r matches Some(x) && x@ == v,
            None => r is None,
        },
{
    match find_key(entries, key) {
        Some(i) => {
            proof { lemma_first_key(pairs_view(entries@), key@, i as int, entries@[i as int].1@); }
            Some(&entries[i].1)
        },
        None => {
            proof { lemma_no_key(pairs_view(entries@), key@, Seq::<char>::empty()); }
            None
        },
    }
}

impl Default for Registry {
    /// Nothing declared and nothing changed.
    fn default() -> (r: Self)
        ensures
            r.wf(),
            r@ == (RegistryView {
                bindings: Seq::empty(),
                settings: Seq::empty(),
                pills: Seq::empty(),
                conflicts: Seq::empty(),
                binding_overrides: Seq::empty(),
                setting_overrides: Seq::empty(),
                disabled: Seq::empty(),
                trusted: Seq::empty(),
                load_warnings: Seq::empty(),
            }),
    {
        let r = Registry {
            bindings: Vec::new(),
            settings: Vec::new(),
            pills: Vec::new(),
            conflicts: Vec::new(),
            binding_overrides: Vec::new(),
            setting_overrides: Vec::new(),
            disabled: Vec::new(),
            trusted: Vec::new(),
            load_warnings: Vec::new(),
        };
        assert(r@.bindings =~= Seq::<BindingView>::empty());
        assert(r@.settings =~= Seq::<SettingView>::empty());
        assert(r@.pills =~= Seq::<(Seq<char>, Seq<char>, Seq<char>, i64)>::empty());
        assert(r@.conflicts =~= Seq::<ConflictView>::empty());
        assert(r@.binding_overrides =~= Seq::<(Seq<char>, Seq<char>)>::empty());
        assert(r@.setting_overrides =~= Seq::<(Seq<char>, ValueView)>::empty());
        assert(r@.disabled =~= Seq::<Seq<char>>::empty());
        assert(r@.trusted =~= Seq::<(Seq<char>, Seq<char>)>::empty());
        assert(r@.load_warnings =~= Seq::<Seq<char>>::empty());
        r
    }
}

impl Registry {
    /// The disabled paths stay in text order, each once.
    pub closed spec fn wf(&self) -> bool {
        strictly_sorted(texts_view(self.disabled@))
    }

    /// A registry with nothing declared yet, over the overrides read from
    /// the overrides file and what would not load.
    pub fn load(overrides: Overrides, warnings: Vec<String>) -> (r: Registry)
        requires
            strictly_sorted(texts_view(overrides.disabled@)),
        ensures
            r.wf(),
            r@ == (RegistryView {
                bindings: Seq::empty(),
                settings: Seq::empty(),
                pills: Seq::empty(),
                conflicts: Seq::empty(),
                binding_overrides: pairs_view(overrides.bindings@),
                setting_overrides: values_view(overrides.settings@),
                disabled: texts_view(overrides.disabled@),
                trusted: pairs_view(overrides.trusted@),
                load_warnings: texts_view(warnings@),
            }),
    {
        let r = Registry {
            bindings: Vec::new(),
            settings: Vec::new(),
            pills: Vec::new(),
            conflicts: Vec::new(),
            binding_overrides: overrides.bindings,
            setting_overrides: overrides.settings,
            disabled: overrides.disabled,
            trusted: overrides.trusted,
            load_warnings: warnings,
        };
        assert(r@.bindings =~= Seq::<BindingView>::empty());
        assert(r@.settings =~= Seq::<SettingView>::empty());
        assert(r@.pills =~= Seq::<(Seq<char>, Seq<char>, Seq<char>, i64)>::empty());
        assert(r@.conflicts =~= Seq::<ConflictView>::empty());
        r
    }

    /// Whether the user has no keybinding overrides yet, so the ones of the
    /// previous version are worth bringing forward.
    pub fn wants_v1(&self) -> (r: bool)
        ensures
            r == (self@.binding_overrides.len() == 0),
    {
        self.binding_overrides.len() == 0
    }

    /// Bring the previous version's overrides forward, once: only when the
    /// user has none of their own. Carried overrides are reported by count;
    /// the notes (what could not be carried) follow either way.
    pub fn adopt_v1(&mut self, migrated: Vec<(String, String)>, notes: Vec<String>)
        requires
            old(self).wf(),
        ensures
            final(self).wf(),
            old(self)@.binding_overrides.len() != 0 ==> final(self)@ == old(self)@,
            old(self)@.binding_overrides.len() == 0 ==> final(self)@ == (RegistryView {
                binding_overrides: if migrated@.len() > 0 { pairs_view(migrated@) } else { old(self)@.binding_overrides },
                load_warnings: old(self)@.load_warnings
                    + (if migrated@.len() > 0 {
                        seq!["migrated "@ + decimal_text(migrated@.len()) + " keybinding override(s) from v1"@]
                    } else {
                        Seq::empty()
                    })
                    + texts_view(notes@),
                ..old(self)@
            }),
    {
        if self.binding_overrides.len() != 0 {
            return;
        }
        let ghost before = self@;
        if migrated.len() > 0 {
            let mut w = String::new();
            proof {
                reveal_strlit("migrated ");
                reveal_strlit(" keybinding override(s) from v1");
            }
            push_str(&mut w, "migrated ");
            let n = decimal(migrated.len() as u64);
            push_str(&mut w, n.as_str());
            push_str(&mut w, " keybinding override(s) from v1");
            self.load_warnings.push(w);
            self.binding_overrides = migrated;
        }
        let ghost mid = texts_view(self.load_warnings@);
        let mut i: usize = 0;
        while i < notes.len()
            invariant
                i <= notes@.len(),
                texts_view(self.load_warnings@) == mid + texts_view(notes@).take(i as int),
                self.bindings@ == old(self).bindings@,
                self.settings@ == old(self).settings@,
                self.pills@ == old(self).pills@,
                self.conflicts@ == old(self).conflicts@,
                self.setting_overrides@ == old(self).setting_overrides@,
                self.disabled@ == old(self).disabled@,
                self.trusted@ == old(self).trusted@,
                pairs_view(self.binding_overrides@) == if migrated@.len() > 0 { pairs_view(migrated@) } else { before.binding_overrides },
            decreases notes.len() - i,
        {
            let note = notes[i].clone();
            let ghost lw = self.load_warnings@;
            self.load_warnings.push(note);
            assert(self.load_warnings@ == lw.push(note));
            assert(texts_view(self.load_warnings@) =~= texts_view(lw).push(notes@[i as int]@));
            assert(texts_view(notes@).take(i + 1) =~= texts_view(notes@).take(i as int).push(notes@[i as int]@));
            assert(texts_view(self.load_warnings@) =~= mid + texts_view(notes@).take(i + 1));
            i += 1;
        }
        assert(texts_view(notes@).take(i as int) =~= texts_view(notes@));
        assert(self@.load_warnings =~= before.load_warnings
            + (if migrated@.len() > 0 {
                seq!["migrated "@ + decimal_text(migrated@.len()) + " keybinding override(s) from v1"@]
            } else {
                Seq::<Seq<char>>::empty()
            })
            + texts_view(notes@));
    }

    fn apply_overrides(&mut self)
        ensures
            final(self)@ == (RegistryView {
                bindings: bindings_in_force(old(self)@.bindings, old(self)@.binding_overrides),
                settings: settings_in_force(old(self)@.settings, old(self)@.setting_overrides),
                ..old(self)@
            }),
            final(self).wf() == old(self).wf(),
    {
        let ghost overrides = pairs_view(self.binding_overrides@);
        let ghost before = bindings_view(self.bindings@);
        let mut i: usize = 0;
        while i < self.bindings.len()
            invariant
                i <= self.bindings@.len(),
                before.len() == self.bindings@.len(),
                overrides == pairs_view(self.binding_overrides@),
                self.binding_overrides@ == old(self).binding_overrides@,
                self.settings@ == old(self).settings@,
                self.pills@ == old(self).pills@,
                self.conflicts@ == old(self).conflicts@,
                self.setting_overrides@ == old(self).setting_overrides@,
                self.disabled@ == old(self).disabled@,
                self.trusted@ == old(self).trusted@,
                self.load_warnings@ == old(self).load_warnings@,
                before == bindings_view(old(self).bindings@),
                forall|k: int| 0 <= k < i ==> #[trigger] bindings_view(self.bindings@)[k] == in_force(before[k], overrides),
                forall|k: int| i <= k < before.len() ==> #[trigger] bindings_view(self.bindings@)[k] == before[k],
            decreases self.bindings.len() - i,
        {
            assert(bindings_view(self.bindings@)[i as int] == self.bindings@[i as int]@);
            let mut b = self.bindings[i].clone();
            assert(b@ == before[i as int]);
            let ghost prev = self.bindings@;
            match find_text(&self.binding_overrides, b.action.as_str()) {
                Some(chord) => {
                    b.chord = chord.clone();
                    b.overridden = true;
                },
                None => {
                    b.chord = b.default_chord.clone();
                    b.overridden = false;
                },
            }
            assert(b@ == in_force(before[i as int], overrides));
            self.bindings.set(i, b);
            assert(self.bindings@ == prev.update(i as int, b));
            assert forall|k: int| 0 <= k < before.len() && k != i implies #[trigger] bindings_view(self.bindings@)[k] == bindings_view(prev)[k] by {
                assert(self.bindings@[k] == prev[k]);
            }
            assert(bindings_view(self.bindings@)[i as int] == in_force(before[i as int], overrides));
            i += 1;
        }
        assert(bindings_view(self.bindings@) =~= bindings_in_force(before, overrides));
        let ghost sov = values_view(self.setting_overrides@);
        let ghost sbefore = settings_view(self.settings@);
        let mut j: usize = 0;
        while j < self.settings.len()
            invariant
                j <= self.settings@.len(),
                sbefore.len() == self.settings@.len(),
                sov == values_view(self.setting_overrides@),
                bindings_view(self.bindings@) == bindings_in_force(before, overrides),
                self.binding_overrides@ == old(self).binding_overrides@,
                self.pills@ == old(self).pills@,
                self.conflicts@ == old(self).conflicts@,
                self.setting_overrides@ == old(self).setting_overrides@,
                self.disabled@ == old(self).disabled@,
                self.trusted@ == old(self).trusted@,
                self.load_warnings@ == old(self).load_warnings@,
                sbefore == settings_view(old(self).settings@),
                forall|k: int| 0 <= k < j ==> #[trigger] settings_view(self.settings@)[k] == setting_in_force(sbefore[k], sov),
                forall|k: int| j <= k < sbefore.len() ==> #[trigger] settings_view(self.settings@)[k] == sbefore[k],
            decreases self.settings.len() - j,
        {
            assert(settings_view(self.settings@)[j as int] == self.settings@[j as int]@);
            let mut st = self.settings[j].clone();
            assert(st@ == sbefore[j as int]);
            let ghost prev = self.settings@;
            let key = setting_key_of(st.plugin.as_str(), st.id.as_str());
            match find_value(&self.setting_overrides, key.as_str()) {
                Some(v) => {
                    if v.same_kind_as(&st.default) {
                        st.value = v.clone();
                    }
                },
                None => {},
            }
            assert(st@ == setting_in_force(sbefore[j as int], sov));
            self.settings.set(j, st);
            assert(self.settings@ == prev.update(j as int, st));
            assert forall|k: int| 0 <= k < sbefore.len() && k != j implies #[trigger] settings_view(self.settings@)[k] == settings_view(prev)[k] by {
                assert(self.settings@[k] == prev[k]);
            }
            assert(settings_view(self.settings@)[j as int] == setting_in_force(sbefore[j as int], sov));
            j += 1;
        }
        assert(settings_view(self.settings@) =~= settings_in_force(sbefore, sov));
    }

    /// Find the chords claimed twice in overlapping scopes, into an empty
    /// conflict list.
    fn detect_conflicts(&mut self)
        requires
            old(self).conflicts@.len() == 0,
        ensures
            final(self)@ == (RegistryView { conflicts: conflicts_of(old(self)@.bindings), ..old(self)@ }),
            final(self).wf() == old(self).wf(),
    {
        let ghost bs = bindings_view(self.bindings@);
        let mut seen: Vec<usize> = Vec::new();
        let mut k: usize = 0;
        assert(conflicts_view(self.conflicts@) =~= scan(bs, 0).1);
        assert(seen_view(seen@) =~= scan(bs, 0).0);
        while k < self.bindings.len()
            invariant
                k <= self.bindings@.len(),
                bs == bindings_view(self.bindings@),
                self.bindings@ == old(self).bindings@,
                self.binding_overrides@ == old(self).binding_overrides@,
                self.settings@ == old(self).settings@,
                self.pills@ == old(self).pills@,
                self.setting_overrides@ == old(self).setting_overrides@,
                self.disabled@ == old(self).disabled@,
                self.trusted@ == old(self).trusted@,
                self.load_warnings@ == old(self).load_warnings@,
                seen_view(seen@) == scan(bs, k as int).0,
                conflicts_view(self.conflicts@) == scan(bs, k as int).1,
            decreases self.bindings.len() - k,
        {
            proof { lemma_scan_seen(bs, k as int); }
            let ghost sv = seen_view(seen@);
            let b = &self.bindings[k];
            assert(b@ == bs[k as int]);
            let mut found: Option<usize> = None;
            let mut i: usize = 0;
            while i < seen.len()
                invariant
                    i <= seen@.len(),
                    k < self.bindings@.len(),
                    bs == bindings_view(self.bindings@),
                    sv == seen_view(seen@),
                    b@ == bs[k as int],
                    forall|m: int| 0 <= m < sv.len() ==> 0 <= #[trigger] sv[m] < k,
                    found is None ==> rival(bs, sv, bs[k as int], i as int) == rival(bs, sv, bs[k as int], 0),
                    found matches Some(f) ==> rival(bs, sv, bs[k as int], 0) == Some(f as int),
                decreases seen.len() - i,
            {
                if found.is_none() {
                    let other = &self.bindings[seen[i]];
                    assert(sv[i as int] == seen@[i as int] as int);
                    assert(other@ == bs[sv[i as int]]);
                    if same_text(other.chord.as_str(), b.chord.as_str()) && scopes_overlap(other, b) {
                        found = Some(seen[i]);
                    }
                }
                i += 1;
            }
            proof { lemma_rival(bs, sv, bs[k as int], 0); }
            match found {
                Some(first) => {
                    assert(first < k);
                    let earlier = &self.bindings[first];
                    assert(earlier@ == bs[first as int]);
                    let c = if b.overridden && !earlier.overridden {
                        Conflict { chord: b.chord.clone(), kept: b.action.clone(), shadowed: earlier.action.clone() }
                    } else {
                        Conflict { chord: b.chord.clone(), kept: earlier.action.clone(), shadowed: b.action.clone() }
                    };
                    assert(c@ == conflict_between(bs[first as int], bs[k as int]));
                    self.conflicts.push(c);
                    assert(conflicts_view(self.conflicts@) =~= scan(bs, k as int).1.push(conflict_between(bs[first as int], bs[k as int])));
                },
                None => {
                    seen.push(k);
                    assert(seen_view(seen@) =~= sv.push(k as int));
                },
            }
            k += 1;
        }
    }

    /// Replace the declarations after a reload, keeping the overrides: the
    /// chords and values in force are reapplied and the conflicts found anew.
    pub fn declare_all(&mut self, bindings: Vec<Binding>, settings: Vec<Setting>, pills: Vec<Pill>)
        requires
            old(self).wf(),
        ensures
            final(self).wf(),
            final(self)@ == declared(old(self)@, bindings_view(bindings@), settings_view(settings@), pills_view(pills@)),
    {
        self.bindings = bindings;
        self.settings = settings;
        self.pills = pills;
        self.conflicts = Vec::new();
        self.apply_overrides();
        assert(self.conflicts@.len() == self@.conflicts.len());
        self.detect_conflicts();
    }

    /// `declare_all` with no action-band entries.
    pub fn declare(&mut self, bindings: Vec<Binding>, settings: Vec<Setting>)
        requires
            old(self).wf(),
        ensures
            final(self).wf(),
            final(self)@ == declared(old(self)@, bindings_view(bindings@), settings_view(settings@), Seq::empty()),
    {
        let none: Vec<Pill> = Vec::new();
        assert(pills_view(none@) =~= Seq::<(Seq<char>, Seq<char>, Seq<char>, i64)>::empty());
        self.declare_all(bindings, settings, none);
    }

    /// Everything worth telling the user: what would not load, then every
    /// chord two plugins both claimed.
    pub fn warnings(&self) -> (r: Vec<String>)
        ensures
            texts_view(r@) == self@.load_warnings + self@.conflicts.map_values(|c: ConflictView| conflict_warning(c)),
    {
        let mut all: Vec<String> = Vec::new();
        let mut i: usize = 0;
        while i < self.load_warnings.len()
            invariant
                i <= self.load_warnings@.len(),
                texts_view(all@) == texts_view(self.load_warnings@).take(i as int),
            decreases self.load_warnings.len() - i,
        {
            let w = self.load_warnings[i].clone();
            let ghost aw = all@;
            all.push(w);
            assert(texts_view(all@) =~= texts_view(aw).push(self.load_warnings@[i as int]@));
            assert(texts_view(self.load_warnings@).take(i + 1) =~= texts_view(self.load_warnings@).take(i as int).push(self.load_warnings@[i as int]@));
            assert(texts_view(all@) =~= texts_view(self.load_warnings@).take(i + 1));
            i += 1;
        }
        let ghost cw = self@.conflicts.map_values(|c: ConflictView| conflict_warning(c));
        assert(texts_view(self.load_warnings@).take(i as int) =~= self@.load_warnings);
        let mut j: usize = 0;
        while j < self.conflicts.len()
            invariant
                j <= self.conflicts@.len(),
                cw == self@.conflicts.map_values(|c: ConflictView| conflict_warning(c)),
                texts_view(all@) == self@.load_warnings + cw.take(j as int),
            decreases self.conflicts.len() - j,
        {
            let c = &self.conflicts[j];
            let mut w = String::new();
            proof {
                reveal_strlit(" is claimed by both ");
                reveal_strlit(" and ");
                reveal_strlit("; ");
                reveal_strlit(" wins");
            }
            push_str(&mut w, c.chord.as_str());
            push_str(&mut w, " is claimed by both ");
            push_str(&mut w, c.kept.as_str());
            push_str(&mut w, " and ");
            push_str(&mut w, c.shadowed.as_str());
            push_str(&mut w, "; ");
            push_str(&mut w, c.kept.as_str());
            push_str(&mut w, " wins");
            assert(w@ == cw[j as int]);
            let ghost aw = all@;
            all.push(w);
            assert(texts_view(all@) =~= texts_view(aw).push(cw[j as int]));
            assert(cw.take(j + 1) =~= cw.take(j as int).push(cw[j as int]));
            assert(texts_view(all@) =~= self@.load_warnings + cw.take(j + 1));
            j += 1;
        }
        assert(cw.take(j as int) =~= cw);
        all
    }

    /// The binding a keypress fires with `focused` holding focus: the first
    /// active override, else the first active declaration, where a global
    /// key is active anywhere and a plugin's only while that plugin has focus.
    pub fn resolve(&self, press: &KeyPress, focused: Option<&str>) -> (r: Option<&Binding>)
        ensures
            match resolved(self@.bindings, canonical_spec(press.name@, press.ch, press.ctrl, press.alt, press.shift),
                match focused { Some(f) => Some(f@), None => None }) {
                Some(i) => r matches Some(b) && b@ == self@.bindings[i],
                None => r is None,
            },
    {
        let chord = canonical_chord(press);
        let ghost bs = self@.bindings;
        let ghost fv: Option<Seq<char>> = match focused { Some(f) => Some(f@), None => None };
        proof {
            lemma_first_active(bs, chord@, fv, true, 0);
            lemma_first_active(bs, chord@, fv, false, 0);
        }
        let mut pass: usize = 0;
        while pass < 2
            invariant
                pass <= 2,
                bs == self@.bindings,
                bs == bindings_view(self.bindings@),
                pass >= 1 ==> first_active(bs, chord@, fv, true, 0) is None,
                pass >= 2 ==> first_active(bs, chord@, fv, false, 0) is None,
                fv == match focused { Some(f) => Some(f@), None => None },
                chord@ == canonical_spec(press.name@, press.ch, press.ctrl, press.alt, press.shift),
            decreases 2 - pass,
        {
            let only = pass == 0;
            let mut i: usize = 0;
            while i < self.bindings.len()
                invariant
                    i <= self.bindings@.len(),
                    bs == bindings_view(self.bindings@),
                    pass < 2,
                    only == (pass == 0),
                    pass >= 1 ==> first_active(bs, chord@, fv, true, 0) is None,
                    first_active(bs, chord@, fv, only, i as int) == first_active(bs, chord@, fv, only, 0),
                    fv == match focused { Some(f) => Some(f@), None => None },
                    chord@ == canonical_spec(press.name@, press.ch, press.ctrl, press.alt, press.shift),
                decreases self.bindings.len() - i,
            {
                let b = &self.bindings[i];
                assert(b@ == bs[i as int]);
                let on = same_text(b.chord.as_str(), chord.as_str()) && match b.scope {
                    Scope::Global => true,
                    Scope::Plugin => match focused {
                        Some(f) => same_text(f, b.plugin.as_str()),
                        None => false,
                    },
                };
                assert(on == active(bs[i as int], chord@, fv));
                if on && (!only || b.overridden) {
                    assert(first_active(bs, chord@, fv, only, i as int) == Some(i as int));
                    assert(resolved(bs, chord@, fv) == Some(i as int));
                    assert(b@ == self@.bindings[i as int]);
                    return Some(b);
                }
                i += 1;
            }
            pass += 1;
        }
        None
    }

    /// Every declared binding, in declaration order.
    pub fn bindings(&self) -> (r: &[Binding])
        ensures
            bindings_view(r@) == self@.bindings,
    {
        self.bindings.as_slice()
    }

    /// Every declared action-band entry, in declaration order.
    pub fn pills(&self) -> (r: &[Pill])
        ensures
            pills_view(r@) == self@.pills,
    {
        self.pills.as_slice()
    }

    /// Every declared setting, with its value in force.
    pub fn settings(&self) -> (r: &[Setting])
        ensures
            settings_view(r@) == self@.settings,
    {
        self.settings.as_slice()
    }

    /// Every conflict found at the last declaration or rebinding.
    pub fn conflicts(&self) -> (r: &[Conflict])
        ensures
            conflicts_view(r@) == self@.conflicts,
    {
        self.conflicts.as_slice()
    }

    /// The stored keybinding overrides, action to chord.
    pub fn binding_overrides(&self) -> (r: &[(String, String)])
        ensures
            pairs_view(r@) == self@.binding_overrides,
    {
        self.binding_overrides.as_slice()
    }

    /// The stored setting overrides, `plugin.setting` to value.
    pub fn setting_overrides(&self) -> (r: &[(String, SettingValue)])
        ensures
            values_view(r@) == self@.setting_overrides,
    {
        self.setting_overrides.as_slice()
    }

    /// Every trusted path with the digest it was trusted at.
    pub fn trusted_paths(&self) -> (r: &[(String, String)])
        ensures
            pairs_view(r@) == self@.trusted,
    {
        self.trusted.as_slice()
    }
}

/// The settings of one plugin, as a map from id to value: a later setting
/// with the same id replacing an earlier one.
pub open spec fn plugin_settings(ss: Seq<SettingView>, plugin: Seq<char>) -> Seq<(Seq<char>, ValueView)>
    decreases ss.len(),
{
    if ss.len() == 0 {
        Seq::empty()
    } else {
        let rest = plugin_settings(ss.drop_last(), plugin);
        if ss.last().plugin == plugin { put(rest, ss.last().id, ss.last().value) } else { rest }
    }
}

/// Whether some binding is for `action`.
pub open spec fn declares(bs: Seq<BindingView>, action: Seq<char>) -> bool {
    exists|i: int| 0 <= i < bs.len() && #[trigger] bs[i].action == action
}

/// The first setting declared for `plugin` and `id`.
pub open spec fn declared_setting(ss: Seq<SettingView>, plugin: Seq<char>, id: Seq<char>, i: int) -> Option<int>
    decreases ss.len() - i,
{
    if i < 0 || i >= ss.len() {
        None
    } else if ss[i].plugin == plugin && ss[i].id == id {
        Some(i)
    } else {
        declared_setting(ss, plugin, id, i + 1)
    }
}

proof fn lemma_declared_setting(ss: Seq<SettingView>, plugin: Seq<char>, id: Seq<char>, k: int)
    requires
        0 <= k,
    ensures
        declared_setting(ss, plugin, id, k) matches Some(i) ==> k <= i < ss.len(),
    decreases ss.len() - k,
{
    if k < ss.len() && !(ss[k].plugin == plugin && ss[k].id == id) {
        lemma_declared_setting(ss, plugin, id, k + 1);
    }
}

impl Registry {
    /// Is this file present but deliberately not loaded?
    pub fn is_disabled(&self, path: &str) -> (r: bool)
        requires
            self.wf(),
        ensures
            r == self@.disabled.contains(path@),
    {
        match text_slot(&self.disabled, path) {
            Ok(i) => {
                assert(self@.disabled[i as int] == path@);
                true
            },
            Err(i) => {
                proof { lemma_remove_absent_rev(self@.disabled, path@); }
                false
            },
        }
    }

    /// Every file the user turned off, in text order.
    pub fn disabled(&self) -> (r: Vec<String>)
        ensures
            texts_view(r@) == self@.disabled,
    {
        let mut r: Vec<String> = Vec::new();
        let mut i: usize = 0;
        while i < self.disabled.len()
            invariant
                i <= self.disabled@.len(),
                texts_view(r@) == texts_view(self.disabled@).take(i as int),
            decreases self.disabled.len() - i,
        {
            let p = self.disabled[i].clone();
            let ghost rv = r@;
            r.push(p);
            assert(texts_view(r@) =~= texts_view(rv).push(self.disabled@[i as int]@));
            assert(texts_view(self.disabled@).take(i + 1) =~= texts_view(self.disabled@).take(i as int).push(self.disabled@[i as int]@));
            i += 1;
        }
        assert(texts_view(self.disabled@).take(i as int) =~= texts_view(self.disabled@));
        r
    }

    /// Turn a plugin off, or back on; answers whether it is now off. Asking
    /// for the state it is already in changes nothing.
    pub fn set_disabled(&mut self, path: &str, off: bool) -> (r: bool)
        requires
            old(self).wf(),
        ensures
            final(self).wf(),
            r == off,
            final(self)@ == (RegistryView {
                disabled: if off { add_text(old(self)@.disabled, path@) } else { remove_text(old(self)@.disabled, path@) },
                ..old(self)@
            }),
    {
        match text_slot(&self.disabled, path) {
            Ok(i) => {
                if !off {
                    let ghost before = texts_view(self.disabled@);
                    let _gone = self.disabled.remove(i);
                    assert(texts_view(self.disabled@) =~= before.remove(i as int));
                    assert forall|a: int, b: int| 0 <= a < b < texts_view(self.disabled@).len() implies
                        crate::results::text_lt(#[trigger] texts_view(self.disabled@)[a], #[trigger] texts_view(self.disabled@)[b]) by {
                        let x = if a < i { a } else { a + 1 };
                        let y = if b < i { b } else { b + 1 };
                        assert(texts_view(self.disabled@)[a] == before[x]);
                        assert(texts_view(self.disabled@)[b] == before[y]);
                    }
                }
            },
            Err(i) => {
                if off {
                    let ghost before = texts_view(self.disabled@);
                    self.disabled.insert(i, path.to_string());
                    assert(texts_view(self.disabled@) =~= before.insert(i as int, path@));
                }
            },
        }
        off
    }

    /// Has the user trusted this file?
    pub fn is_trusted(&self, path: &str) -> (r: bool)
        ensures
            r == lookup(self@.trusted, path@) is Some,
    {
        find_text(&self.trusted, path).is_some()
    }

    /// The digest of the contents trusted, if any, so a caller can notice
    /// they have changed.
    pub fn trusted_digest(&self, path: &str) -> (r: Option<&str>)
        ensures
            match lookup(self@.trusted, path@) {
                Some(d) => r matches Some(x) && x@ == d,
                None => r is None,
            },
    {
        match find_text(&self.trusted, path) {
            Some(d) => Some(d.as_str()),
            None => None,
        }
    }

    /// Trust a file whose contents hash to `digest`.
    pub fn trust(&mut self, path: &str, digest: String)
        requires
            old(self).wf(),
        ensures
            final(self).wf(),
            final(self)@ == (RegistryView { trusted: put(old(self)@.trusted, path@, digest@), ..old(self)@ }),
    {
        put_pair(&mut self.trusted, path.to_string(), digest);
    }

    /// Withdraw trust; revoking what was never trusted changes nothing.
    pub fn revoke(&mut self, path: &str)
        requires
            old(self).wf(),
        ensures
            final(self).wf(),
            final(self)@ == (RegistryView { trusted: drop_key(old(self)@.trusted, path@), ..old(self)@ }),
    {
        drop_pairs(&mut self.trusted, path);
    }

    /// The settings of one plugin, id to value.
    pub fn settings_for(&self, plugin: &str) -> (r: Vec<(String, SettingValue)>)
        ensures
            values_view(r@) == plugin_settings(self@.settings, plugin@),
    {
        let mut r: Vec<(String, SettingValue)> = Vec::new();
        let mut i: usize = 0;
        while i < self.settings.len()
            invariant
                i <= self.settings@.len(),
                values_view(r@) == plugin_settings(self@.settings.take(i as int), plugin@),
            decreases self.settings.len() - i,
        {
            let st = &self.settings[i];
            assert(self@.settings.take(i + 1).drop_last() =~= self@.settings.take(i as int));
            assert(self@.settings.take(i + 1).last() == st@);
            if same_text(st.plugin.as_str(), plugin) {
                put_value(&mut r, st.id.clone(), st.value.clone());
            }
            i += 1;
        }
        assert(self@.settings.take(i as int) =~= self@.settings);
        r
    }

    /// Rebind an action, or clear its override when `chord` is `None`. A
    /// chord is normalised first; a reserved one is refused, and so is an
    /// action nothing declares; a refusal changes nothing. Otherwise the
    /// chords in force are reapplied and the conflicts found anew.
    pub fn rebind(&mut self, action: &str, chord: Option<&str>) -> (r: Result<(), String>)
        requires
            old(self).wf(),
        ensures
            final(self).wf(),
            match chord {
                Some(c) => if reserved(normalise_spec(c@)) {
                    r matches Err(e) && e@ == normalise_spec(c@) + " is reserved and cannot be rebound"@ && final(self)@ == old(self)@
                } else if !declares(old(self)@.bindings, action@) {
                    r matches Err(e) && e@ == "no action named "@ + debug_text(action@) && final(self)@ == old(self)@
                } else {
                    r is Ok && final(self)@ == rebound(old(self)@, put(old(self)@.binding_overrides, action@, normalise_spec(c@)))
                },
                None => r is Ok && final(self)@ == rebound(old(self)@, drop_key(old(self)@.binding_overrides, action@)),
            },
    {
        match chord {
            Some(raw) => {
                let c = normalise_chord(raw);
                if is_reserved(c.as_str()) {
                    let mut e = c;
                    proof { reveal_strlit(" is reserved and cannot be rebound"); }
                    push_str(&mut e, " is reserved and cannot be rebound");
                    return Err(e);
                }
                let mut known = false;
                let ghost bs = self@.bindings;
                let mut i: usize = 0;
                while i < self.bindings.len()
                    invariant
                        i <= self.bindings@.len(),
                        bs == bindings_view(self.bindings@),
                        known == exists|k: int| 0 <= k < i && #[trigger] bs[k].action == action@,
                    decreases self.bindings.len() - i,
                {
                    assert(bs[i as int] == self.bindings@[i as int]@);
                    if same_text(self.bindings[i].action.as_str(), action) {
                        assert(bs[i as int].action == action@);
                        known = true;
                    }
                    i += 1;
                }
                if !known {
                    let mut e = String::new();
                    proof { reveal_strlit("no action named "); }
                    push_str(&mut e, "no action named ");
                    let shown = quoted(action);
                    push_str(&mut e, shown.as_str());
                    return Err(e);
                }
                put_pair(&mut self.binding_overrides, action.to_string(), c);
            },
            None => {
                drop_pairs(&mut self.binding_overrides, action);
            },
        }
        self.apply_overrides();
        self.conflicts = Vec::new();
        assert(self.conflicts@.len() == 0);
        self.detect_conflicts();
        assert(self@.conflicts =~= conflicts_of(self@.bindings));
        Ok(())
    }

    /// Set a setting's value, or clear its override when `value` is `None`.
    /// A setting nothing declares is refused, and so is a value of another
    /// kind than the setting's default, naming both kinds; a refusal changes
    /// nothing. Otherwise every setting goes back to its default and the
    /// overrides are applied again.
    pub fn set_setting(&mut self, plugin: &str, id: &str, value: Option<SettingValue>) -> (r: Result<(), String>)
        requires
            old(self).wf(),
        ensures
            final(self).wf(),
            match declared_setting(old(self)@.settings, plugin@, id@, 0) {
                None => r matches Err(e) && e@ == "no setting named "@ + debug_text(setting_key(plugin@, id@)) && final(self)@ == old(self)@,
                Some(d) => match value {
                    Some(v) => if !same_kind(v@, old(self)@.settings[d].default) {
                        r matches Err(e) && e@ == setting_key(plugin@, id@) + " is a "@ + kind_name(old(self)@.settings[d].default)
                            + ", not a "@ + kind_name(v@) && final(self)@ == old(self)@
                    } else {
                        r is Ok && final(self)@ == reset(old(self)@, put(old(self)@.setting_overrides, setting_key(plugin@, id@), v@))
                    },
                    None => r is Ok && final(self)@ == reset(old(self)@, drop_key(old(self)@.setting_overrides, setting_key(plugin@, id@))),
                },
            },
    {
        let key = setting_key_of(plugin, id);
        let ghost ss = self@.settings;
        proof { lemma_declared_setting(ss, plugin@, id@, 0); }
        let mut found: Option<usize> = None;
        let mut i: usize = 0;
        while i < self.settings.len()
            invariant
                i <= self.settings@.len(),
                ss == self@.settings,
                found is None ==> declared_setting(ss, plugin@, id@, i as int) == declared_setting(ss, plugin@, id@, 0),
                found matches Some(f) ==> declared_setting(ss, plugin@, id@, 0) == Some(f as int),
            decreases self.settings.len() - i,
        {
            if found.is_none() {
                assert(ss[i as int] == self.settings@[i as int]@);
                if same_text(self.settings[i].plugin.as_str(), plugin) && same_text(self.settings[i].id.as_str(), id) {
                    found = Some(i);
                }
            }
            i += 1;
        }
        let d = match found {
            Some(d) => d,
            None => {
                let mut e = String::new();
                proof { reveal_strlit("no setting named "); }
                push_str(&mut e, "no setting named ");
                let shown = quoted(key.as_str());
                push_str(&mut e, shown.as_str());
                return Err(e);
            },
        };
        assert(ss[d as int] == self.settings@[d as int]@);
        match value {
            Some(v) => {
                if !v.same_kind_as(&self.settings[d].default) {
                    let mut e = key;
                    proof {
                        reveal_strlit(" is a ");
                        reveal_strlit(", not a ");
                    }
                    push_str(&mut e, " is a ");
                    push_str(&mut e, self.settings[d].default.type_label());
                    push_str(&mut e, ", not a ");
                    push_str(&mut e, v.type_label());
                    return Err(e);
                }
                put_value(&mut self.setting_overrides, key, v);
            },
            None => {
                drop_pairs(&mut self.setting_overrides, key.as_str());
            },
        }
        let ghost before = self@;
        let mut j: usize = 0;
        while j < self.settings.len()
            invariant
                j <= self.settings@.len(),
                before.settings.len() == self@.settings.len(),
                self@ == (RegistryView { settings: self@.settings, ..before }),
                forall|k: int| 0 <= k < j ==> #[trigger] self@.settings[k] == (SettingView { value: before.settings[k].default, ..before.settings[k] }),
                forall|k: int| j <= k < self@.settings.len() ==> #[trigger] self@.settings[k] == before.settings[k],
                strictly_sorted(texts_view(self.disabled@)),
            decreases self.settings.len() - j,
        {
            assert(self@.settings[j as int] == self.settings@[j as int]@);
            let mut st = self.settings[j].clone();
            st.value = st.default.clone();
            let ghost prev = self.settings@;
            self.settings.set(j, st);
            assert(self.settings@ == prev.update(j as int, st));
            assert forall|k: int| 0 <= k < self@.settings.len() && k != j implies #[trigger] self@.settings[k] == settings_view(prev)[k] by {
                assert(self.settings@[k] == prev[k]);
            }
            j += 1;
        }
        assert(self@.settings =~= before.settings.map_values(|s: SettingView| SettingView { value: s.default, ..s }));
        self.apply_overrides();
        assert(self@.settings =~= settings_reset(before.settings, before.setting_overrides));
        Ok(())
    }
}

/// The registry after a rebinding to `overrides`: chords reapplied, conflicts
/// found anew.
pub open spec fn rebound(r: RegistryView, overrides: Seq<(Seq<char>, Seq<char>)>) -> RegistryView {
    RegistryView {
        binding_overrides: overrides,
        bindings: bindings_in_force(r.bindings, overrides),
        settings: settings_in_force(r.settings, r.setting_overrides),
        conflicts: conflicts_of(bindings_in_force(r.bindings, overrides)),
        ..r
    }
}

/// The registry after a setting change to `overrides`: every setting back at
/// its default, then the overrides applied.
pub open spec fn reset(r: RegistryView, overrides: Seq<(Seq<char>, ValueView)>) -> RegistryView {
    RegistryView {
        setting_overrides: overrides,
        bindings: bindings_in_force(r.bindings, r.binding_overrides),
        settings: settings_reset(r.settings, overrides),
        ..r
    }
}

proof fn lemma_remove_absent_rev(v: Seq<Seq<char>>, x: Seq<char>)
    requires
        remove_text(v, x) == v,
        strictly_sorted(v),
    ensures
        !v.contains(x),
    decreases v.len(),
{
    if v.len() > 0 {
        if v[0] == x {
            lemma_remove_len(v.drop_first(), x);
            assert(remove_text(v, x).len() < v.len());
        } else {
            assert(remove_text(v, x) == seq![v[0]] + remove_text(v.drop_first(), x));
            assert(remove_text(v.drop_first(), x) =~= remove_text(v, x).drop_first());
            assert(v.drop_first() =~= v.drop_first());
            assert forall|a: int, b: int| 0 <= a < b < v.drop_first().len() implies
                crate::results::text_lt(#[trigger] v.drop_first()[a], #[trigger] v.drop_first()[b]) by {
                assert(v.drop_first()[a] == v[a + 1]);
                assert(v.drop_first()[b] == v[b + 1]);
            }
            assert(remove_text(v, x).drop_first() =~= v.drop_first());
            lemma_remove_absent_rev(v.drop_first(), x);
            assert forall|k: int| 0 <= k < v.len() implies v[k] != x by {
                if k > 0 {
                    assert(v[k] == v.drop_first()[k - 1]);
                }
            }
        }
    }
}

proof fn lemma_remove_len(v: Seq<Seq<char>>, x: Seq<char>)
    ensures
        remove_text(v, x).len() <= v.len(),
    decreases v.len(),
{
    if v.len() > 0 {
        lemma_remove_len(v.drop_first(), x);
    }
}

/// Text order, ties allowed.
pub open spec fn text_le() -> spec_fn(Seq<char>, Seq<char>) -> bool {
    |a: Seq<char>, b: Seq<char>| a == b || crate::results::text_lt(a, b)
}

/// Text order is a total order.
pub proof fn lemma_text_le_total()
    ensures
        vstd::relations::total_ordering(text_le()),
{
    let le = text_le();
    assert forall|x: Seq<char>, y: Seq<char>| #[trigger] le(x, y) && #[trigger] le(y, x) implies x == y by {
        crate::results::lemma_text_lt_strict(x, y);
    }
    assert forall|x: Seq<char>, y: Seq<char>, z: Seq<char>| #[trigger] le(x, y) && #[trigger] le(y, z) implies le(x, z) by {
        if x != y && y != z {
            crate::results::lemma_text_lt_trans(x, y, z);
        }
    }
    assert forall|x: Seq<char>, y: Seq<char>| #[trigger] le(x, y) || #[trigger] le(y, x) by {
        crate::results::lemma_text_lt_strict(x, y);
    }
}

/// The action a name of the previous version maps onto, for the ones with
/// an obvious equivalent.
pub open spec fn v1_target(name: Seq<char>) -> Option<Seq<char>> {
    if name == "SelectNextSession"@ {
        Some("sessions.next"@)
    } else if name == "SelectPreviousSession"@ {
        Some("sessions.previous"@)
    } else if name == "DeleteSession"@ {
        Some("sessions.delete"@)
    } else if name == "RestartSession"@ {
        Some("sessions.restart"@)
    } else if name == "SessionListMoveDown"@ {
        Some("sessions.move_down"@)
    } else if name == "SessionListMoveUp"@ {
        Some("sessions.move_up"@)
    } else {
        None
    }
}

/// The previous version's action names and the actions they map onto.
pub fn v1_actions() -> (r: Vec<(&'static str, &'static str)>)
    ensures
        r@.len() == 6,
        forall|i: int| 0 <= i < r@.len() ==> v1_target((#[trigger] r@[i]).0@) == Some(r@[i].1@),
{
    let r = vec![
        ("SelectNextSession", "sessions.next"),
        ("SelectPreviousSession", "sessions.previous"),
        ("DeleteSession", "sessions.delete"),
        ("RestartSession", "sessions.restart"),
        ("SessionListMoveDown", "sessions.move_down"),
        ("SessionListMoveUp", "sessions.move_up"),
    ];
    proof {
        reveal_strlit("SelectNextSession");
        reveal_strlit("SelectPreviousSession");
        reveal_strlit("DeleteSession");
        reveal_strlit("RestartSession");
        reveal_strlit("SessionListMoveDown");
        reveal_strlit("SessionListMoveUp");
        reveal_strlit("sessions.next");
        reveal_strlit("sessions.previous");
        reveal_strlit("sessions.delete");
        reveal_strlit("sessions.restart");
        reveal_strlit("sessions.move_down");
        reveal_strlit("sessions.move_up");
        assert("SelectPreviousSession"@.len() != "SelectNextSession"@.len());
        assert("DeleteSession"@.len() != "SelectNextSession"@.len());
        assert("DeleteSession"@.len() != "SelectPreviousSession"@.len());
        assert("RestartSession"@.len() != "SelectNextSession"@.len());
        assert("RestartSession"@.len() != "SelectPreviousSession"@.len());
        assert("RestartSession"@.len() != "DeleteSession"@.len());
        assert("SessionListMoveDown"@.len() != "SelectNextSession"@.len());
        assert("SessionListMoveDown"@.len() != "SelectPreviousSession"@.len());
        assert("SessionListMoveDown"@.len() != "DeleteSession"@.len());
        assert("SessionListMoveDown"@.len() != "RestartSession"@.len());
        assert("SessionListMoveUp"@[2] != "SelectNextSession"@[2]);
        assert("SessionListMoveUp"@.len() != "SelectPreviousSession"@.len());
        assert("SessionListMoveUp"@.len() != "DeleteSession"@.len());
        assert("SessionListMoveUp"@.len() != "RestartSession"@.len());
        assert("SessionListMoveUp"@.len() != "SessionListMoveDown"@.len());
        assert(v1_target(r@[0].0@) == Some(r@[0].1@));
        assert(v1_target(r@[1].0@) == Some(r@[1].1@));
        assert(v1_target(r@[2].0@) == Some(r@[2].1@));
        assert(v1_target(r@[3].0@) == Some(r@[3].1@));
        assert(v1_target(r@[4].0@) == Some(r@[4].1@));
        assert(v1_target(r@[5].0@) == Some(r@[5].1@));
    }
    r
}

fn v1_action(name: &str) -> (r: Option<&'static str>)
    ensures
        match v1_target(name@) {
            Some(t) => r matches Some(x) && x@ == t,
            None => r is None,
        },
{
    if same_text(name, "SelectNextSession") {
        Some("sessions.next")
    } else if same_text(name, "SelectPreviousSession") {
        Some("sessions.previous")
    } else if same_text(name, "DeleteSession") {
        Some("sessions.delete")
    } else if same_text(name, "RestartSession") {
        Some("sessions.restart")
    } else if same_text(name, "SessionListMoveDown") {
        Some("sessions.move_down")
    } else if same_text(name, "SessionListMoveUp") {
        Some("sessions.move_up")
    } else {
        None
    }
}

/// The previous version's overrides carried forward: each entry that held a
/// chord and names an action with an equivalent, under that action, its
/// chord normalised; a later entry for one action replacing an earlier.
pub open spec fn v1_migrated(raw: Seq<(Seq<char>, Option<Seq<char>>)>) -> Seq<(Seq<char>, Seq<char>)>
    decreases raw.len(),
{
    if raw.len() == 0 {
        Seq::empty()
    } else {
        let rest = v1_migrated(raw.drop_last());
        match (raw.last().1, v1_target(raw.last().0)) {
            (Some(c), Some(t)) => put(rest, t, normalise_spec(c)),
            _ => rest,
        }
    }
}

/// The names that held a chord but have no equivalent, in order.
pub open spec fn v1_unmapped(raw: Seq<(Seq<char>, Option<Seq<char>>)>) -> Seq<Seq<char>>
    decreases raw.len(),
{
    if raw.len() == 0 {
        Seq::empty()
    } else {
        let rest = v1_unmapped(raw.drop_last());
        if raw.last().1 is Some && v1_target(raw.last().0) is None { rest.push(raw.last().0) } else { rest }
    }
}

/// Names joined by `, `.
pub open spec fn join_comma(parts: Seq<Seq<char>>) -> Seq<char>
    decreases parts.len(),
{
    if parts.len() == 0 {
        Seq::empty()
    } else if parts.len() == 1 {
        parts[0]
    } else {
        join_comma(parts.drop_last()) + ", "@ + parts.last()
    }
}

/// The note on what could not be carried: the names in text order.
pub open spec fn v1_notes(raw: Seq<(Seq<char>, Option<Seq<char>>)>) -> Seq<Seq<char>> {
    if v1_unmapped(raw).len() == 0 {
        Seq::empty()
    } else {
        seq!["not migrated (no v2 equivalent yet): "@ + join_comma(v1_unmapped(raw).sort_by(text_le()))]
    }
}

pub open spec fn raw_texts(raw: Seq<(String, Option<String>)>) -> Seq<(Seq<char>, Option<Seq<char>>)> {
    raw.map_values(|e: (String, Option<String>)| (e.0@, opt_text(e.1)))
}

/// Sort names into text order, equal names keeping their order.
pub(crate) fn sort_texts(names: Vec<String>) -> (r: Vec<String>)
    ensures
        texts_view(r@) == texts_view(names@).sort_by(text_le()),
{
    proof { lemma_text_le_total(); }
    let ghost all = texts_view(names@);
    let mut sorted: Vec<String> = Vec::new();
    let mut i: usize = 0;
    assert(all.take(0) =~= Seq::<Seq<char>>::empty());
    proof {
        broadcast use vstd::seq_lib::group_to_multiset_ensures;
        Seq::<Seq<char>>::empty().lemma_sort_by_ensures(text_le());
        Seq::<Seq<char>>::empty().to_multiset_ensures();
        Seq::<Seq<char>>::empty().sort_by(text_le()).to_multiset_ensures();
        assert(Seq::<Seq<char>>::empty().sort_by(text_le()).len() == 0);
        assert(Seq::<Seq<char>>::empty().sort_by(text_le()) =~= Seq::<Seq<char>>::empty());
    }
    while i < names.len()
        invariant
            i <= names@.len(),
            all == texts_view(names@),
            vstd::relations::total_ordering(text_le()),
            texts_view(sorted@) == all.take(i as int).sort_by(text_le()),
        decreases names.len() - i,
    {
        let x = crate::text::to_chars(names[i].as_str());
        let ghost cur = texts_view(sorted@);
        let mut p: usize = 0;
        while p < sorted.len() && !crate::results::text_less(&x, &crate::text::to_chars(sorted[p].as_str()))
            invariant
                p <= sorted@.len(),
                cur == texts_view(sorted@),
                x@ == all[i as int],
                i < all.len(),
                forall|k: int| 0 <= k < p ==> (text_le())(#[trigger] cur[k], x@),
            decreases sorted.len() - p,
        {
            proof {
                assert(cur[p as int] == sorted@[p as int]@);
                crate::results::lemma_text_lt_strict(cur[p as int], x@);
            }
            p += 1;
        }
        proof {
            crate::ranking::lemma_insertion_point(cur, x@, text_le());
            let q = crate::ranking::insertion_point(cur, x@, text_le());
            if p < sorted@.len() {
                assert(cur[p as int] == sorted@[p as int]@);
                assert(crate::results::text_lt(x@, cur[p as int]));
                crate::results::lemma_text_lt_strict(x@, cur[p as int]);
                assert(!(text_le())(cur[p as int], x@));
            }
            if q < p {
                assert((text_le())(cur[q], x@));
            }
            if p < q {
                assert((text_le())(cur[p as int], x@));
            }
            assert(p == q);
            crate::ranking::lemma_sort_push(all.take(i as int), x@, text_le());
            assert(all.take(i + 1) =~= all.take(i as int).push(x@));
        }
        let name = names[i].clone();
        sorted.insert(p, name);
        assert(texts_view(sorted@) =~= cur.insert(p as int, x@));
        i += 1;
    }
    assert(all.take(i as int) =~= all);
    sorted
}

/// Bring the previous version's overrides forward: from its entries (each
/// name with the chord it held, if it held one), the overrides carried and
/// the notes on what was not.
pub fn migrate_v1_bindings(entries: &Vec<(String, Option<String>)>) -> (r: (Vec<(String, String)>, Vec<String>))
    ensures
        pairs_view(r.0@) == v1_migrated(raw_texts(entries@)),
        texts_view(r.1@) == v1_notes(raw_texts(entries@)),
{
    let ghost raw = raw_texts(entries@);
    let mut migrated: Vec<(String, String)> = Vec::new();
    let mut unmapped: Vec<String> = Vec::new();
    let mut i: usize = 0;
    while i < entries.len()
        invariant
            i <= entries@.len(),
            raw == raw_texts(entries@),
            pairs_view(migrated@) == v1_migrated(raw.take(i as int)),
            texts_view(unmapped@) == v1_unmapped(raw.take(i as int)),
        decreases entries.len() - i,
    {
        assert(raw.take(i + 1).drop_last() =~= raw.take(i as int));
        assert(raw.take(i + 1).last() == raw[i as int]);
        let (action, chord) = &entries[i];
        if let Some(c) = chord {
            match v1_action(action.as_str()) {
                Some(target) => {
                    let n = normalise_chord(c.as_str());
                    put_pair(&mut migrated, target.to_string(), n);
                },
                None => {
                    let ghost before = unmapped@;
                    unmapped.push(action.clone());
                    assert(texts_view(unmapped@) =~= texts_view(before).push(action@));
                },
            }
        }
        i += 1;
    }
    assert(raw.take(i as int) =~= raw);
    let mut notes: Vec<String> = Vec::new();
    if unmapped.len() > 0 {
        let sorted = sort_texts(unmapped);
        let ghost parts = texts_view(sorted@);
        let mut line = String::new();
        proof { reveal_strlit("not migrated (no v2 equivalent yet): "); }
        push_str(&mut line, "not migrated (no v2 equivalent yet): ");
        let ghost head = line@;
        let mut k: usize = 0;
        while k < sorted.len()
            invariant
                k <= sorted@.len(),
                parts == texts_view(sorted@),
                line@ == head + join_comma(parts.take(k as int)),
            decreases sorted.len() - k,
        {
            proof { reveal_strlit(", "); }
            if k > 0 {
                push_str(&mut line, ", ");
            }
            push_str(&mut line, sorted[k].as_str());
            proof {
                let t = parts.take(k + 1);
                assert(t.drop_last() =~= parts.take(k as int));
                assert(t.last() == sorted@[k as int]@);
                if k == 0 {
                    assert(join_comma(parts.take(0)) =~= Seq::<char>::empty());
                    assert(t.len() == 1);
                }
            }
            k += 1;
        }
        assert(parts.take(k as int) =~= parts);
        notes.push(line);
        assert(texts_view(notes@) =~= seq![line@]);
    } else {
        assert(texts_view(notes@) =~= Seq::<Seq<char>>::empty());
    }
    (migrated, notes)
}

/// The overrides file once read: chords normalised, entries that held
/// nothing usable skipped, the disabled paths in text order.
pub fn read_overrides(raw: &RawOverrides) -> (o: Overrides)
    ensures
        pairs_view(o.bindings@) == chords_read(raw_texts(raw.bindings@)),
        values_view(o.settings@) == entries_read(raw.settings@.map_values(|e: (String, Option<SettingValue>)| (e.0@, opt_value(e.1)))),
        pairs_view(o.trusted@) == entries_read(raw_texts(raw.trusted@)),
        texts_view(o.disabled@) == paths_read(raw.disabled@.map_values(|p: Option<String>| opt_text(p))),
        strictly_sorted(texts_view(o.disabled@)),
{
    let ghost rb = raw_texts(raw.bindings@);
    let mut bindings: Vec<(String, String)> = Vec::new();
    let mut i: usize = 0;
    while i < raw.bindings.len()
        invariant
            i <= raw.bindings@.len(),
            rb == raw_texts(raw.bindings@),
            pairs_view(bindings@) == chords_read(rb.take(i as int)),
        decreases raw.bindings.len() - i,
    {
        assert(rb.take(i + 1).drop_last() =~= rb.take(i as int));
        assert(rb.take(i + 1).last() == rb[i as int]);
        if let Some(c) = &raw.bindings[i].1 {
            let n = normalise_chord(c.as_str());
            put_pair(&mut bindings, raw.bindings[i].0.clone(), n);
        }
        i += 1;
    }
    assert(rb.take(i as int) =~= rb);

    let ghost rs = raw.settings@.map_values(|e: (String, Option<SettingValue>)| (e.0@, opt_value(e.1)));
    let mut settings: Vec<(String, SettingValue)> = Vec::new();
    let mut j: usize = 0;
    while j < raw.settings.len()
        invariant
            j <= raw.settings@.len(),
            rs == raw.settings@.map_values(|e: (String, Option<SettingValue>)| (e.0@, opt_value(e.1))),
            values_view(settings@) == entries_read(rs.take(j as int)),
        decreases raw.settings.len() - j,
    {
        assert(rs.take(j + 1).drop_last() =~= rs.take(j as int));
        assert(rs.take(j + 1).last() == rs[j as int]);
        if let Some(v) = &raw.settings[j].1 {
            put_value(&mut settings, raw.settings[j].0.clone(), v.clone());
        }
        j += 1;
    }
    assert(rs.take(j as int) =~= rs);

    let ghost rt = raw_texts(raw.trusted@);
    let mut trusted: Vec<(String, String)> = Vec::new();
    let mut k: usize = 0;
    while k < raw.trusted.len()
        invariant
            k <= raw.trusted@.len(),
            rt == raw_texts(raw.trusted@),
            pairs_view(trusted@) == entries_read(rt.take(k as int)),
        decreases raw.trusted.len() - k,
    {
        assert(rt.take(k + 1).drop_last() =~= rt.take(k as int));
        assert(rt.take(k + 1).last() == rt[k as int]);
        if let Some(d) = &raw.trusted[k].1 {
            put_pair(&mut trusted, raw.trusted[k].0.clone(), d.clone());
        }
        k += 1;
    }
    assert(rt.take(k as int) =~= rt);

    let ghost rd = raw.disabled@.map_values(|p: Option<String>| opt_text(p));
    let mut disabled: Vec<String> = Vec::new();
    let mut m: usize = 0;
    while m < raw.disabled.len()
        invariant
            m <= raw.disabled@.len(),
            rd == raw.disabled@.map_values(|p: Option<String>| opt_text(p)),
            texts_view(disabled@) == paths_read(rd.take(m as int)),
            strictly_sorted(texts_view(disabled@)),
        decreases raw.disabled.len() - m,
    {
        assert(rd.take(m + 1).drop_last() =~= rd.take(m as int));
        assert(rd.take(m + 1).last() == rd[m as int]);
        if let Some(p) = &raw.disabled[m] {
            match text_slot(&disabled, p.as_str()) {
                Ok(_) => {},
                Err(at) => {
                    let ghost before = texts_view(disabled@);
                    disabled.insert(at, p.clone());
                    assert(texts_view(disabled@) =~= before.insert(at as int, p@));
                },
            }
        }
        m += 1;
    }
    assert(rd.take(m as int) =~= rd);
    Overrides { bindings, settings, trusted, disabled }
}

/// The registry once a reload declared `bs`, `ss` and `ps`: the chords and
/// values in force reapplied from the user's overrides, and the conflicts
/// found anew.
pub open spec fn declared(
    r: RegistryView,
    bs: Seq<BindingView>,
    ss: Seq<SettingView>,
    ps: Seq<(Seq<char>, Seq<char>, Seq<char>, i64)>,
) -> RegistryView {
    RegistryView {
        bindings: bindings_in_force(bs, r.binding_overrides),
        settings: settings_in_force(ss, r.setting_overrides),
        pills: ps,
        conflicts: conflicts_of(bindings_in_force(bs, r.binding_overrides)),
        ..r
    }
}

/// A conflict is reported once however often the interface reloads:
/// declaring the same things again leaves the registry as one declaration
/// left it, warnings included.
pub proof fn lemma_reload_reports_once(
    r: RegistryView,
    bs: Seq<BindingView>,
    ss: Seq<SettingView>,
    ps: Seq<(Seq<char>, Seq<char>, Seq<char>, i64)>,
)
    ensures
        declared(declared(r, bs, ss, ps), bs, ss, ps) == declared(r, bs, ss, ps),
{
}

/// Overrides belong to the user, not to the plugin set: a reload that drops
/// an action and one that brings it back leave its override in force.
pub proof fn lemma_override_survives_a_reload(
    r: RegistryView,
    bs: Seq<BindingView>,
    ss: Seq<SettingView>,
    ps: Seq<(Seq<char>, Seq<char>, Seq<char>, i64)>,
)
    ensures
        declared(declared(r, Seq::empty(), Seq::empty(), Seq::empty()), bs, ss, ps) == declared(r, bs, ss, ps),
{
    let d = declared(r, Seq::empty(), Seq::empty(), Seq::empty());
    assert(d.binding_overrides == r.binding_overrides);
    assert(d.setting_overrides == r.setting_overrides);
    assert(declared(d, bs, ss, ps) =~~= declared(r, bs, ss, ps));
}

/// A rebinding is read back: the action's chord in force is the one bound,
/// marked as an override.
pub proof fn lemma_rebind_reads_back(b: BindingView, overrides: Seq<(Seq<char>, Seq<char>)>, chord: Seq<char>)
    ensures
        in_force(b, put(overrides, b.action, chord)) == (BindingView { chord, overridden: true, ..b }),
{
    crate::keyed::lemma_put(overrides, b.action, chord, b.action);
}

/// Clearing an override restores the declared chord at once, not at the next
/// reload.
pub proof fn lemma_clearing_restores_the_default(b: BindingView, overrides: Seq<(Seq<char>, Seq<char>)>)
    ensures
        in_force(b, drop_key(overrides, b.action)) == (BindingView { chord: b.default_chord, overridden: false, ..b }),
{
    lemma_drop_key(overrides, b.action, b.action);
}

/// The conflict report and the routing never disagree: when two declarations
/// both fire on one chord with the same focus, the one the report says wins
/// is the one a keypress fires, and the other is the one it shadows.
pub proof fn lemma_the_report_names_who_fires(a: BindingView, b: BindingView, focused: Option<Seq<char>>)
    requires
        a.chord == b.chord,
        active(a, a.chord, focused),
        active(b, a.chord, focused),
    ensures
        conflicts_of(seq![a, b]) == seq![conflict_between(a, b)],
        resolved(seq![a, b], a.chord, focused) matches Some(k)
            && seq![a, b][k].action == conflict_between(a, b).kept
            && seq![a, b][1 - k].action == conflict_between(a, b).shadowed,
{
    let bs = seq![a, b];
    assert(overlap(a, b));
    assert(scan(bs, 0) == (Seq::<int>::empty(), Seq::<ConflictView>::empty()));
    assert(rival(bs, Seq::<int>::empty(), bs[0], 0) is None);
    assert(scan(bs, 1) == (seq![0int], Seq::<ConflictView>::empty()));
    assert(rival(bs, seq![0int], bs[1], 0) == Some(0int));
    assert(scan(bs, 2).1 =~= seq![conflict_between(a, b)]);
    if b.overridden && !a.overridden {
        assert(first_active(bs, a.chord, focused, true, 1) == Some(1int));
        assert(first_active(bs, a.chord, focused, true, 0) == Some(1int));
    } else if a.overridden {
        assert(first_active(bs, a.chord, focused, true, 0) == Some(0int));
    } else {
        assert(first_active(bs, a.chord, focused, true, 2) is None);
        assert(first_active(bs, a.chord, focused, true, 1) is None);
        assert(first_active(bs, a.chord, focused, true, 0) is None);
        assert(first_active(bs, a.chord, focused, false, 0) == Some(0int));
    }
}


/// The overrides file as its document holds it: the entries of its
/// `bindings` and `trusted` objects, each with the string it holds, the
/// entries of its `settings` object as written, and the items of its
/// `disabled` array, each as the string it is.
pub struct OverridesDoc {
    pub bindings: Vec<(String, Option<String>)>,
    pub settings: Vec<(String, Json)>,
    pub trusted: Vec<(String, Option<String>)>,
    pub disabled: Vec<Option<String>>,
}

/// What the first entry called `name` holds, tracked over the entries
/// consumed so far: found, or not among them.
spec fn slot_holds(slot: Option<Json>, es: Seq<(Seq<char>, JsonView)>, name: Seq<char>, c: int) -> bool {
    match slot {
        Some(j) => lookup(es, name) == Some(j@),
        None => forall|i: int| 0 <= i < c ==> es[i].0 != name,
    }
}

proof fn lemma_slot_done(slot: Option<Json>, es: Seq<(Seq<char>, JsonView)>, name: Seq<char>)
    requires
        slot_holds(slot, es, name, es.len() as int),
    ensures
        crate::json::opt_json(slot) == lookup(es, name),
{
    if slot is None {
        lemma_no_key(es, name, JsonView::Null);
    }
}

/// Read an overrides file's text: its document's `bindings`, `settings`,
/// `trusted` and `disabled`, or the parser's refusal when the text is not
/// JSON. A document that is not an object, or a part missing or of another
/// kind, holds nothing.
pub fn raw_overrides_of(text: &str) -> (r: Result<OverridesDoc, String>)
    ensures
        match json_of(text@) {
            None => r matches Err(m) && m@ == json_refusal(text@),
            Some(doc) => r matches Ok(o) && {
                &&& raw_texts(o.bindings@) == string_entries(field(doc, "bindings"@))
                &&& entries_view(o.settings@) == object_entries(field(doc, "settings"@))
                &&& raw_texts(o.trusted@) == string_entries(field(doc, "trusted"@))
                &&& o.disabled@.map_values(|p: Option<String>| opt_text(p)) == string_items(field(doc, "disabled"@))
            },
        },
{
    let doc = match parse_json(text) {
        Ok(d) => d,
        Err(e) => return Err(e),
    };
    let ghost dv = doc@;
    let mut rest = into_entries(Some(doc));
    let ghost es = entries_view(rest@);
    proof {
        assert(es == object_entries(Some(dv)));
        reveal_strlit("bindings");
        reveal_strlit("settings");
        reveal_strlit("trusted");
        reveal_strlit("disabled");
        assert("bindings"@[0] != "settings"@[0]);
        assert("bindings"@[0] != "trusted"@[0]);
        assert("bindings"@[0] != "disabled"@[0]);
        assert("settings"@[0] != "trusted"@[0]);
        assert("settings"@[0] != "disabled"@[0]);
        assert("trusted"@[0] != "disabled"@[0]);
    }
    let mut bindings: Option<Json> = None;
    let mut settings: Option<Json> = None;
    let mut trusted: Option<Json> = None;
    let mut disabled: Option<Json> = None;
    let ghost mut c: int = 0;
    while rest.len() > 0
        invariant
            0 <= c <= es.len(),
            entries_view(rest@) == es.skip(c),
            slot_holds(bindings, es, "bindings"@, c),
            slot_holds(settings, es, "settings"@, c),
            slot_holds(trusted, es, "trusted"@, c),
            slot_holds(disabled, es, "disabled"@, c),
            "bindings"@ != "settings"@, "bindings"@ != "trusted"@, "bindings"@ != "disabled"@,
            "settings"@ != "trusted"@, "settings"@ != "disabled"@, "trusted"@ != "disabled"@,
        decreases rest.len(),
    {
        let ghost before = rest@;
        proof {
            assert(entries_view(rest@).len() == rest@.len());
            assert(es.skip(c)[0] == es[c]);
            assert(entries_view(before)[0] == es[c]);
        }
        let (k, v) = rest.remove(0);
        proof {
            assert forall|i: int| 0 <= i < entries_view(rest@).len() implies #[trigger] entries_view(rest@)[i] == es.skip(c + 1)[i] by {
                assert(rest@[i] == before[i + 1]);
                assert(entries_view(before)[i + 1] == es.skip(c)[i + 1]);
                assert(es.skip(c)[i + 1] == es[c + i + 1]);
            }
            assert(entries_view(rest@) =~= es.skip(c + 1));
        }
        if same_text(k.as_str(), "bindings") {
            if bindings.is_none() {
                proof { lemma_first_key(es, "bindings"@, c, JsonView::Null); }
                bindings = Some(v);
            }
        } else if same_text(k.as_str(), "settings") {
            if settings.is_none() {
                proof { lemma_first_key(es, "settings"@, c, JsonView::Null); }
                settings = Some(v);
            }
        } else if same_text(k.as_str(), "trusted") {
            if trusted.is_none() {
                proof { lemma_first_key(es, "trusted"@, c, JsonView::Null); }
                trusted = Some(v);
            }
        } else if same_text(k.as_str(), "disabled") {
            if disabled.is_none() {
                proof { lemma_first_key(es, "disabled"@, c, JsonView::Null); }
                disabled = Some(v);
            }
        }
        proof { c = c + 1; }
    }
    proof {
        assert(forall|name: Seq<char>| #[trigger] field(dv, name) == lookup(es, name));
        lemma_slot_done(bindings, es, "bindings"@);
        lemma_slot_done(settings, es, "settings"@);
        lemma_slot_done(trusted, es, "trusted"@);
        lemma_slot_done(disabled, es, "disabled"@);
    }
    let b = into_string_entries(bindings);
    let s = into_entries(settings);
    let t = into_string_entries(trusted);
    let d = into_string_items(disabled);
    proof {
        assert(raw_texts(b@) =~= b@.map_values(|e: (String, Option<String>)| (e.0@, opt_string(e.1))));
        assert(raw_texts(t@) =~= t@.map_values(|e: (String, Option<String>)| (e.0@, opt_string(e.1))));
        assert(d@.map_values(|p: Option<String>| opt_text(p)) =~= d@.map_values(|p: Option<String>| opt_string(p)));
    }
    Ok(OverridesDoc { bindings: b, settings: s, trusted: t, disabled: d })
}

/// What a setting's value in the file comes to: a boolean or a string as
/// itself, a number as the bits of the `f64` it reads as (`bits`, where it
/// reads as one), anything else as nothing.
pub open spec fn setting_view(j: JsonView, bits: Option<u64>) -> Option<ValueView> {
    match j {
        JsonView::Bool(b) => Some(ValueView::Bool(b)),
        JsonView::Number(_) => match bits {
            Some(n) => Some(ValueView::Number(n)),
            None => None,
        },
        JsonView::Text(t) => Some(ValueView::Text(t)),
        _ => None,
    }
}

/// A setting's value as the file holds it, where it is of a kind a setting
/// can hold. `bits` is the `f64` a number reads as, taken by its bits.
pub fn setting_value(j: Json, bits: Option<u64>) -> (r: Option<SettingValue>)
    ensures
        opt_value(r) == setting_view(j@, bits),
{
    match j {
        Json::Bool(b) => Some(SettingValue::Bool(b)),
        Json::Number(_) => match bits {
            Some(n) => Some(SettingValue::Number(n)),
            None => None,
        },
        Json::Text(t) => Some(SettingValue::Text(t)),
        _ => None,
    }
}

/// The chord the previous version kept for an action: the first of a list
/// where that is a string, or the chord itself where it is a string.
pub open spec fn v1_chord(j: JsonView) -> Option<Seq<char>> {
    match j {
        JsonView::Array(items) => if items.len() > 0 {
            text_of(items[0])
        } else {
            None
        },
        JsonView::Text(t) => Some(t),
        _ => None,
    }
}

fn v1_chord_of(j: Json) -> (r: Option<String>)
    ensures
        opt_text(r) == v1_chord(j@),
{
    match j {
        Json::Array(items) => {
            proof { crate::json::lemma_array_view(items); }
            let mut items = items;
            if items.len() > 0 {
                let first = items.remove(0);
                into_text(first)
            } else {
                None
            }
        },
        Json::Text(t) => Some(t),
        _ => None,
    }
}

/// Read the previous version's keybindings file: each action of its
/// document with the chord it kept, or the parser's refusal when the text is
/// not JSON. A document that is not an object holds no actions.
pub fn v1_entries_of(text: &str) -> (r: Result<Vec<(String, Option<String>)>, String>)
    ensures
        match json_of(text@) {
            None => r matches Err(m) && m@ == json_refusal(text@),
            Some(doc) => r matches Ok(v) && raw_texts(v@) == object_entries(Some(doc)).map_values(
                |e: (Seq<char>, JsonView)| (e.0, v1_chord(e.1)),
            ),
        },
{
    let doc = match parse_json(text) {
        Ok(d) => d,
        Err(e) => return Err(e),
    };
    let mut rest = into_entries(Some(doc));
    let ghost all = entries_view(rest@);
    let mut out: Vec<(String, Option<String>)> = Vec::new();
    let ghost mut c: int = 0;
    while rest.len() > 0
        invariant
            0 <= c <= all.len(),
            entries_view(rest@) == all.skip(c),
            raw_texts(out@) == all.take(c).map_values(|e: (Seq<char>, JsonView)| (e.0, v1_chord(e.1))),
        decreases rest.len(),
    {
        let ghost before = rest@;
        proof {
            assert(entries_view(rest@).len() == rest@.len());
            assert(all.skip(c)[0] == all[c]);
            assert(entries_view(before)[0] == all[c]);
        }
        let (k, v) = rest.remove(0);
        proof {
            assert forall|i: int| 0 <= i < entries_view(rest@).len() implies #[trigger] entries_view(rest@)[i] == all.skip(c + 1)[i] by {
                assert(rest@[i] == before[i + 1]);
                assert(entries_view(before)[i + 1] == all.skip(c)[i + 1]);
                assert(all.skip(c)[i + 1] == all[c + i + 1]);
            }
            assert(entries_view(rest@) =~= all.skip(c + 1));
            assert(all.take(c + 1) =~= all.take(c).push(all[c]));
        }
        let ghost prior = out@;
        let chord = v1_chord_of(v);
        out.push((k, chord));
        proof {
            assert(raw_texts(out@) =~= raw_texts(prior).push((all[c].0, v1_chord(all[c].1))));
            c = c + 1;
        }
    }
    proof {
        assert(all.take(c) =~= all);
    }
    Ok(out)
}

} // verus!
