//! Layout presets: whole arrangements shipped, of which the user picks one.
//!
//! A preset is the text delivered as the interface's layout. The choice
//! decides which text is delivered; a misspelt choice runs the default rather
//! than leaving an interface with no arrangement, and a switch rewrites only
//! a layout that somebody runs as their own.
use vstd::prelude::*;
use crate::text::{push_str, same_text};

verus! {

/// One shipped arrangement: its name, and one line on what it arranges.
#[derive(Debug, Clone, Copy)]
pub struct Preset {
    pub name: &'static str,
    pub summary: &'static str,
}

/// The shipped presets' names, the default first.
pub open spec fn preset_names() -> Seq<Seq<char>> {
    seq!["classic"@, "split-shell"@, "focus"@, "ide"@]
}

/// The name of the preset a profile that never chose one runs.
pub fn default_preset() -> (n: &'static str)
    ensures
        n@ == preset_names()[0],
{
    "classic"
}

/// Every shipped preset, the default first.
pub fn presets() -> (r: Vec<Preset>)
    ensures
        r@.map_values(|p: Preset| p.name@) == preset_names(),
{
    let r = vec![
        Preset { name: "classic", summary: "the session list beside the agent pane; the shell is a tab of it" },
        Preset { name: "split-shell", summary: "the agent pane over the same session's shell; installed panes on the right" },
        Preset { name: "focus", summary: "the agent pane alone, full width; F9 and each pane's toggle bring columns back" },
        Preset { name: "ide", summary: "sessions left, the shell along the bottom, installed panes in a right column" },
    ];
    assert(r@.map_values(|p: Preset| p.name@) =~= preset_names());
    r
}

/// Where `name` first stands among the presets from `i` on.
pub open spec fn preset_index(name: Seq<char>, i: int) -> Option<int>
    decreases preset_names().len() - i,
{
    if i < 0 || i >= preset_names().len() {
        None
    } else if preset_names()[i] == name {
        Some(i)
    } else {
        preset_index(name, i + 1)
    }
}

proof fn lemma_preset_index(name: Seq<char>, k: int)
    requires
        0 <= k,
    ensures
        preset_index(name, k) matches Some(i) ==> k <= i < preset_names().len() && preset_names()[i] == name,
    decreases preset_names().len() - k,
{
    if k < preset_names().len() && preset_names()[k] != name {
        lemma_preset_index(name, k + 1);
    }
}

/// The preset called `name`, if one ships.
pub fn find(name: &str) -> (r: Option<Preset>)
    ensures
        match preset_index(name@, 0) {
            Some(i) => r matches Some(p) && p.name@ == preset_names()[i],
            None => r is None,
        },
{
    let all = presets();
    proof { lemma_preset_index(name@, 0); }
    let mut i: usize = 0;
    while i < all.len()
        invariant
            i <= all@.len(),
            all@.map_values(|p: Preset| p.name@) == preset_names(),
            preset_index(name@, i as int) == preset_index(name@, 0),
        decreases all.len() - i,
    {
        assert(all@[i as int].name@ == preset_names()[i as int]);
        if same_text(all[i].name, name) {
            return Some(all[i]);
        }
        i += 1;
    }
    None
}

/// The preset called `name`, or the default when none ships.
pub fn chosen_or_default(name: &str) -> (p: Preset)
    ensures
        p.name@ == match preset_index(name@, 0) {
            Some(i) => preset_names()[i],
            None => preset_names()[0],
        },
{
    match find(name) {
        Some(p) => p,
        None => {
            let all = presets();
            assert(all@.map_values(|p: Preset| p.name@).len() == 4);
            assert(all@[0].name@ == preset_names()[0]);
            all[0]
        },
    }
}

/// Names joined by `, `.
pub open spec fn comma_list(parts: Seq<Seq<char>>) -> Seq<char>
    decreases parts.len(),
{
    if parts.len() == 0 {
        Seq::empty()
    } else if parts.len() == 1 {
        parts[0]
    } else {
        comma_list(parts.drop_last()) + ", "@ + parts.last()
    }
}

/// Every preset name, comma-separated, for a message that has to list them.
pub fn names() -> (s: String)
    ensures
        s@ == comma_list(preset_names()),
{
    let all = presets();
    let ghost ns = preset_names();
    let mut s = String::new();
    let mut i: usize = 0;
    while i < all.len()
        invariant
            i <= all@.len(),
            all@.map_values(|p: Preset| p.name@) == ns,
            ns == preset_names(),
            s@ == comma_list(ns.take(i as int)),
        decreases all.len() - i,
    {
        proof { reveal_strlit(", "); }
        if i > 0 {
            push_str(&mut s, ", ");
        }
        push_str(&mut s, all[i].name);
        proof {
            let t = ns.take(i + 1);
            assert(t.drop_last() =~= ns.take(i as int));
            assert(t.last() == all@[i as int].name@);
            if i == 0 {
                assert(comma_list(ns.take(0)) =~= Seq::<char>::empty());
            }
        }
        i += 1;
    }
    assert(ns.take(4) =~= ns);
    s
}

/// How the interface directory was found.
#[derive(Debug, Clone, Copy, PartialEq, Eq)]
pub enum Chosen {
    /// The user's own copy in the config directory.
    UserCopy,
    /// A directory the environment pointed at.
    Override,
    /// A repository's working tree.
    Checkout,
    /// A throwaway copy no next start would read.
    Fallback,
}

/// What `may_switch` answers for `dir`, found as `chosen`; `reason` is why a
/// fallback was used.
pub open spec fn switch_answer(dir: Seq<char>, chosen: Chosen, reason: Seq<char>) -> Result<(), Seq<char>> {
    match chosen {
        Chosen::UserCopy | Chosen::Override => Ok(()),
        Chosen::Checkout => Err(dir + " is a checkout (THURBOX_UI_DIR), and a layout switch does not rewrite a repository's files — unset THURBOX_UI_DIR to switch your own interface"@),
        Chosen::Fallback => Err("there is no interface directory of your own to switch ("@ + reason + ")"@),
    }
}

/// Whether a switch may rewrite the layout in `dir`: a user's own copy and a
/// directory pointed at are somebody's running interface; a checkout is a
/// repository nobody asked to edit, and a fallback is read by no next start.
pub fn may_switch(dir: &str, chosen: Chosen, reason: &str) -> (r: Result<(), String>)
    ensures
        match switch_answer(dir@, chosen, reason@) {
            Ok(()) => r is Ok,
            Err(m) => r matches Err(e) && e@ == m,
        },
{
    match chosen {
        Chosen::UserCopy | Chosen::Override => Ok(()),
        Chosen::Checkout => {
            let mut e = String::new();
            proof { reveal_strlit(" is a checkout (THURBOX_UI_DIR), and a layout switch does not rewrite a repository's files — unset THURBOX_UI_DIR to switch your own interface"); }
            push_str(&mut e, dir);
            push_str(&mut e, " is a checkout (THURBOX_UI_DIR), and a layout switch does not rewrite a repository's files — unset THURBOX_UI_DIR to switch your own interface");
            Err(e)
        },
        Chosen::Fallback => {
            let mut e = String::new();
            proof {
                reveal_strlit("there is no interface directory of your own to switch (");
                reveal_strlit(")");
            }
            push_str(&mut e, "there is no interface directory of your own to switch (");
            push_str(&mut e, reason);
            push_str(&mut e, ")");
            Err(e)
        },
    }
}

/// What a switch did: the preset, where an edited layout was moved first,
/// and whether the layout was written at all.
#[derive(Debug, PartialEq, Eq)]
pub struct Applied {
    pub preset: &'static str,
    pub backup: Option<String>,
    pub written: bool,
}

/// How a switch treats the layout on disk.
#[derive(Debug, Clone, Copy, PartialEq, Eq)]
pub enum Step {
    /// Already that preset, byte for byte: nothing is written.
    Keep,
    /// Absent, or exactly what was last delivered: replaced outright.
    Replace,
    /// Anything else is the user's own: moved aside first.
    BackUpThenReplace,
}

/// Decide a switch: `current` is the layout on disk, if any, `layout` the
/// preset's text, `untouched` whether the file is what was last delivered.
pub fn switch_step(current: Option<&str>, layout: &str, untouched: bool) -> (s: Step)
    ensures
        s == match current {
            Some(c) => if c@ == layout@ { Step::Keep } else if untouched { Step::Replace } else { Step::BackUpThenReplace },
            None => Step::Replace,
        },
{
    match current {
        Some(c) => {
            if same_text(c, layout) {
                Step::Keep
            } else if untouched {
                Step::Replace
            } else {
                Step::BackUpThenReplace
            }
        },
        None => Step::Replace,
    }
}


/// What the settings panel says of a chosen preset that is not in force: a
/// layout file that is neither the preset's text nor an untouched delivery is
/// the user's own edit, and only an explicit switch replaces it. Nothing for
/// the default (an edited copy of it is simply the user's own layout), for a
/// name that is no preset, or when the file cannot be read.
pub open spec fn overridden(chosen: Seq<char>, current: Option<Seq<char>>, layout: Seq<char>, untouched: bool) -> Option<Seq<char>> {
    match preset_index(chosen, 0) {
        Some(i) => if i == 0 {
            None
        } else {
            match current {
                None => None,
                Some(c) => if c == layout || untouched {
                    None
                } else {
                    Some("layout "@ + preset_names()[i] + " is chosen but your edited layout.lua is in use · `thurbox-cli layout set "@
                        + preset_names()[i] + "` switches, keeping a backup"@)
                },
            }
        },
        None => None,
    }
}

/// Whether the chosen preset is not the layout in use, and what to say: given
/// the layout file's contents (`None` when it cannot be read), the chosen
/// preset's own text, and whether the file is a delivery nobody edited.
pub fn not_in_force(chosen: &str, current: Option<&str>, layout: &str, untouched: bool) -> (r: Option<String>)
    ensures
        match overridden(chosen@, match current { Some(c) => Some(c@), None => None }, layout@, untouched) {
            Some(m) => r matches Some(t) && t@ == m,
            None => r is None,
        },
{
    proof { lemma_preset_index(chosen@, 0); }
    let preset = match find(chosen) {
        Some(p) => p,
        None => return None,
    };
    if same_text(preset.name, default_preset()) {
        proof {
            if preset_index(chosen@, 0) != Some(0int) {
                let i = preset_index(chosen@, 0).unwrap();
                assert(preset_names()[i] != preset_names()[0]);
            }
        }
        return None;
    }
    let current = match current {
        Some(c) => c,
        None => return None,
    };
    if untouched || same_text(current, layout) {
        return None;
    }
    let mut m = String::new();
    proof {
        reveal_strlit("layout ");
        reveal_strlit(" is chosen but your edited layout.lua is in use · `thurbox-cli layout set ");
        reveal_strlit("` switches, keeping a backup");
    }
    push_str(&mut m, "layout ");
    push_str(&mut m, preset.name);
    push_str(&mut m, " is chosen but your edited layout.lua is in use · `thurbox-cli layout set ");
    push_str(&mut m, preset.name);
    push_str(&mut m, "` switches, keeping a backup");
    Some(m)
}

} // verus!
