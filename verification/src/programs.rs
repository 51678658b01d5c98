//! Program panes that plugins ask for: how a pane is named, addressed and
//! bounded, and which of them a reload lets go.
//!
//! A pane belongs to a plugin, identified by its path, and to a name the
//! plugin gave it. Its surface id is generated from that pair and is found
//! again by looking the pair up, never by taking the id apart: a pane name may
//! hold the separator, and so may a file name.
use vstd::prelude::*;
use crate::text::{is_ascii_alphanumeric, ascii_alphanumeric, is_whitespace, unicode_whitespace,
    push_str, decimal, decimal_text, quoted, debug_text, same_text, starts_with, to_chars};

verus! {

/// The most panes one plugin may hold at once.
pub const MAX_PROGRAMS_PER_PLUGIN: usize = 4;

/// What marks a surface id as naming a plugin's program.
pub open spec fn program_prefix() -> Seq<char> {
    "program:"@
}

/// Which plugin's pane, and which of that plugin's panes.
#[derive(Debug, PartialEq, Eq, Hash, PartialOrd, Ord)]
pub struct ProgramKey {
    /// The owning plugin's path, relative to the interface directory.
    pub plugin: String,
    /// The name the plugin gave this pane.
    pub name: String,
}

/// A key as text: its plugin and its name.
pub struct ProgramKeyView {
    pub plugin: Seq<char>,
    pub name: Seq<char>,
}

impl View for ProgramKey {
    type V = ProgramKeyView;

    open spec fn view(&self) -> ProgramKeyView {
        ProgramKeyView { plugin: self.plugin@, name: self.name@ }
    }
}

impl Clone for ProgramKey {
    fn clone(&self) -> (r: Self)
        ensures
            r@ == self@,
    {
        ProgramKey { plugin: self.plugin.clone(), name: self.name.clone() }
    }
}

/// The surface id of `plugin`'s pane `name`.
pub open spec fn surface_text(plugin: Seq<char>, name: Seq<char>) -> Seq<char> {
    program_prefix() + plugin + "#"@ + name
}

impl ProgramKey {
    pub fn new(plugin: &str, name: &str) -> (k: Self)
        ensures
            k@ == (ProgramKeyView { plugin: plugin@, name: name@ }),
    {
        ProgramKey { plugin: plugin.to_string(), name: name.to_string() }
    }

    /// The surface id this pane is addressed by: the program prefix, the
    /// plugin, `#`, the name.
    pub fn surface_id(&self) -> (id: String)
        ensures
            id@ == surface_text(self.plugin@, self.name@),
    {
        let mut id = String::new();
        proof {
            reveal_strlit("program:");
            reveal_strlit("#");
        }
        push_str(&mut id, "program:");
        push_str(&mut id, self.plugin.as_str());
        push_str(&mut id, "#");
        push_str(&mut id, self.name.as_str());
        id
    }
}

/// Whether `id` begins with the program prefix.
pub open spec fn program_surface(id: Seq<char>) -> bool {
    program_prefix().len() <= id.len() && id.subrange(0, program_prefix().len() as int) == program_prefix()
}

/// Does this surface id name a plugin's program rather than a session? A
/// prefix test, deliberately not a parse.
pub fn is_program_surface(id: &str) -> (r: bool)
    ensures
        r == program_surface(id@),
{
    proof { reveal_strlit("program:"); }
    starts_with(id, "program:")
}

/// A generated surface id is always told as a program's.
pub proof fn lemma_surface_is_program(plugin: Seq<char>, name: Seq<char>)
    ensures
        program_surface(surface_text(plugin, name)),
{
    let id = surface_text(plugin, name);
    assert(id.subrange(0, program_prefix().len() as int) =~= program_prefix());
}

/// A character a pane name may hold: an ASCII letter or digit, `-` or `_`.
pub open spec fn name_char(c: char) -> bool {
    ascii_alphanumeric(c) || c == '-' || c == '_'
}

/// What `validate_program_name` answers for `name`.
pub open spec fn name_check(name: Seq<char>) -> Result<(), Seq<char>> {
    if name.len() == 0 {
        Err("a program pane needs a name"@)
    } else if !(forall|i: int| 0 <= i < name.len() ==> name_char(#[trigger] name[i])) {
        Err("program pane name "@ + debug_text(name) + " must be letters, digits, `-` or `_`"@)
    } else {
        Ok(())
    }
}

/// Refuse a pane name that would make an unreadable window or an ambiguous
/// id: it must be non-empty and made of ASCII letters, digits, `-` and `_`.
pub fn validate_program_name(name: &str) -> (r: Result<(), String>)
    ensures
        match name_check(name@) {
            Ok(()) => r is Ok,
            Err(m) => r matches Err(e) && e@ == m,
        },
{
    let chars = to_chars(name);
    if chars.len() == 0 {
        return Err("a program pane needs a name".to_string());
    }
    let mut i: usize = 0;
    while i < chars.len()
        invariant
            chars@ == name@,
            i <= chars@.len(),
            forall|k: int| 0 <= k < i ==> name_char(#[trigger] chars@[k]),
        decreases chars.len() - i,
    {
        let c = chars[i];
        if !(is_ascii_alphanumeric(c) || c == '-' || c == '_') {
            let mut e = String::new();
            proof {
                reveal_strlit("program pane name ");
                reveal_strlit(" must be letters, digits, `-` or `_`");
                assert(!name_char(name@[i as int]));
            }
            push_str(&mut e, "program pane name ");
            let shown = quoted(name);
            push_str(&mut e, shown.as_str());
            push_str(&mut e, " must be letters, digits, `-` or `_`");
            return Err(e);
        }
        i += 1;
    }
    Ok(())
}

/// Whether `s` is empty once trimmed: every character is white space.
pub open spec fn blank(s: Seq<char>) -> bool {
    forall|i: int| 0 <= i < s.len() ==> unicode_whitespace(#[trigger] s[i])
}

/// What `admit_program` answers.
pub open spec fn admission(plugin: Seq<char>, held: usize, program: Seq<char>) -> Result<(), Seq<char>> {
    if blank(program) {
        Err("a program pane needs a program to run"@)
    } else if held >= MAX_PROGRAMS_PER_PLUGIN {
        Err(plugin + " already holds "@ + decimal_text(held as nat) + " program panes (the limit is "@
            + decimal_text(MAX_PROGRAMS_PER_PLUGIN as nat) + ")"@)
    } else {
        Ok(())
    }
}

/// May a plugin already holding `held` panes take one more, for `program`?
/// A program of only white space is refused, and so is a pane past the bound;
/// the refusal names the plugin and the limit, since the plugin shows it.
pub fn admit_program(plugin: &str, held: usize, program: &str) -> (r: Result<(), String>)
    ensures
        match admission(plugin@, held, program@) {
            Ok(()) => r is Ok,
            Err(m) => r matches Err(e) && e@ == m,
        },
{
    let chars = to_chars(program);
    let mut i: usize = 0;
    let mut all_space = true;
    while i < chars.len()
        invariant
            chars@ == program@,
            i <= chars@.len(),
            all_space == forall|k: int| 0 <= k < i ==> unicode_whitespace(#[trigger] chars@[k]),
        decreases chars.len() - i,
    {
        if !is_whitespace(chars[i]) {
            all_space = false;
        }
        i += 1;
    }
    if all_space {
        return Err("a program pane needs a program to run".to_string());
    }
    if held >= MAX_PROGRAMS_PER_PLUGIN {
        let mut e = String::new();
        proof {
            reveal_strlit(" already holds ");
            reveal_strlit(" program panes (the limit is ");
            reveal_strlit(")");
        }
        push_str(&mut e, plugin);
        push_str(&mut e, " already holds ");
        let n = decimal(held as u64);
        push_str(&mut e, n.as_str());
        push_str(&mut e, " program panes (the limit is ");
        let limit = decimal(MAX_PROGRAMS_PER_PLUGIN as u64);
        push_str(&mut e, limit.as_str());
        push_str(&mut e, ")");
        return Err(e);
    }
    Ok(())
}

/// Whether `live` lists `plugin`.
pub open spec fn listed(live: Seq<String>, plugin: Seq<char>) -> bool {
    exists|i: int| 0 <= i < live.len() && #[trigger] live[i]@ == plugin
}

/// The keys of `keys` whose plugin `live` no longer lists, in order.
pub open spec fn stale_keys(keys: Seq<ProgramKeyView>, live: Seq<String>) -> Seq<ProgramKeyView>
    decreases keys.len(),
{
    if keys.len() == 0 {
        Seq::empty()
    } else {
        let rest = stale_keys(keys.drop_last(), live);
        if listed(live, keys.last().plugin) {
            rest
        } else {
            rest.push(keys.last())
        }
    }
}

fn is_listed(live: &Vec<String>, plugin: &String) -> (r: bool)
    ensures
        r == listed(live@, plugin@),
{
    let mut i: usize = 0;
    while i < live.len()
        invariant
            i <= live@.len(),
            forall|k: int| 0 <= k < i ==> live@[k]@ != plugin@,
        decreases live.len() - i,
    {
        if same_text(live[i].as_str(), plugin.as_str()) {
            return true;
        }
        i += 1;
    }
    false
}

/// Which panes belong to a plugin that is no longer loaded: a set difference,
/// kept apart from releasing them so the choice is made without a
/// multiplexer.
pub fn stale_program_keys(keys: &Vec<ProgramKey>, live: &Vec<String>) -> (r: Vec<ProgramKey>)
    ensures
        r@.map_values(|k: ProgramKey| k@) == stale_keys(keys@.map_values(|k: ProgramKey| k@), live@),
{
    let mut r: Vec<ProgramKey> = Vec::new();
    let mut i: usize = 0;
    while i < keys.len()
        invariant
            i <= keys@.len(),
            r@.map_values(|k: ProgramKey| k@) == stale_keys(keys@.map_values(|k: ProgramKey| k@).take(i as int), live@),
        decreases keys.len() - i,
    {
        let ghost views = keys@.map_values(|k: ProgramKey| k@);
        assert(views.take(i + 1).drop_last() =~= views.take(i as int));
        if !is_listed(live, &keys[i].plugin) {
            let k = keys[i].clone();
            r.push(k);
            assert(r@.map_values(|k: ProgramKey| k@) =~= stale_keys(views.take(i as int), live@).push(views[i as int]));
        }
        i += 1;
    }
    assert(keys@.map_values(|k: ProgramKey| k@).take(keys@.len() as int) =~= keys@.map_values(|k: ProgramKey| k@));
    r
}

/// How many of `keys` belong to `plugin`.
pub open spec fn held_by(keys: Seq<ProgramKeyView>, plugin: Seq<char>) -> nat
    decreases keys.len(),
{
    if keys.len() == 0 {
        0
    } else {
        held_by(keys.drop_last(), plugin) + if keys.last().plugin == plugin { 1nat } else { 0nat }
    }
}

/// How many panes a plugin is holding, among `keys`.
pub fn program_count(keys: &Vec<ProgramKey>, plugin: &str) -> (n: usize)
    ensures
        n == held_by(keys@.map_values(|k: ProgramKey| k@), plugin@),
{
    let mut n: usize = 0;
    let mut i: usize = 0;
    while i < keys.len()
        invariant
            i <= keys@.len(),
            n == held_by(keys@.map_values(|k: ProgramKey| k@).take(i as int), plugin@),
            n <= i,
        decreases keys.len() - i,
    {
        let ghost views = keys@.map_values(|k: ProgramKey| k@);
        assert(views.take(i + 1).drop_last() =~= views.take(i as int));
        if same_text(keys[i].plugin.as_str(), plugin) {
            n += 1;
        }
        i += 1;
    }
    assert(keys@.map_values(|k: ProgramKey| k@).take(keys@.len() as int) =~= keys@.map_values(|k: ProgramKey| k@));
    n
}

/// The first of `keys` from `i` on whose surface id is `surface`.
pub open spec fn key_for(keys: Seq<ProgramKeyView>, surface: Seq<char>, i: int) -> Option<int>
    decreases keys.len() - i,
{
    if i < 0 || i >= keys.len() {
        None
    } else if surface_text(keys[i].plugin, keys[i].name) == surface {
        Some(i)
    } else {
        key_for(keys, surface, i + 1)
    }
}

proof fn lemma_key_for(keys: Seq<ProgramKeyView>, surface: Seq<char>, k: int)
    requires
        0 <= k,
    ensures
        key_for(keys, surface, k) matches Some(i) ==> k <= i < keys.len()
            && surface_text(keys[i].plugin, keys[i].name) == surface,
    decreases keys.len() - k,
{
    if k < keys.len() && surface_text(keys[k].plugin, keys[k].name) != surface {
        lemma_key_for(keys, surface, k + 1);
    }
}

/// The key a surface id names, found by matching it against the ids the keys
/// generate: `None` for anything that is not a program surface, and for a
/// program surface no key generates.
pub fn program_key(keys: &Vec<ProgramKey>, surface: &str) -> (r: Option<usize>)
    ensures
        !program_surface(surface@) ==> r is None,
        program_surface(surface@) ==> match key_for(keys@.map_values(|k: ProgramKey| k@), surface@, 0) {
            Some(i) => r == Some(i as usize),
            None => r is None,
        },
{
    if !is_program_surface(surface) {
        return None;
    }
    let ghost views = keys@.map_values(|k: ProgramKey| k@);
    proof { lemma_key_for(views, surface@, 0); }
    let mut i: usize = 0;
    while i < keys.len()
        invariant
            i <= keys@.len(),
            views == keys@.map_values(|k: ProgramKey| k@),
            program_surface(surface@),
            key_for(views, surface@, i as int) == key_for(views, surface@, 0),
        decreases keys.len() - i,
    {
        let id = keys[i].surface_id();
        if same_text(id.as_str(), surface) {
            return Some(i);
        }
        i += 1;
    }
    None
}

/// What to do when a plugin asks for a pane.
#[derive(Debug, PartialEq, Eq)]
pub enum StartStep {
    /// The pane is running: nothing to do.
    Keep,
    /// Start the program; `replace` says a finished pane under the key goes first.
    Start { replace: bool },
}

/// Decide a plugin's ask for the pane `key`: `running` says whether a pane
/// already holds the key and, if so, whether it is still running; `held` is
/// how many panes the plugin holds. Asking for a running pane keeps it, which
/// is what makes asking on every frame safe; a finished one is replaced, and
/// anything new is admitted first.
pub fn start_step(key: &ProgramKey, running: Option<bool>, held: usize, program: &str) -> (r: Result<StartStep, String>)
    requires
        running is Some ==> held >= 1,
    ensures
        running == Some(true) ==> r == Ok::<StartStep, String>(StartStep::Keep),
        running != Some(true) ==> {
            let counted = if running is Some { (held - 1) as usize } else { held };
            match admission(key.plugin@, counted, program@) {
                Ok(()) => r == Ok::<StartStep, String>(StartStep::Start { replace: running is Some }),
                Err(m) => r matches Err(e) && e@ == m,
            }
        },
{
    let replace = match running {
        Some(true) => return Ok(StartStep::Keep),
        Some(false) => true,
        None => false,
    };
    let counted = if replace { held - 1 } else { held };
    match admit_program(key.plugin.as_str(), counted, program) {
        Ok(()) => Ok(StartStep::Start { replace }),
        Err(e) => Err(e),
    }
}

/// Looking up a generated surface id finds a key that generates that very
/// id: where some key generates it, the lookup answers, and never with a key
/// that generates another.
pub proof fn lemma_lookup_finds_its_key(keys: Seq<ProgramKeyView>, i: int)
    requires
        0 <= i < keys.len(),
    ensures
        key_for(keys, surface_text(keys[i].plugin, keys[i].name), 0) matches Some(j)
            && 0 <= j <= i
            && surface_text(keys[j].plugin, keys[j].name) == surface_text(keys[i].plugin, keys[i].name),
{
    lemma_key_for_reaches(keys, surface_text(keys[i].plugin, keys[i].name), 0, i);
}

proof fn lemma_key_for_reaches(keys: Seq<ProgramKeyView>, surface: Seq<char>, k: int, i: int)
    requires
        0 <= k <= i < keys.len(),
        surface_text(keys[i].plugin, keys[i].name) == surface,
    ensures
        key_for(keys, surface, k) matches Some(j) && k <= j <= i
            && surface_text(keys[j].plugin, keys[j].name) == surface,
    decreases i - k,
{
    if surface_text(keys[k].plugin, keys[k].name) != surface {
        lemma_key_for_reaches(keys, surface, k + 1, i);
    }
}

} // verus!
