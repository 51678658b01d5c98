//! Chords: the canonical text of a keypress, and of a chord written by hand.
//!
//! A plugin declares its keys as text, and a keypress arrives as a name,
//! perhaps a character, and modifier flags. Both are folded into one
//! spelling — modifiers in a fixed order, lowercase, `+`-joined — so a
//! declaration and a keystroke meet exactly when they mean the same key.
use vstd::prelude::*;
use crate::text::{to_chars, push_char, push_str, is_whitespace, unicode_whitespace, is_ascii_uppercase, is_ascii_alphabetic, ascii_alphabetic, ascii_uppercase, same_text};

verus! {

/// `str::to_lowercase`: Unicode's full lowercase mapping of a text, which may
/// change its length.
pub uninterp spec fn lowercase_text(s: Seq<char>) -> Seq<char>;

/// `str::to_lowercase`.
#[verifier::external_body]
pub fn to_lowercase(s: &str) -> (r: String)
    ensures
        r@ == lowercase_text(s@),
{
    s.to_lowercase()
}

/// A keypress as the terminal reported it.
#[derive(Debug, Clone, PartialEq, Eq)]
pub struct KeyPress {
    /// The key's name: a character, or `enter`, `f5`, `backtab`…
    pub name: String,
    /// The character it typed, when it typed one.
    pub ch: Option<char>,
    pub ctrl: bool,
    pub alt: bool,
    pub shift: bool,
}

/// Symbols that only exist as a shifted keystroke.
pub open spec fn shifted_symbol(c: char) -> bool {
    c == '!' || c == '@' || c == '#' || c == '$' || c == '%' || c == '^' || c == '&' || c == '*' || c == '(' || c == ')' || c == '_'
}

fn is_shifted_symbol(c: char) -> (r: bool)
    ensures
        r == shifted_symbol(c),
{
    c == '!' || c == '@' || c == '#' || c == '$' || c == '%' || c == '^' || c == '&' || c == '*' || c == '(' || c == ')' || c == '_'
}

/// Parts joined by `+`.
pub open spec fn join_plus(parts: Seq<Seq<char>>) -> Seq<char>
    decreases parts.len(),
{
    if parts.len() == 0 {
        seq![]
    } else if parts.len() == 1 {
        parts[0]
    } else {
        join_plus(parts.drop_last()) + seq!['+'] + parts.last()
    }
}

fn join(parts: &Vec<String>) -> (r: String)
    ensures
        r@ == join_plus(parts@.map_values(|p: String| p@)),
{
    let mut out = String::new();
    let mut i: usize = 0;
    while i < parts.len()
        invariant
            i <= parts@.len(),
            out@ == join_plus(parts@.subrange(0, i as int).map_values(|p: String| p@)),
        decreases parts.len() - i,
    {
        let ghost before = parts@.subrange(0, i as int).map_values(|p: String| p@);
        if i > 0 {
            push_char(&mut out, '+');
        }
        push_str(&mut out, parts[i].as_str());
        assert(parts@.subrange(0, i + 1).map_values(|p: String| p@).drop_last() =~= before);
        assert(parts@.subrange(0, i + 1).map_values(|p: String| p@).last() == parts@[i as int]@);
        proof {
            if i == 0 {
                assert(out@ =~= parts@[0]@);
            }
        }
        i += 1;
    }
    assert(parts@.subrange(0, i as int) =~= parts@);
    out
}

/// The canonical chord of a keypress.
///
/// A legacy terminal sends a bare `J` with no modifier while a kitty-protocol
/// one sends `j` + SHIFT; both are `shift+j`. `Ctrl+/` arrives as `ctrl+7`,
/// `ctrl+_` or `ctrl+/` depending on the terminal; all three are `ctrl+/`. A
/// shifted symbol is its own key (`!`), not `shift+1`.
pub open spec fn canonical_spec(name: Seq<char>, ch: Option<char>, ctrl: bool, alt: bool, shift: bool) -> Seq<char> {
    let key = lowercase_text(name);
    let mods = (if ctrl { seq!["ctrl"@] } else { seq![] }) + (if alt { seq!["alt"@] } else { seq![] });
    if ctrl && (key == "7"@ || key == "_"@ || key == "/"@) {
        "ctrl+/"@
    } else {
        let shifted = shift || (ch matches Some(c) && (ascii_uppercase(c) || shifted_symbol(c)));
        let letter_or_named = ch matches Some(c) ==> ascii_alphabetic(c);
        let (parts, key2) = if shifted && key != "tab"@ {
            if letter_or_named {
                (mods.push("shift"@), key)
            } else {
                (mods, seq![ch->0])
            }
        } else {
            (mods, key)
        };
        if key2 == "backtab"@ {
            "shift+tab"@
        } else {
            join_plus(parts.push(key2))
        }
    }
}

/// Canonical text for a keypress.
pub fn canonical_chord(press: &KeyPress) -> (r: String)
    ensures
        r@ == canonical_spec(press.name@, press.ch, press.ctrl, press.alt, press.shift),
{
    let mut parts: Vec<String> = Vec::new();
    if press.ctrl {
        parts.push(String::from_str("ctrl"));
    }
    if press.alt {
        parts.push(String::from_str("alt"));
    }
    let ghost mods = parts@.map_values(|p: String| p@);
    assert(mods =~= (if press.ctrl { seq!["ctrl"@] } else { seq![] }) + (if press.alt { seq!["alt"@] } else { seq![] }));
    let mut key = to_lowercase(press.name.as_str());
    if press.ctrl && (same_text(key.as_str(), "7") || same_text(key.as_str(), "_") || same_text(key.as_str(), "/")) {
        return String::from_str("ctrl+/");
    }
    let shifted = press.shift || match press.ch {
        Some(c) => is_ascii_uppercase(c) || is_shifted_symbol(c),
        None => false,
    };
    if shifted && !same_text(key.as_str(), "tab") {
        let letter = match press.ch {
            Some(c) => is_ascii_alphabetic(c),
            None => true,
        };
        if letter {
            parts.push(String::from_str("shift"));
        } else if let Some(c) = press.ch {
            let mut one = String::new();
            push_char(&mut one, c);
            assert(one@ =~= seq![c]);
            key = one;
        }
    }
    if same_text(key.as_str(), "backtab") {
        return String::from_str("shift+tab");
    }
    parts.push(key);
    let r = join(&parts);
    assert(parts@.map_values(|p: String| p@) =~= (if shifted && lowercase_text(press.name@) != "tab"@ {
        if (press.ch matches Some(c) ==> ascii_alphabetic(c)) {
            mods.push("shift"@)
        } else {
            mods
        }
    } else {
        mods
    }).push(key@));
    r
}

/// The pieces of a text between its `+` signs, empty pieces included.
pub open spec fn split_plus(s: Seq<char>) -> Seq<Seq<char>>
    decreases s.len(),
{
    if s.len() == 0 {
        seq![seq![]]
    } else {
        let parts = split_plus(s.drop_last());
        if s.last() == '+' {
            parts.push(seq![])
        } else {
            parts.update(parts.len() - 1, parts.last().push(s.last()))
        }
    }
}

proof fn lemma_split_nonempty(s: Seq<char>)
    ensures
        split_plus(s).len() >= 1,
    decreases s.len(),
{
    if s.len() > 0 {
        lemma_split_nonempty(s.drop_last());
    }
}

/// The index of the first character that is not whitespace, or the length.
pub open spec fn first_kept(s: Seq<char>, i: int) -> int
    decreases s.len() - i,
{
    if i >= s.len() {
        s.len() as int
    } else if unicode_whitespace(s[i]) {
        first_kept(s, i + 1)
    } else {
        i
    }
}

/// One past the last character at or after `lo`, counting down from `j`,
/// that is not whitespace.
pub open spec fn last_kept(s: Seq<char>, lo: int, j: int) -> int
    decreases j - lo,
{
    if j <= lo {
        lo
    } else if unicode_whitespace(s[j - 1]) {
        last_kept(s, lo, j - 1)
    } else {
        j
    }
}

/// `str::trim`: whitespace cut from both ends.
pub open spec fn trim_spec(s: Seq<char>) -> Seq<char> {
    let lo = first_kept(s, 0);
    s.subrange(lo, last_kept(s, lo, s.len() as int))
}

proof fn lemma_first_kept_range(s: Seq<char>, i: int)
    requires
        0 <= i <= s.len(),
    ensures
        i <= first_kept(s, i) <= s.len(),
    decreases s.len() - i,
{
    if i < s.len() && unicode_whitespace(s[i]) {
        lemma_first_kept_range(s, i + 1);
    }
}

proof fn lemma_last_kept_range(s: Seq<char>, lo: int, j: int)
    requires
        0 <= lo <= j <= s.len(),
    ensures
        lo <= last_kept(s, lo, j) <= j,
    decreases j - lo,
{
    if j > lo && unicode_whitespace(s[j - 1]) {
        lemma_last_kept_range(s, lo, j - 1);
    }
}

/// Whitespace cut from both ends of `chars`.
pub fn trim_chars(chars: &Vec<char>) -> (r: Vec<char>)
    ensures
        r@ == trim_spec(chars@),
{
    let mut lo: usize = 0;
    while lo < chars.len() && is_whitespace(chars[lo])
        invariant
            lo <= chars@.len(),
            first_kept(chars@, lo as int) == first_kept(chars@, 0),
        decreases chars.len() - lo,
    {
        lo += 1;
    }
    let mut hi: usize = chars.len();
    while hi > lo && is_whitespace(chars[hi - 1])
        invariant
            lo <= hi <= chars@.len(),
            lo == first_kept(chars@, 0),
            last_kept(chars@, lo as int, hi as int) == last_kept(chars@, lo as int, chars@.len() as int),
        decreases hi - lo,
    {
        hi -= 1;
    }
    let mut out: Vec<char> = Vec::new();
    let mut i: usize = lo;
    while i < hi
        invariant
            lo <= i <= hi <= chars@.len(),
            out@ == chars@.subrange(lo as int, i as int),
        decreases hi - i,
    {
        out.push(chars[i]);
        assert(chars@.subrange(lo as int, i + 1) =~= chars@.subrange(lo as int, i as int).push(chars@[i as int]));
        i += 1;
    }
    out
}

/// What a piece of a hand-written chord names.
pub enum Piece {
    Ctrl,
    Alt,
    Shift,
    Cmd,
    Key(Seq<char>),
}

/// A piece, trimmed and lowercased, read as a modifier — with the spellings
/// v1 accepted — or as the key.
pub open spec fn piece_of(raw_piece: Seq<char>) -> Piece {
    let p = lowercase_text(trim_spec(raw_piece));
    if p == "ctrl"@ || p == "control"@ {
        Piece::Ctrl
    } else if p == "alt"@ || p == "meta"@ || p == "option"@ {
        Piece::Alt
    } else if p == "shift"@ {
        Piece::Shift
    } else if p == "cmd"@ || p == "command"@ || p == "super"@ || p == "win"@ {
        Piece::Cmd
    } else {
        Piece::Key(p)
    }
}

/// The modifiers the first `k` pieces name, and the last key among them.
pub struct Scanned {
    pub ctrl: bool,
    pub alt: bool,
    pub shift: bool,
    pub cmd: bool,
    pub key: Seq<char>,
}

pub open spec fn scan(pieces: Seq<Seq<char>>, k: int) -> Scanned
    decreases k,
{
    if k <= 0 {
        Scanned { ctrl: false, alt: false, shift: false, cmd: false, key: seq![] }
    } else {
        let s = scan(pieces, k - 1);
        match piece_of(pieces[k - 1]) {
            Piece::Ctrl => Scanned { ctrl: true, ..s },
            Piece::Alt => Scanned { alt: true, ..s },
            Piece::Shift => Scanned { shift: true, ..s },
            Piece::Cmd => Scanned { cmd: true, ..s },
            Piece::Key(p) => Scanned { key: p, ..s },
        }
    }
}

/// The canonical form of a chord written by hand: modifiers in the fixed
/// order `ctrl`, `alt`, `shift`, `cmd`, then the key; and a lone capital
/// letter, written with nothing else, means shift — `J` is `shift+j`, while
/// `Ctrl+D` stays `ctrl+d`.
pub open spec fn normalise_spec(raw: Seq<char>) -> Seq<char> {
    let pieces = split_plus(raw);
    let s = scan(pieces, pieces.len() as int);
    let mods = (if s.ctrl { seq!["ctrl"@] } else { seq![] }) + (if s.alt { seq!["alt"@] } else { seq![] }) + (if s.shift {
        seq!["shift"@]
    } else {
        seq![]
    }) + (if s.cmd { seq!["cmd"@] } else { seq![] });
    let t = trim_spec(raw);
    let capital = mods.len() == 0 && s.key.len() == 1 && t.len() > 0 && ascii_uppercase(t.last());
    join_plus((if capital { mods.push("shift"@) } else { mods }).push(s.key))
}

fn is_one_of(p: &str, a: &str, b: &str, c: &str, d: &str) -> (r: bool)
    ensures
        r == (p@ == a@ || p@ == b@ || p@ == c@ || p@ == d@),
{
    same_text(p, a) || same_text(p, b) || same_text(p, c) || same_text(p, d)
}

/// A piece of a hand-written chord, read.
enum Read {
    Ctrl,
    Alt,
    Shift,
    Cmd,
    Key(String),
}

spec fn read_view(r: Read) -> Piece {
    match r {
        Read::Ctrl => Piece::Ctrl,
        Read::Alt => Piece::Alt,
        Read::Shift => Piece::Shift,
        Read::Cmd => Piece::Cmd,
        Read::Key(k) => Piece::Key(k@),
    }
}

fn read_piece(piece: &Vec<char>) -> (r: Read)
    ensures
        read_view(r) == piece_of(piece@),
{
    let trimmed = trim_chars(piece);
    let text = crate::text::string_of(trimmed.as_slice(), 0, trimmed.len());
    assert(trimmed@.subrange(0, trimmed@.len() as int) =~= trimmed@);
    let p = to_lowercase(text.as_str());
    if is_one_of(p.as_str(), "ctrl", "control", "ctrl", "ctrl") {
        Read::Ctrl
    } else if is_one_of(p.as_str(), "alt", "meta", "option", "alt") {
        Read::Alt
    } else if same_text(p.as_str(), "shift") {
        Read::Shift
    } else if is_one_of(p.as_str(), "cmd", "command", "super", "win") {
        Read::Cmd
    } else {
        Read::Key(p)
    }
}

/// Canonicalise a chord written by hand, so `Ctrl+D` and `ctrl+d` agree.
pub fn normalise_chord(raw: &str) -> (r: String)
    ensures
        r@ == normalise_spec(raw@),
{
    let chars = to_chars(raw);
    let mut ctrl = false;
    let mut alt = false;
    let mut shift = false;
    let mut cmd = false;
    let mut key = String::new();
    let mut piece: Vec<char> = Vec::new();
    let ghost mut completed: Seq<Seq<char>> = seq![];
    let mut i: usize = 0;
    // Each `+` ends a piece.
    while i < chars.len()
        invariant
            chars@ == raw@,
            i <= chars@.len(),
            split_plus(chars@.subrange(0, i as int)) == completed.push(piece@),
            ({
                let s = scan(completed, completed.len() as int);
                s.ctrl == ctrl && s.alt == alt && s.shift == shift && s.cmd == cmd && s.key == key@
            }),
        decreases chars.len() - i,
    {
        proof {
            assert(chars@.subrange(0, i + 1).drop_last() =~= chars@.subrange(0, i as int));
        }
        if chars[i] == '+' {
            let read = read_piece(&piece);
            match read {
                Read::Ctrl => { ctrl = true; },
                Read::Alt => { alt = true; },
                Read::Shift => { shift = true; },
                Read::Cmd => { cmd = true; },
                Read::Key(k) => { key = k; },
            }
            proof {
                let before = completed;
                completed = completed.push(piece@);
                assert(completed.subrange(0, completed.len() - 1) =~= before);
                lemma_scan_prefix(completed, before.len() as int);
            }
            piece = Vec::new();
            assert(split_plus(chars@.subrange(0, i + 1)) =~= completed.push(piece@));
        } else {
            piece.push(chars[i]);
            assert(split_plus(chars@.subrange(0, i + 1)) =~= completed.push(piece@));
        }
        i += 1;
    }
    let read = read_piece(&piece);
    match read {
        Read::Ctrl => { ctrl = true; },
        Read::Alt => { alt = true; },
        Read::Shift => { shift = true; },
        Read::Cmd => { cmd = true; },
        Read::Key(k) => { key = k; },
    }
    proof {
        let before = completed;
        completed = completed.push(piece@);
        assert(chars@.subrange(0, i as int) =~= raw@);
        assert(completed.subrange(0, before.len() as int) =~= before);
        lemma_scan_prefix(completed, before.len() as int);
        assert(completed == split_plus(raw@));
    }
    let mut parts: Vec<String> = Vec::new();
    if ctrl {
        parts.push(String::from_str("ctrl"));
    }
    if alt {
        parts.push(String::from_str("alt"));
    }
    if shift {
        parts.push(String::from_str("shift"));
    }
    if cmd {
        parts.push(String::from_str("cmd"));
    }
    let ghost mods = parts@.map_values(|p: String| p@);
    assert(mods =~= (if ctrl { seq!["ctrl"@] } else { seq![] }) + (if alt { seq!["alt"@] } else { seq![] }) + (if shift {
        seq!["shift"@]
    } else {
        seq![]
    }) + (if cmd { seq!["cmd"@] } else { seq![] }));
    let t = trim_chars(&chars);
    let key_len = to_chars(key.as_str()).len();
    let capital = parts.len() == 0 && key_len == 1 && t.len() > 0 && is_ascii_uppercase(t[t.len() - 1]);
    if capital {
        parts.push(String::from_str("shift"));
    }
    let ghost before_key = parts@.map_values(|p: String| p@);
    assert(before_key =~= (if capital { mods.push("shift"@) } else { mods }));
    proof {
        let pieces = split_plus(raw@);
        let sc = scan(pieces, pieces.len() as int);
        assert(sc.ctrl == ctrl && sc.alt == alt && sc.shift == shift && sc.cmd == cmd);
        assert(sc.key == key@);
        assert(t@ == trim_spec(raw@));
        assert(key_len == sc.key.len());
        assert(capital == (mods.len() == 0 && sc.key.len() == 1 && trim_spec(raw@).len() > 0 && ascii_uppercase(trim_spec(raw@).last())));
    }
    parts.push(key);
    assert(parts@.map_values(|p: String| p@) =~= before_key.push(key@));
    join(&parts)
}

/// Scanning a sequence up to its last piece is scanning what came before it,
/// then that piece.
proof fn lemma_scan_prefix(pieces: Seq<Seq<char>>, k: int)
    requires
        0 <= k < pieces.len(),
    ensures
        scan(pieces, k) == scan(pieces.subrange(0, k), k),
    decreases k,
{
    if k > 0 {
        lemma_scan_prefix(pieces, k - 1);
        lemma_scan_prefix(pieces.subrange(0, k), k - 1);
        assert(pieces.subrange(0, k).subrange(0, k - 1) =~= pieces.subrange(0, k - 1));
    }
}

/// Is this chord a bare `Ctrl+<letter>` — the namespace readline owns?
pub open spec fn ctrl_letter(chord: Seq<char>) -> bool {
    chord.len() == 6 && chord.subrange(0, 5) == "ctrl+"@ && ascii_alphabetic(chord[5])
}

/// Whether `chord` is `ctrl+` and one ASCII letter.
///
/// The test is on the *bound* chord rather than on the action: rebinding a
/// passthrough action onto a key the agent does not want must make it work
/// in the terminal again.
pub fn is_ctrl_letter_chord(chord: &str) -> (r: bool)
    ensures
        r == ctrl_letter(chord@),
{
    proof {
        reveal_strlit("ctrl+");
    }
    let c = to_chars(chord);
    if c.len() != 6 || !crate::text::starts_with(chord, "ctrl+") {
        return false;
    }
    is_ascii_alphabetic(c[5])
}

/// A capital reaches a terminal as a bare capital (legacy) or as the lower
/// case letter with shift held (kitty protocol): both read as one chord,
/// whatever else is held.
pub proof fn lemma_capital_encodings_agree(name: Seq<char>, upper: char, lower: char, ctrl: bool, alt: bool)
    requires
        ascii_uppercase(upper),
        ascii_alphabetic(lower),
    ensures
        canonical_spec(name, Some(upper), ctrl, alt, false) == canonical_spec(name, Some(lower), ctrl, alt, true),
{
}


/// The modifiers a keypress holds, as its chord begins with them: `ctrl+`,
/// then `alt+`.
pub open spec fn held_prefix(ctrl: bool, alt: bool) -> Seq<char> {
    (if ctrl { "ctrl+"@ } else { seq![] }) + (if alt { "alt+"@ } else { seq![] })
}

proof fn lemma_join_front(x: Seq<char>, rest: Seq<Seq<char>>)
    requires
        rest.len() >= 1,
    ensures
        join_plus(seq![x] + rest) == x + seq!['+'] + join_plus(rest),
    decreases rest.len(),
{
    let all = seq![x] + rest;
    if rest.len() == 1 {
        assert(all.drop_last() =~= seq![x]);
        assert(join_plus(seq![x]) == x);
        assert(all.last() == rest[0]);
        assert(join_plus(rest) == rest[0]);
    } else {
        lemma_join_front(x, rest.drop_last());
        assert(all.drop_last() =~= seq![x] + rest.drop_last());
        assert(all.last() == rest.last());
        assert(join_plus(all) =~= x + seq!['+'] + join_plus(rest));
    }
}

/// Every modifier held is in the chord of a keypress: it begins `ctrl+` when
/// Ctrl is held, then `alt+` when Alt is — whatever else is held — so a
/// binding written `ctrl+alt+x` is told apart from one written `ctrl+x`.
/// The two folded keys stand apart: Ctrl with `7`, `_` or `/` is always
/// `ctrl+/`, and `backtab` is always `shift+tab`.
pub proof fn lemma_held_modifiers_lead_the_chord(name: Seq<char>, ch: Option<char>, ctrl: bool, alt: bool, shift: bool)
    requires
        !(ctrl && (lowercase_text(name) == "7"@ || lowercase_text(name) == "_"@ || lowercase_text(name) == "/"@)),
        lowercase_text(name) != "backtab"@,
    ensures
        held_prefix(ctrl, alt).len() <= canonical_spec(name, ch, ctrl, alt, shift).len(),
        canonical_spec(name, ch, ctrl, alt, shift).subrange(0, held_prefix(ctrl, alt).len() as int) == held_prefix(ctrl, alt),
{
    reveal_strlit("ctrl+");
    reveal_strlit("alt+");
    reveal_strlit("ctrl");
    reveal_strlit("alt");
    reveal_strlit("backtab");
    let key = lowercase_text(name);
    let mods = (if ctrl { seq!["ctrl"@] } else { seq![] }) + (if alt { seq!["alt"@] } else { seq![] });
    let shifted = shift || (ch matches Some(c) && (ascii_uppercase(c) || shifted_symbol(c)));
    let letter_or_named = ch matches Some(c) ==> ascii_alphabetic(c);
    let key2 = if shifted && key != "tab"@ && !letter_or_named { seq![ch->0] } else { key };
    let tail = if shifted && key != "tab"@ && letter_or_named { seq!["shift"@, key2] } else { seq![key2] };
    let r = canonical_spec(name, ch, ctrl, alt, shift);
    assert(key2 != "backtab"@);
    assert(r == join_plus(mods + tail)) by {
        if shifted && key != "tab"@ && letter_or_named {
            assert(mods.push("shift"@).push(key2) =~= mods + tail);
        } else {
            assert(mods.push(key2) =~= mods + tail);
        }
    }
    let p = held_prefix(ctrl, alt);
    if ctrl && alt {
        assert(mods + tail =~= seq!["ctrl"@] + (seq!["alt"@] + tail));
        lemma_join_front("alt"@, tail);
        lemma_join_front("ctrl"@, seq!["alt"@] + tail);
        assert(r =~= p + join_plus(tail));
    } else if ctrl {
        assert(mods + tail =~= seq!["ctrl"@] + tail);
        lemma_join_front("ctrl"@, tail);
        assert(r =~= p + join_plus(tail));
    } else if alt {
        assert(mods + tail =~= seq!["alt"@] + tail);
        lemma_join_front("alt"@, tail);
        assert(r =~= p + join_plus(tail));
    } else {
        assert(r =~= p + r);
    }
    assert(r.subrange(0, p.len() as int) =~= p);
}
} // verus!
