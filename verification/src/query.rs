//! The search grammar and how a line is matched against it.
//!
//! * words, separated by spaces — each must match, in any order
//! * `"exact phrase"` — must appear verbatim (an unclosed quote runs to the end)
//! * `/regex/` — a regular expression, compiled by the `regex` crate
//! * smart case: any capital letter makes the whole query case-sensitive
//!
//! A query is read as its characters. The grammar is stated once, as
//! [`tokens_from`], and [`Query::parse`] is proved to follow it.
use vstd::prelude::*;
use crate::search::{
    find_spec, find_str, tight_spec, tight_subsequence, in_order, span_of, positions_view, merged, merge, embeds,
    lemma_tight_shape, occurs_at, lemma_occurrence_found, lemma_occurrence_missing,
};
use crate::text::{
    to_chars, push_char, push_str, is_whitespace, is_uppercase, fold, string_of, unicode_whitespace,
    unicode_uppercase, fold_char, utf8_width,
};

verus! {

// ── The regex crate ─────────────────────────────────────────────────────────

#[verifier::external_type_specification]
#[verifier::external_body]
pub struct ExRegex(regex::Regex);

/// Largest compiled program a `/regex/` term may build, in bytes.
pub const REGEX_SIZE_LIMIT: usize = 1048576;

/// What `RegexBuilder::build` says of `pattern` with the given case handling
/// and size limit: `None` when it compiles, else the text of its error.
pub uninterp spec fn regex_refusal(pattern: Seq<char>, case_insensitive: bool, size_limit: usize) -> Option<Seq<char>>;

/// What `Regex::find` reports for `pattern` compiled with the given case
/// handling, on `haystack`: the byte range of the leftmost-first match.
pub uninterp spec fn regex_first(pattern: Seq<char>, case_insensitive: bool, haystack: Seq<char>) -> Option<(int, int)>;

/// A `/regex/` term: the pattern as written and its compiled form. Made only
/// by [`compile`], so the compiled regex is always the pattern's.
pub struct RegexTerm {
    pattern: String,
    case_insensitive: bool,
    compiled: regex::Regex,
}

impl RegexTerm {
    pub closed spec fn pattern_view(&self) -> Seq<char> {
        self.pattern@
    }

    pub closed spec fn folds_case(&self) -> bool {
        self.case_insensitive
    }
}

/// `RegexBuilder::new(pattern).case_insensitive(..).size_limit(..).build()`:
/// the term when the crate compiles the pattern, else the crate's error as
/// text. Both are named, not restated: the crate's syntax takes pages.
#[verifier::external_body]
fn compile(pattern: &str, case_insensitive: bool, size_limit: usize) -> (r: Result<RegexTerm, String>)
    ensures
        match regex_refusal(pattern@, case_insensitive, size_limit) {
            None => r matches Ok(t) && t.pattern_view() == pattern@ && t.folds_case() == case_insensitive,
            Some(message) => r matches Err(e) && e@ == message,
        },
{
    match regex::RegexBuilder::new(pattern).case_insensitive(case_insensitive).size_limit(size_limit).build() {
        Ok(compiled) => Ok(RegexTerm { pattern: pattern.to_string(), case_insensitive, compiled }),
        Err(e) => Err(e.to_string()),
    }
}

/// The bytes a string's characters take in UTF-8.
pub open spec fn byte_len(s: Seq<char>) -> int
    decreases s.len(),
{
    if s.len() == 0 {
        0
    } else {
        byte_len(s.drop_last()) + utf8_width(s.last())
    }
}

/// `b` is a byte offset at which a character of `s` starts, or its end.
pub open spec fn char_boundary(s: Seq<char>, b: int) -> bool {
    exists|k: int| 0 <= k <= s.len() && byte_len(s.take(k)) == b
}

/// The character index of the boundary at byte `b`.
pub open spec fn char_at_byte(s: Seq<char>, b: int) -> int {
    choose|k: int| 0 <= k <= s.len() && byte_len(s.take(k)) == b
}

/// `Regex::find` on `haystack`, as the byte range of the match. The crate
/// promises that a match's start is at most its end and that both fall on
/// character boundaries of the haystack.
#[verifier::external_body]
fn regex_find(term: &RegexTerm, haystack: &str) -> (r: Option<(usize, usize)>)
    ensures
        r is None <==> regex_first(term.pattern_view(), term.folds_case(), haystack@) is None,
        r matches Some((s, e)) ==> {
            &&& regex_first(term.pattern_view(), term.folds_case(), haystack@) == Some((s as int, e as int))
            &&& s <= e
            &&& char_boundary(haystack@, s as int)
            &&& char_boundary(haystack@, e as int)
        },
{
    match term.compiled.find(haystack) {
        Some(m) => Some((m.start(), m.end())),
        None => None,
    }
}

proof fn lemma_byte_len_grows(s: Seq<char>, i: int, j: int)
    requires
        0 <= i < j <= s.len(),
    ensures
        byte_len(s.take(i)) < byte_len(s.take(j)),
    decreases j - i,
{
    assert(s.take(j).drop_last() =~= s.take(j - 1));
    if i < j - 1 {
        lemma_byte_len_grows(s, i, j - 1);
    }
}

proof fn lemma_char_at_byte(s: Seq<char>, k: int)
    requires
        0 <= k <= s.len(),
    ensures
        char_at_byte(s, byte_len(s.take(k))) == k,
{
    let b = byte_len(s.take(k));
    assert(char_boundary(s, b));
    let c = char_at_byte(s, b);
    if c < k {
        lemma_byte_len_grows(s, c, k);
    } else if k < c {
        lemma_byte_len_grows(s, k, c);
    }
}

/// A character's UTF-8 length.
fn utf8_len(c: char) -> (n: usize)
    ensures
        n == utf8_width(c),
{
    let v = c as u32;
    if v < 0x80 {
        1
    } else if v < 0x800 {
        2
    } else if v < 0x10000 {
        3
    } else {
        4
    }
}

/// The index of the character that starts at byte `b`.
fn char_index(chars: &[char], b: usize) -> (k: usize)
    requires
        char_boundary(chars@, b as int),
    ensures
        k == char_at_byte(chars@, b as int),
        k <= chars@.len(),
{
    let ghost k0 = char_at_byte(chars@, b as int);
    let mut k: usize = 0;
    let mut acc: usize = 0;
    assert(chars@.take(0) =~= Seq::<char>::empty());
    while acc < b
        invariant
            0 <= k0 <= chars@.len(),
            byte_len(chars@.take(k0)) == b,
            k <= chars@.len(),
            acc == byte_len(chars@.take(k as int)),
            acc <= b,
        decreases b - acc,
    {
        proof {
            if k >= k0 {
                if k > k0 {
                    lemma_byte_len_grows(chars@, k0, k as int);
                }
                assert(false);
            }
            assert(chars@.take(k + 1).drop_last() =~= chars@.take(k as int));
            if k + 1 < k0 {
                lemma_byte_len_grows(chars@, k + 1, k0);
            }
        }
        acc = acc + utf8_len(chars[k]);
        k = k + 1;
    }
    proof { lemma_char_at_byte(chars@, k as int); }
    k
}

// ── The grammar ─────────────────────────────────────────────────────────────

/// A piece of a query, as typed.
pub enum Token {
    Word(Seq<char>),
    Phrase(Seq<char>),
    Pattern(Seq<char>),
}

/// The first position at or after `p` that is not white space.
pub open spec fn skip_spaces(t: Seq<char>, p: int) -> int
    decreases t.len() - p,
{
    if 0 <= p < t.len() && unicode_whitespace(t[p]) {
        skip_spaces(t, p + 1)
    } else {
        p
    }
}

/// The first position at or after `p` that is white space, or the end.
pub open spec fn word_end(t: Seq<char>, p: int) -> int
    decreases t.len() - p,
{
    if 0 <= p < t.len() && !unicode_whitespace(t[p]) {
        word_end(t, p + 1)
    } else {
        p
    }
}

/// The first `"` at or after `p`.
pub open spec fn quote_close(t: Seq<char>, p: int) -> Option<int>
    decreases t.len() - p,
{
    if p < 0 || p >= t.len() {
        None
    } else if t[p] == '"' {
        Some(p)
    } else {
        quote_close(t, p + 1)
    }
}

/// The `/` that closes a pattern opened at `open`, searching from `i`: the
/// first unescaped `/` that is not the very next character and is followed by
/// white space or the end.
pub open spec fn slash_close(t: Seq<char>, open: int, i: int, escaped: bool) -> Option<int>
    decreases t.len() - i,
{
    if i < 0 || i >= t.len() {
        None
    } else if t[i] == '\\' && !escaped {
        slash_close(t, open, i + 1, true)
    } else if t[i] == '/' && !escaped {
        if i > open + 1 && (i + 1 >= t.len() || unicode_whitespace(t[i + 1])) {
            Some(i)
        } else {
            slash_close(t, open, i + 1, false)
        }
    } else {
        slash_close(t, open, i + 1, false)
    }
}

/// Where a `/regex/` term that opens at `q` closes. A pattern may hold
/// spaces — `/fn \w+ test/` — and a lone `/` or `//` is a word.
pub open spec fn regex_close(t: Seq<char>, q: int) -> Option<int> {
    if 0 <= q < t.len() && t[q] == '/' {
        slash_close(t, q, q + 1, false)
    } else {
        None
    }
}

/// A phrase, when it has anything in it.
pub open spec fn phrase_token(s: Seq<char>) -> Seq<Token> {
    if s.len() > 0 {
        seq![Token::Phrase(s)]
    } else {
        seq![]
    }
}

pub proof fn lemma_skip_spaces(t: Seq<char>, p: int)
    requires
        0 <= p,
    ensures
        p <= skip_spaces(t, p),
        skip_spaces(t, p) < t.len() ==> !unicode_whitespace(t[skip_spaces(t, p)]),
        p <= t.len() ==> skip_spaces(t, p) <= t.len(),
    decreases t.len() - p,
{
    if 0 <= p < t.len() && unicode_whitespace(t[p]) {
        lemma_skip_spaces(t, p + 1);
    }
}

pub proof fn lemma_word_end(t: Seq<char>, p: int)
    requires
        0 <= p <= t.len(),
    ensures
        p <= word_end(t, p) <= t.len(),
        word_end(t, p) < t.len() ==> unicode_whitespace(t[word_end(t, p)]),
        forall|i: int| p <= i < word_end(t, p) ==> !unicode_whitespace(#[trigger] t[i]),
    decreases t.len() - p,
{
    if 0 <= p < t.len() && !unicode_whitespace(t[p]) {
        lemma_word_end(t, p + 1);
    }
}

pub proof fn lemma_quote_close(t: Seq<char>, p: int)
    ensures
        quote_close(t, p) matches Some(c) ==> p <= c < t.len() && t[c] == '"',
    decreases t.len() - p,
{
    if 0 <= p < t.len() && t[p] != '"' {
        lemma_quote_close(t, p + 1);
    }
}

pub proof fn lemma_slash_close(t: Seq<char>, open: int, i: int, escaped: bool)
    ensures
        slash_close(t, open, i, escaped) matches Some(c) ==> i <= c < t.len(),
    decreases t.len() - i,
{
    if 0 <= i < t.len() {
        lemma_slash_close(t, open, i + 1, true);
        lemma_slash_close(t, open, i + 1, false);
    }
}

/// The tokens of `t` from position `p` on.
pub open spec fn tokens_from(t: Seq<char>, p: int) -> Seq<Token>
    decreases t.len() - p,
{
    if p < 0 || p > t.len() {
        seq![]
    } else {
        let q = skip_spaces(t, p);
        if q >= t.len() {
            seq![]
        } else if t[q] == '"' {
            match quote_close(t, q + 1) {
                Some(c) => {
                    proof {
                        lemma_skip_spaces(t, p);
                        lemma_quote_close(t, q + 1);
                    }
                    phrase_token(t.subrange(q + 1, c)) + tokens_from(t, c + 1)
                },
                None => phrase_token(t.subrange(q + 1, t.len() as int)),
            }
        } else {
            match regex_close(t, q) {
                Some(c) => {
                    proof {
                        lemma_skip_spaces(t, p);
                        lemma_slash_close(t, q, q + 1, false);
                    }
                    seq![Token::Pattern(t.subrange(q + 1, c))] + tokens_from(t, c + 1)
                },
                None => {
                    proof {
                        lemma_skip_spaces(t, p);
                        lemma_word_end(t, q);
                    }
                    let e = word_end(t, q);
                    seq![Token::Word(t.subrange(q, e))] + tokens_from(t, e)
                },
            }
        }
    }
}

// ── Reading the grammar ─────────────────────────────────────────────────────

/// Every token takes at least one character.
pub proof fn lemma_token_count(t: Seq<char>, p: int)
    requires
        0 <= p <= t.len(),
    ensures
        tokens_from(t, p).len() <= t.len() - p,
    decreases t.len() - p,
{
    let q = skip_spaces(t, p);
    lemma_skip_spaces(t, p);
    if q < t.len() {
        if t[q] == '"' {
            lemma_quote_close(t, q + 1);
            if let Some(c) = quote_close(t, q + 1) {
                lemma_token_count(t, c + 1);
            }
        } else if let Some(c) = regex_close(t, q) {
            lemma_slash_close(t, q, q + 1, false);
            lemma_token_count(t, c + 1);
        } else {
            lemma_word_end(t, q);
            lemma_token_count(t, word_end(t, q));
        }
    }
}

/// A parsed query has no more terms than its text has characters.
pub proof fn lemma_parsed_terms(text: Seq<char>)
    ensures
        parse_spec(text) matches Ok(Some(v)) ==> v.terms.len() <= text.len(),
{
    lemma_token_count(text, 0);
}

fn skip_spaces_at(t: &[char], p: usize) -> (q: usize)
    requires
        p <= t@.len(),
    ensures
        q == skip_spaces(t@, p as int),
        p <= q <= t@.len(),
        q < t@.len() ==> !unicode_whitespace(t@[q as int]),
{
    proof { lemma_skip_spaces(t@, p as int); }
    let mut q = p;
    while q < t.len() && is_whitespace(t[q])
        invariant
            p <= q <= t@.len(),
            skip_spaces(t@, q as int) == skip_spaces(t@, p as int),
        decreases t.len() - q,
    {
        q += 1;
    }
    q
}

fn word_end_at(t: &[char], p: usize) -> (e: usize)
    requires
        p <= t@.len(),
    ensures
        e == word_end(t@, p as int),
        p <= e <= t@.len(),
{
    let mut e = p;
    while e < t.len() && !is_whitespace(t[e])
        invariant
            p <= e <= t@.len(),
            word_end(t@, e as int) == word_end(t@, p as int),
        decreases t.len() - e,
    {
        e += 1;
    }
    e
}

fn quote_close_at(t: &[char], p: usize) -> (r: Option<usize>)
    requires
        p <= t@.len(),
    ensures
        match quote_close(t@, p as int) {
            Some(c) => r == Some(c as usize) && p <= c < t@.len(),
            None => r is None,
        },
{
    proof { lemma_quote_close(t@, p as int); }
    let mut i = p;
    while i < t.len()
        invariant
            p <= i <= t@.len(),
            quote_close(t@, i as int) == quote_close(t@, p as int),
        decreases t.len() - i,
    {
        if t[i] == '"' {
            return Some(i);
        }
        i += 1;
    }
    None
}

/// Where a `/regex/` term that opens at `q` closes: the first unescaped `/`
/// followed by a space or the end. A lone `/` or `//` is a word, not an empty
/// pattern.
fn regex_end(t: &[char], q: usize) -> (r: Option<usize>)
    requires
        q <= t@.len(),
    ensures
        match regex_close(t@, q as int) {
            Some(c) => r == Some(c as usize) && q < c < t@.len(),
            None => r is None,
        },
{
    if q >= t.len() || t[q] != '/' {
        return None;
    }
    proof { lemma_slash_close(t@, q as int, q + 1, false); }
    let mut escaped = false;
    let mut i = q + 1;
    while i < t.len()
        invariant
            q < i <= t@.len(),
            slash_close(t@, q as int, i as int, escaped) == regex_close(t@, q as int),
        decreases t.len() - i,
    {
        let c = t[i];
        if c == '\\' && !escaped {
            escaped = true;
        } else if c == '/' && !escaped {
            if i > q + 1 && (i + 1 >= t.len() || is_whitespace(t[i + 1])) {
                return Some(i);
            }
        } else {
            escaped = false;
        }
        i += 1;
    }
    None
}

// ── Queries ─────────────────────────────────────────────────────────────────

/// A term as the grammar reads it, with its text already prepared for the
/// query's case handling.
pub enum TermView {
    Word(Seq<char>),
    Phrase(Seq<char>),
    Regex(Seq<char>, bool),
}

/// What a query is: its terms, whether it minds case, and the whole query as
/// typed when it is two or more plain words.
pub struct QueryView {
    pub terms: Seq<TermView>,
    pub case_sensitive: bool,
    pub whole: Option<Seq<char>>,
}

enum Term {
    /// Substring first, tight subsequence second. Stored case-folded when the
    /// query is case-insensitive.
    Word(Vec<char>),
    /// Verbatim, as a substring only.
    Phrase(Vec<char>),
    Regex(RegexTerm),
}

impl View for Term {
    type V = TermView;

    closed spec fn view(&self) -> TermView {
        match self {
            Term::Word(w) => TermView::Word(w@),
            Term::Phrase(p) => TermView::Phrase(p@),
            Term::Regex(r) => TermView::Regex(r.pattern_view(), r.folds_case()),
        }
    }
}

/// A parsed query: the terms every matching line must contain.
pub struct Query {
    terms: Vec<Term>,
    case_sensitive: bool,
    /// The plain words joined by single spaces, for the bonus a line earns by
    /// containing the whole query as typed. `None` for a single term.
    whole: Option<Vec<char>>,
}

impl View for Query {
    type V = QueryView;

    closed spec fn view(&self) -> QueryView {
        QueryView {
            terms: self.terms@.map_values(|t: Term| t@),
            case_sensitive: self.case_sensitive,
            whole: match self.whole {
                Some(w) => Some(w@),
                None => None,
            },
        }
    }
}

/// A capital letter anywhere makes a query case-sensitive.
pub open spec fn has_capital(t: Seq<char>) -> bool {
    exists|i: int| 0 <= i < t.len() && unicode_uppercase(t[i])
}

/// Text as a query of the given case handling keeps it: folded when case is
/// ignored.
pub open spec fn prepare(s: Seq<char>, case_sensitive: bool) -> Seq<char> {
    if case_sensitive {
        s
    } else {
        s.map_values(|c: char| fold_char(c))
    }
}

pub open spec fn term_of(token: Token, case_sensitive: bool) -> TermView {
    match token {
        Token::Word(w) => TermView::Word(prepare(w, case_sensitive)),
        Token::Phrase(p) => TermView::Phrase(prepare(p, case_sensitive)),
        Token::Pattern(p) => TermView::Regex(p, !case_sensitive),
    }
}

/// The error of the first pattern the regex crate refuses, in query order.
pub open spec fn refusal_in(tokens: Seq<Token>, case_sensitive: bool) -> Option<Seq<char>>
    decreases tokens.len(),
{
    if tokens.len() == 0 {
        None
    } else {
        match tokens[0] {
            Token::Pattern(p) => match regex_refusal(p, !case_sensitive, REGEX_SIZE_LIMIT) {
                Some(m) => Some(m),
                None => refusal_in(tokens.drop_first(), case_sensitive),
            },
            _ => refusal_in(tokens.drop_first(), case_sensitive),
        }
    }
}

pub open spec fn all_words(tokens: Seq<Token>) -> bool {
    forall|i: int| 0 <= i < tokens.len() ==> tokens[i] is Word
}

pub open spec fn token_text(token: Token) -> Seq<char> {
    match token {
        Token::Word(s) => s,
        Token::Phrase(s) => s,
        Token::Pattern(s) => s,
    }
}

/// The tokens' texts joined by single spaces.
pub open spec fn joined(tokens: Seq<Token>) -> Seq<char>
    decreases tokens.len(),
{
    if tokens.len() == 0 {
        seq![]
    } else if tokens.len() == 1 {
        token_text(tokens[0])
    } else {
        joined(tokens.drop_last()) + seq![' '] + token_text(tokens.last())
    }
}

/// The whole query as typed, when it is two or more plain words.
pub open spec fn whole_of(tokens: Seq<Token>, case_sensitive: bool) -> Option<Seq<char>> {
    if tokens.len() > 1 && all_words(tokens) {
        Some(prepare(joined(tokens), case_sensitive))
    } else {
        None
    }
}

/// What a query text parses to: an error for a pattern the regex crate
/// refuses, nothing for a query with no terms, else the query.
pub open spec fn parse_spec(text: Seq<char>) -> Result<Option<QueryView>, Seq<char>> {
    let cs = has_capital(text);
    let tokens = tokens_from(text, 0);
    match refusal_in(tokens, cs) {
        Some(m) => Err("not a valid regex: "@ + m),
        None => if tokens.len() == 0 {
            Ok(None)
        } else {
            Ok(Some(QueryView {
                terms: tokens.map_values(|k: Token| term_of(k, cs)),
                case_sensitive: cs,
                whole: whole_of(tokens, cs),
            }))
        },
    }
}

proof fn lemma_push_term(before: Seq<Term>, x: Term, done: Seq<Token>, tok: Token, cs: bool)
    requires
        before.map_values(|k: Term| k@) == done.map_values(|k: Token| term_of(k, cs)),
        x@ == term_of(tok, cs),
    ensures
        before.push(x).map_values(|k: Term| k@) == done.push(tok).map_values(|k: Token| term_of(k, cs)),
{
    assert(before.map_values(|k: Term| k@).len() == before.len());
    assert(done.map_values(|k: Token| term_of(k, cs)).len() == done.len());
    assert forall|i: int| 0 <= i < before.len() implies (#[trigger] before[i])@ == term_of(done[i], cs) by {
        assert(before.map_values(|k: Term| k@)[i] == before[i]@);
        assert(done.map_values(|k: Token| term_of(k, cs))[i] == term_of(done[i], cs));
    }
    assert(before.push(x).map_values(|k: Term| k@) =~= done.push(tok).map_values(|k: Token| term_of(k, cs)));
}

fn has_capital_exec(t: &[char]) -> (r: bool)
    ensures
        r == has_capital(t@),
{
    let mut i: usize = 0;
    while i < t.len()
        invariant
            i <= t@.len(),
            forall|k: int| 0 <= k < i ==> !unicode_uppercase(t@[k]),
        decreases t.len() - i,
    {
        if is_uppercase(t[i]) {
            return true;
        }
        i += 1;
    }
    false
}

fn slice_of(t: &[char], from: usize, to: usize) -> (r: Vec<char>)
    requires
        from <= to <= t@.len(),
    ensures
        r@ == t@.subrange(from as int, to as int),
{
    let mut r: Vec<char> = Vec::new();
    let mut i = from;
    while i < to
        invariant
            from <= i <= to <= t@.len(),
            r@ == t@.subrange(from as int, i as int),
        decreases to - i,
    {
        r.push(t[i]);
        assert(t@.subrange(from as int, i + 1) =~= t@.subrange(from as int, i as int).push(t@[i as int]));
        i += 1;
    }
    r
}

fn append(v: &mut Vec<char>, s: &[char])
    ensures
        final(v)@ == old(v)@ + s@,
{
    let mut i: usize = 0;
    while i < s.len()
        invariant
            i <= s@.len(),
            v@ == old(v)@ + s@.subrange(0, i as int),
        decreases s.len() - i,
    {
        v.push(s[i]);
        assert(s@.subrange(0, i + 1) =~= s@.subrange(0, i as int).push(s@[i as int]));
        i += 1;
    }
    assert(s@.subrange(0, i as int) =~= s@);
}

fn prepare_exec(s: &[char], case_sensitive: bool) -> (r: Vec<char>)
    ensures
        r@ == prepare(s@, case_sensitive),
{
    let mut r: Vec<char> = Vec::new();
    let mut i: usize = 0;
    while i < s.len()
        invariant
            i <= s@.len(),
            r@.len() == i,
            forall|k: int| 0 <= k < i ==> r@[k] == if case_sensitive { s@[k] } else { fold_char(s@[k]) },
        decreases s.len() - i,
    {
        if case_sensitive {
            r.push(s[i]);
        } else {
            r.push(fold(s[i]));
        }
        i += 1;
    }
    assert(r@ =~= prepare(s@, case_sensitive));
    r
}

impl Query {
    /// Parse the search grammar. `Ok(None)` for a query with no terms; an
    /// error when the regex crate refuses a `/pattern/`.
    pub fn parse(text: &str) -> (r: Result<Option<Query>, String>)
        ensures
            match parse_spec(text@) {
                Ok(None) => r matches Ok(None),
                Ok(Some(v)) => r matches Ok(Some(q)) && q@ == v,
                Err(m) => r matches Err(e) && e@ == m,
            },
    {
        let t = to_chars(text);
        let cs = has_capital_exec(&t);
        let ghost all = tokens_from(t@, 0);
        let ghost mut done: Seq<Token> = seq![];
        let mut terms: Vec<Term> = Vec::new();
        let mut every_word = true;
        let mut raw: Vec<char> = Vec::new();
        let mut p: usize = 0;
        assert(all == done + tokens_from(t@, 0));
        while p < t.len()
            invariant
                t@ == text@,
                cs == has_capital(t@),
                all == tokens_from(t@, 0),
                p <= t@.len(),
                all == done + tokens_from(t@, p as int),
                refusal_in(all, cs) == refusal_in(tokens_from(t@, p as int), cs),
                terms@.map_values(|k: Term| k@) == done.map_values(|k: Token| term_of(k, cs)),
                every_word == all_words(done),
                every_word ==> raw@ == joined(done),
            decreases t.len() - p,
        {
            let q = skip_spaces_at(&t, p);
            let ghost rest = tokens_from(t@, p as int);
            if q >= t.len() {
                assert(rest == Seq::<Token>::empty());
                p = t.len();
                assert(tokens_from(t@, p as int) == Seq::<Token>::empty());
            } else if t[q] == '"' {
                match quote_close_at(&t, q + 1) {
                    Some(c) => {
                        let phrase = slice_of(&t, q + 1, c);
                        p = c + 1;
                        assert(rest == phrase_token(phrase@) + tokens_from(t@, p as int));
                        if phrase.len() > 0 {
                            let ghost tok = Token::Phrase(phrase@);
                            let prepared = prepare_exec(&phrase, cs);
                            let ghost before = terms@;
                            terms.push(Term::Phrase(prepared));
                            proof {
                                assert(terms@ == before.push(terms@.last()));
                                lemma_push_term(before, terms@.last(), done, tok, cs);
                                assert(!(done.push(tok)[done.len() as int] is Word));
                                assert((seq![tok] + tokens_from(t@, p as int)).drop_first() =~= tokens_from(t@, p as int));
                                assert(done.push(tok) + tokens_from(t@, p as int) =~= done + rest);
                                assert(terms@.map_values(|k: Term| k@) =~= done.push(tok).map_values(|k: Token| term_of(k, cs)));
                                done = done.push(tok);
                            }
                            every_word = false;
                        } else {
                            assert(rest =~= tokens_from(t@, p as int));
                        }
                    },
                    None => {
                        let phrase = slice_of(&t, q + 1, t.len());
                        assert(rest == phrase_token(phrase@));
                        p = t.len();
                        assert(tokens_from(t@, p as int) == Seq::<Token>::empty());
                        if phrase.len() > 0 {
                            let ghost tok = Token::Phrase(phrase@);
                            let prepared = prepare_exec(&phrase, cs);
                            let ghost before = terms@;
                            terms.push(Term::Phrase(prepared));
                            proof {
                                assert(terms@ == before.push(terms@.last()));
                                lemma_push_term(before, terms@.last(), done, tok, cs);
                                assert(!(done.push(tok)[done.len() as int] is Word));
                                assert((seq![tok]).drop_first() =~= Seq::<Token>::empty());
                                assert(done.push(tok) + Seq::<Token>::empty() =~= done + rest);
                                assert(terms@.map_values(|k: Term| k@) =~= done.push(tok).map_values(|k: Token| term_of(k, cs)));
                                done = done.push(tok);
                            }
                            every_word = false;
                        } else {
                            assert(rest =~= Seq::<Token>::empty());
                        }
                    },
                }
            } else {
                match regex_end(&t, q) {
                    Some(c) => {
                        let pattern = string_of(&t, q + 1, c);
                        let ghost tok = Token::Pattern(pattern@);
                        p = c + 1;
                        assert(rest == seq![tok] + tokens_from(t@, p as int));
                        assert((seq![tok] + tokens_from(t@, p as int)).drop_first() =~= tokens_from(t@, p as int));
                        match compile(pattern.as_str(), !cs, REGEX_SIZE_LIMIT) {
                            Ok(term) => {
                                let ghost before = terms@;
                                terms.push(Term::Regex(term));
                                proof {
                                    assert(terms@ == before.push(terms@.last()));
                                    lemma_push_term(before, terms@.last(), done, tok, cs);
                                    assert(!(done.push(tok)[done.len() as int] is Word));
                                    assert(done.push(tok) + tokens_from(t@, p as int) =~= done + rest);
                                    assert(terms@.map_values(|k: Term| k@) =~= done.push(tok).map_values(|k: Token| term_of(k, cs)));
                                    done = done.push(tok);
                                }
                                every_word = false;
                            },
                            Err(e) => {
                                let mut message = String::from_str("not a valid regex: ");
                                push_str(&mut message, e.as_str());
                                proof {
                                    reveal_strlit("not a valid regex: ");
                                }
                                return Err(message);
                            },
                        }
                    },
                    None => {
                        let e = word_end_at(&t, q);
                        proof { lemma_word_end(t@, q as int); }
                        let word = slice_of(&t, q, e);
                        let ghost tok = Token::Word(word@);
                        p = e;
                        assert(rest == seq![tok] + tokens_from(t@, p as int));
                        proof {
                            assert(terms@.map_values(|k: Term| k@).len() == terms@.len());
                            assert(done.map_values(|k: Token| term_of(k, cs)).len() == done.len());
                        }
                        if every_word {
                            if terms.len() > 0 {
                                raw.push(' ');
                            }
                            append(&mut raw, &word);
                        }
                        let ghost before = terms@;
                        let prepared = prepare_exec(&word, cs);
                        terms.push(Term::Word(prepared));
                        proof {
                            assert(terms@ == before.push(terms@.last()));
                            lemma_push_term(before, terms@.last(), done, tok, cs);
                            if every_word {
                                assert forall|i: int| 0 <= i < done.push(tok).len() implies (#[trigger] done.push(tok)[i]) is Word by {
                                    if i < done.len() {
                                        assert(done.push(tok)[i] == done[i]);
                                    }
                                }
                            } else {
                                let i = choose|i: int| 0 <= i < done.len() && !(done[i] is Word);
                                assert(done.push(tok)[i] == done[i]);
                            }
                            assert((seq![tok] + tokens_from(t@, p as int)).drop_first() =~= tokens_from(t@, p as int));
                            assert(done.push(tok) + tokens_from(t@, p as int) =~= done + rest);
                            assert(terms@.map_values(|k: Term| k@) =~= done.push(tok).map_values(|k: Token| term_of(k, cs)));
                            if every_word {
                                assert(done.push(tok).drop_last() =~= done);
                                assert(done.push(tok).last() == tok);
                                if done.len() == 0 {
                                    assert(raw@ =~= word@);
                                }
                                assert(raw@ == joined(done.push(tok)));
                            }
                            done = done.push(tok);
                        }
                    },
                }
            }
        }
        proof {
            assert(tokens_from(t@, p as int) == Seq::<Token>::empty());
            assert(all =~= done);
        }
        if terms.len() == 0 {
            return Ok(None);
        }
        let whole = if terms.len() > 1 && every_word {
            Some(prepare_exec(&raw, cs))
        } else {
            None
        };
        Ok(Some(Query { terms, case_sensitive: cs, whole }))
    }
}

// ── Matching ────────────────────────────────────────────────────────────────

/// A line case-folded character by character — the same count of characters
/// as the original, so a character index means the same place in both.
pub fn fold_line(line: &str) -> (r: String)
    ensures
        r@ == prepare(line@, false),
{
    let chars = to_chars(line);
    let mut out = String::new();
    let mut i: usize = 0;
    while i < chars.len()
        invariant
            chars@ == line@,
            i <= chars@.len(),
            out@ == prepare(line@, false).take(i as int),
        decreases chars.len() - i,
    {
        push_char(&mut out, fold(chars[i]));
        assert(prepare(line@, false).take(i + 1) =~= prepare(line@, false).take(i as int).push(fold_char(chars@[i as int])));
        i += 1;
    }
    assert(prepare(line@, false).take(i as int) =~= prepare(line@, false));
    out
}

/// A matched line: its score, whether every term hit as a substring (or
/// phrase, or regex), and the character ranges `[start, end)` that hit,
/// sorted and merged.
#[derive(Debug, Clone, PartialEq, Eq)]
pub struct LineMatch {
    pub score: i32,
    pub exact: bool,
    pub ranges: Vec<(usize, usize)>,
}

/// What a matched line is, in the terms of the contracts.
pub struct LineMatchView {
    pub score: int,
    pub exact: bool,
    pub ranges: Seq<(usize, usize)>,
}

/// Forty for a subsequence with no gaps, five less per character of gap,
/// never under ten.
pub open spec fn fuzzy_score(gaps: int) -> int {
    if 40 - 5 * gaps > 10 {
        40 - 5 * gaps
    } else {
        10
    }
}

/// Each position as a one-character range.
pub open spec fn unit_ranges(positions: Seq<int>) -> Seq<(usize, usize)> {
    positions.map_values(|p: int| (p as usize, (p + 1) as usize))
}

/// What one term makes of a line: the score it adds, whether it hit exactly,
/// and its ranges; `None` when it misses. Words and phrases are looked for in
/// `haystack` (the line, folded when case is ignored); a regex in the line.
pub open spec fn term_match(term: TermView, line: Seq<char>, haystack: Seq<char>) -> Option<(int, bool, Seq<(usize, usize)>)> {
    match term {
        TermView::Word(w) => match find_spec(haystack, w) {
            Some((at, end, bonus)) => Some((100 + bonus, true, seq![(at as usize, end as usize)])),
            None => match tight_spec(haystack, w) {
                Some(ps) => Some((fuzzy_score(span_of(ps) - w.len()), false, unit_ranges(ps))),
                None => None,
            },
        },
        TermView::Phrase(p) => match find_spec(haystack, p) {
            Some((at, end, bonus)) => Some((150 + bonus, true, seq![(at as usize, end as usize)])),
            None => None,
        },
        TermView::Regex(pattern, folds) => match regex_first(pattern, folds, line) {
            Some((s, e)) => {
                let a = char_at_byte(line, s);
                let n = char_at_byte(line, e) - a;
                Some((100, true, seq![(a as usize, (a + if n > 1 { n } else { 1 }) as usize)]))
            },
            None => None,
        },
    }
}

/// Every term in turn: the scores summed, exact when all were, the ranges in
/// term order; `None` as soon as one misses.
pub open spec fn terms_match(terms: Seq<TermView>, line: Seq<char>, haystack: Seq<char>) -> Option<(int, bool, Seq<(usize, usize)>)>
    decreases terms.len(),
{
    if terms.len() == 0 {
        Some((0, true, seq![]))
    } else {
        match terms_match(terms.drop_last(), line, haystack) {
            Some((score, exact, ranges)) => match term_match(terms.last(), line, haystack) {
                Some((more, hit_exact, hit)) => Some((score + more, exact && hit_exact, ranges + hit)),
                None => None,
            },
            None => None,
        }
    }
}

/// How a query matches a line whose folded copy is `folded`: every term must
/// hit; containing the whole query as typed adds two hundred.
pub open spec fn match_spec(q: QueryView, line: Seq<char>, folded: Seq<char>) -> Option<LineMatchView> {
    let haystack = if q.case_sensitive { line } else { folded };
    match terms_match(q.terms, line, haystack) {
        Some((score, exact, ranges)) => match q.whole {
            Some(w) => match find_spec(haystack, w) {
                Some((at, end, _)) => Some(LineMatchView { score: score + 200, exact, ranges: merged(ranges.push((at as usize, end as usize))) }),
                None => Some(LineMatchView { score, exact, ranges: merged(ranges) }),
            },
            None => Some(LineMatchView { score, exact, ranges: merged(ranges) }),
        },
        None => None,
    }
}

/// Most terms a query may have for its score to be sure to fit an `i32`.
pub const MAX_TERMS: usize = 9000000;

proof fn lemma_term_score(term: TermView, line: Seq<char>, haystack: Seq<char>)
    ensures
        term_match(term, line, haystack) matches Some((s, _, _)) ==> 0 <= s <= 230,
{
    if let TermView::Word(w) = term {
        lemma_tight_shape(haystack, w);
    }
}

proof fn lemma_terms_score(terms: Seq<TermView>, line: Seq<char>, haystack: Seq<char>)
    ensures
        terms_match(terms, line, haystack) matches Some((s, _, _)) ==> 0 <= s <= 230 * terms.len(),
    decreases terms.len(),
{
    if terms.len() > 0 {
        lemma_terms_score(terms.drop_last(), line, haystack);
        lemma_term_score(terms.last(), line, haystack);
    }
}

/// A prefix of the terms that misses makes the whole query miss.
proof fn lemma_prefix_misses(terms: Seq<TermView>, k: int, line: Seq<char>, haystack: Seq<char>)
    requires
        0 <= k <= terms.len(),
        terms_match(terms.take(k), line, haystack) is None,
    ensures
        terms_match(terms, line, haystack) is None,
    decreases terms.len() - k,
{
    if k < terms.len() {
        assert(terms.take(k + 1).drop_last() =~= terms.take(k));
        lemma_prefix_misses(terms, k + 1, line, haystack);
    } else {
        assert(terms.take(k) =~= terms);
    }
}

fn push_all(v: &mut Vec<(usize, usize)>, more: &Vec<(usize, usize)>)
    ensures
        final(v)@ == old(v)@ + more@,
{
    let mut i: usize = 0;
    while i < more.len()
        invariant
            i <= more@.len(),
            v@ == old(v)@ + more@.take(i as int),
        decreases more.len() - i,
    {
        v.push(more[i]);
        assert(more@.take(i + 1) =~= more@.take(i as int).push(more@[i as int]));
        i += 1;
    }
    assert(more@.take(i as int) =~= more@);
}

impl Query {
    /// One term against a line: its score, exactness and ranges, or `None`.
    fn match_term(term: &Term, line: &str, line_chars: &Vec<char>, haystack: &Vec<char>) -> (r: Option<(i32, bool, Vec<(usize, usize)>)>)
        requires
            line_chars@ == line@,
            line@.len() < usize::MAX,
        ensures
            match term_match(term@, line@, haystack@) {
                Some((s, x, rs)) => r matches Some((s2, x2, rs2)) && s2 == s && x2 == x && rs2@ == rs,
                None => r is None,
            },
    {
        match term {
            Term::Word(word) => {
                match find_str(haystack, word) {
                    Some((at, end, bonus)) => {
                        let mut hit = Vec::new();
                        hit.push((at, end));
                        assert(hit@ =~= seq![(at, end)]);
                        Some((100 + bonus, true, hit))
                    },
                    None => {
                        proof { lemma_tight_shape(haystack@, word@); }
                        if !in_order(haystack, word) {
                            return None;
                        }
                        match tight_subsequence(haystack, word) {
                            Some(positions) => {
                                let ghost ps = positions_view(positions@);
                                let hl = haystack.len();
                                let n = positions.len();
                                assert(embeds(haystack@, word@, ps));
                                assert(positions@[n - 1] as int == ps[n - 1]);
                                assert(positions@[0] as int == ps[0]);
                                assert(ps[0] < ps[n - 1] || n == 1);
                                let span = positions[n - 1] + 1 - positions[0];
                                let gaps = span - word.len();
                                let more: i32 = if gaps < 6 { 40 - 5 * (gaps as i32) } else { 10 };
                                let mut hit: Vec<(usize, usize)> = Vec::new();
                                let mut i: usize = 0;
                                while i < n
                                    invariant
                                        n == positions@.len(),
                                        hl == haystack@.len(),
                                        ps == positions_view(positions@),
                                        forall|m: int| 0 <= m < n ==> 0 <= #[trigger] ps[m] < haystack@.len(),
                                        i <= n,
                                        hit@ == unit_ranges(ps).take(i as int),
                                    decreases n - i,
                                {
                                    let p = positions[i];
                                    assert(ps[i as int] == p as int);
                                    hit.push((p, p + 1));
                                    assert(unit_ranges(ps).take(i + 1) =~= unit_ranges(ps).take(i as int).push((p, (p + 1) as usize)));
                                    i += 1;
                                }
                                assert(unit_ranges(ps).take(n as int) =~= unit_ranges(ps));
                                Some((more, false, hit))
                            },
                            None => None,
                        }
                    },
                }
            },
            Term::Phrase(phrase) => {
                match find_str(haystack, phrase) {
                    Some((at, end, bonus)) => {
                        let mut hit = Vec::new();
                        hit.push((at, end));
                        assert(hit@ =~= seq![(at, end)]);
                        Some((150 + bonus, true, hit))
                    },
                    None => None,
                }
            },
            Term::Regex(regex) => {
                match regex_find(regex, line) {
                    Some((s, e)) => {
                        let a = char_index(line_chars, s);
                        let b = char_index(line_chars, e);
                        proof {
                            if b < a {
                                lemma_byte_len_grows(line@, b as int, a as int);
                            }
                        }
                        let n = b - a;
                        let end = a + if n > 1 { n } else { 1 };
                        let mut hit = Vec::new();
                        hit.push((a, end));
                        assert(hit@ =~= seq![(a, end)]);
                        Some((100, true, hit))
                    },
                    None => None,
                }
            },
        }
    }

    /// Match one line whose case-folded copy is `folded` (ignored when the
    /// query minds case): the score and the character ranges that hit, or
    /// `None` when any term is missing.
    pub fn match_folded(&self, line: &str, folded: &str) -> (r: Option<LineMatch>)
        requires
            self@.terms.len() <= MAX_TERMS,
            line@.len() < usize::MAX,
        ensures
            match match_spec(self@, line@, folded@) {
                Some(m) => r matches Some(found) && found.score == m.score && found.exact == m.exact && found.ranges@ == m.ranges,
                None => r is None,
            },
    {
        let line_chars = to_chars(line);
        let haystack = if self.case_sensitive { to_chars(line) } else { to_chars(folded) };
        let ghost terms = self@.terms;
        let mut score: i32 = 0;
        let mut exact = true;
        let mut ranges: Vec<(usize, usize)> = Vec::new();
        let mut i: usize = 0;
        assert(terms.take(0) =~= Seq::<TermView>::empty());
        while i < self.terms.len()
            invariant
                line_chars@ == line@,
                line@.len() < usize::MAX,
                haystack@ == if self@.case_sensitive { line@ } else { folded@ },
                terms == self@.terms,
                terms == self.terms@.map_values(|t: Term| t@),
                terms.len() <= MAX_TERMS,
                i <= terms.len(),
                terms_match(terms.take(i as int), line@, haystack@) == Some((score as int, exact, ranges@)),
                0 <= score <= 230 * i,
            decreases self.terms.len() - i,
        {
            assert(terms[i as int] == self.terms@[i as int]@);
            assert(terms.take(i + 1).drop_last() =~= terms.take(i as int));
            assert(terms.take(i + 1).last() == terms[i as int]);
            proof { lemma_term_score(terms[i as int], line@, haystack@); }
            match Self::match_term(&self.terms[i], line, &line_chars, &haystack) {
                Some((more, hit_exact, hit)) => {
                    score = score + more;
                    exact = exact && hit_exact;
                    push_all(&mut ranges, &hit);
                },
                None => {
                    proof { lemma_prefix_misses(terms, i + 1, line@, haystack@); }
                    return None;
                },
            }
            i += 1;
        }
        assert(terms.take(i as int) =~= terms);
        match &self.whole {
            Some(whole) => {
                if let Some((at, end, _)) = find_str(&haystack, whole) {
                    score = score + 200;
                    ranges.push((at, end));
                }
            },
            None => {},
        }
        Some(LineMatch { score, exact, ranges: merge(ranges) })
    }

    /// Match one line: the score and the character ranges that hit, or
    /// `None` when any term is missing.
    pub fn match_line(&self, line: &str) -> (r: Option<LineMatch>)
        requires
            self@.terms.len() <= MAX_TERMS,
            line@.len() < usize::MAX,
        ensures
            match match_spec(self@, line@, prepare(line@, false)) {
                Some(m) => r matches Some(found) && found.score == m.score && found.exact == m.exact && found.ranges@ == m.ranges,
                None => r is None,
            },
    {
        if self.case_sensitive {
            self.match_folded(line, line)
        } else {
            let folded = fold_line(line);
            self.match_folded(line, folded.as_str())
        }
    }
}


/// A plain word term occurs verbatim in `haystack`; any other term counts
/// as found.
pub open spec fn word_found(term: TermView, haystack: Seq<char>) -> bool {
    match term {
        TermView::Word(w) => exists|at: int| occurs_at(haystack, w, at),
        _ => true,
    }
}

proof fn lemma_term_exact(term: TermView, line: Seq<char>, haystack: Seq<char>)
    ensures
        term_match(term, line, haystack) matches Some((_, x, _)) ==> x == word_found(term, haystack),
{
    if let TermView::Word(w) = term {
        if term_match(term, line, haystack) is Some {
            match crate::search::occurrence_from(haystack, w, 0) {
                Some(at) => {
                    lemma_occurrence_found(haystack, w, 0);
                    if w.len() > 0 {
                        assert(occurs_at(haystack, w, at));
                    }
                },
                None => {
                    assert(w.len() > 0);
                    assert forall|at: int| !occurs_at(haystack, w, at) by {
                        if at >= 0 {
                            lemma_occurrence_missing(haystack, w, 0, at);
                        }
                    }
                },
            }
        }
    }
}

proof fn lemma_terms_exact(terms: Seq<TermView>, line: Seq<char>, haystack: Seq<char>)
    ensures
        terms_match(terms, line, haystack) matches Some((_, x, _)) ==> (x <==> forall|i: int|
            0 <= i < terms.len() ==> word_found(#[trigger] terms[i], haystack)),
    decreases terms.len(),
{
    if terms.len() > 0 {
        lemma_terms_exact(terms.drop_last(), line, haystack);
        lemma_term_exact(terms.last(), line, haystack);
        if terms_match(terms, line, haystack) is Some {
            assert forall|i: int| 0 <= i < terms.len() - 1 implies terms.drop_last()[i] == #[trigger] terms[i] by {}
            if forall|i: int| 0 <= i < terms.len() ==> word_found(#[trigger] terms[i], haystack) {
                assert forall|i: int| 0 <= i < terms.drop_last().len() implies word_found(#[trigger] terms.drop_last()[i], haystack) by {
                    assert(word_found(terms[i], haystack));
                }
                assert(word_found(terms[terms.len() - 1], haystack));
            }
        }
    }
}

/// A match is exact exactly when every plain word of the query occurs
/// verbatim in the line (folded when case is ignored): a phrase or a regex
/// that hits never makes it fuzzy, and a word found only as a scattered
/// subsequence always does.
pub proof fn lemma_exact_when_every_word_is_found(q: QueryView, line: Seq<char>, folded: Seq<char>)
    ensures
        match_spec(q, line, folded) matches Some(m) ==> (m.exact <==> forall|i: int|
            0 <= i < q.terms.len() ==> word_found(#[trigger] q.terms[i], if q.case_sensitive { line } else { folded })),
{
    lemma_terms_exact(q.terms, line, if q.case_sensitive { line } else { folded });
}
} // verus!
