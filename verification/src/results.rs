//! Where a search's hits are: each terminal's history, the snippet a pane
//! shows for a matching line, and the offsets that bring the line back on
//! screen.
//!
//! A hit says where it is in terms the agent pane can act on: how many rows
//! from the bottom of the history the line sits (`back`) and the scrollback
//! offset that puts it on screen (`scroll`), so opening a result lands on it
//! rather than merely focusing the session.
use vstd::prelude::*;
use std::time::Duration;
use vstd::relations::{sorted_by, total_ordering};
use crate::text::{to_chars, push_char, unicode_whitespace, is_whitespace};
use crate::query::{Query, QueryView, LineMatch, LineMatchView, match_spec, parse_spec, MAX_TERMS, lemma_parsed_terms};
use crate::ranking::{top, insertion_point, bounded_insert, lemma_insertion_point, lemma_top_push};

verus! {

/// Longest context line handed to a pane, in characters. The line is windowed
/// around its first hit, so a match at column 300 of a long line still shows.
pub const SNIPPET_CHARS: usize = 160;

/// Characters of lead-in kept before the first hit when a line is windowed.
pub const SNIPPET_LEAD: usize = 24;

// ── History ─────────────────────────────────────────────────────────────────

/// One logical line of a terminal: its rows joined where the terminal wrapped
/// them, so a long command found on its second row is found at all.
#[derive(Debug, Clone, PartialEq, Eq)]
pub struct HistoryLine {
    pub text: String,
    /// `text` case-folded, kept so matching folds nothing.
    pub folded: String,
    /// The row the line starts on, counted from the oldest scrollback row.
    pub row: usize,
}

/// Everything one terminal still holds, oldest first.
#[derive(Debug, Default, PartialEq, Eq)]
pub struct History {
    pub lines: Vec<HistoryLine>,
    /// Rows in the scrollback, above the screen.
    pub scrollback: usize,
    /// Rows on the screen.
    pub rows: usize,
    /// Size the screen was read at — a resize changes what the rows hold
    /// without anything being printed.
    pub size: (u16, u16),
}

impl Clone for History {
    fn clone(&self) -> (r: Self)
        ensures
            r.scrollback == self.scrollback,
            r.rows == self.rows,
            r.size == self.size,
    {
        History { lines: self.lines.clone(), scrollback: self.scrollback, rows: self.rows, size: (self.size.0, self.size.1) }
    }
}

/// Rows from the bottom of a history of `scrollback + rows` rows to `row`:
/// 0 is the last row on the screen.
pub open spec fn back_spec(scrollback: int, rows: int, row: int) -> int {
    if scrollback + rows >= row + 1 {
        scrollback + rows - (row + 1)
    } else {
        0
    }
}

/// The scrollback offset that shows `row` a third of the way down the screen;
/// none for a row already on the screen.
pub open spec fn scroll_spec(scrollback: int, rows: int, row: int) -> int {
    if row >= scrollback {
        0
    } else {
        let wanted = scrollback + rows / 3 - row;
        if wanted < scrollback {
            wanted
        } else {
            scrollback
        }
    }
}

/// The screen row `row` lands on once scrolled to [`scroll_spec`].
pub open spec fn on_screen_spec(scrollback: int, rows: int, row: int) -> int {
    let at = row + scroll_spec(scrollback, rows, row);
    if at >= scrollback {
        at - scrollback
    } else {
        0
    }
}

impl History {
    /// Rows from the bottom of the history to `row`: 0 is the last row on the
    /// screen.
    pub fn back(&self, row: usize) -> (r: usize)
        requires
            self.scrollback + self.rows <= usize::MAX,
            row < usize::MAX,
        ensures
            r == back_spec(self.scrollback as int, self.rows as int, row as int),
    {
        let total = self.scrollback + self.rows;
        if total >= row + 1 {
            total - (row + 1)
        } else {
            0
        }
    }

    /// The scrollback offset that shows `row` a third of the way down the
    /// screen — context above it, and room below for what followed. A row
    /// already on the screen needs no scrolling at all.
    pub fn scroll_to(&self, row: usize) -> (r: usize)
        requires
            self.scrollback + self.rows / 3 <= usize::MAX,
        ensures
            r == scroll_spec(self.scrollback as int, self.rows as int, row as int),
            r <= self.scrollback,
    {
        if row >= self.scrollback {
            return 0;
        }
        let wanted = self.scrollback + self.rows / 3 - row;
        if wanted < self.scrollback {
            wanted
        } else {
            self.scrollback
        }
    }

    /// The screen row `row` lands on once the view is scrolled to
    /// [`Self::scroll_to`] it.
    pub fn row_on_screen(&self, row: usize) -> (r: usize)
        requires
            self.scrollback + self.rows / 3 <= usize::MAX,
            row + self.scrollback <= usize::MAX,
        ensures
            r == on_screen_spec(self.scrollback as int, self.rows as int, row as int),
    {
        let at = row + self.scroll_to(row);
        if at >= self.scrollback {
            at - self.scrollback
        } else {
            0
        }
    }
}

/// The rows of a history joined into lines: a row the terminal wrapped goes
/// on into the next, so a long line is read as one. Each line is its text
/// and the history row it starts on.
pub open spec fn joined(rows: Seq<(Seq<char>, bool)>) -> Seq<(Seq<char>, int)>
    decreases rows.len(),
{
    if rows.len() == 0 {
        Seq::empty()
    } else {
        let prev = joined(rows.drop_last());
        if rows.len() >= 2 && rows[rows.len() - 2].1 && prev.len() > 0 {
            prev.update(prev.len() - 1, (prev.last().0 + rows.last().0, prev.last().1))
        } else {
            prev.push((rows.last().0, rows.len() - 1))
        }
    }
}

proof fn lemma_joined_len(rows: Seq<(Seq<char>, bool)>)
    ensures
        joined(rows).len() <= rows.len(),
        rows.len() > 0 ==> joined(rows).len() > 0,
        forall|j: int| 0 <= j < joined(rows).len() ==> 0 <= #[trigger] joined(rows)[j].1 < rows.len(),
    decreases rows.len(),
{
    if rows.len() > 0 {
        lemma_joined_len(rows.drop_last());
    }
}

/// A vt100 terminal screen: its grid, its scrollback and where the view is
/// scrolled to.
#[verifier::external_type_specification]
#[verifier::external_body]
pub struct ExScreen(vt100::Screen);

/// A screen's size: rows and columns.
pub uninterp spec fn screen_dims(screen: vt100::Screen) -> (u16, u16);

/// Every row a screen holds, scrollback first and the grid after it: each
/// row's text at the screen's width, as `Screen::rows` writes it, and whether
/// it wraps into the next.
pub uninterp spec fn screen_lines(screen: vt100::Screen) -> Seq<(Seq<char>, bool)>;

/// How far a screen's view is scrolled back into its scrollback.
pub uninterp spec fn screen_offset(screen: vt100::Screen) -> usize;

/// How many of a screen's rows are scrollback.
pub open spec fn scrollback_len(screen: vt100::Screen) -> int {
    screen_lines(screen).len() - screen_dims(screen).0
}

/// The rows in view: the `rows` rows from `offset` rows back into the
/// scrollback.
pub open spec fn view_of(screen: vt100::Screen) -> Seq<(Seq<char>, bool)> {
    let from = scrollback_len(screen) - screen_offset(screen);
    screen_lines(screen).subrange(from, from + screen_dims(screen).0)
}

/// `Screen::size` of vt100: rows and columns, neither of them zero. Its rows
/// are the grid's, so the screen holds at least that many; the rows held are
/// counted in memory, so their number fits a `usize`.
#[verifier::external_body]
pub(crate) fn screen_size(screen: &vt100::Screen) -> (r: (u16, u16))
    ensures
        r == screen_dims(*screen),
        r.0 >= 1,
        r.1 >= 1,
        r.0 <= screen_lines(*screen).len() <= usize::MAX,
{
    let (rows, cols) = screen.size();
    (rows.get(), cols.get())
}

/// `Screen::scrollback`: how far the view is scrolled back — never past the
/// scrollback held.
#[verifier::external_body]
fn scrollback_offset(screen: &vt100::Screen) -> (r: usize)
    ensures
        r == screen_offset(*screen),
        r <= scrollback_len(*screen),
{
    screen.scrollback()
}

/// `Screen::set_scrollback`: scroll the view back by `rows`, clamped to the
/// scrollback held. The rows and the size are untouched.
#[verifier::external_body]
fn scroll_view(screen: &mut vt100::Screen, rows: usize)
    ensures
        screen_lines(*final(screen)) == screen_lines(*old(screen)),
        screen_dims(*final(screen)) == screen_dims(*old(screen)),
        screen_offset(*final(screen)) == if rows < scrollback_len(*old(screen)) { rows as int } else { scrollback_len(*old(screen)) },
{
    screen.set_scrollback(rows);
}

/// `Screen::rows` from the first column across the whole width: the text of
/// every row in view.
#[verifier::external_body]
fn rows_in_view(screen: &vt100::Screen, width: u16) -> (r: Vec<String>)
    requires
        width == screen_dims(*screen).1,
    ensures
        r@.len() == view_of(*screen).len(),
        forall|k: int| 0 <= k < r@.len() ==> (#[trigger] r@[k])@ == view_of(*screen)[k].0,
{
    screen.rows(0, width).collect()
}

/// `Screen::row_wrapped`: whether the text of row `row` in view goes on into
/// the next.
#[verifier::external_body]
fn row_wraps(screen: &vt100::Screen, row: u16) -> (r: bool)
    ensures
        (row as int) < view_of(*screen).len() ==> r == view_of(*screen)[row as int].1,
{
    screen.row_wrapped(row)
}

/// `h` is the whole history of `before`, scrollback first: its rows joined
/// where they wrap, each line folded for matching and numbered by the row it
/// starts on; and `after` is `before` with its view put back.
pub open spec fn read_from(before: vt100::Screen, after: vt100::Screen, h: History) -> bool {
    &&& h.size == screen_dims(before)
    &&& h.rows == h.size.0
    &&& h.scrollback == scrollback_len(before)
    &&& h.lines@.len() == joined(screen_lines(before)).len()
    &&& forall|j: int| 0 <= j < h.lines@.len() ==> {
        let line = #[trigger] h.lines@[j];
        let want = joined(screen_lines(before))[j];
        &&& line.text@ == want.0
        &&& line.row == want.1
        &&& line.folded@ == crate::query::prepare(want.0, false)
    }
    &&& screen_lines(after) == screen_lines(before)
    &&& screen_dims(after) == screen_dims(before)
    &&& screen_offset(after) == screen_offset(before)
}

/// The history to search for a terminal that last printed at `stamp`: the
/// one held from an earlier search when it was read at that same stamp and
/// the grid is still the size it was read at — nothing printed and nothing
/// resized, so it still holds — else a fresh read.
pub fn history_of(stamp: u64, cached: Option<(u64, History)>, screen: &mut vt100::Screen) -> (h: History)
    ensures
        match cached {
            Some((at, held)) => if at == stamp && held.size == screen_dims(*old(screen)) {
                h == held && *final(screen) == *old(screen)
            } else {
                read_from(*old(screen), *final(screen), h)
            },
            None => read_from(*old(screen), *final(screen), h),
        },
{
    let size = screen_size(screen);
    match cached {
        Some((at, held)) => {
            if at == stamp && held.size.0 == size.0 && held.size.1 == size.1 {
                held
            } else {
                History::read(screen)
            }
        },
        None => History::read(screen),
    }
}

impl History {
    /// A history from its rows in order, each with whether it wrapped:
    /// wrapped rows joined into one line each, every line folded for
    /// matching and numbered by the row it starts on.
    pub fn from_rows(rows: Vec<(String, bool)>, scrollback: usize, screen_rows: usize, size: (u16, u16)) -> (h: History)
        ensures
            h.scrollback == scrollback,
            h.rows == screen_rows,
            h.size == size,
            h.lines@.len() == joined(rows@.map_values(|r: (String, bool)| (r.0@, r.1))).len(),
            forall|j: int| 0 <= j < h.lines@.len() ==> {
                let line = #[trigger] h.lines@[j];
                let want = joined(rows@.map_values(|r: (String, bool)| (r.0@, r.1)))[j];
                &&& line.text@ == want.0
                &&& line.row == want.1
                &&& line.folded@ == crate::query::prepare(want.0, false)
            },
    {
        let ghost rv = rows@.map_values(|r: (String, bool)| (r.0@, r.1));
        let mut texts: Vec<(String, usize)> = Vec::new();
        let mut continues = false;
        let mut i: usize = 0;
        while i < rows.len()
            invariant
                i <= rows@.len(),
                rv == rows@.map_values(|r: (String, bool)| (r.0@, r.1)),
                texts@.map_values(|t: (String, usize)| (t.0@, t.1 as int)) == joined(rv.take(i as int)),
                i > 0 ==> continues == rv[i - 1].1,
                i == 0 ==> !continues,
            decreases rows.len() - i,
        {
            proof {
                assert(rv.take(i + 1).drop_last() =~= rv.take(i as int));
                assert(rv.take(i + 1).last() == rv[i as int]);
                if i > 0 {
                    assert(rv.take(i + 1)[i - 1] == rv[i - 1]);
                }
                lemma_joined_len(rv.take(i as int));
            }
            let ghost before = texts@.map_values(|t: (String, usize)| (t.0@, t.1 as int));
            let text = rows[i].0.clone();
            if continues && texts.len() > 0 {
                let last = texts.len() - 1;
                let (mut t, r) = texts.remove(last);
                crate::text::push_str(&mut t, text.as_str());
                texts.push((t, r));
                assert(texts@.map_values(|t: (String, usize)| (t.0@, t.1 as int)) =~= before.update(before.len() - 1, (before.last().0 + rv[i as int].0, before.last().1)));
            } else {
                texts.push((text, i));
                assert(texts@.map_values(|t: (String, usize)| (t.0@, t.1 as int)) =~= before.push((rv[i as int].0, i as int)));
            }
            continues = rows[i].1;
            i += 1;
        }
        assert(rv.take(i as int) =~= rv);
        let ghost tv = texts@.map_values(|t: (String, usize)| (t.0@, t.1 as int));
        let mut lines: Vec<HistoryLine> = Vec::new();
        let mut k: usize = 0;
        while k < texts.len()
            invariant
                k <= texts@.len(),
                tv == texts@.map_values(|t: (String, usize)| (t.0@, t.1 as int)),
                lines@.len() == k,
                forall|j: int| 0 <= j < k ==> {
                    let line = #[trigger] lines@[j];
                    &&& line.text@ == tv[j].0
                    &&& line.row == tv[j].1
                    &&& line.folded@ == crate::query::prepare(tv[j].0, false)
                },
            decreases texts.len() - k,
        {
            let text = texts[k].0.clone();
            let folded = crate::query::fold_line(text.as_str());
            lines.push(HistoryLine { text, folded, row: texts[k].1 });
            k += 1;
        }
        History { lines, scrollback, rows: screen_rows, size }
    }

    /// Read a terminal's whole history, scrollback first: every row once,
    /// page by page, with the view put back where it was found. On the
    /// alternate screen vt100 keeps no scrollback, and this reads the screen
    /// alone.
    pub fn read(screen: &mut vt100::Screen) -> (h: History)
        ensures
            read_from(*old(screen), *final(screen), h),
    {
        let ghost all = screen_lines(*screen);
        let size = screen_size(screen);
        let rows: usize = size.0 as usize;
        let cols = size.1;
        let offset = scrollback_offset(screen);
        scroll_view(screen, usize::MAX);
        let sb = scrollback_offset(screen);
        let _ = screen_size(screen);
        let total: usize = sb + rows;
        let mut collected: Vec<(String, bool)> = Vec::new();
        let mut start: usize = 0;
        assert(all.take(0) =~= Seq::<(Seq<char>, bool)>::empty());
        while start < total
            invariant
                rows == size.0,
                rows >= 1,
                cols == size.1,
                size == screen_dims(*screen),
                all == screen_lines(*screen),
                sb == scrollback_len(*screen),
                total == all.len(),
                start <= total,
                collected@.map_values(|r: (String, bool)| (r.0@, r.1)) == all.take(start as int),
            decreases total - start,
        {
            let k: usize = if sb > start { sb - start } else { 0 };
            scroll_view(screen, k);
            let base: usize = sb - k;
            let first: usize = start - base;
            let last: usize = if rows < total - base { rows } else { total - base };
            let page = rows_in_view(screen, cols);
            assert(base + rows <= total);
            assert(view_of(*screen) == all.subrange(base as int, base + rows));
            let mut r: usize = first;
            while r < last
                invariant
                    first <= r <= last,
                    last <= rows,
                    rows == size.0,
                    page@.len() == rows,
                    size == screen_dims(*screen),
                    all == screen_lines(*screen),
                    view_of(*screen) == all.subrange(base as int, base + rows),
                    base + last <= total,
                    base + rows <= total,
                    total == all.len(),
                    forall|m: int| 0 <= m < page@.len() ==> (#[trigger] page@[m])@ == view_of(*screen)[m].0,
                    collected@.map_values(|c: (String, bool)| (c.0@, c.1)) == all.take(base + r),
                decreases last - r,
            {
                let wraps = row_wraps(screen, r as u16);
                let ghost before = collected@.map_values(|c: (String, bool)| (c.0@, c.1));
                collected.push((page[r].clone(), wraps));
                proof {
                    assert(view_of(*screen)[r as int] == all[base + r]);
                    assert(collected@.map_values(|c: (String, bool)| (c.0@, c.1)) =~= before.push(all[base + r]));
                    assert(all.take(base + r + 1) =~= all.take(base + r).push(all[base + r]));
                }
                r += 1;
            }
            start = base + last;
        }
        assert(all.take(total as int) =~= all);
        scroll_view(screen, offset);
        History::from_rows(collected, sb, rows, size)
    }
}

// ── Snippets ────────────────────────────────────────────────────────────────

/// White space at the start of `s`, in characters.
pub open spec fn leading_spaces(s: Seq<char>, i: int) -> int
    decreases s.len() - i,
{
    if 0 <= i < s.len() && unicode_whitespace(s[i]) {
        leading_spaces(s, i + 1)
    } else {
        i
    }
}

/// White space at the end of `s`, in characters, looking back from `n`.
pub open spec fn trailing_spaces(s: Seq<char>, n: int) -> int
    decreases n,
{
    if 0 < n <= s.len() && unicode_whitespace(s[n - 1]) {
        1 + trailing_spaces(s, n - 1)
    } else {
        0
    }
}

/// Where the shown window of a line starts, and whether it opens with an
/// ellipsis: at the first non-space, unless the line is long and its first
/// hit lies beyond the lead-in.
pub open spec fn window_from(lead: int, end: int, first: int) -> (int, bool) {
    if end - lead > SNIPPET_CHARS && first > lead + SNIPPET_LEAD {
        let late = if end >= SNIPPET_CHARS { end - SNIPPET_CHARS } else { 0 };
        (if first - SNIPPET_LEAD < late { first - SNIPPET_LEAD } else { late }, true)
    } else {
        (lead, false)
    }
}

/// The ranges that fall inside `[from, to)`, clipped to it and moved to count
/// from the window's start, past `shift` characters of ellipsis.
pub open spec fn moved_ranges(ranges: Seq<(usize, usize)>, from: int, to: int, shift: int) -> Seq<(usize, usize)>
    decreases ranges.len(),
{
    if ranges.len() == 0 {
        seq![]
    } else {
        let before = moved_ranges(ranges.drop_last(), from, to, shift);
        let (s, e) = ranges.last();
        if e > from && s < to {
            let a = if s > from { s as int } else { from };
            let b = if e < to { e as int } else { to };
            before.push(((a - from + shift) as usize, (b - from + shift) as usize))
        } else {
            before
        }
    }
}

/// The line as a pane shows it: trimmed, cut to a window that starts just
/// before the first hit (with `…` where text was cut), and the ranges moved to
/// match.
pub open spec fn snippet_spec(text: Seq<char>, ranges: Seq<(usize, usize)>) -> (Seq<char>, Seq<(usize, usize)>) {
    let lead = leading_spaces(text, 0);
    let tail = trailing_spaces(text, text.len() as int);
    let end = if text.len() - tail > lead { text.len() - tail } else { lead };
    let first = if ranges.len() > 0 { ranges[0].0 as int } else { lead };
    let (from, prefix) = window_from(lead, end, first);
    let to = if end < from + SNIPPET_CHARS { end } else { from + SNIPPET_CHARS };
    let shift = if prefix { 1int } else { 0 };
    let opening = if prefix { seq!['…'] } else { seq![] };
    let closing = if to < end { seq!['…'] } else { seq![] };
    (opening + text.subrange(from, to) + closing, moved_ranges(ranges, from, to, shift))
}

proof fn lemma_leading_spaces(s: Seq<char>, i: int)
    requires
        0 <= i <= s.len(),
    ensures
        i <= leading_spaces(s, i) <= s.len(),
    decreases s.len() - i,
{
    if i < s.len() && unicode_whitespace(s[i]) {
        lemma_leading_spaces(s, i + 1);
    }
}

proof fn lemma_trailing_spaces(s: Seq<char>, n: int)
    requires
        0 <= n <= s.len(),
    ensures
        0 <= trailing_spaces(s, n) <= n,
    decreases n,
{
    if 0 < n && unicode_whitespace(s[n - 1]) {
        lemma_trailing_spaces(s, n - 1);
    }
}

/// The line as a pane shows it: trimmed, and cut to a window that starts just
/// before the first hit, with the ranges moved to match.
pub fn snippet(text: &str, ranges: &Vec<(usize, usize)>) -> (r: (String, Vec<(usize, usize)>))
    requires
        text@.len() + SNIPPET_CHARS + 2 <= usize::MAX,
    ensures
        (r.0@, r.1@) == snippet_spec(text@, ranges@),
{
    let chars = to_chars(text);
    let n = chars.len();
    proof {
        lemma_leading_spaces(chars@, 0);
        lemma_trailing_spaces(chars@, n as int);
    }
    let mut lead: usize = 0;
    while lead < n && is_whitespace(chars[lead])
        invariant
            chars@ == text@,
            n == chars@.len(),
            lead <= n,
            leading_spaces(chars@, lead as int) == leading_spaces(chars@, 0),
        decreases n - lead,
    {
        lead += 1;
    }
    let mut tail: usize = 0;
    while tail < n && is_whitespace(chars[n - 1 - tail])
        invariant
            chars@ == text@,
            n == chars@.len(),
            tail <= n,
            trailing_spaces(chars@, n as int) == tail + trailing_spaces(chars@, n - tail),
        decreases n - tail,
    {
        tail += 1;
    }
    let end = if n - tail > lead { n - tail } else { lead };
    let first = if ranges.len() > 0 { ranges[0].0 } else { lead };
    let mut from = lead;
    let mut prefix = false;
    if end - lead > SNIPPET_CHARS && first > lead + SNIPPET_LEAD {
        let late = if end >= SNIPPET_CHARS { end - SNIPPET_CHARS } else { 0 };
        from = if first - SNIPPET_LEAD < late { first - SNIPPET_LEAD } else { late };
        prefix = true;
    }
    let to = if end < from + SNIPPET_CHARS { end } else { from + SNIPPET_CHARS };
    let mut out = String::new();
    if prefix {
        push_char(&mut out, '…');
    }
    let mut i = from;
    while i < to
        invariant
            chars@ == text@,
            from <= i <= to <= chars@.len(),
            out@ == (if prefix { seq!['…'] } else { seq![] }) + chars@.subrange(from as int, i as int),
        decreases to - i,
    {
        push_char(&mut out, chars[i]);
        assert(chars@.subrange(from as int, i + 1) == chars@.subrange(from as int, i as int).push(chars@[i as int]));
        i += 1;
    }
    let shift: usize = if prefix { 1 } else { 0 };
    let mut moved: Vec<(usize, usize)> = Vec::new();
    let mut k: usize = 0;
    while k < ranges.len()
        invariant
            from <= to <= chars@.len(),
            chars@.len() + SNIPPET_CHARS + 2 <= usize::MAX,
            shift <= 1,
            k <= ranges@.len(),
            moved@ == moved_ranges(ranges@.take(k as int), from as int, to as int, shift as int),
        decreases ranges.len() - k,
    {
        let (s, e) = ranges[k];
        assert(ranges@.take(k + 1).drop_last() =~= ranges@.take(k as int));
        if e > from && s < to {
            let a = if s > from { s } else { from };
            let b = if e < to { e } else { to };
            moved.push((a - from + shift, b - from + shift));
        }
        k += 1;
    }
    assert(ranges@.take(k as int) =~= ranges@);
    if to < end {
        push_char(&mut out, '…');
    }
    (out, moved)
}

// ── Ranking ─────────────────────────────────────────────────────────────────

/// Most hits kept for one session, best first. A one-letter query matches
/// most lines of every session; the list is for picking one, not for reading
/// them all.
pub const HITS_PER_SESSION: usize = 50;

/// Most hits published in total, across every session.
pub const MAX_HITS: usize = 200;

/// One terminal to search: a session's agent or its shell.
#[derive(Debug, Clone)]
pub struct Source {
    pub session: String,
    pub shell: bool,
    /// When the pane last printed, in epoch milliseconds: the recency a hit
    /// is ranked by. A history read at this stamp is reused while it holds
    /// (see [`history_of`]).
    pub stamp: u64,
}

/// A matching line, located: which terminal, which line, how it matched and
/// how far from the bottom it sits.
pub struct FoundSpec {
    pub source: int,
    pub line: int,
    pub matched: LineMatchView,
    pub back: int,
}

/// The matching lines of `h` among its first `j`, in order.
pub open spec fn found_lines(q: QueryView, h: History, source: int, j: int) -> Seq<FoundSpec>
    decreases j,
{
    if j <= 0 {
        seq![]
    } else {
        let before = found_lines(q, h, source, j - 1);
        let line = h.lines@[j - 1];
        match match_spec(q, line.text@, line.folded@) {
            Some(m) => before.push(FoundSpec {
                source,
                line: j - 1,
                matched: m,
                back: back_spec(h.scrollback as int, h.rows as int, line.row as int),
            }),
            None => before,
        }
    }
}

/// The matching lines of the first `i` terminals, terminal by terminal.
pub open spec fn founds(q: QueryView, hs: Seq<History>, i: int) -> Seq<FoundSpec>
    decreases i,
{
    if i <= 0 {
        seq![]
    } else {
        founds(q, hs, i - 1) + found_lines(q, hs[i - 1], i - 1, hs[i - 1].lines@.len() as int)
    }
}

/// Lines held by the first `i` terminals.
pub open spec fn lines_total(hs: Seq<History>, i: int) -> int
    decreases i,
{
    if i <= 0 {
        0
    } else {
        lines_total(hs, i - 1) + hs[i - 1].lines@.len()
    }
}

/// When session `name` last printed, by the first `i` terminals: the latest
/// stamp of its agent and shell.
pub open spec fn recency(srcs: Seq<Source>, name: Seq<char>, i: int) -> u64
    decreases i,
{
    if i <= 0 {
        0
    } else {
        let r = recency(srcs, name, i - 1);
        if srcs[i - 1].session@ == name && srcs[i - 1].stamp > r {
            srcs[i - 1].stamp
        } else {
            r
        }
    }
}

/// Strings in `str` order: by character, a prefix first. UTF-8 keeps code
/// point order, so this is also the order of their bytes.
pub open spec fn text_lt(a: Seq<char>, b: Seq<char>) -> bool
    decreases a.len(),
{
    if a.len() == 0 {
        b.len() > 0
    } else if b.len() == 0 {
        false
    } else if a[0] != b[0] {
        a[0] < b[0]
    } else {
        text_lt(a.drop_first(), b.drop_first())
    }
}

pub proof fn lemma_text_lt_strict(a: Seq<char>, b: Seq<char>)
    ensures
        !(text_lt(a, b) && text_lt(b, a)),
        a != b ==> text_lt(a, b) || text_lt(b, a),
        !text_lt(a, a),
    decreases a.len(),
{
    if a.len() > 0 && b.len() > 0 && a[0] == b[0] {
        lemma_text_lt_strict(a.drop_first(), b.drop_first());
        if a != b {
            assert(a.drop_first() != b.drop_first()) by {
                if a.drop_first() == b.drop_first() {
                    assert(a =~= b) by {
                        assert forall|k: int| 0 <= k < a.len() implies a[k] == b[k] by {
                            if k > 0 {
                                assert(a[k] == a.drop_first()[k - 1]);
                                assert(b[k] == b.drop_first()[k - 1]);
                            }
                        }
                    }
                }
            }
        }
    }
    if a.len() > 0 {
        lemma_text_lt_strict(a.drop_first(), a.drop_first());
    }
    if a.len() == 0 && b.len() == 0 {
        assert(a =~= b);
    }
}

pub proof fn lemma_text_lt_trans(a: Seq<char>, b: Seq<char>, c: Seq<char>)
    requires
        text_lt(a, b),
        text_lt(b, c),
    ensures
        text_lt(a, c),
    decreases a.len(),
{
    if a.len() > 0 && b.len() > 0 && c.len() > 0 && a[0] == b[0] && b[0] == c[0] {
        lemma_text_lt_trans(a.drop_first(), b.drop_first(), c.drop_first());
    }
}

/// Whether found `i` ranks ahead of found `j`: every term exact before any
/// fuzzy, then score, then the session that printed last, then the fewest
/// rows back, then the session's name, then the order they were found in.
pub open spec fn ahead(srcs: Seq<Source>, f: Seq<FoundSpec>, i: usize, j: usize) -> bool {
    let a = f[i as int];
    let b = f[j as int];
    let na = srcs[a.source].session@;
    let nb = srcs[b.source].session@;
    let ra = recency(srcs, na, srcs.len() as int);
    let rb = recency(srcs, nb, srcs.len() as int);
    if a.matched.exact != b.matched.exact {
        a.matched.exact
    } else if a.matched.score != b.matched.score {
        a.matched.score > b.matched.score
    } else if ra != rb {
        ra > rb
    } else if a.back != b.back {
        a.back < b.back
    } else if na != nb {
        text_lt(na, nb)
    } else {
        i < j
    }
}

/// The ranking as an order on the founds' indices.
pub open spec fn rank_le(srcs: Seq<Source>, f: Seq<FoundSpec>) -> spec_fn(usize, usize) -> bool {
    |i: usize, j: usize| i == j || ahead(srcs, f, i, j)
}

pub proof fn lemma_rank_total(srcs: Seq<Source>, f: Seq<FoundSpec>)
    ensures
        total_ordering(rank_le(srcs, f)),
{
    let le = rank_le(srcs, f);
    assert forall|i: usize, j: usize| #[trigger] le(i, j) && le(j, i) implies i == j by {
        if i != j {
            let na = srcs[f[i as int].source].session@;
            let nb = srcs[f[j as int].source].session@;
            lemma_text_lt_strict(na, nb);
        }
    }
    assert forall|i: usize, j: usize| #[trigger] le(i, j) || le(j, i) by {
        let na = srcs[f[i as int].source].session@;
        let nb = srcs[f[j as int].source].session@;
        lemma_text_lt_strict(na, nb);
    }
    assert forall|i: usize, j: usize, k: usize| #[trigger] le(i, j) && #[trigger] le(j, k) implies le(i, k) by {
        let na = srcs[f[i as int].source].session@;
        let nb = srcs[f[j as int].source].session@;
        let nc = srcs[f[k as int].source].session@;
        lemma_text_lt_strict(na, nb);
        lemma_text_lt_strict(nb, nc);
        lemma_text_lt_strict(na, nc);
        if text_lt(na, nb) && text_lt(nb, nc) {
            lemma_text_lt_trans(na, nb, nc);
        }
        if text_lt(nc, na) && text_lt(na, nb) {
            lemma_text_lt_trans(nc, na, nb);
        }
        if text_lt(nb, nc) && text_lt(nc, na) {
            lemma_text_lt_trans(nb, nc, na);
        }
    }
}

/// The distinct session names of the first `i` terminals, in the order they
/// first appear.
pub open spec fn distinct_sessions(srcs: Seq<Source>, i: int) -> Seq<Seq<char>>
    decreases i,
{
    if i <= 0 {
        seq![]
    } else {
        let d = distinct_sessions(srcs, i - 1);
        if d.contains(srcs[i - 1].session@) {
            d
        } else {
            d.push(srcs[i - 1].session@)
        }
    }
}

/// The founds among the first `n` that belong to session `name`, in order.
pub open spec fn group(srcs: Seq<Source>, f: Seq<FoundSpec>, name: Seq<char>, n: int) -> Seq<usize>
    decreases n,
{
    if n <= 0 {
        seq![]
    } else {
        let g = group(srcs, f, name, n - 1);
        if srcs[f[n - 1].source].session@ == name {
            g.push((n - 1) as usize)
        } else {
            g
        }
    }
}

/// Each named session's best [`HITS_PER_SESSION`], one session after another.
pub open spec fn kept(srcs: Seq<Source>, f: Seq<FoundSpec>, names: Seq<Seq<char>>) -> Seq<usize>
    decreases names.len(),
{
    if names.len() == 0 {
        seq![]
    } else {
        kept(srcs, f, names.drop_last()) + top(group(srcs, f, names.last(), f.len() as int), rank_le(srcs, f), HITS_PER_SESSION as int)
    }
}

/// The founds a search publishes, best first: at most [`MAX_HITS`] of each
/// session's best [`HITS_PER_SESSION`].
pub open spec fn ranked(srcs: Seq<Source>, f: Seq<FoundSpec>) -> Seq<usize> {
    top(kept(srcs, f, distinct_sessions(srcs, srcs.len() as int)), rank_le(srcs, f), MAX_HITS as int)
}

proof fn lemma_distinct_unique(srcs: Seq<Source>, i: int)
    ensures
        forall|a: int, b: int| 0 <= a < b < distinct_sessions(srcs, i).len() ==> distinct_sessions(srcs, i)[a] != distinct_sessions(srcs, i)[b],
    decreases i,
{
    if i > 0 {
        lemma_distinct_unique(srcs, i - 1);
        let d = distinct_sessions(srcs, i - 1);
        let x = srcs[i - 1].session@;
        if !d.contains(x) {
            assert forall|a: int| 0 <= a < d.len() implies d.push(x)[a] != x by {
                if d[a] == x {
                    assert(d.contains(x));
                }
            }
        }
    }
}

// ── Hits ────────────────────────────────────────────────────────────────────

/// One matching line, located.
#[derive(Debug, Clone, PartialEq, Eq)]
pub struct Hit {
    pub session: String,
    /// Found in the session's companion shell rather than its agent.
    pub shell: bool,
    /// The line, trimmed and windowed to [`SNIPPET_CHARS`] around the hit.
    pub text: String,
    /// Character ranges `[start, end)` of `text` that matched.
    pub ranges: Vec<(usize, usize)>,
    /// Rows between the line and the bottom of its terminal.
    pub back: usize,
    /// The scrollback offset that puts the line on screen.
    pub scroll: usize,
    /// The screen row the line is on once scrolled to `scroll`, from the top.
    ///
    /// Counted from the top rather than the bottom because that is what a
    /// resize leaves alone: the pane grows when the search strip closes, and
    /// vt100 adds the new rows at the bottom.
    pub row: usize,
    pub exact: bool,
    pub score: i32,
}

/// What a hit is, in the terms of the contracts.
pub struct HitView {
    pub session: Seq<char>,
    pub shell: bool,
    pub text: Seq<char>,
    pub ranges: Seq<(usize, usize)>,
    pub back: int,
    pub scroll: int,
    pub row: int,
    pub exact: bool,
    pub score: int,
}

impl View for Hit {
    type V = HitView;

    open spec fn view(&self) -> HitView {
        HitView {
            session: self.session@,
            shell: self.shell,
            text: self.text@,
            ranges: self.ranges@,
            back: self.back as int,
            scroll: self.scroll as int,
            row: self.row as int,
            exact: self.exact,
            score: self.score as int,
        }
    }
}

/// The hit a found line becomes: its session and pane, its snippet, and where
/// it is.
pub open spec fn hit_spec(srcs: Seq<Source>, hs: Seq<History>, f: FoundSpec) -> HitView {
    let h = hs[f.source];
    let line = h.lines@[f.line];
    let shown = snippet_spec(line.text@, f.matched.ranges);
    HitView {
        session: srcs[f.source].session@,
        shell: srcs[f.source].shell,
        text: shown.0,
        ranges: shown.1,
        back: f.back,
        scroll: scroll_spec(h.scrollback as int, h.rows as int, line.row as int),
        row: on_screen_spec(h.scrollback as int, h.rows as int, line.row as int),
        exact: f.matched.exact,
        score: f.matched.score,
    }
}

/// What a plugin asked for: the query text and, optionally, which sessions.
#[derive(Debug, Clone, PartialEq, Eq, Default)]
pub struct Request {
    pub query: String,
    /// `None` searches every session.
    pub sessions: Option<Vec<String>>,
}

/// A finished search.
#[derive(Debug, Clone, PartialEq, Eq, Default)]
pub struct Answer {
    pub request: Request,
    /// Ranked hits, at most [`MAX_HITS`].
    pub hits: Vec<Hit>,
    /// Matching lines found, before any cap.
    pub total: usize,
    /// Sessions whose terminals were read.
    pub sessions: usize,
    /// Lines searched, across every terminal.
    pub lines: usize,
    /// Wall time spent, reading and matching.
    pub elapsed: Duration,
    /// Why the query could not run — an invalid regex.
    pub error: Option<String>,
}

/// `Duration`'s `Clone`: a `Copy` type's clone is the value itself.
pub assume_specification[ <Duration as Clone>::clone ](d: &Duration) -> (r: Duration)
    ensures
        r == *d,
;

/// No time at all, for an answer whose timing its caller fills in.
#[verifier::external_body]
fn no_time() -> Duration {
    Duration::ZERO
}

/// A terminal history whose sizes leave room for the arithmetic on its rows
/// and characters.
pub open spec fn history_fits(h: History) -> bool {
    &&& h.scrollback + h.rows <= usize::MAX
    &&& forall|j: int| 0 <= j < h.lines@.len() ==> {
        let line = #[trigger] h.lines@[j];
        &&& line.row < usize::MAX
        &&& line.row + h.scrollback <= usize::MAX
        &&& line.text@.len() + SNIPPET_CHARS + 2 <= usize::MAX
    }
}

struct Found {
    source: usize,
    line: usize,
    matched: LineMatch,
    back: usize,
}

impl View for Found {
    type V = FoundSpec;

    closed spec fn view(&self) -> FoundSpec {
        FoundSpec {
            source: self.source as int,
            line: self.line as int,
            matched: LineMatchView { score: self.matched.score as int, exact: self.matched.exact, ranges: self.matched.ranges@ },
            back: self.back as int,
        }
    }
}

spec fn found_view(v: Seq<Found>) -> Seq<FoundSpec> {
    v.map_values(|x: Found| x@)
}

pub fn same_chars(a: &Vec<char>, b: &Vec<char>) -> (r: bool)
    ensures
        r == (a@ == b@),
{
    if a.len() != b.len() {
        return false;
    }
    let mut k: usize = 0;
    while k < a.len()
        invariant
            a@.len() == b@.len(),
            k <= a@.len(),
            forall|m: int| 0 <= m < k ==> a@[m] == b@[m],
        decreases a.len() - k,
    {
        if a[k] != b[k] {
            return false;
        }
        k += 1;
    }
    assert(a@ =~= b@);
    true
}

pub fn text_less(a: &Vec<char>, b: &Vec<char>) -> (r: bool)
    ensures
        r == text_lt(a@, b@),
{
    let mut k: usize = 0;
    assert(a@.subrange(0, a@.len() as int) =~= a@);
    assert(b@.subrange(0, b@.len() as int) =~= b@);
    while k < a.len() && k < b.len()
        invariant
            k <= a@.len(),
            k <= b@.len(),
            text_lt(a@.subrange(k as int, a@.len() as int), b@.subrange(k as int, b@.len() as int)) == text_lt(a@, b@),
        decreases a.len() - k,
    {
        let ghost x = a@.subrange(k as int, a@.len() as int);
        let ghost y = b@.subrange(k as int, b@.len() as int);
        assert(x[0] == a@[k as int]);
        assert(y[0] == b@[k as int]);
        if a[k] != b[k] {
            return a[k] < b[k];
        }
        assert(x.drop_first() =~= a@.subrange(k + 1, a@.len() as int));
        assert(y.drop_first() =~= b@.subrange(k + 1, b@.len() as int));
        k += 1;
    }
    k == a.len() && k < b.len()
}

/// What the ranking needs to know about the terminals, read once.
struct Ranker {
    /// Each terminal's session name, as characters.
    names: Vec<Vec<char>>,
    /// Each terminal's session's recency.
    recency: Vec<u64>,
}

impl Ranker {
    spec fn fits(&self, srcs: Seq<Source>, found: Seq<Found>) -> bool {
        &&& self.names@.len() == srcs.len()
        &&& self.recency@.len() == srcs.len()
        &&& forall|s: int| 0 <= s < srcs.len() ==> (#[trigger] self.names@[s])@ == srcs[s].session@
        &&& forall|s: int| 0 <= s < srcs.len() ==> #[trigger] self.recency@[s] == recency(srcs, srcs[s].session@, srcs.len() as int)
        &&& forall|k: int| 0 <= k < found.len() ==> (#[trigger] found[k]).source < srcs.len()
    }

    fn new(sources: &Vec<Source>) -> (r: Ranker)
        ensures
            r.names@.len() == sources@.len(),
            r.recency@.len() == sources@.len(),
            forall|s: int| 0 <= s < sources@.len() ==> (#[trigger] r.names@[s])@ == sources@[s].session@,
            forall|s: int| 0 <= s < sources@.len() ==> #[trigger] r.recency@[s] == recency(sources@, sources@[s].session@, sources@.len() as int),
    {
        let n = sources.len();
        let mut names: Vec<Vec<char>> = Vec::new();
        let mut rec: Vec<u64> = Vec::new();
        let mut s: usize = 0;
        while s < n
            invariant
                n == sources@.len(),
                s <= n,
                names@.len() == s,
                rec@.len() == s,
                forall|t: int| 0 <= t < s ==> (#[trigger] names@[t])@ == sources@[t].session@,
                forall|t: int| 0 <= t < s ==> #[trigger] rec@[t] == recency(sources@, sources@[t].session@, n as int),
            decreases n - s,
        {
            let mut latest: u64 = 0;
            let mut t: usize = 0;
            while t < n
                invariant
                    n == sources@.len(),
                    s < n,
                    t <= n,
                    latest == recency(sources@, sources@[s as int].session@, t as int),
                decreases n - t,
            {
                if sources[t].session == sources[s].session && sources[t].stamp > latest {
                    latest = sources[t].stamp;
                }
                t += 1;
            }
            names.push(to_chars(sources[s].session.as_str()));
            rec.push(latest);
            s += 1;
        }
        Ranker { names, recency: rec }
    }

    /// Whether found `i` ranks ahead of found `j`.
    fn ahead(&self, sources: &Vec<Source>, found: &Vec<Found>, i: usize, j: usize) -> (r: bool)
        requires
            self.fits(sources@, found@),
            i < found@.len(),
            j < found@.len(),
        ensures
            r == ahead(sources@, found_view(found@), i, j),
    {
        let a = &found[i];
        let b = &found[j];
        assert(found_view(found@)[i as int] == a@);
        assert(found_view(found@)[j as int] == b@);
        let ra = self.recency[a.source];
        let rb = self.recency[b.source];
        if a.matched.exact != b.matched.exact {
            a.matched.exact
        } else if a.matched.score != b.matched.score {
            a.matched.score > b.matched.score
        } else if ra != rb {
            ra > rb
        } else if a.back != b.back {
            a.back < b.back
        } else if !same_chars(&self.names[a.source], &self.names[b.source]) {
            text_less(&self.names[a.source], &self.names[b.source])
        } else {
            i < j
        }
    }

    /// The best `cap` of `xs`, best first.
    fn select(&self, sources: &Vec<Source>, found: &Vec<Found>, xs: &Vec<usize>, cap: usize) -> (r: Vec<usize>)
        requires
            self.fits(sources@, found@),
            forall|k: int| 0 <= k < xs@.len() ==> #[trigger] xs@[k] < found@.len(),
        ensures
            r@ == top(xs@, rank_le(sources@, found_view(found@)), cap as int),
            forall|k: int| 0 <= k < r@.len() ==> #[trigger] r@[k] < found@.len(),
    {
        let ghost le = rank_le(sources@, found_view(found@));
        proof { lemma_rank_total(sources@, found_view(found@)); }
        let mut out: Vec<usize> = Vec::new();
        let mut t: usize = 0;
        proof {
            assert(xs@.take(0) =~= Seq::<usize>::empty());
            Seq::<usize>::empty().lemma_sort_by_ensures(le);
            assert(Seq::<usize>::empty().sort_by(le).len() == 0) by {
                broadcast use vstd::seq_lib::group_to_multiset_ensures;
                Seq::<usize>::empty().sort_by(le).to_multiset_ensures();
                Seq::<usize>::empty().to_multiset_ensures();
            }
            assert(top(xs@.take(0), le, cap as int) =~= out@);
        }
        while t < xs.len()
            invariant
                self.fits(sources@, found@),
                le == rank_le(sources@, found_view(found@)),
                total_ordering(le),
                forall|k: int| 0 <= k < xs@.len() ==> #[trigger] xs@[k] < found@.len(),
                t <= xs@.len(),
                out@ == top(xs@.take(t as int), le, cap as int),
                forall|k: int| 0 <= k < out@.len() ==> #[trigger] out@[k] < found@.len(),
            decreases xs.len() - t,
        {
            let x = xs[t];
            let mut q: usize = 0;
            while q < out.len() && (out[q] == x || self.ahead(sources, found, out[q], x))
                invariant
                    self.fits(sources@, found@),
                    le == rank_le(sources@, found_view(found@)),
                    x < found@.len(),
                    forall|k: int| 0 <= k < out@.len() ==> #[trigger] out@[k] < found@.len(),
                    q <= out@.len(),
                    forall|k: int| 0 <= k < q ==> #[trigger] le(out@[k], x),
                decreases out.len() - q,
            {
                q += 1;
            }
            proof {
                lemma_insertion_point(out@, x, le);
                let p = insertion_point(out@, x, le);
                if p < q {
                    assert(le(out@[p], x));
                }
                if q < p {
                    assert(le(out@[q as int], x));
                }
                assert(p == q);
                assert(xs@.take(t + 1) =~= xs@.take(t as int).push(x));
                lemma_top_push(xs@.take(t as int), x, le, cap as int);
            }
            if q < cap {
                out.insert(q, x);
                if out.len() > cap {
                    out.pop();
                }
            }
            proof {
                if q < cap && out@.len() == cap {
                    assert(out@ =~= out@.take(cap as int));
                }
            }
            t += 1;
        }
        assert(xs@.take(t as int) =~= xs@);
        out
    }
}

/// Whether a history's counts leave room for a search over it.
fn fits(h: &History) -> (r: bool)
    ensures
        r == history_fits(*h),
{
    if h.scrollback > usize::MAX - h.rows {
        return false;
    }
    let mut j: usize = 0;
    while j < h.lines.len()
        invariant
            j <= h.lines@.len(),
            forall|m: int| 0 <= m < j ==> {
                let line = #[trigger] h.lines@[m];
                &&& line.row < usize::MAX
                &&& line.row + h.scrollback <= usize::MAX
                &&& line.text@.len() + SNIPPET_CHARS + 2 <= usize::MAX
            },
        decreases h.lines.len() - j,
    {
        let line = &h.lines[j];
        let n = line.text.as_str().unicode_len();
        if line.row == usize::MAX || line.row > usize::MAX - h.scrollback || n > usize::MAX - SNIPPET_CHARS - 2 {
            return false;
        }
        j += 1;
    }
    true
}

/// Run `request` over the terminals read, or `None` when the query or the
/// histories are too large for a search to count through: a query past
/// [`MAX_TERMS`] characters, or line and row numbers past a `usize`.
pub fn run_if_fits(request: Request, sources: &Vec<Source>, histories: &Vec<History>) -> (a: Option<Answer>)
    requires
        histories@.len() == sources@.len(),
    ensures
        match a {
            Some(answer) => {
                &&& request.query@.len() <= MAX_TERMS
                &&& forall|i: int| 0 <= i < histories@.len() ==> history_fits(#[trigger] histories@[i])
                &&& lines_total(histories@, histories@.len() as int) <= usize::MAX
                &&& search_answer(request, sources@, histories@, answer)
            },
            None => !(request.query@.len() <= MAX_TERMS
                && (forall|i: int| 0 <= i < histories@.len() ==> history_fits(#[trigger] histories@[i]))
                && lines_total(histories@, histories@.len() as int) <= usize::MAX),
        },
{
    if request.query.as_str().unicode_len() > MAX_TERMS {
        return None;
    }
    let mut total: usize = 0;
    let mut i: usize = 0;
    while i < histories.len()
        invariant
            i <= histories@.len(),
            total == lines_total(histories@, i as int),
            forall|k: int| 0 <= k < i ==> history_fits(#[trigger] histories@[k]),
        decreases histories.len() - i,
    {
        if !fits(&histories[i]) {
            return None;
        }
        if histories[i].lines.len() > usize::MAX - total {
            proof { lemma_lines_total_grows(histories@, i + 1, histories@.len() as int); }
            return None;
        }
        total = total + histories[i].lines.len();
        i += 1;
    }
    Some(run(request, sources, histories))
}

proof fn lemma_lines_total_grows(hs: Seq<History>, i: int, n: int)
    requires
        0 <= i <= n,
    ensures
        lines_total(hs, i) <= lines_total(hs, n),
    decreases n - i,
{
    if i < n {
        lemma_lines_total_grows(hs, i + 1, n);
    }
}

fn append_indices(v: &mut Vec<usize>, more: &Vec<usize>)
    ensures
        final(v)@ == old(v)@ + more@,
{
    let mut i: usize = 0;
    while i < more.len()
        invariant
            i <= more@.len(),
            v@ == old(v)@ + more@.take(i as int),
        decreases more.len() - i,
    {
        v.push(more[i]);
        assert(more@.take(i + 1) =~= more@.take(i as int).push(more@[i as int]));
        i += 1;
    }
    assert(more@.take(i as int) =~= more@);
}

/// The hit a found line becomes.
fn make_hit(sources: &Vec<Source>, histories: &Vec<History>, f: &Found) -> (h: Hit)
    requires
        f.source < sources@.len(),
        f.source < histories@.len(),
        f.line < histories@[f.source as int].lines@.len(),
        history_fits(histories@[f.source as int]),
    ensures
        h@ == hit_spec(sources@, histories@, f@),
{
    let history = &histories[f.source];
    let line = &history.lines[f.line];
    assert(history_fits(histories@[f.source as int]));
    assert(history.lines@[f.line as int] == line);
    let (text, ranges) = snippet(line.text.as_str(), &f.matched.ranges);
    Hit {
        session: sources[f.source].session.clone(),
        shell: sources[f.source].shell,
        text,
        ranges,
        back: f.back,
        scroll: history.scroll_to(line.row),
        row: history.row_on_screen(line.row),
        exact: f.matched.exact,
        score: f.matched.score,
    }
}

/// An answer with nothing found, for a query that did not run.
fn empty_answer(request: Request, error: Option<String>) -> (a: Answer)
    ensures
        a.request == request,
        a.error == error,
        a.hits@.len() == 0,
        a.total == 0,
        a.sessions == 0,
        a.lines == 0,
{
    Answer { request, hits: Vec::new(), total: 0, sessions: 0, lines: 0, elapsed: no_time(), error }
}

/// What a search of `histories` for `request` answers: the query's error,
/// or nothing for an empty query, or every matching line counted and the best
/// hits ranked.
pub open spec fn search_answer(request: Request, sources: Seq<Source>, histories: Seq<History>, a: Answer) -> bool {
    &&& a.request == request
    &&& match parse_spec(request.query@) {
        Err(m) => a.error matches Some(e) && e@ == m && a.hits@.len() == 0 && a.total == 0 && a.sessions == 0 && a.lines == 0,
        Ok(None) => a.error is None && a.hits@.len() == 0 && a.total == 0 && a.sessions == 0 && a.lines == 0,
        Ok(Some(q)) => {
            let f = founds(q, histories, histories.len() as int);
            let r = ranked(sources, f);
            &&& a.error is None
            &&& a.total == f.len()
            &&& a.sessions == distinct_sessions(sources, sources.len() as int).len()
            &&& a.lines == lines_total(histories, histories.len() as int)
            &&& a.hits@.len() == r.len()
            &&& forall|k: int| 0 <= k < r.len() ==> (#[trigger] a.hits@[k])@ == hit_spec(sources, histories, f[r[k] as int])
        },
    }
}

/// Run one search over terminals whose histories have been read: every
/// matching line, ranked best first, at most [`HITS_PER_SESSION`] from one
/// session and [`MAX_HITS`] in all. The answer's `elapsed` is left for the
/// caller, who timed the reading too.
pub fn run(request: Request, sources: &Vec<Source>, histories: &Vec<History>) -> (a: Answer)
    requires
        histories@.len() == sources@.len(),
        request.query@.len() <= MAX_TERMS,
        forall|i: int| 0 <= i < histories@.len() ==> history_fits(#[trigger] histories@[i]),
        lines_total(histories@, histories@.len() as int) <= usize::MAX,
    ensures
        search_answer(request, sources@, histories@, a),
{
    let query = match Query::parse(request.query.as_str()) {
        Ok(Some(q)) => q,
        Ok(None) => {
            return empty_answer(request, None);
        },
        Err(e) => {
            return empty_answer(request, Some(e));
        },
    };
    proof { lemma_parsed_terms(request.query@); }
    let ghost q = query@;
    let ghost hs = histories@;
    let n = sources.len();

    // Every matching line, terminal by terminal.
    let mut found: Vec<Found> = Vec::new();
    let mut lines: usize = 0;
    let mut i: usize = 0;
    while i < n
        invariant
            n == sources@.len(),
            n == hs.len(),
            hs == histories@,
            q == query@,
            q.terms.len() <= MAX_TERMS,
            forall|x: int| 0 <= x < hs.len() ==> history_fits(#[trigger] hs[x]),
            lines_total(hs, n as int) <= usize::MAX,
            i <= n,
            found_view(found@) == founds(q, hs, i as int),
            lines == lines_total(hs, i as int),
            forall|k: int| 0 <= k < found@.len() ==> (#[trigger] found@[k]).source < i && found@[k].line < hs[found@[k].source as int].lines@.len(),
        decreases n - i,
    {
        let h = &histories[i];
        assert(history_fits(hs[i as int]));
        let mut j: usize = 0;
        while j < h.lines.len()
            invariant
                n == sources@.len(),
                n == hs.len(),
                hs == histories@,
                q == query@,
                q.terms.len() <= MAX_TERMS,
                i < n,
                *h == hs[i as int],
                history_fits(*h),
                j <= h.lines@.len(),
                found_view(found@) == founds(q, hs, i as int) + found_lines(q, *h, i as int, j as int),
                forall|k: int| 0 <= k < found@.len() ==> (#[trigger] found@[k]).source <= i && found@[k].line < hs[found@[k].source as int].lines@.len(),
            decreases h.lines.len() - j,
        {
            let line = &h.lines[j];
            assert(h.lines@[j as int] == line);
            match query.match_folded(line.text.as_str(), line.folded.as_str()) {
                Some(m) => {
                    let back = h.back(line.row);
                    let ghost before = found@;
                    found.push(Found { source: i, line: j, matched: m, back });
                    assert(found_view(found@) =~= found_view(before).push(found@.last()@));
                },
                None => {},
            }
            j += 1;
        }
        proof {
            assert(founds(q, hs, i + 1) == founds(q, hs, i as int) + found_lines(q, hs[i as int], i as int, hs[i as int].lines@.len() as int));
        }
        proof { lemma_lines_total_grows(hs, i + 1, n as int); }
        lines = lines + h.lines.len();
        i += 1;
    }
    let ghost fs = founds(q, hs, n as int);
    let ghost le = rank_le(sources@, fs);
    let total = found.len();
    assert(found_view(found@).len() == found@.len());
    let ranker = Ranker::new(sources);
    assert(ranker.fits(sources@, found@));

    // The distinct sessions, and which one each terminal belongs to.
    let ghost d = distinct_sessions(sources@, n as int);
    let mut firsts: Vec<usize> = Vec::new();
    let mut sid: Vec<usize> = Vec::new();
    let mut s: usize = 0;
    while s < n
        invariant
            n == sources@.len(),
            s <= n,
            sid@.len() == s,
            firsts@.len() == distinct_sessions(sources@, s as int).len(),
            forall|g: int| 0 <= g < firsts@.len() ==> #[trigger] firsts@[g] < s && sources@[firsts@[g] as int].session@ == distinct_sessions(sources@, s as int)[g],
            forall|t: int| 0 <= t < s ==> #[trigger] sid@[t] < firsts@.len() && distinct_sessions(sources@, s as int)[sid@[t] as int] == sources@[t].session@,
        decreases n - s,
    {
        let ghost dd = distinct_sessions(sources@, s as int);
        let mut g: usize = 0;
        while g < firsts.len() && sources[firsts[g]].session != sources[s].session
            invariant
                n == sources@.len(),
                s < n,
                g <= firsts@.len(),
                firsts@.len() == dd.len(),
                forall|x: int| 0 <= x < firsts@.len() ==> #[trigger] firsts@[x] < s && sources@[firsts@[x] as int].session@ == dd[x],
                forall|x: int| 0 <= x < g ==> dd[x] != sources@[s as int].session@,
            decreases firsts.len() - g,
        {
            g += 1;
        }
        if g == firsts.len() {
            proof {
                assert(!dd.contains(sources@[s as int].session@));
            }
            firsts.push(s);
            sid.push(g);
        } else {
            proof {
                assert(dd[g as int] == sources@[s as int].session@);
                assert(dd.contains(sources@[s as int].session@));
            }
            sid.push(g);
        }
        s += 1;
    }
    proof { lemma_distinct_unique(sources@, n as int); }

    // Each session's best, one session after another.
    let mut kept_v: Vec<usize> = Vec::new();
    let mut g: usize = 0;
    assert(d.take(0) =~= Seq::<Seq<char>>::empty());
    while g < firsts.len()
        invariant
            n == sources@.len(),
            ranker.fits(sources@, found@),
            fs == found_view(found@),
            d == distinct_sessions(sources@, n as int),
            firsts@.len() == d.len(),
            sid@.len() == n,
            forall|a: int, b: int| 0 <= a < b < d.len() ==> d[a] != d[b],
            forall|t: int| 0 <= t < n ==> #[trigger] sid@[t] < firsts@.len() && d[sid@[t] as int] == sources@[t].session@,
            g <= firsts@.len(),
            kept_v@ == kept(sources@, fs, d.take(g as int)),
            forall|k: int| 0 <= k < kept_v@.len() ==> #[trigger] kept_v@[k] < found@.len(),
        decreases firsts.len() - g,
    {
        let mut members: Vec<usize> = Vec::new();
        let mut k: usize = 0;
        while k < found.len()
            invariant
                n == sources@.len(),
                ranker.fits(sources@, found@),
                fs == found_view(found@),
                sid@.len() == n,
                g < d.len(),
                forall|a: int, b: int| 0 <= a < b < d.len() ==> d[a] != d[b],
                forall|t: int| 0 <= t < n ==> #[trigger] sid@[t] < firsts@.len() && d[sid@[t] as int] == sources@[t].session@,
                firsts@.len() == d.len(),
                k <= found@.len(),
                members@ == group(sources@, fs, d[g as int], k as int),
                forall|x: int| 0 <= x < members@.len() ==> #[trigger] members@[x] < k,
            decreases found.len() - k,
        {
            let src = found[k].source;
            assert(fs[k as int] == found@[k as int]@);
            proof {
                let sg = sid@[src as int] as int;
                if sg != g as int {
                    if sg < g {
                        assert(d[sg] != d[g as int]);
                    } else {
                        assert(d[g as int] != d[sg]);
                    }
                }
            }
            if sid[src] == g {
                members.push(k);
            }
            k += 1;
        }
        let best = ranker.select(sources, &found, &members, HITS_PER_SESSION);
        append_indices(&mut kept_v, &best);
        proof {
            assert(d.take(g + 1).drop_last() =~= d.take(g as int));
            assert(d.take(g + 1).last() == d[g as int]);
        }
        g += 1;
    }
    assert(d.take(g as int) =~= d);
    let chosen = ranker.select(sources, &found, &kept_v, MAX_HITS);
    assert(chosen@ == ranked(sources@, fs));

    // The chosen lines as hits.
    let mut hits: Vec<Hit> = Vec::new();
    let mut k: usize = 0;
    while k < chosen.len()
        invariant
            n == sources@.len(),
            hs == histories@,
            n == hs.len(),
            forall|x: int| 0 <= x < hs.len() ==> history_fits(#[trigger] hs[x]),
            fs == found_view(found@),
            forall|x: int| 0 <= x < found@.len() ==> (#[trigger] found@[x]).source < n && found@[x].line < hs[found@[x].source as int].lines@.len(),
            forall|x: int| 0 <= x < chosen@.len() ==> #[trigger] chosen@[x] < found@.len(),
            k <= chosen@.len(),
            hits@.len() == k,
            forall|x: int| 0 <= x < k ==> (#[trigger] hits@[x])@ == hit_spec(sources@, hs, fs[chosen@[x] as int]),
        decreases chosen.len() - k,
    {
        let at = chosen[k];
        assert(fs[at as int] == found@[at as int]@);
        assert(found@[at as int].source < n);
        let hit = make_hit(sources, histories, &found[at]);
        hits.push(hit);
        k += 1;
    }
    Answer { request, hits, total, sessions: firsts.len(), lines, elapsed: no_time(), error: None }
}

/// What a search publishes is bounded and best first: at most `MAX_HITS`
/// hits, in rank order.
pub proof fn lemma_hits_bounded_and_best_first(srcs: Seq<Source>, f: Seq<FoundSpec>)
    ensures
        ranked(srcs, f).len() <= MAX_HITS,
        sorted_by(ranked(srcs, f), rank_le(srcs, f)),
{
    let leq = rank_le(srcs, f);
    let xs = kept(srcs, f, distinct_sessions(srcs, srcs.len() as int));
    lemma_rank_total(srcs, f);
    xs.lemma_sort_by_ensures(leq);
    let s = xs.sort_by(leq);
    if (MAX_HITS as int) < s.len() {
        assert forall|a: int, b: int| 0 <= a < b < s.take(MAX_HITS as int).len() implies
            #[trigger] leq(s.take(MAX_HITS as int)[a], s.take(MAX_HITS as int)[b]) by {
            assert(leq(s[a], s[b]));
        }
    }
}

/// No session takes more than `HITS_PER_SESSION` of what is kept for it.
pub proof fn lemma_each_session_is_capped(srcs: Seq<Source>, f: Seq<FoundSpec>, name: Seq<char>)
    ensures
        top(group(srcs, f, name, f.len() as int), rank_le(srcs, f), HITS_PER_SESSION as int).len() <= HITS_PER_SESSION,
{
}


/// Hits come best first: no fuzzy hit is listed ahead of an exact one, and
/// among hits equally exact none is listed ahead of one that scored higher.
pub proof fn lemma_hits_come_best_first(
    request: Request,
    sources: Seq<Source>,
    histories: Seq<History>,
    a: Answer,
    k: int,
    l: int,
)
    requires
        search_answer(request, sources, histories, a),
        0 <= k < l < a.hits@.len(),
    ensures
        a.hits@[l]@.exact ==> a.hits@[k]@.exact,
        a.hits@[k]@.exact == a.hits@[l]@.exact ==> a.hits@[k]@.score >= a.hits@[l]@.score,
{
    match parse_spec(request.query@) {
        Ok(Some(q)) => {
            let f = founds(q, histories, histories.len() as int);
            let le = rank_le(sources, f);
            let xs = kept(sources, f, distinct_sessions(sources, sources.len() as int));
            lemma_rank_total(sources, f);
            xs.lemma_sort_by_ensures(le);
            let sorted = xs.sort_by(le);
            let r = ranked(sources, f);
            assert(r[k] == sorted[k] && r[l] == sorted[l]);
            assert(le(sorted[k], sorted[l]));
            assert(a.hits@[k]@ == hit_spec(sources, histories, f[r[k] as int]));
            assert(a.hits@[l]@ == hit_spec(sources, histories, f[r[l] as int]));
        },
        _ => {},
    }
}
} // verus!
