//! Links printed on a terminal: found in the text of its rows and resolved
//! from a clicked cell.
//!
//! A link is a run that starts with `https://`, `http://` or `file://` and
//! goes on to the first white space or one of `<>"'` `` ` `` `)]`, with
//! trailing punctuation taken off. Its place is given in display cells, not
//! characters: a wide glyph before it shifts it two columns, which is where a
//! click on the grid lands.
use vstd::prelude::*;
use crate::text::{is_whitespace, unicode_whitespace, to_chars, string_of, utf8_width};
use crate::query::byte_len;

verus! {

/// `UnicodeWidthStr::width`: the columns a string takes on a terminal, by
/// the crate's tables of wide, zero-width and emoji sequences.
pub uninterp spec fn str_width(s: Seq<char>) -> usize;

/// The display width of `s`, as `unicode_width` measures it.
#[verifier::external_body]
pub(crate) fn display_width(s: &str) -> (w: usize)
    ensures
        w == str_width(s@),
{
    unicode_width::UnicodeWidthStr::width(s)
}

/// One link on a screen: its row, the cells it covers (`end_col` exclusive)
/// and its target.
#[derive(Debug)]
pub struct DetectedLink {
    pub row: usize,
    pub start_col: usize,
    pub end_col: usize,
    pub url: String,
}

pub struct LinkView {
    pub row: int,
    pub start_col: int,
    pub end_col: int,
    pub url: Seq<char>,
}

impl View for DetectedLink {
    type V = LinkView;

    open spec fn view(&self) -> LinkView {
        LinkView { row: self.row as int, start_col: self.start_col as int, end_col: self.end_col as int, url: self.url@ }
    }
}

/// `lit` stands in `row` at `i`.
pub open spec fn text_at(row: Seq<char>, i: int, lit: Seq<char>) -> bool {
    0 <= i && i + lit.len() <= row.len() && row.subrange(i, i + lit.len()) == lit
}

/// The length of the scheme a link starting at `i` would begin with, trying
/// `https://`, then `http://`, then `file://`.
pub open spec fn scheme_at(row: Seq<char>, i: int) -> Option<int> {
    if text_at(row, i, "https://"@) {
        Some(8)
    } else if text_at(row, i, "http://"@) {
        Some(7)
    } else if text_at(row, i, "file://"@) {
        Some(7)
    } else {
        None
    }
}

/// A character that ends a link's run.
pub open spec fn terminator(c: char) -> bool {
    unicode_whitespace(c) || c == '<' || c == '>' || c == '"' || c == '\'' || c == '`' || c == ')' || c == ']'
}

/// Where a run going on from `j` ends: the first terminator, or the row's end.
pub open spec fn run_end(row: Seq<char>, j: int) -> int
    decreases row.len() - j,
{
    if j < 0 || j >= row.len() {
        row.len() as int
    } else if terminator(row[j]) {
        j
    } else {
        run_end(row, j + 1)
    }
}

/// Punctuation a link does not end with.
pub open spec fn trailing(c: char) -> bool {
    c == '.' || c == ',' || c == ';' || c == ':' || c == ')' || c == ']'
}

/// `url` with its trailing punctuation taken off.
pub open spec fn strip(url: Seq<char>) -> Seq<char>
    decreases url.len(),
{
    if url.len() > 0 && trailing(url.last()) {
        strip(url.drop_last())
    } else {
        url
    }
}

/// A run is a link once stripped only if more than a bare scheme is left:
/// longer than `https://` in bytes.
pub open spec fn kept(url: Seq<char>) -> bool {
    byte_len(url) > 8
}

/// `a + b`, or the largest `usize` where that does not fit.
pub open spec fn sat_add(a: usize, b: usize) -> usize {
    if a + b <= usize::MAX { (a + b) as usize } else { usize::MAX }
}

/// The link whose run starts at `start` in row `r`, once stripped to `url`.
pub open spec fn link_at(r: int, row: Seq<char>, start: int, url: Seq<char>) -> LinkView {
    let from = str_width(row.take(start));
    LinkView { row: r, start_col: from as int, end_col: sat_add(from, str_width(url)) as int, url }
}

/// The links of row `r` found scanning from `i` on: at a scheme, the run to
/// its terminator is taken (as a link when enough is left of it) and the scan
/// goes on after it; anywhere else it moves one character on.
pub open spec fn row_links(r: int, row: Seq<char>, i: int) -> Seq<LinkView>
    decreases row.len() - i,
{
    if i < 0 || i >= row.len() {
        Seq::empty()
    } else {
        match scheme_at(row, i) {
            Some(n) => {
                let e = run_end(row, i + n);
                if e <= i || e > row.len() {
                    Seq::empty()
                } else {
                    let url = strip(row.subrange(i, e));
                    if kept(url) {
                        seq![link_at(r, row, i, url)] + row_links(r, row, e)
                    } else {
                        row_links(r, row, e)
                    }
                }
            },
            None => row_links(r, row, i + 1),
        }
    }
}

/// The links of every row, row by row.
pub open spec fn screen_links(rows: Seq<Seq<char>>) -> Seq<LinkView>
    decreases rows.len(),
{
    if rows.len() == 0 {
        Seq::empty()
    } else {
        screen_links(rows.drop_last()) + row_links(rows.len() - 1, rows.last(), 0)
    }
}

proof fn lemma_run_end(row: Seq<char>, j: int)
    requires
        0 <= j <= row.len(),
    ensures
        j <= run_end(row, j) <= row.len(),
    decreases row.len() - j,
{
    if j < row.len() && !terminator(row[j]) {
        lemma_run_end(row, j + 1);
    }
}

proof fn lemma_scheme_fits(row: Seq<char>, i: int)
    ensures
        scheme_at(row, i) matches Some(n) ==> 0 <= i && i + n <= row.len() && n > 0,
{
    reveal_strlit("https://");
    reveal_strlit("http://");
    reveal_strlit("file://");
}

/// Whether `lit` stands in `row` at `i`.
fn has_text_at(row: &Vec<char>, i: usize, lit: &str) -> (r: bool)
    requires
        i <= row@.len(),
    ensures
        r == text_at(row@, i as int, lit@),
{
    let l = to_chars(lit);
    if l.len() > row.len() - i {
        return false;
    }
    let mut k: usize = 0;
    while k < l.len()
        invariant
            l@ == lit@,
            i + l@.len() <= row.len(),
            k <= l@.len(),
            forall|m: int| 0 <= m < k ==> row@[i + m] == l@[m],
        decreases l.len() - k,
    {
        assert(i + k < row@.len());
        let at: usize = i + k;
        if row[at] != l[k] {
            assert(row@.subrange(i as int, i + l@.len())[k as int] != l@[k as int]);
            return false;
        }
        k += 1;
    }
    assert(row@.subrange(i as int, i + l@.len()) =~= l@);
    true
}

fn scheme_len(row: &Vec<char>, i: usize) -> (r: Option<usize>)
    requires
        i <= row@.len(),
    ensures
        match scheme_at(row@, i as int) {
            Some(n) => r == Some(n as usize),
            None => r is None,
        },
{
    if has_text_at(row, i, "https://") {
        proof { reveal_strlit("https://"); }
        Some(8)
    } else if has_text_at(row, i, "http://") {
        proof { reveal_strlit("http://"); }
        Some(7)
    } else if has_text_at(row, i, "file://") {
        proof { reveal_strlit("file://"); }
        Some(7)
    } else {
        None
    }
}

fn is_terminator(c: char) -> (r: bool)
    ensures
        r == terminator(c),
{
    is_whitespace(c) || c == '<' || c == '>' || c == '"' || c == '\'' || c == '`' || c == ')' || c == ']'
}

proof fn lemma_byte_len_prefix(s: Seq<char>, k: int)
    requires
        0 <= k <= s.len(),
    ensures
        byte_len(s.take(k)) <= byte_len(s),
        byte_len(s.take(k)) >= 0,
    decreases s.len() - k,
{
    if k < s.len() {
        lemma_byte_len_prefix(s, k + 1);
        assert(s.take(k + 1).drop_last() =~= s.take(k));
    } else {
        assert(s.take(k) =~= s);
    }
    lemma_byte_len_nonneg(s.take(k));
}

proof fn lemma_byte_len_nonneg(s: Seq<char>)
    ensures
        byte_len(s) >= 0,
    decreases s.len(),
{
    if s.len() > 0 {
        lemma_byte_len_nonneg(s.drop_last());
    }
}

/// Whether `chars[from..to]` is longer than `https://` in bytes.
fn longer_than_scheme(chars: &Vec<char>, from: usize, to: usize) -> (r: bool)
    requires
        from <= to <= chars@.len(),
    ensures
        r == kept(chars@.subrange(from as int, to as int)),
{
    let ghost url = chars@.subrange(from as int, to as int);
    let mut bytes: usize = 0;
    let mut i: usize = from;
    while i < to
        invariant
            from <= i <= to <= chars@.len(),
            url == chars@.subrange(from as int, to as int),
            bytes == byte_len(url.take(i - from)),
            bytes <= 8,
        decreases to - i,
    {
        let c = chars[i];
        let w: usize = if (c as u32) < 0x80 { 1 } else if (c as u32) < 0x800 { 2 } else if (c as u32) < 0x10000 { 3 } else { 4 };
        assert(url.take(i + 1 - from).drop_last() =~= url.take(i - from));
        assert(url.take(i + 1 - from).last() == c);
        bytes = bytes + w;
        i += 1;
        if bytes > 8 {
            proof { lemma_byte_len_prefix(url, i - from); }
            return true;
        }
    }
    assert(url.take(to - from) =~= url);
    false
}

/// Every link in the rows of a screen, row by row and left to right.
pub fn detect_urls(screen_rows: &[String]) -> (links: Vec<DetectedLink>)
    ensures
        links@.map_values(|l: DetectedLink| l@) == screen_links(screen_rows@.map_values(|s: String| s@)),
{
    let mut links: Vec<DetectedLink> = Vec::new();
    let ghost rows = screen_rows@.map_values(|s: String| s@);
    let mut r: usize = 0;
    while r < screen_rows.len()
        invariant
            r <= screen_rows@.len(),
            rows == screen_rows@.map_values(|s: String| s@),
            links@.map_values(|l: DetectedLink| l@) == screen_links(rows.take(r as int)),
        decreases screen_rows.len() - r,
    {
        let row = to_chars(screen_rows[r].as_str());
        assert(row@ == rows[r as int]);
        let ghost before = links@.map_values(|l: DetectedLink| l@);
        let mut i: usize = 0;
        while i < row.len()
            invariant
                i <= row@.len(),
                r < screen_rows@.len(),
                row@ == rows[r as int],
                rows == screen_rows@.map_values(|s: String| s@),
                before == screen_links(rows.take(r as int)),
                before + row_links(r as int, row@, 0) == links@.map_values(|l: DetectedLink| l@) + row_links(r as int, row@, i as int),
            decreases row.len() - i,
        {
            proof { lemma_scheme_fits(row@, i as int); }
            let ghost found = links@.map_values(|l: DetectedLink| l@);
            match scheme_len(&row, i) {
                Some(n) => {
                    let mut e: usize = i + n;
                    proof { lemma_run_end(row@, e as int); }
                    while e < row.len() && !is_terminator(row[e])
                        invariant
                            i + n <= e <= row@.len(),
                            run_end(row@, e as int) == run_end(row@, (i + n) as int),
                        decreases row.len() - e,
                    {
                        e += 1;
                    }
                    let mut end = e;
                    while end > i && (row[end - 1] == '.' || row[end - 1] == ',' || row[end - 1] == ';'
                        || row[end - 1] == ':' || row[end - 1] == ')' || row[end - 1] == ']')
                        invariant
                            i <= end <= e <= row@.len(),
                            strip(row@.subrange(i as int, end as int)) == strip(row@.subrange(i as int, e as int)),
                        decreases end - i,
                    {
                        assert(row@.subrange(i as int, end - 1) =~= row@.subrange(i as int, end as int).drop_last());
                        end -= 1;
                    }
                    proof {
                        let u = row@.subrange(i as int, end as int);
                        if u.len() > 0 {
                            assert(u.last() == row@[end - 1]);
                        }
                        assert(strip(u) == u);
                    }
                    let ghost url_v = strip(row@.subrange(i as int, e as int));
                    proof { lemma_run_end(row@, (i + n) as int); }
                    assert(e as int == run_end(row@, (i + n) as int));
                    let keep = longer_than_scheme(&row, i, end);
                    assert(row_links(r as int, row@, i as int) == if kept(url_v) {
                        seq![link_at(r as int, row@, i as int, url_v)] + row_links(r as int, row@, e as int)
                    } else {
                        row_links(r as int, row@, e as int)
                    });
                    if keep {
                        let head = string_of(row.as_slice(), 0, i);
                        assert(head@ == row@.take(i as int));
                        let from = display_width(head.as_str());
                        let url = string_of(row.as_slice(), i, end);
                        let span = display_width(url.as_str());
                        let to = match from.checked_add(span) {
                            Some(t) => t,
                            None => usize::MAX,
                        };
                        links.push(DetectedLink { row: r, start_col: from, end_col: to, url });
                        assert(links@.map_values(|l: DetectedLink| l@) =~= found.push(link_at(r as int, row@, i as int, url_v)));
                        assert(found + (seq![link_at(r as int, row@, i as int, url_v)] + row_links(r as int, row@, e as int))
                            =~= found.push(link_at(r as int, row@, i as int, url_v)) + row_links(r as int, row@, e as int));
                    }
                    i = e;
                },
                None => {
                    assert(row_links(r as int, row@, i as int) == row_links(r as int, row@, i + 1));
                    i += 1;
                },
            }
        }
        assert(rows.take(r + 1).drop_last() =~= rows.take(r as int));
        assert(rows.take(r + 1).last() == row@);
        assert(row_links(r as int, row@, i as int) =~= Seq::<LinkView>::empty());
        r += 1;
    }
    assert(rows.take(screen_rows@.len() as int) =~= rows);
    links
}

/// The first link from `i` on that covers cell `col` of row `row`.
pub open spec fn link_under(links: Seq<LinkView>, row: int, col: int, i: int) -> Option<int>
    decreases links.len() - i,
{
    if i < 0 || i >= links.len() {
        None
    } else if links[i].row == row && links[i].start_col <= col < links[i].end_col {
        Some(i)
    } else {
        link_under(links, row, col, i + 1)
    }
}

proof fn lemma_link_under(links: Seq<LinkView>, row: int, col: int, k: int)
    requires
        0 <= k,
    ensures
        link_under(links, row, col, k) matches Some(i) ==> k <= i < links.len(),
    decreases links.len() - k,
{
    if k < links.len() && !(links[k].row == row && links[k].start_col <= col < links[k].end_col) {
        lemma_link_under(links, row, col, k + 1);
    }
}

/// The URL of the first link covering a screen cell, if any.
pub fn url_at_position(links: &[DetectedLink], row: usize, col: usize) -> (r: Option<&str>)
    ensures
        match link_under(links@.map_values(|l: DetectedLink| l@), row as int, col as int, 0) {
            Some(i) => r matches Some(u) && u@ == links@[i].url@,
            None => r is None,
        },
{
    let ghost views = links@.map_values(|l: DetectedLink| l@);
    proof { lemma_link_under(views, row as int, col as int, 0); }
    let mut i: usize = 0;
    while i < links.len()
        invariant
            i <= links@.len(),
            views == links@.map_values(|l: DetectedLink| l@),
            link_under(views, row as int, col as int, i as int) == link_under(views, row as int, col as int, 0),
        decreases links.len() - i,
    {
        let link = &links[i];
        if link.row == row && col >= link.start_col && col < link.end_col {
            return Some(link.url.as_str());
        }
        i += 1;
    }
    None
}

/// The links to offer on a screen: first the rich-text runs — target, row
/// and column each — then every plain-text link whose first cell no run
/// covers (`covered[k]` says so of the `k`-th detected link). Where an
/// escape wraps a bare URL its target is what a terminal honours, so
/// listing both would offer the same link twice.
pub open spec fn offered(runs: Seq<(Seq<char>, usize, usize)>, detected: Seq<LinkView>, covered: Seq<bool>, k: int) -> Seq<(Seq<char>, int, int)>
    decreases k,
{
    if k <= 0 {
        runs.map_values(|r: (Seq<char>, usize, usize)| (r.0, r.1 as int, r.2 as int))
    } else {
        let before = offered(runs, detected, covered, k - 1);
        if covered[k - 1] {
            before
        } else {
            before.push((detected[k - 1].url, detected[k - 1].row, detected[k - 1].start_col))
        }
    }
}

/// Every link on a screen, rich-text runs first, then the plain-text links
/// no run covers.
pub fn offered_links(runs: &Vec<(String, usize, usize)>, detected: &Vec<DetectedLink>, covered: &Vec<bool>) -> (r: Vec<(String, usize, usize)>)
    requires
        covered@.len() == detected@.len(),
    ensures
        r@.map_values(|l: (String, usize, usize)| (l.0@, l.1 as int, l.2 as int))
            == offered(runs@.map_values(|l: (String, usize, usize)| (l.0@, l.1, l.2)), detected@.map_values(|l: DetectedLink| l@), covered@, detected@.len() as int),
{
    let ghost rv = runs@.map_values(|l: (String, usize, usize)| (l.0@, l.1, l.2));
    let ghost dv = detected@.map_values(|l: DetectedLink| l@);
    let mut out: Vec<(String, usize, usize)> = Vec::new();
    let mut i: usize = 0;
    while i < runs.len()
        invariant
            i <= runs@.len(),
            rv == runs@.map_values(|l: (String, usize, usize)| (l.0@, l.1, l.2)),
            out@.map_values(|l: (String, usize, usize)| (l.0@, l.1 as int, l.2 as int))
                == rv.take(i as int).map_values(|r: (Seq<char>, usize, usize)| (r.0, r.1 as int, r.2 as int)),
        decreases runs.len() - i,
    {
        let ghost before = out@.map_values(|l: (String, usize, usize)| (l.0@, l.1 as int, l.2 as int));
        out.push((runs[i].0.clone(), runs[i].1, runs[i].2));
        proof {
            assert(rv.take(i + 1) =~= rv.take(i as int).push(rv[i as int]));
            assert(out@.map_values(|l: (String, usize, usize)| (l.0@, l.1 as int, l.2 as int)) =~= before.push((runs@[i as int].0@, runs@[i as int].1 as int, runs@[i as int].2 as int)));
            assert(rv.take(i + 1).map_values(|r: (Seq<char>, usize, usize)| (r.0, r.1 as int, r.2 as int))
                =~= rv.take(i as int).map_values(|r: (Seq<char>, usize, usize)| (r.0, r.1 as int, r.2 as int)).push((rv[i as int].0, rv[i as int].1 as int, rv[i as int].2 as int)));
        }
        i += 1;
    }
    assert(rv.take(i as int) =~= rv);
    let mut k: usize = 0;
    while k < detected.len()
        invariant
            k <= detected@.len(),
            covered@.len() == detected@.len(),
            rv == runs@.map_values(|l: (String, usize, usize)| (l.0@, l.1, l.2)),
            dv == detected@.map_values(|l: DetectedLink| l@),
            out@.map_values(|l: (String, usize, usize)| (l.0@, l.1 as int, l.2 as int)) == offered(rv, dv, covered@, k as int),
        decreases detected.len() - k,
    {
        if !covered[k] {
            let ghost before = out@.map_values(|l: (String, usize, usize)| (l.0@, l.1 as int, l.2 as int));
            let link = &detected[k];
            out.push((link.url.clone(), link.row, link.start_col));
            assert(out@.map_values(|l: (String, usize, usize)| (l.0@, l.1 as int, l.2 as int)) =~= before.push((dv[k as int].url, dv[k as int].row, dv[k as int].start_col)));
        }
        k += 1;
    }
    out
}

/// The URL under one cell of a screen: the rich-text run's target there
/// (`linked`) when there is one — for such a link the escape is the only
/// place its target exists — else the first plain-text link covering it.
pub fn url_at(linked: Option<String>, detected: &[DetectedLink], row: usize, col: usize) -> (r: Option<String>)
    ensures
        match linked {
            Some(u) => r matches Some(t) && t@ == u@,
            None => match link_under(detected@.map_values(|l: DetectedLink| l@), row as int, col as int, 0) {
                Some(i) => r matches Some(t) && t@ == detected@[i].url@,
                None => r is None,
            },
        },
{
    match linked {
        Some(u) => Some(u),
        None => match url_at_position(detected, row, col) {
            Some(u) => Some(u.to_string()),
            None => None,
        },
    }
}

/// What one cell of a vt100 screen holds: nothing (past the grid), the
/// trailing half of a wide glyph, or a glyph's text.
pub enum CellText {
    Missing,
    Continuation,
    Glyph(String),
}

/// The cells of a screen's view, by row and column: for each cell that
/// exists, whether it is the trailing half of a wide glyph, and its text.
pub uninterp spec fn screen_cells(screen: vt100::Screen) -> Map<(u16, u16), (bool, Seq<char>)>;

/// A cell of the view as the contracts read it.
pub open spec fn cell_view(screen: vt100::Screen, row: u16, col: u16) -> Option<(bool, Seq<char>)> {
    if screen_cells(screen).dom().contains((row, col)) {
        Some(screen_cells(screen)[(row, col)])
    } else {
        None
    }
}

/// A cell of the view as vt100 holds it.
pub struct CellParts {
    /// Whether it is the trailing half of a wide glyph.
    pub continues: bool,
    pub text: String,
}

/// `Screen::cell` of vt100, as plain values: `None` where there is no cell
/// at (`row`, `col`) of the view, else whether the cell continues a wide
/// glyph and its text.
#[verifier::external_body]
fn screen_cell_parts(screen: &vt100::Screen, row: u16, col: u16) -> (r: Option<CellParts>)
    ensures
        r is Some <==> screen_cells(*screen).dom().contains((row, col)),
        r matches Some(p) ==> screen_cells(*screen)[(row, col)] == (p.continues, p.text@),
{
    screen.cell(row, col).map(|c| CellParts { continues: c.is_wide_continuation(), text: c.contents().to_string() })
}

/// The cell at (`row`, `col`) of the view: missing, the trailing half of a
/// wide glyph, or a glyph with its text.
fn screen_cell(screen: &vt100::Screen, row: u16, col: u16) -> (r: CellText)
    ensures
        !screen_cells(*screen).dom().contains((row, col)) ==> r is Missing,
        screen_cells(*screen).dom().contains((row, col)) ==> match screen_cells(*screen)[(row, col)] {
            (true, _) => r is Continuation,
            (false, t) => r matches CellText::Glyph(g) && g@ == t,
        },
{
    match screen_cell_parts(screen, row, col) {
        None => CellText::Missing,
        Some(p) => if p.continues {
            CellText::Continuation
        } else {
            CellText::Glyph(p.text)
        },
    }
}

/// The character the cell at (`row`, `col`) of the view shows: none for the
/// trailing half of a wide glyph, a blank past the grid.
pub open spec fn shown_at(screen: vt100::Screen, row: u16, col: u16) -> Option<char> {
    match cell_view(screen, row, col) {
        None => Some(' '),
        Some((true, _)) => None,
        Some((false, t)) => Some(if t.len() > 0 { t[0] } else { ' ' }),
    }
}

/// The text of the first `n` columns of row `row` of the view.
pub open spec fn view_row_text(screen: vt100::Screen, row: u16, n: int) -> Seq<char>
    decreases n,
{
    if n <= 0 {
        Seq::empty()
    } else {
        match shown_at(screen, row, (n - 1) as u16) {
            Some(c) => view_row_text(screen, row, n - 1).push(c),
            None => view_row_text(screen, row, n - 1),
        }
    }
}

/// The character a cell shows: the first of its text, or a blank.
pub open spec fn shown(cell: CellText) -> Option<char> {
    match cell {
        CellText::Missing => Some(' '),
        CellText::Continuation => None,
        CellText::Glyph(t) => Some(if t@.len() > 0 { t@[0] } else { ' ' }),
    }
}

/// One row of text from the cells read off it: one character per glyph, so a
/// wide glyph's trailing cell is skipped and display widths recover the
/// columns.
pub open spec fn row_text(cells: Seq<CellText>) -> Seq<char>
    decreases cells.len(),
{
    if cells.len() == 0 {
        Seq::empty()
    } else {
        match shown(cells.last()) {
            Some(c) => row_text(cells.drop_last()).push(c),
            None => row_text(cells.drop_last()),
        }
    }
}

/// The text of one row, from its cells in order.
pub fn row_from_cells(cells: &Vec<CellText>) -> (line: String)
    ensures
        line@ == row_text(cells@),
{
    let mut line = String::new();
    let mut i: usize = 0;
    while i < cells.len()
        invariant
            i <= cells@.len(),
            line@ == row_text(cells@.take(i as int)),
        decreases cells.len() - i,
    {
        assert(cells@.take(i + 1).drop_last() =~= cells@.take(i as int));
        assert(cells@.take(i + 1).last() == cells@[i as int]);
        match &cells[i] {
            CellText::Missing => crate::text::push_char(&mut line, ' '),
            CellText::Continuation => {},
            CellText::Glyph(t) => {
                let chars = to_chars(t.as_str());
                let c = if chars.len() > 0 { chars[0] } else { ' ' };
                crate::text::push_char(&mut line, c);
            },
        }
        i += 1;
    }
    assert(cells@.take(i as int) =~= cells@);
    line
}

/// The visible rows of a vt100 screen as text, one string per row.
pub fn extract_screen_rows(screen: &vt100::Screen) -> (r: Vec<String>)
    ensures
        r@.len() == crate::results::screen_dims(*screen).0,
        forall|i: int| 0 <= i < r@.len() ==> (#[trigger] r@[i])@ == view_row_text(*screen, i as u16, crate::results::screen_dims(*screen).1 as int),
{
    let (rows, cols) = crate::results::screen_size(screen);
    let mut out: Vec<String> = Vec::new();
    let mut row: u16 = 0;
    while row < rows
        invariant
            (rows, cols) == crate::results::screen_dims(*screen),
            row <= rows,
            out@.len() == row,
            forall|i: int| 0 <= i < row ==> (#[trigger] out@[i])@ == view_row_text(*screen, i as u16, cols as int),
        decreases rows - row,
    {
        let mut cells: Vec<CellText> = Vec::new();
        let mut col: u16 = 0;
        while col < cols
            invariant
                col <= cols,
                row_text(cells@) == view_row_text(*screen, row, col as int),
            decreases cols - col,
        {
            let c = screen_cell(screen, row, col);
            let ghost before = cells@;
            cells.push(c);
            proof {
                assert(cells@.drop_last() =~= before);
                assert(cells@.last() == c);
            }
            col += 1;
        }
        out.push(row_from_cells(&cells));
        row += 1;
    }
    out
}


/// A character a link's url may hold: not white space, and none of
/// `<`, `>`, `"`, `'`, a backtick, `)` or `]`.
pub open spec fn url_char(c: char) -> bool {
    !unicode_whitespace(c) && c != '<' && c != '>' && c != '"' && c != '\'' && c != '`' && c != ')' && c != ']'
}

proof fn lemma_run_is_clean(row: Seq<char>, j: int)
    requires
        0 <= j <= row.len(),
    ensures
        forall|k: int| j <= k < run_end(row, j) ==> url_char(#[trigger] row[k]),
    decreases row.len() - j,
{
    if j < row.len() && !terminator(row[j]) {
        lemma_run_is_clean(row, j + 1);
    }
}

proof fn lemma_strip_is_prefix(url: Seq<char>)
    ensures
        strip(url).len() <= url.len(),
        forall|k: int| 0 <= k < strip(url).len() ==> #[trigger] strip(url)[k] == url[k],
    decreases url.len(),
{
    if url.len() > 0 && trailing(url.last()) {
        lemma_strip_is_prefix(url.drop_last());
    }
}

proof fn lemma_scheme_is_clean(row: Seq<char>, i: int)
    ensures
        scheme_at(row, i) matches Some(n) ==> forall|k: int| i <= k < i + n ==> url_char(#[trigger] row[k]),
{
    reveal_strlit("https://");
    reveal_strlit("http://");
    reveal_strlit("file://");
    if let Some(n) = scheme_at(row, i) {
        let lit = if text_at(row, i, "https://"@) {
            "https://"@
        } else if text_at(row, i, "http://"@) {
            "http://"@
        } else {
            "file://"@
        };
        assert(row.subrange(i, i + n) == lit);
        assert forall|k: int| i <= k < i + n implies url_char(#[trigger] row[k]) by {
            assert(row[k] == row.subrange(i, i + n)[k - i]);
            assert(forall|m: int| 0 <= m < lit.len() ==> url_char(#[trigger] lit[m]));
        }
    }
}

proof fn lemma_row_links_are_clean(r: int, row: Seq<char>, i: int)
    requires
        0 <= i,
    ensures
        forall|l: int, k: int| 0 <= l < row_links(r, row, i).len() && 0 <= k < row_links(r, row, i)[l].url.len()
            ==> url_char(#[trigger] row_links(r, row, i)[l].url[k]),
    decreases row.len() - i,
{
    if i < row.len() {
        match scheme_at(row, i) {
            Some(n) => {
                lemma_scheme_fits(row, i);
                lemma_run_end(row, i + n);
                let e = run_end(row, i + n);
                if e > i && e <= row.len() {
                    lemma_row_links_are_clean(r, row, e);
                    lemma_run_is_clean(row, i + n);
                    lemma_scheme_is_clean(row, i);
                    let run = row.subrange(i, e);
                    let url = strip(run);
                    lemma_strip_is_prefix(run);
                    assert forall|k: int| 0 <= k < url.len() implies url_char(#[trigger] url[k]) by {
                        assert(url[k] == run[k]);
                        assert(run[k] == row[i + k]);
                    }
                    let rest = row_links(r, row, e);
                    if kept(url) {
                        let all = seq![link_at(r, row, i, url)] + rest;
                        assert(row_links(r, row, i) == all);
                        assert(all[0].url == url);
                        assert forall|l: int, k: int| 0 <= l < all.len() && 0 <= k < all[l].url.len()
                            implies url_char(#[trigger] all[l].url[k]) by {
                            if l > 0 {
                                assert(all[l] == rest[l - 1]);
                            }
                        }
                    } else {
                        assert(row_links(r, row, i) == rest);
                    }
                }
            },
            None => {
                lemma_row_links_are_clean(r, row, i + 1);
                assert(row_links(r, row, i) == row_links(r, row, i + 1));
            },
        }
    }
}

/// A link's url never holds white space or any of the characters that end a
/// run — `<`, `>`, `"`, `'`, a backtick, `)` and `]` — so a link followed by a
/// closing quote or bracket is taken without it.
pub proof fn lemma_links_stop_at_terminators(rows: Seq<Seq<char>>)
    ensures
        forall|l: int, k: int| 0 <= l < screen_links(rows).len() && 0 <= k < screen_links(rows)[l].url.len()
            ==> url_char(#[trigger] screen_links(rows)[l].url[k]),
    decreases rows.len(),
{
    if rows.len() > 0 {
        lemma_links_stop_at_terminators(rows.drop_last());
        lemma_row_links_are_clean(rows.len() - 1, rows.last(), 0);
        let before = screen_links(rows.drop_last());
        let here = row_links(rows.len() - 1, rows.last(), 0);
        let all = before + here;
        assert forall|l: int, k: int| 0 <= l < all.len() && 0 <= k < all[l].url.len()
            implies url_char(#[trigger] all[l].url[k]) by {
            if l >= before.len() {
                assert(all[l] == here[l - before.len()]);
            } else {
                assert(all[l] == before[l]);
            }
        }
    }
}
} // verus!
