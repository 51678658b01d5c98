//! Links re-printed over a drawn frame, so the terminal the multiplexer runs
//! in can open them.
//!
//! The frame is the source of truth: what a rect actually shows is what is
//! linked, so a covering modal, a scrolled pane or a repainted row yields
//! nothing rather than a link over cells that no longer show it. A cell is
//! its symbol and a style carried through untouched, so the re-print looks
//! the same to the eye. Walks over a row advance by each glyph's display
//! width: re-printing a wide glyph moves the cursor over both of its
//! columns, so the filler cell beside it must not be printed as well.
use vstd::prelude::*;
use crate::text::{is_whitespace, unicode_whitespace, to_chars};
use crate::links::{str_width, display_width};

verus! {

/// `UnicodeWidthChar::width`: the columns a character takes, none for a
/// control character.
pub uninterp spec fn char_width(c: char) -> Option<usize>;

/// The display width of `c`, as `unicode_width` measures it.
#[verifier::external_body]
fn display_char_width(c: char) -> (w: Option<usize>)
    ensures
        w == char_width(c),
{
    unicode_width::UnicodeWidthChar::width(c)
}

/// A drawn frame: each row's cells — symbol and style — from its top-left
/// corner `(left, top)`. A position outside it was not drawn.
pub struct DrawnFrame<S> {
    pub left: u16,
    pub top: u16,
    pub rows: Vec<Vec<(String, S)>>,
}

/// A rectangle of the frame.
#[derive(Clone, Copy, Debug, PartialEq, Eq, Structural)]
pub struct Rect {
    pub x: u16,
    pub y: u16,
    pub width: u16,
    pub height: u16,
}

/// One drawn row of a link, re-printed from `(x, y)`: its cells as the frame
/// holds them, wrapped in the link to `url`.
#[derive(Debug, Clone, PartialEq)]
pub struct HyperlinkPaint<S> {
    pub x: u16,
    pub y: u16,
    pub url: String,
    pub cells: Vec<(String, S)>,
}

/// Cells as text, their styles carried along.
pub open spec fn cells_view<S>(v: Seq<(String, S)>) -> Seq<(Seq<char>, S)> {
    v.map_values(|c: (String, S)| (c.0@, c.1))
}

/// The cell drawn at `(x, y)`, if any.
pub open spec fn frame_cell<S>(f: DrawnFrame<S>, x: int, y: int) -> Option<(Seq<char>, S)> {
    let r = y - f.top;
    let c = x - f.left;
    if 0 <= r < f.rows@.len() && 0 <= c < f.rows@[r].len() {
        Some((f.rows@[r]@[c].0@, f.rows@[r]@[c].1))
    } else {
        None
    }
}

pub open spec fn sat_add16(a: u16, b: u16) -> u16 {
    if a + b > u16::MAX { u16::MAX } else { (a + b) as u16 }
}

pub open spec fn sat_sub16(a: u16, b: u16) -> u16 {
    if a < b { 0 } else { (a - b) as u16 }
}

/// A rect's right edge and bottom edge, saturating.
pub open spec fn right_of(r: Rect) -> u16 {
    sat_add16(r.x, r.width)
}

pub open spec fn bottom_of(r: Rect) -> u16 {
    sat_add16(r.y, r.height)
}

/// How far the walk moves over a cell: its symbol's display width, at least
/// one column, as a column count.
pub open spec fn cell_step(sym: Seq<char>) -> u16 {
    (if str_width(sym) < 1 { 1 } else { str_width(sym) }) as u16
}

/// Every drawn cell moves the walk on: a symbol's width is never a whole
/// multiple of the column range.
pub open spec fn steps_forward<S>(f: DrawnFrame<S>) -> bool {
    forall|r: int, c: int| 0 <= r < f.rows@.len() && 0 <= c < f.rows@[r].len() ==> cell_step(#[trigger] f.rows@[r]@[c].0@) > 0
}

/// A symbol of only white space (or none).
pub open spec fn blank(s: Seq<char>) -> bool {
    forall|i: int| 0 <= i < s.len() ==> unicode_whitespace(#[trigger] s[i])
}

/// The walk along row `y` from column `x` to `right`: the column of the
/// first glyph shown, and the cells from there. Empty cells (a wide glyph's
/// cover) and leading blanks are skipped; the walk stops at the frame's edge.
pub open spec fn row_walk<S>(f: DrawnFrame<S>, y: u16, x: u16, right: u16, start: Option<u16>, cells: Seq<(Seq<char>, S)>) -> (Option<u16>, Seq<(Seq<char>, S)>)
    decreases u16::MAX - x,
{
    if x >= right {
        (start, cells)
    } else {
        match frame_cell(f, x as int, y as int) {
            None => (start, cells),
            Some((sym, st)) => {
                let w = cell_step(sym);
                let nx = sat_add16(x, w);
                if nx <= x {
                    (start, cells)
                } else if sym.len() == 0 || (start is None && blank(sym)) {
                    row_walk(f, y, nx, right, start, cells)
                } else {
                    let s = match start {
                        Some(s) => s,
                        None => sat_sub16(nx, w),
                    };
                    row_walk(f, y, nx, right, Some(s), cells.push((sym, st)))
                }
            },
        }
    }
}

/// `cells` with the blank cells at its end taken off.
pub open spec fn trim_blank<S>(cells: Seq<(Seq<char>, S)>) -> Seq<(Seq<char>, S)>
    decreases cells.len(),
{
    if cells.len() > 0 && blank(cells.last().0) {
        trim_blank(cells.drop_last())
    } else {
        cells
    }
}

/// Row `y`'s paint for a link to `url` over `rect`: from its first glyph,
/// trimmed of trailing blanks; none for a row that shows no glyph.
pub open spec fn row_paint<S>(f: DrawnFrame<S>, rect: Rect, y: u16, url: Seq<char>) -> Option<(u16, u16, Seq<char>, Seq<(Seq<char>, S)>)> {
    let (start, cells) = row_walk(f, y, rect.x, right_of(rect), None, Seq::empty());
    match start {
        Some(x) => Some((x, y, url, trim_blank(cells))),
        None => None,
    }
}

/// The paints of the rows of `rect` above row `y`, top to bottom.
pub open spec fn rows_paints<S>(f: DrawnFrame<S>, rect: Rect, url: Seq<char>, y: int) -> Seq<(u16, u16, Seq<char>, Seq<(Seq<char>, S)>)>
    decreases y - rect.y,
{
    if y <= rect.y {
        Seq::empty()
    } else {
        let before = rows_paints(f, rect, url, y - 1);
        match row_paint(f, rect, (y - 1) as u16, url) {
            Some(p) => before.push(p),
            None => before,
        }
    }
}

/// A paint as text.
pub open spec fn paint_view<S>(p: HyperlinkPaint<S>) -> (u16, u16, Seq<char>, Seq<(Seq<char>, S)>) {
    (p.x, p.y, p.url@, cells_view(p.cells@))
}

pub open spec fn paints_view<S>(v: Seq<HyperlinkPaint<S>>) -> Seq<(u16, u16, Seq<char>, Seq<(Seq<char>, S)>)> {
    v.map_values(|p: HyperlinkPaint<S>| paint_view(p))
}

/// The cell drawn at `(x, y)`.
fn cell_of<S: Copy>(f: &DrawnFrame<S>, x: u16, y: u16) -> (r: Option<(&String, S)>)
    ensures
        match frame_cell(*f, x as int, y as int) {
            Some((sym, st)) => r matches Some((t, s)) && t@ == sym && s == st,
            None => r is None,
        },
{
    if y < f.top || x < f.left {
        return None;
    }
    let r = (y - f.top) as usize;
    let c = (x - f.left) as usize;
    if r >= f.rows.len() || c >= f.rows[r].len() {
        return None;
    }
    Some((&f.rows[r][c].0, f.rows[r][c].1))
}

fn is_blank(s: &str) -> (r: bool)
    ensures
        r == blank(s@),
{
    let chars = to_chars(s);
    let mut i: usize = 0;
    while i < chars.len()
        invariant
            chars@ == s@,
            i <= chars@.len(),
            forall|k: int| 0 <= k < i ==> unicode_whitespace(#[trigger] chars@[k]),
        decreases chars.len() - i,
    {
        if !is_whitespace(chars[i]) {
            return false;
        }
        i += 1;
    }
    true
}

/// One paint per drawn row of `rect`, so a node a plugin painted can be a
/// link the outer terminal opens. Every row names the same url, which is
/// how a wrapped link is spelled anyway.
///
/// There is no label to match against — the text has been through wrapping,
/// alignment and scroll by the time it reaches the frame — so whatever the
/// rect shows is what gets linked: a node clipped by its pane or drawn
/// nowhere contributes nothing. Blank cells are trimmed from either end,
/// since a pane indents its text and linking the padding would underline the
/// whole row; interior blanks stay, inside the label.
pub fn drawn_link_paints<S: Copy>(frame: &DrawnFrame<S>, rect: Rect, url: &str) -> (r: Vec<HyperlinkPaint<S>>)
    requires
        steps_forward(*frame),
    ensures
        paints_view(r@) == rows_paints(*frame, rect, url@, bottom_of(rect) as int),
{
    let right = rect.x.saturating_add(rect.width);
    let bottom = rect.y.saturating_add(rect.height);
    let mut paints: Vec<HyperlinkPaint<S>> = Vec::new();
    let mut y = rect.y;
    while y < bottom
        invariant
            steps_forward(*frame),
            right == right_of(rect),
            bottom == bottom_of(rect),
            rect.y <= y <= bottom,
            paints_view(paints@) == rows_paints(*frame, rect, url@, y as int),
        decreases bottom - y,
    {
        let mut start: Option<u16> = None;
        let mut cells: Vec<(String, S)> = Vec::new();
        let mut x = rect.x;
        assert(cells_view(cells@) =~= Seq::<(Seq<char>, S)>::empty());
        while x < right
            invariant
                steps_forward(*frame),
                right == right_of(rect),
                row_walk(*frame, y, x, right, start, cells_view(cells@)) == row_walk(*frame, y, rect.x, right, None, Seq::empty()),
            ensures
                row_walk(*frame, y, rect.x, right, None, Seq::empty()) == (start, cells_view(cells@)),
            decreases u16::MAX - x,
        {
            let (symbol, style) = match cell_of(frame, x, y) {
                Some(c) => c,
                None => break,
            };
            proof {
                let r = y - frame.top;
                let c = x - frame.left;
                assert(frame.rows@[r]@[c].0@ == symbol@);
                assert(cell_step(frame.rows@[r]@[c].0@) > 0);
            }
            let measured = display_width(symbol.as_str());
            let width = #[verifier::truncate] ((if measured < 1 { 1 } else { measured }) as u16);
            assert(width == cell_step(symbol@));
            let ghost before = cells_view(cells@);
            let nx = x.saturating_add(width);
            x = nx;
            if symbol.as_str().is_empty() {
                continue;
            }
            if start.is_none() && is_blank(symbol.as_str()) {
                continue;
            }
            if start.is_none() {
                start = Some(nx.saturating_sub(width));
            }
            cells.push((symbol.clone(), style));
            proof {
                assert(cells_view(cells@) =~= before.push((symbol@, style)));
            }
        }
        let ghost walked = cells_view(cells@);
        while cells.len() > 0 && is_blank(cells[cells.len() - 1].0.as_str())
            invariant
                trim_blank(cells_view(cells@)) == trim_blank(walked),
            decreases cells.len(),
        {
            let ghost v = cells_view(cells@);
            cells.pop();
            proof {
                assert(cells_view(cells@) =~= v.drop_last());
            }
        }
        proof {
            let v = cells_view(cells@);
            if v.len() > 0 {
                assert(!blank(v.last().0));
            }
        }
        let ghost prior = paints_view(paints@);
        match start {
            Some(sx) => {
                paints.push(HyperlinkPaint { x: sx, y, url: url.to_string(), cells });
                proof {
                    assert(paints_view(paints@) =~= prior.push((sx, y, url@, trim_blank(walked))));
                }
            },
            None => {},
        }
        y = y + 1;
    }
    paints
}


/// Whether every drawn cell moves the walk on, measured.
fn all_cells_step<S>(frame: &DrawnFrame<S>) -> (r: bool)
    ensures
        r == steps_forward(*frame),
{
    let mut i: usize = 0;
    while i < frame.rows.len()
        invariant
            i <= frame.rows@.len(),
            forall|r: int, c: int| 0 <= r < i && 0 <= c < frame.rows@[r].len() ==> cell_step(#[trigger] frame.rows@[r]@[c].0@) > 0,
        decreases frame.rows.len() - i,
    {
        let mut j: usize = 0;
        while j < frame.rows[i].len()
            invariant
                i < frame.rows@.len(),
                j <= frame.rows@[i as int].len(),
                forall|r: int, c: int| 0 <= r < i && 0 <= c < frame.rows@[r].len() ==> cell_step(#[trigger] frame.rows@[r]@[c].0@) > 0,
                forall|c: int| 0 <= c < j ==> cell_step(#[trigger] frame.rows@[i as int]@[c].0@) > 0,
            decreases frame.rows@[i as int].len() - j,
        {
            let measured = display_width(frame.rows[i][j].0.as_str());
            let width = #[verifier::truncate] ((if measured < 1 { 1 } else { measured }) as u16);
            if width == 0 {
                assert(cell_step(frame.rows@[i as int]@[j as int].0@) == 0);
                return false;
            }
            j += 1;
        }
        i += 1;
    }
    true
}

/// The paints of [`drawn_link_paints`], for a frame whose every cell moves
/// a walk on; `None` for a frame holding a symbol so wide its column count
/// wraps to nothing, over which a walk would never advance.
pub fn link_paints<S: Copy>(frame: &DrawnFrame<S>, rect: Rect, url: &str) -> (r: Option<Vec<HyperlinkPaint<S>>>)
    ensures
        match r {
            Some(p) => steps_forward(*frame) && paints_view(p@) == rows_paints(*frame, rect, url@, bottom_of(rect) as int),
            None => !steps_forward(*frame),
        },
{
    if all_cells_step(frame) {
        Some(drawn_link_paints(frame, rect, url))
    } else {
        None
    }
}

/// How far a label's character moves along the row: its display width, one
/// for a control character, at least one.
pub open spec fn char_step(c: char) -> u16 {
    (match char_width(c) {
        Some(w) => if w < 1 { 1 } else { w },
        None => 1,
    }) as u16
}

/// Matching `label` from its `i`-th character against the cells of row `y`
/// from column `cx`: the cells that show it, up to the right edge `right`;
/// `None` once a cell shows something else or is not drawn at all.
pub open spec fn label_walk<S>(f: DrawnFrame<S>, right: u16, y: u16, cx: u16, label: Seq<char>, i: int, cells: Seq<(Seq<char>, S)>) -> Option<Seq<(Seq<char>, S)>>
    decreases label.len() - i,
{
    if i < 0 || i >= label.len() {
        Some(cells)
    } else {
        let w = char_step(label[i]);
        if sat_add16(cx, w) > right {
            Some(cells)
        } else {
            match frame_cell(f, cx as int, y as int) {
                None => None,
                Some((sym, st)) => if sym.len() > 0 && sym[0] == label[i] {
                    label_walk(f, right, y, sat_add16(cx, w), label, i + 1, cells.push((sym, st)))
                } else {
                    None
                },
            }
        }
    }
}

/// The cells `label` occupies from `(x, y)` in the drawn frame, or `None` if
/// the frame no longer prints it there. A run clipped by the rect's right
/// edge is linked as far as it is visible, while a glyph that does not match
/// is the frame having moved on and drops the run whole.
pub open spec fn label_cells<S>(f: DrawnFrame<S>, inner: Rect, x: u16, y: u16, label: Seq<char>) -> Option<Seq<(Seq<char>, S)>> {
    match label_walk(f, right_of(inner), y, x, label, 0, Seq::empty()) {
        Some(c) => if c.len() > 0 { Some(c) } else { None },
        None => None,
    }
}

/// The cells `label` occupies from `(x, y)` in `frame`, within `inner`.
pub fn drawn_label_cells<S: Copy>(frame: &DrawnFrame<S>, inner: Rect, x: u16, y: u16, label: &str) -> (r: Option<Vec<(String, S)>>)
    ensures
        match label_cells(*frame, inner, x, y, label@) {
            Some(c) => r matches Some(v) && cells_view(v@) == c,
            None => r is None,
        },
{
    let right = inner.x.saturating_add(inner.width);
    let chars = to_chars(label);
    let mut cells: Vec<(String, S)> = Vec::new();
    let mut cx = x;
    let mut i: usize = 0;
    assert(cells_view(cells@) =~= Seq::<(Seq<char>, S)>::empty());
    while i < chars.len()
        invariant
            chars@ == label@,
            right == right_of(inner),
            i <= chars@.len(),
            label_walk(*frame, right, y, cx, label@, i as int, cells_view(cells@)) == label_walk(*frame, right, y, x, label@, 0, Seq::empty()),
        ensures
            label_walk(*frame, right, y, x, label@, 0, Seq::empty()) == Some(cells_view(cells@)),
        decreases chars.len() - i,
    {
        let ch = chars[i];
        let width = #[verifier::truncate] ((match display_char_width(ch) {
            Some(w) => if w < 1 { 1 } else { w },
            None => 1,
        }) as u16);
        assert(width == char_step(ch));
        if cx.saturating_add(width) > right {
            break;
        }
        let (symbol, style) = match cell_of(frame, cx, y) {
            Some(c) => c,
            None => return None,
        };
        let sym = to_chars(symbol.as_str());
        if sym.len() == 0 || sym[0] != ch {
            return None;
        }
        let ghost before = cells_view(cells@);
        cells.push((symbol.clone(), style));
        assert(cells_view(cells@) =~= before.push((symbol@, style)));
        cx = cx.saturating_add(width);
        i += 1;
    }
    if cells.len() == 0 {
        None
    } else {
        Some(cells)
    }
}

/// A link run visible on a terminal: where its label starts on the grid —
/// row and column — its target, and its label.
pub struct VisibleRun {
    pub row: usize,
    pub col: usize,
    pub url: String,
    pub label: String,
}

/// The paint of one visible run over a terminal drawn in `inner`, if the
/// frame still shows its label there.
pub open spec fn run_paint<S>(f: DrawnFrame<S>, inner: Rect, run: VisibleRun) -> Option<(u16, u16, Seq<char>, Seq<(Seq<char>, S)>)> {
    if run.row >= inner.height || run.col >= inner.width {
        None
    } else {
        let x = sat_add16(inner.x, run.col as u16);
        let y = sat_add16(inner.y, run.row as u16);
        match label_cells(f, inner, x, y, run.label@) {
            Some(c) => Some((x, y, run.url@, c)),
            None => None,
        }
    }
}

/// The paints of the first `k` runs, in order.
pub open spec fn runs_paints<S>(f: DrawnFrame<S>, inner: Rect, runs: Seq<VisibleRun>, k: int) -> Seq<(u16, u16, Seq<char>, Seq<(Seq<char>, S)>)>
    decreases k,
{
    if k <= 0 {
        Seq::empty()
    } else {
        let before = runs_paints(f, inner, runs, k - 1);
        match run_paint(f, inner, runs[k - 1]) {
            Some(p) => before.push(p),
            None => before,
        }
    }
}

/// Every visible link run of a terminal drawn in `inner`, as the cells the
/// frame shows of it. Reading the glyphs back out of the frame rather than
/// off the terminal's grid is what makes a covering modal, a scrolled pane
/// or a repainted row emit nothing instead of a link over cells that no
/// longer show it. A terminal with no room drawn shows no run.
pub fn hyperlink_paints<S: Copy>(frame: &DrawnFrame<S>, inner: Rect, runs: &Vec<VisibleRun>) -> (r: Vec<HyperlinkPaint<S>>)
    ensures
        paints_view(r@) == if inner.width == 0 || inner.height == 0 {
            Seq::empty()
        } else {
            runs_paints(*frame, inner, runs@, runs@.len() as int)
        },
{
    let mut paints: Vec<HyperlinkPaint<S>> = Vec::new();
    if inner.width == 0 || inner.height == 0 {
        assert(paints_view(paints@) =~= Seq::<(u16, u16, Seq<char>, Seq<(Seq<char>, S)>)>::empty());
        return paints;
    }
    let mut k: usize = 0;
    assert(paints_view(paints@) =~= runs_paints(*frame, inner, runs@, 0));
    while k < runs.len()
        invariant
            k <= runs@.len(),
            paints_view(paints@) == runs_paints(*frame, inner, runs@, k as int),
        decreases runs.len() - k,
    {
        let run = &runs[k];
        let ghost prior = paints_view(paints@);
        if run.row < inner.height as usize && run.col < inner.width as usize {
            let x = inner.x.saturating_add(run.col as u16);
            let y = inner.y.saturating_add(run.row as u16);
            match drawn_label_cells(frame, inner, x, y, run.label.as_str()) {
                Some(cells) => {
                    paints.push(HyperlinkPaint { x, y, url: run.url.clone(), cells });
                    assert(paints_view(paints@) =~= prior.push(run_paint(*frame, inner, runs@[k as int]).unwrap()));
                },
                None => {},
            }
        }
        k += 1;
    }
    paints
}

} // verus!
