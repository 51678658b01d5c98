//! What the creation flow needs to know: the repositories it can offer, a
//! directory's entries and a repository's branches.
//!
//! Requests are keyed and idempotent; the reading happens on a worker that
//! the caller runs, and the result is folded back in and published. "Not
//! listed yet" is a state of its own, distinct from "nothing there", and a
//! settled answer is read again after a while so that something created later
//! does not stay invisible.
use vstd::prelude::*;
use crate::snapshot::{leaf, path_leaf};
use crate::keyed::{lookup, put, first_key, lemma_first_key, lemma_no_key};

verus! {

pub open spec fn opt_view(o: Option<String>) -> Option<Seq<char>> {
    match o {
        Some(s) => Some(s@),
        None => None,
    }
}

fn clone_opt(o: &Option<String>) -> (r: Option<String>)
    ensures
        opt_view(r) == opt_view(*o),
{
    match o {
        Some(s) => Some(s.clone()),
        None => None,
    }
}

/// A repository the flow can offer, flattened for rendering.
///
/// One shape for every row, whatever produced it: a standalone bookmark, a
/// parent folder, a child scanned live under a local parent, or a child
/// persisted under a remote one.
#[derive(Debug, Clone, PartialEq, Eq)]
pub struct BookmarkRow {
    /// Absolute path on the target host's filesystem.
    pub path: String,
    /// Display name — the final component, which is what a row leads with.
    pub name: String,
    /// The parent folder this row was imported under, if any.
    pub parent: Option<String>,
    /// Whether this row *is* a parent folder: a header, never a member.
    pub is_parent: bool,
    /// Whether the path is a git repo. `None` = never established.
    pub is_git: Option<bool>,
    /// A name to lead the row with instead of the path.
    pub label: Option<String>,
}

/// A row, as the contracts see it.
pub struct RowView {
    pub path: Seq<char>,
    pub name: Seq<char>,
    pub parent: Option<Seq<char>>,
    pub is_parent: bool,
    pub is_git: Option<bool>,
    pub label: Option<Seq<char>>,
}

impl View for BookmarkRow {
    type V = RowView;

    open spec fn view(&self) -> RowView {
        RowView {
            path: self.path@,
            name: self.name@,
            parent: opt_view(self.parent),
            is_parent: self.is_parent,
            is_git: self.is_git,
            label: opt_view(self.label),
        }
    }
}

/// One persisted bookmark, as the database hands it over.
#[derive(Debug, Clone, PartialEq, Eq)]
pub struct Bookmark {
    pub repo_path: String,
    pub label: Option<String>,
    pub last_used_at: i64,
    pub use_count: i64,
    pub is_parent: bool,
    pub is_git: Option<bool>,
    pub parent_path: Option<String>,
}

/// The git repositories found directly under a folder bookmark, scanned now.
#[derive(Debug, Clone, PartialEq, Eq)]
pub struct Scan {
    pub folder: String,
    pub children: Vec<String>,
}

/// A row for `path`: named for its final component, or for the whole path
/// when it has none.
pub open spec fn row_spec(path: Seq<char>, parent: Option<Seq<char>>, is_parent: bool, is_git: Option<bool>) -> RowView {
    RowView {
        path,
        name: match path_leaf(path) {
            Some(n) => n,
            None => path,
        },
        parent,
        is_parent,
        is_git,
        label: None,
    }
}

/// A row for `path`: named for its final component, or for the whole path
/// when it has none.
pub fn row(path: &str, parent: Option<String>, is_parent: bool, is_git: Option<bool>) -> (r: BookmarkRow)
    ensures
        r@ == row_spec(path@, opt_view(parent), is_parent, is_git),
{
    let name = match leaf(path) {
        Some(n) => n,
        None => path.to_string(),
    };
    BookmarkRow { path: path.to_string(), name, parent, is_parent, is_git, label: None }
}

/// Whether a row for `path` is already in `rows`.
pub open spec fn has_path(rows: Seq<RowView>, path: Seq<char>) -> bool {
    exists|i: int| 0 <= i < rows.len() && rows[i].path == path
}

/// Whether `path` is the path of a folder bookmark.
pub open spec fn is_folder(bs: Seq<Bookmark>, path: Seq<char>) -> bool {
    exists|i: int| 0 <= i < bs.len() && bs[i].is_parent && bs[i].repo_path@ == path
}

/// What the first scan of `folder` found, or nothing.
pub open spec fn scanned_children(scans: Seq<Scan>, folder: Seq<char>, k: int) -> Seq<Seq<char>>
    decreases scans.len() - k,
{
    if k < 0 || k >= scans.len() {
        seq![]
    } else if scans[k].folder@ == folder {
        scans[k].children@.map_values(|c: String| c@)
    } else {
        scanned_children(scans, folder, k + 1)
    }
}

/// Whether a folder covers `path`: a scan found it, or it was imported under
/// a folder that is still bookmarked.
pub open spec fn covered(bs: Seq<Bookmark>, scans: Seq<Scan>, path: Seq<char>) -> bool {
    ||| exists|s: int, c: int| 0 <= s < scans.len() && 0 <= c < scans[s].children@.len() && scans[s].children@[c]@ == path
    ||| exists|i: int| 0 <= i < bs.len() && bs[i].repo_path@ == path && (bs[i].parent_path matches Some(p) && is_folder(bs, p@))
}

/// Members of a folder in turn, each one not already shown.
pub open spec fn emit_members(rows: Seq<RowView>, members: Seq<(Seq<char>, Option<bool>)>, parent: Seq<char>) -> Seq<RowView>
    decreases members.len(),
{
    if members.len() == 0 {
        rows
    } else {
        let before = emit_members(rows, members.drop_last(), parent);
        let (path, is_git) = members.last();
        if has_path(before, path) {
            before
        } else {
            before.push(row_spec(path, Some(parent), false, is_git))
        }
    }
}

/// The bookmarks among the first `k` imported under `folder`, as members.
pub open spec fn persisted_under(bs: Seq<Bookmark>, folder: Seq<char>, k: int) -> Seq<(Seq<char>, Option<bool>)>
    decreases k,
{
    if k <= 0 {
        seq![]
    } else {
        let before = persisted_under(bs, folder, k - 1);
        let b = bs[k - 1];
        if b.parent_path matches Some(p) && p@ == folder {
            before.push((b.repo_path@, b.is_git))
        } else {
            before
        }
    }
}

/// A folder's members: those scanned live (repositories by construction),
/// then those persisted under it.
pub open spec fn members_of(bs: Seq<Bookmark>, scans: Seq<Scan>, folder: Seq<char>) -> Seq<(Seq<char>, Option<bool>)> {
    scanned_children(scans, folder, 0).map_values(|c: Seq<char>| (c, Some(true))) + persisted_under(bs, folder, bs.len() as int)
}

/// A header row carrying the bookmark's label.
pub open spec fn labelled(r: RowView, label: Option<Seq<char>>) -> RowView {
    RowView { label, ..r }
}

/// The rows for the first `n` bookmarks: a folder is its header followed by
/// its members; a repository a folder covers is left to that folder; no path
/// is shown twice.
pub open spec fn flatten_upto(bs: Seq<Bookmark>, scans: Seq<Scan>, n: int) -> Seq<RowView>
    decreases n,
{
    if n <= 0 {
        seq![]
    } else {
        let rows = flatten_upto(bs, scans, n - 1);
        let b = bs[n - 1];
        let path = b.repo_path@;
        if has_path(rows, path) {
            rows
        } else if b.is_parent {
            let header = labelled(row_spec(path, None, true, None), opt_view(b.label));
            emit_members(rows.push(header), members_of(bs, scans, path), path)
        } else if covered(bs, scans, path) {
            rows
        } else {
            rows.push(labelled(row_spec(path, None, false, b.is_git), opt_view(b.label)))
        }
    }
}

pub open spec fn rows_view(rows: Seq<BookmarkRow>) -> Seq<RowView> {
    rows.map_values(|r: BookmarkRow| r@)
}

/// No two rows share a path.
pub open spec fn paths_distinct(rows: Seq<RowView>) -> bool {
    forall|i: int, j: int| 0 <= i < j < rows.len() ==> rows[i].path != rows[j].path
}

fn has_row(rows: &Vec<BookmarkRow>, path: &String) -> (r: bool)
    ensures
        r == has_path(rows_view(rows@), path@),
{
    let mut i: usize = 0;
    while i < rows.len()
        invariant
            i <= rows@.len(),
            forall|k: int| 0 <= k < i ==> rows@[k].path@ != path@,
        decreases rows.len() - i,
    {
        if rows[i].path == *path {
            assert(rows_view(rows@)[i as int].path == path@);
            return true;
        }
        i += 1;
    }
    assert forall|k: int| 0 <= k < rows_view(rows@).len() implies rows_view(rows@)[k].path != path@ by {
        assert(rows_view(rows@)[k] == rows@[k]@);
    }
    false
}

/// Push `row` unless its path is already shown.
fn push_new(rows: &mut Vec<BookmarkRow>, r: BookmarkRow)
    requires
        paths_distinct(rows_view(old(rows)@)),
    ensures
        rows_view(final(rows)@) == if has_path(rows_view(old(rows)@), r@.path) { rows_view(old(rows)@) } else { rows_view(old(rows)@).push(r@) },
        paths_distinct(rows_view(final(rows)@)),
{
    if !has_row(rows, &r.path) {
        let ghost before = rows@;
        rows.push(r);
        proof {
            assert(rows_view(rows@) =~= rows_view(before).push(rows@.last()@));
            assert forall|i: int, j: int| 0 <= i < j < rows_view(rows@).len() implies rows_view(rows@)[i].path != rows_view(rows@)[j].path by {
                if j == before.len() {
                    assert(rows_view(before)[i] == rows_view(rows@)[i]);
                } else {
                    assert(rows_view(before)[i] == rows_view(rows@)[i]);
                    assert(rows_view(before)[j] == rows_view(rows@)[j]);
                }
            }
        }
    }
}

fn is_folder_exec(bookmarks: &Vec<Bookmark>, path: &String) -> (r: bool)
    ensures
        r == is_folder(bookmarks@, path@),
{
    let mut i: usize = 0;
    while i < bookmarks.len()
        invariant
            i <= bookmarks@.len(),
            forall|k: int| 0 <= k < i ==> !(bookmarks@[k].is_parent && bookmarks@[k].repo_path@ == path@),
        decreases bookmarks.len() - i,
    {
        if bookmarks[i].is_parent && bookmarks[i].repo_path == *path {
            return true;
        }
        i += 1;
    }
    false
}

fn is_covered(bookmarks: &Vec<Bookmark>, scans: &Vec<Scan>, path: &String) -> (r: bool)
    ensures
        r == covered(bookmarks@, scans@, path@),
{
    let mut s: usize = 0;
    while s < scans.len()
        invariant
            s <= scans@.len(),
            forall|x: int, c: int| 0 <= x < s && 0 <= c < scans@[x].children@.len() ==> scans@[x].children@[c]@ != path@,
        decreases scans.len() - s,
    {
        let children = &scans[s].children;
        let mut c: usize = 0;
        while c < children.len()
            invariant
                s < scans@.len(),
                *children == scans@[s as int].children,
                c <= children@.len(),
                forall|y: int| 0 <= y < c ==> children@[y]@ != path@,
            decreases children.len() - c,
        {
            if children[c] == *path {
                return true;
            }
            c += 1;
        }
        s += 1;
    }
    let mut i: usize = 0;
    while i < bookmarks.len()
        invariant
            i <= bookmarks@.len(),
            forall|x: int, c: int| 0 <= x < scans@.len() && 0 <= c < scans@[x].children@.len() ==> scans@[x].children@[c]@ != path@,
            forall|k: int| 0 <= k < i ==> !(bookmarks@[k].repo_path@ == path@ && (bookmarks@[k].parent_path matches Some(p) && is_folder(bookmarks@, p@))),
        decreases bookmarks.len() - i,
    {
        if bookmarks[i].repo_path == *path {
            if let Some(p) = &bookmarks[i].parent_path {
                if is_folder_exec(bookmarks, p) {
                    return true;
                }
            }
        }
        i += 1;
    }
    false
}

/// A folder header followed by its members, live-scanned ones first.
fn push_folder(rows: &mut Vec<BookmarkRow>, b: &Bookmark, bookmarks: &Vec<Bookmark>, scans: &Vec<Scan>)
    requires
        paths_distinct(rows_view(old(rows)@)),
        !has_path(rows_view(old(rows)@), b.repo_path@),
    ensures
        rows_view(final(rows)@) == emit_members(
            rows_view(old(rows)@).push(labelled(row_spec(b.repo_path@, None, true, None), opt_view(b.label))),
            members_of(bookmarks@, scans@, b.repo_path@),
            b.repo_path@,
        ),
        paths_distinct(rows_view(final(rows)@)),
{
    let folder = &b.repo_path;
    let mut header = row(folder.as_str(), None, true, None);
    header.label = clone_opt(&b.label);
    push_new(rows, header);
    let ghost start = rows_view(rows@);
    // The scanned members.
    let mut s: usize = 0;
    while s < scans.len() && scans[s].folder != *folder
        invariant
            s <= scans@.len(),
            scanned_children(scans@, folder@, s as int) == scanned_children(scans@, folder@, 0),
        decreases scans.len() - s,
    {
        s += 1;
    }
    let ghost scanned = scanned_children(scans@, folder@, 0).map_values(|c: Seq<char>| (c, Some(true)));
    if s < scans.len() {
        let children = &scans[s].children;
        let mut c: usize = 0;
        while c < children.len()
            invariant
                s < scans@.len(),
                *children == scans@[s as int].children,
                scanned_children(scans@, folder@, 0) == children@.map_values(|x: String| x@),
                scanned == scanned_children(scans@, folder@, 0).map_values(|x: Seq<char>| (x, Some(true))),
                c <= children@.len(),
                paths_distinct(rows_view(rows@)),
                rows_view(rows@) == emit_members(start, scanned.take(c as int), folder@),
            decreases children.len() - c,
        {
            let member = row(children[c].as_str(), Some(folder.clone()), false, Some(true));
            proof {
                assert(scanned.take(c + 1).drop_last() =~= scanned.take(c as int));
                assert(scanned.take(c + 1).last() == (children@[c as int]@, Some(true)));
            }
            push_new(rows, member);
            c += 1;
        }
        assert(scanned.take(c as int) =~= scanned);
    } else {
        assert(scanned =~= Seq::<(Seq<char>, Option<bool>)>::empty());
        assert(scanned.take(0) =~= scanned);
    }
    let ghost middle = rows_view(rows@);
    // The persisted members.
    let ghost persisted = persisted_under(bookmarks@, folder@, bookmarks@.len() as int);
    let mut k: usize = 0;
    assert(scanned + persisted_under(bookmarks@, folder@, 0) =~= scanned);
    while k < bookmarks.len()
        invariant
            k <= bookmarks@.len(),
            paths_distinct(rows_view(rows@)),
            persisted == persisted_under(bookmarks@, folder@, bookmarks@.len() as int),
            rows_view(rows@) == emit_members(start, scanned + persisted_under(bookmarks@, folder@, k as int), folder@),
        decreases bookmarks.len() - k,
    {
        let child = &bookmarks[k];
        let ghost prior = persisted_under(bookmarks@, folder@, k as int);
        match &child.parent_path {
            Some(p) => {
                if *p == *folder {
                    let member = row(child.repo_path.as_str(), Some(folder.clone()), false, child.is_git);
                    proof {
                        let more = prior.push((child.repo_path@, child.is_git));
                        assert((scanned + more).drop_last() =~= scanned + prior);
                        assert((scanned + more).last() == (child.repo_path@, child.is_git));
                    }
                    push_new(rows, member);
                }
            },
            None => {},
        }
        k += 1;
    }
}

/// Turn persisted bookmarks into the flat row list a flow renders, given what
/// a live scan found under each local folder.
pub fn flatten(bookmarks: &Vec<Bookmark>, scans: &Vec<Scan>) -> (rows: Vec<BookmarkRow>)
    ensures
        rows_view(rows@) == flatten_upto(bookmarks@, scans@, bookmarks@.len() as int),
        paths_distinct(rows_view(rows@)),
{
    let mut rows: Vec<BookmarkRow> = Vec::new();
    let mut i: usize = 0;
    assert(rows_view(rows@) =~= Seq::<RowView>::empty());
    while i < bookmarks.len()
        invariant
            i <= bookmarks@.len(),
            rows_view(rows@) == flatten_upto(bookmarks@, scans@, i as int),
            paths_distinct(rows_view(rows@)),
        decreases bookmarks.len() - i,
    {
        let b = &bookmarks[i];
        if has_row(&rows, &b.repo_path) {
        } else if b.is_parent {
            push_folder(&mut rows, b, bookmarks, scans);
        } else if !is_covered(bookmarks, scans, &b.repo_path) {
            let mut it = row(b.repo_path.as_str(), None, false, b.is_git);
            it.label = clone_opt(&b.label);
            push_new(&mut rows, it);
        }
        i += 1;
    }
    rows
}

/// Put the interface directory at the top of the local repository list,
/// unless a row of the user's already holds it. `dir` is where the interface
/// lives now, and `is_git` whether it is a repository.
pub fn offer_interface_dir(rows: &mut Vec<BookmarkRow>, dir: &str, is_git: bool)
    ensures
        has_path(rows_view(old(rows)@), dir@) ==> final(rows)@ == old(rows)@,
        !has_path(rows_view(old(rows)@), dir@) ==> rows_view(final(rows)@) == seq![
            labelled(row_spec(dir@, None, false, Some(is_git)), Some("Thurbox interface — edit your panes"@))
        ] + rows_view(old(rows)@),
{
    let path = dir.to_string();
    if has_row(rows, &path) {
        return;
    }
    let mut offered = row(dir, None, false, Some(is_git));
    // Named for what picking it does, not for where it happens to live.
    offered.label = Some(String::from_str("Thurbox interface — edit your panes"));
    let ghost before = rows@;
    rows.insert(0, offered);
    assert(rows_view(rows@) =~= seq![rows@[0]@] + rows_view(before));
}

// ── Branches ────────────────────────────────────────────────────────────────

/// The first place `x` stands in `s`.
pub open spec fn first_index(s: Seq<Seq<char>>, x: Seq<char>, k: int) -> Option<int>
    decreases s.len() - k,
{
    if k < 0 || k >= s.len() {
        None
    } else if s[k] == x {
        Some(k)
    } else {
        first_index(s, x, k + 1)
    }
}

/// The local default branch first, then the remote's pinned above it — unless
/// the remote's is listed already.
pub open spec fn promote_spec(branches: Seq<Seq<char>>, local_default: Option<Seq<char>>, remote_default: Option<Seq<char>>) -> Seq<Seq<char>> {
    let moved = match local_default {
        Some(d) => match first_index(branches, d, 0) {
            Some(at) => seq![branches[at]] + branches.remove(at),
            None => branches,
        },
        None => branches,
    };
    match remote_default {
        Some(r) => if moved.contains(r) {
            moved
        } else {
            seq![r] + moved
        },
        None => moved,
    }
}

proof fn lemma_first_index(s: Seq<Seq<char>>, x: Seq<char>, k: int)
    requires
        0 <= k,
    ensures
        first_index(s, x, k) matches Some(i) ==> k <= i < s.len() && s[i] == x,
        first_index(s, x, k) is None ==> forall|i: int| k <= i < s.len() ==> s[i] != x,
    decreases s.len() - k,
{
    if k < s.len() && s[k] != x {
        lemma_first_index(s, x, k + 1);
    }
}

pub open spec fn names_view(v: Seq<String>) -> Seq<Seq<char>> {
    v.map_values(|s: String| s@)
}

fn position(v: &Vec<String>, x: &str) -> (r: Option<usize>)
    ensures
        match first_index(names_view(v@), x@, 0) {
            Some(at) => r == Some(at as usize),
            None => r is None,
        },
        r matches Some(at) ==> at < v@.len(),
{
    let mut i: usize = 0;
    while i < v.len()
        invariant
            i <= v@.len(),
            first_index(names_view(v@), x@, i as int) == first_index(names_view(v@), x@, 0),
        decreases v.len() - i,
    {
        assert(names_view(v@)[i as int] == v@[i as int]@);
        if crate::text::same_text(v[i].as_str(), x) {
            return Some(i);
        }
        i += 1;
    }
    None
}

fn contains_name(v: &Vec<String>, x: &str) -> (r: bool)
    ensures
        r == names_view(v@).contains(x@),
{
    let mut i: usize = 0;
    while i < v.len()
        invariant
            i <= v@.len(),
            forall|k: int| 0 <= k < i ==> names_view(v@)[k] != x@,
        decreases v.len() - i,
    {
        assert(names_view(v@)[i as int] == v@[i as int]@);
        if crate::text::same_text(v[i].as_str(), x) {
            return true;
        }
        i += 1;
    }
    false
}

/// The local default branch first, then the remote's pinned above it —
/// because branching off the remote is the common case and pre-selecting it
/// saves a keystroke.
pub fn promote(branches: Vec<String>, local_default: Option<&str>, remote_default: Option<&str>) -> (r: Vec<String>)
    ensures
        names_view(r@) == promote_spec(
            names_view(branches@),
            match local_default { Some(d) => Some(d@), None => None },
            match remote_default { Some(d) => Some(d@), None => None },
        ),
{
    let mut branches = branches;
    let ghost start = names_view(branches@);
    proof {
        if let Some(d) = local_default {
            lemma_first_index(start, d@, 0);
        }
    }
    if let Some(default) = local_default {
        let found = position(&branches, default);
        if let Some(at) = found {
            let branch = branches.remove(at);
            branches.insert(0, branch);
            assert(names_view(branches@) =~= seq![start[at as int]] + start.remove(at as int));
            assert(first_index(start, default@, 0) == Some(at as int));
        } else {
            assert(first_index(start, default@, 0) is None);
        }
    }
    let ghost moved = names_view(branches@);
    let ghost local = match local_default { Some(d) => Some(d@), None => None };
    assert(moved == match local {
        Some(d) => match first_index(start, d, 0) {
            Some(at) => seq![start[at]] + start.remove(at),
            None => start,
        },
        None => start,
    });
    if let Some(remote) = remote_default {
        if !contains_name(&branches, remote) {
            branches.insert(0, remote.to_string());
            assert(names_view(branches@) =~= seq![remote@] + moved);
        }
    }
    branches
}

// ── Wants ───────────────────────────────────────────────────────────────────

/// Split `"<host>\0<path>"` at its first NUL. An empty path is no request at
/// all — that is what a flow leaves behind while its input is still empty.
pub open spec fn split_want_spec(raw: Seq<char>) -> Option<(Seq<char>, Seq<char>)> {
    if exists|i: int| 0 <= i < raw.len() && raw[i] == '\0' {
        let at = choose|i: int| 0 <= i < raw.len() && raw[i] == '\0' && forall|j: int| 0 <= j < i ==> raw[j] != '\0';
        if at + 1 < raw.len() {
            Some((raw.subrange(0, at), raw.subrange(at + 1, raw.len() as int)))
        } else {
            None
        }
    } else {
        None
    }
}

/// Split `"<host>\0<path>"`. An empty path is no request at all.
pub fn split_want(raw: &str) -> (r: Option<(String, String)>)
    ensures
        match split_want_spec(raw@) {
            Some((host, path)) => r matches Some((h, p)) && h@ == host && p@ == path,
            None => r is None,
        },
{
    let chars = crate::text::to_chars(raw);
    let mut i: usize = 0;
    while i < chars.len() && chars[i] != '\0'
        invariant
            chars@ == raw@,
            i <= chars@.len(),
            forall|j: int| 0 <= j < i ==> chars@[j] != '\0',
        decreases chars.len() - i,
    {
        i += 1;
    }
    if i == chars.len() {
        return None;
    }
    proof {
        let at = choose|k: int| 0 <= k < raw@.len() && raw@[k] == '\0' && forall|j: int| 0 <= j < k ==> raw@[j] != '\0';
        assert(raw@[i as int] == '\0');
        if at < i {
            assert(chars@[at] != '\0');
        }
        if i < at {
            assert(raw@[i as int] != '\0');
        }
        assert(at == i);
    }
    if i + 1 >= chars.len() {
        return None;
    }
    let host = crate::text::string_of(&chars, 0, i);
    let path = crate::text::string_of(&chars, i + 1, chars.len());
    Some((host, path))
}

/// What the flow is asking about right now: absent means not asking, and the
/// local machine is the empty host.
#[derive(Debug, Clone, Default, PartialEq, Eq)]
pub struct Wants {
    pub bookmarks: Option<String>,
    pub browse: Option<(String, String)>,
    pub branches: Option<(String, String)>,
}

pub open spec fn pair_view(p: Option<(String, String)>) -> Option<(Seq<char>, Seq<char>)> {
    match p {
        Some((a, b)) => Some((a@, b@)),
        None => None,
    }
}

impl Wants {
    /// Build from the three raw store values, dropping any that is malformed
    /// rather than guessing what a plugin meant.
    pub fn new(bookmarks: Option<String>, browse: Option<String>, branches: Option<String>) -> (w: Wants)
        ensures
            opt_view(w.bookmarks) == opt_view(bookmarks),
            pair_view(w.browse) == match browse { Some(raw) => split_want_spec(raw@), None => None },
            pair_view(w.branches) == match branches { Some(raw) => split_want_spec(raw@), None => None },
    {
        let browse = match browse {
            Some(raw) => split_want(raw.as_str()),
            None => None,
        };
        let branches = match branches {
            Some(raw) => split_want(raw.as_str()),
            None => None,
        };
        Wants { bookmarks, browse, branches }
    }
}

// ── What is known ───────────────────────────────────────────────────────────

/// One entry of the browse dropdown.
#[derive(Debug, Clone, PartialEq, Eq)]
pub struct BrowseEntry {
    pub name: String,
    pub is_git: bool,
}

/// What is known about a directory.
#[derive(Debug, Clone, PartialEq, Eq)]
pub enum Listing {
    /// Asked for, not answered. Distinct from `Ready` with nothing in it.
    Pending,
    Ready(Vec<BrowseEntry>),
    Failed(String),
}

/// What is known about a repository's branches.
#[derive(Debug, Clone, PartialEq, Eq)]
pub enum Branches {
    Pending,
    /// Ordered as the flow should offer them: the remote default first, then
    /// the local default, then the rest.
    Ready(Vec<String>),
    Failed(String),
}

/// How long a directory listing is reused before it is read again, in
/// milliseconds. A pending one is never re-requested, however long it takes.
pub const LISTING_TTL_MS: u64 = 5000;

/// How long a host's remembered repositories are trusted, in milliseconds.
pub const BOOKMARKS_TTL_MS: u64 = 5000;

/// How long a branch list is trusted, in milliseconds.
pub const BRANCHES_TTL_MS: u64 = 30000;

/// How soon a failed branch fetch is retried, in milliseconds.
pub const BRANCHES_RETRY_MS: u64 = 3000;

/// Milliseconds from `at` to `now`; none when the clock went back.
pub open spec fn age(at: u64, now: u64) -> int {
    if now >= at {
        now - at
    } else {
        0
    }
}

/// A listing and when it arrived.
pub struct Listed {
    pub at: u64,
    pub listing: Listing,
}

impl Listed {
    /// Whether this answer should be read again: a settled one once it is old,
    /// a pending one never — a slow listing is still on its way, and asking
    /// twice would start a second read of it.
    pub fn stale(&self, now: u64) -> (r: bool)
        ensures
            r == (!(self.listing is Pending) && age(self.at, now) >= LISTING_TTL_MS),
    {
        let pending = match self.listing {
            Listing::Pending => true,
            _ => false,
        };
        !pending && now >= self.at && now - self.at >= LISTING_TTL_MS
    }
}

/// A host's remembered repositories and when they were read.
pub struct Remembered {
    pub at: u64,
    pub rows: Vec<BookmarkRow>,
}

impl Remembered {
    pub fn stale(&self, now: u64) -> (r: bool)
        ensures
            r == (age(self.at, now) >= BOOKMARKS_TTL_MS),
    {
        now >= self.at && now - self.at >= BOOKMARKS_TTL_MS
    }
}

/// A branch list and when it arrived.
pub struct Fetched {
    pub at: u64,
    pub branches: Branches,
}

impl Fetched {
    /// A pending fetch is never stale; a failure is retried sooner than a
    /// settled list expires.
    pub fn stale(&self, now: u64) -> (r: bool)
        ensures
            r == match self.branches {
                Branches::Pending => false,
                Branches::Failed(_) => age(self.at, now) >= BRANCHES_RETRY_MS,
                Branches::Ready(_) => age(self.at, now) >= BRANCHES_TTL_MS,
            },
    {
        match self.branches {
            Branches::Pending => false,
            Branches::Failed(_) => now >= self.at && now - self.at >= BRANCHES_RETRY_MS,
            Branches::Ready(_) => now >= self.at && now - self.at >= BRANCHES_TTL_MS,
        }
    }
}

/// A read the caller runs on a worker and hands back as a [`Done`].
#[derive(Debug, Clone, PartialEq, Eq)]
pub enum Job {
    /// Read the host's bookmarks and flatten them.
    Bookmarks(String),
    /// List a directory on a host.
    Listing(String, String),
    /// Fetch and order a repository's branches on a host.
    Branches(String, String),
}

/// A finished read.
pub enum Done {
    Bookmarks { host: String, rows: Vec<BookmarkRow> },
    Listing { host: String, dir: String, listing: Listing },
    Branches { host: String, repo: String, branches: Branches },
}

pub enum ListingView {
    Pending,
    Ready(Seq<(Seq<char>, bool)>),
    Failed(Seq<char>),
}

pub enum BranchesView {
    Pending,
    Ready(Seq<Seq<char>>),
    Failed(Seq<char>),
}

impl View for Listing {
    type V = ListingView;

    open spec fn view(&self) -> ListingView {
        match self {
            Listing::Pending => ListingView::Pending,
            Listing::Ready(entries) => ListingView::Ready(entries@.map_values(|e: BrowseEntry| (e.name@, e.is_git))),
            Listing::Failed(why) => ListingView::Failed(why@),
        }
    }
}

impl View for Branches {
    type V = BranchesView;

    open spec fn view(&self) -> BranchesView {
        match self {
            Branches::Pending => BranchesView::Pending,
            Branches::Ready(names) => BranchesView::Ready(names_view(names@)),
            Branches::Failed(why) => BranchesView::Failed(why@),
        }
    }
}

/// What a store holds, as the contracts see it: each read under the key that
/// asked for it, with when it arrived.
pub struct StoreView {
    pub bookmarks: Seq<(Seq<char>, (u64, Seq<RowView>))>,
    pub inflight: Seq<Seq<char>>,
    pub listings: Seq<((Seq<char>, Seq<char>), (u64, ListingView))>,
    pub branches: Seq<((Seq<char>, Seq<char>), (u64, BranchesView))>,
}

/// Serves the creation flow's three reads, caching each under its request.
pub struct RepoStore {
    bookmarks: Vec<(String, Remembered)>,
    /// Hosts whose bookmark list is being (re)read, so asking every frame does
    /// not start a read per frame.
    inflight: Vec<String>,
    listings: Vec<((String, String), Listed)>,
    branches: Vec<((String, String), Fetched)>,
}

impl View for RepoStore {
    type V = StoreView;

    closed spec fn view(&self) -> StoreView {
        StoreView {
            bookmarks: self.bookmarks@.map_values(|e: (String, Remembered)| (e.0@, (e.1.at, rows_view(e.1.rows@)))),
            inflight: names_view(self.inflight@),
            listings: self.listings@.map_values(|e: ((String, String), Listed)| ((e.0.0@, e.0.1@), (e.1.at, e.1.listing@))),
            branches: self.branches@.map_values(|e: ((String, String), Fetched)| ((e.0.0@, e.0.1@), (e.1.at, e.1.branches@))),
        }
    }
}

/// Whether a held listing should be read again at `now`.
pub open spec fn listing_stale(held: (u64, ListingView), now: u64) -> bool {
    !(held.1 is Pending) && age(held.0, now) >= LISTING_TTL_MS
}

/// Whether a held branch list should be fetched again at `now`.
pub open spec fn branches_stale(held: (u64, BranchesView), now: u64) -> bool {
    match held.1 {
        BranchesView::Pending => false,
        BranchesView::Failed(_) => age(held.0, now) >= BRANCHES_RETRY_MS,
        BranchesView::Ready(_) => age(held.0, now) >= BRANCHES_TTL_MS,
    }
}

/// What the flow's requests and the arriving reads make of a store.
pub open spec fn ask_bookmarks(v: StoreView, host: Seq<char>, now: u64) -> bool {
    &&& !v.inflight.contains(host)
    &&& !(lookup(v.bookmarks, host) matches Some(held) && age(held.0, now) < BOOKMARKS_TTL_MS)
}

pub open spec fn ask_listing(v: StoreView, key: (Seq<char>, Seq<char>), now: u64) -> bool {
    !(lookup(v.listings, key) matches Some(held) && !listing_stale(held, now))
}

pub open spec fn ask_branches(v: StoreView, key: (Seq<char>, Seq<char>), now: u64) -> bool {
    !(lookup(v.branches, key) matches Some(held) && !branches_stale(held, now))
}

impl RepoStore {
    pub fn new() -> (s: RepoStore)
        ensures
            s@.bookmarks.len() == 0,
            s@.inflight.len() == 0,
            s@.listings.len() == 0,
            s@.branches.len() == 0,
    {
        RepoStore { bookmarks: Vec::new(), inflight: Vec::new(), listings: Vec::new(), branches: Vec::new() }
    }

    fn find_bookmarks(&self, host: &String) -> (r: Option<usize>)
        ensures
            first_key(self@.bookmarks, host@, r),
    {
        let mut i: usize = 0;
        while i < self.bookmarks.len()
            invariant
                i <= self.bookmarks@.len(),
                self@.bookmarks.len() == self.bookmarks@.len(),
                forall|j: int| 0 <= j < i ==> self@.bookmarks[j].0 != host@,
            decreases self.bookmarks.len() - i,
        {
            assert(self@.bookmarks[i as int].0 == self.bookmarks@[i as int].0@);
            if self.bookmarks[i].0 == *host {
                return Some(i);
            }
            i += 1;
        }
        None
    }

    fn find_listing(&self, host: &String, dir: &String) -> (r: Option<usize>)
        ensures
            first_key(self@.listings, (host@, dir@), r),
    {
        let mut i: usize = 0;
        while i < self.listings.len()
            invariant
                i <= self.listings@.len(),
                self@.listings.len() == self.listings@.len(),
                forall|j: int| 0 <= j < i ==> self@.listings[j].0 != (host@, dir@),
            decreases self.listings.len() - i,
        {
            assert(self@.listings[i as int].0 == (self.listings@[i as int].0.0@, self.listings@[i as int].0.1@));
            if self.listings[i].0.0 == *host && self.listings[i].0.1 == *dir {
                return Some(i);
            }
            i += 1;
        }
        None
    }

    fn find_branches(&self, host: &String, repo: &String) -> (r: Option<usize>)
        ensures
            first_key(self@.branches, (host@, repo@), r),
    {
        let mut i: usize = 0;
        while i < self.branches.len()
            invariant
                i <= self.branches@.len(),
                self@.branches.len() == self.branches@.len(),
                forall|j: int| 0 <= j < i ==> self@.branches[j].0 != (host@, repo@),
            decreases self.branches.len() - i,
        {
            assert(self@.branches[i as int].0 == (self.branches@[i as int].0.0@, self.branches@[i as int].0.1@));
            if self.branches[i].0.0 == *host && self.branches[i].0.1 == *repo {
                return Some(i);
            }
            i += 1;
        }
        None
    }

    /// Whether any read is still on its way — a bookmark refresh, a pending
    /// listing, or a pending branch fetch.
    pub fn in_flight(&self) -> (r: bool)
        ensures
            r == (self@.inflight.len() > 0
                || (exists|i: int| 0 <= i < self@.listings.len() && self@.listings[i].1.1 is Pending)
                || (exists|i: int| 0 <= i < self@.branches.len() && self@.branches[i].1.1 is Pending)),
    {
        if self.inflight.len() > 0 {
            return true;
        }
        let mut i: usize = 0;
        while i < self.listings.len()
            invariant
                i <= self.listings@.len(),
                self@.listings.len() == self.listings@.len(),
                forall|j: int| 0 <= j < i ==> !(self@.listings[j].1.1 is Pending),
            decreases self.listings.len() - i,
        {
            assert(self@.listings[i as int].1.1 == self.listings@[i as int].1.listing@);
            if let Listing::Pending = self.listings[i].1.listing {
                return true;
            }
            i += 1;
        }
        let mut k: usize = 0;
        while k < self.branches.len()
            invariant
                k <= self.branches@.len(),
                self@.branches.len() == self.branches@.len(),
                forall|j: int| 0 <= j < self@.listings.len() ==> !(self@.listings[j].1.1 is Pending),
                forall|j: int| 0 <= j < k ==> !(self@.branches[j].1.1 is Pending),
            decreases self.branches.len() - k,
        {
            assert(self@.branches[k as int].1.1 == self.branches@[k as int].1.branches@);
            if let Branches::Pending = self.branches[k].1.branches {
                return true;
            }
            k += 1;
        }
        false
    }

    /// The rows for `host`, once they have been asked for.
    pub fn bookmarks(&self, host: &str) -> (r: Option<&Vec<BookmarkRow>>)
        ensures
            match lookup(self@.bookmarks, host@) {
                Some(held) => r matches Some(rows) && rows_view(rows@) == held.1,
                None => r is None,
            },
    {
        let key = host.to_string();
        match self.find_bookmarks(&key) {
            Some(i) => {
                proof { lemma_first_key(self@.bookmarks, host@, i as int, (0u64, Seq::empty())); }
                Some(&self.bookmarks[i].1.rows)
            },
            None => {
                proof { lemma_no_key(self@.bookmarks, host@, (0u64, Seq::empty())); }
                None
            },
        }
    }

    /// What is known about `dir` on `host`.
    pub fn listing(&self, host: &str, dir: &str) -> (r: Option<&Listing>)
        ensures
            match lookup(self@.listings, (host@, dir@)) {
                Some(held) => r matches Some(l) && l@ == held.1,
                None => r is None,
            },
    {
        let h = host.to_string();
        let d = dir.to_string();
        match self.find_listing(&h, &d) {
            Some(i) => {
                proof { lemma_first_key(self@.listings, (host@, dir@), i as int, (0u64, ListingView::Pending)); }
                Some(&self.listings[i].1.listing)
            },
            None => {
                proof { lemma_no_key(self@.listings, (host@, dir@), (0u64, ListingView::Pending)); }
                None
            },
        }
    }

    /// What is known about `repo`'s branches on `host`.
    pub fn branches(&self, host: &str, repo: &str) -> (r: Option<&Branches>)
        ensures
            match lookup(self@.branches, (host@, repo@)) {
                Some(held) => r matches Some(b) && b@ == held.1,
                None => r is None,
            },
    {
        let h = host.to_string();
        let d = repo.to_string();
        match self.find_branches(&h, &d) {
            Some(i) => {
                proof { lemma_first_key(self@.branches, (host@, repo@), i as int, (0u64, BranchesView::Pending)); }
                Some(&self.branches[i].1.branches)
            },
            None => {
                proof { lemma_no_key(self@.branches, (host@, repo@), (0u64, BranchesView::Pending)); }
                None
            },
        }
    }

    /// Hold a host's rows, read at `now`.
    fn remember_bookmarks(&mut self, host: String, rows: Vec<BookmarkRow>, now: u64)
        ensures
            final(self)@ == (StoreView { bookmarks: put(old(self)@.bookmarks, host@, (now, rows_view(rows@))), ..old(self)@ }),
    {
        let ghost v = (now, rows_view(rows@));
        match self.find_bookmarks(&host) {
            Some(i) => {
                proof { lemma_first_key(old(self)@.bookmarks, host@, i as int, v); }
                self.bookmarks.set(i, (host, Remembered { at: now, rows }));
                assert(self@.bookmarks =~= old(self)@.bookmarks.update(i as int, (self.bookmarks@[i as int].0@, v)));
            },
            None => {
                proof { lemma_no_key(old(self)@.bookmarks, host@, v); }
                self.bookmarks.push((host, Remembered { at: now, rows }));
                assert(self@.bookmarks =~= old(self)@.bookmarks.push((self.bookmarks@.last().0@, v)));
            },
        }
    }

    /// Hold a listing, stamped so [`LISTING_TTL_MS`] can retire it.
    fn remember_listing(&mut self, host: String, dir: String, listing: Listing, now: u64)
        ensures
            final(self)@ == (StoreView { listings: put(old(self)@.listings, (host@, dir@), (now, listing@)), ..old(self)@ }),
    {
        let ghost v = (now, listing@);
        let ghost key = (host@, dir@);
        match self.find_listing(&host, &dir) {
            Some(i) => {
                proof { lemma_first_key(old(self)@.listings, key, i as int, v); }
                self.listings.set(i, ((host, dir), Listed { at: now, listing }));
                assert(self@.listings =~= old(self)@.listings.update(i as int, (key, v)));
            },
            None => {
                proof { lemma_no_key(old(self)@.listings, key, v); }
                self.listings.push(((host, dir), Listed { at: now, listing }));
                assert(self@.listings =~= old(self)@.listings.push((key, v)));
            },
        }
    }

    /// Hold a branch list, stamped so [`Fetched::stale`] can retire it.
    fn remember_branches(&mut self, host: String, repo: String, branches: Branches, now: u64)
        ensures
            final(self)@ == (StoreView { branches: put(old(self)@.branches, (host@, repo@), (now, branches@)), ..old(self)@ }),
    {
        let ghost v = (now, branches@);
        let ghost key = (host@, repo@);
        match self.find_branches(&host, &repo) {
            Some(i) => {
                proof { lemma_first_key(old(self)@.branches, key, i as int, v); }
                self.branches.set(i, ((host, repo), Fetched { at: now, branches }));
                assert(self@.branches =~= old(self)@.branches.update(i as int, (key, v)));
            },
            None => {
                proof { lemma_no_key(old(self)@.branches, key, v); }
                self.branches.push(((host, repo), Fetched { at: now, branches }));
                assert(self@.branches =~= old(self)@.branches.push((key, v)));
            },
        }
    }

    /// Ask for a host's remembered repositories at `now`. True when a read is
    /// to start: none is on its way for the host, and what is held is missing
    /// or old. The host is then marked as being read.
    pub fn request_bookmarks(&mut self, host: &str, now: u64) -> (start: bool)
        ensures
            start == ask_bookmarks(old(self)@, host@, now),
            start ==> final(self)@ == (StoreView { inflight: old(self)@.inflight.push(host@), ..old(self)@ }),
            !start ==> final(self)@ == old(self)@,
    {
        let key = host.to_string();
        assert(key@ == host@);
        let mut i: usize = 0;
        while i < self.inflight.len()
            invariant
                key@ == host@,
                self@.inflight.len() == self.inflight@.len(),
                i <= self.inflight@.len(),
                forall|j: int| 0 <= j < i ==> self@.inflight[j] != host@,
            decreases self.inflight.len() - i,
        {
            assert(self@.inflight[i as int] == self.inflight@[i as int]@);
            if self.inflight[i] == key {
                assert(self@.inflight.contains(host@));
                return false;
            }
            i += 1;
        }
        match self.find_bookmarks(&key) {
            Some(at) => {
                proof { lemma_first_key(self@.bookmarks, host@, at as int, (0u64, Seq::empty())); }
                if !self.bookmarks[at].1.stale(now) {
                    return false;
                }
            },
            None => {
                proof { lemma_no_key(self@.bookmarks, host@, (0u64, Seq::empty())); }
            },
        }
        self.inflight.push(key);
        assert(self@.inflight =~= old(self)@.inflight.push(host@));
        true
    }

    /// Re-read every host's bookmarks on the next request, after something
    /// wrote them.
    pub fn invalidate_bookmarks(&mut self)
        ensures
            final(self)@ == (StoreView { bookmarks: Seq::empty(), ..old(self)@ }),
    {
        self.bookmarks = Vec::new();
        assert(self@.bookmarks =~= Seq::empty());
    }

    /// Ask what is in `dir` on `host` at `now`, unless a fresh answer is held
    /// or one is on its way. True when a read is to start; the listing is then
    /// pending.
    pub fn request_listing(&mut self, host: &str, dir: &str, now: u64) -> (start: bool)
        ensures
            start == ask_listing(old(self)@, (host@, dir@), now),
            start ==> final(self)@ == (StoreView {
                listings: put(old(self)@.listings, (host@, dir@), (now, ListingView::Pending)),
                ..old(self)@
            }),
            !start ==> final(self)@ == old(self)@,
    {
        let h = host.to_string();
        let d = dir.to_string();
        match self.find_listing(&h, &d) {
            Some(at) => {
                proof { lemma_first_key(self@.listings, (host@, dir@), at as int, (0u64, ListingView::Pending)); }
                if !self.listings[at].1.stale(now) {
                    return false;
                }
            },
            None => {
                proof { lemma_no_key(self@.listings, (host@, dir@), (0u64, ListingView::Pending)); }
            },
        }
        self.remember_listing(h, d, Listing::Pending, now);
        true
    }

    /// Ask for `repo`'s branches on `host` at `now`, unless known or in
    /// flight. True when a fetch is to start; the list is then pending.
    pub fn request_branches(&mut self, host: &str, repo: &str, now: u64) -> (start: bool)
        ensures
            start == ask_branches(old(self)@, (host@, repo@), now),
            start ==> final(self)@ == (StoreView {
                branches: put(old(self)@.branches, (host@, repo@), (now, BranchesView::Pending)),
                ..old(self)@
            }),
            !start ==> final(self)@ == old(self)@,
    {
        let h = host.to_string();
        let d = repo.to_string();
        match self.find_branches(&h, &d) {
            Some(at) => {
                proof { lemma_first_key(self@.branches, (host@, repo@), at as int, (0u64, BranchesView::Pending)); }
                if !self.branches[at].1.stale(now) {
                    return false;
                }
            },
            None => {
                proof { lemma_no_key(self@.branches, (host@, repo@), (0u64, BranchesView::Pending)); }
            },
        }
        self.remember_branches(h, d, Branches::Pending, now);
        true
    }

    /// Seed rows directly, so a test can render a flow without a database.
    pub fn set_bookmarks_for_test(&mut self, host: &str, rows: Vec<BookmarkRow>, now: u64)
        ensures
            final(self)@ == (StoreView { bookmarks: put(old(self)@.bookmarks, host@, (now, rows_view(rows@))), ..old(self)@ }),
    {
        self.remember_bookmarks(host.to_string(), rows, now);
    }

    /// Seed a listing directly, so a test can render the dropdown without a
    /// filesystem.
    pub fn set_listing_for_test(&mut self, host: &str, dir: &str, listing: Listing, now: u64)
        ensures
            final(self)@ == (StoreView { listings: put(old(self)@.listings, (host@, dir@), (now, listing@)), ..old(self)@ }),
    {
        self.remember_listing(host.to_string(), dir.to_string(), listing, now);
    }

    /// Seed a branch list directly, so a test can render the step without git.
    pub fn set_branches_for_test(&mut self, host: &str, repo: &str, branches: Branches, now: u64)
        ensures
            final(self)@ == (StoreView { branches: put(old(self)@.branches, (host@, repo@), (now, branches@)), ..old(self)@ }),
    {
        self.remember_branches(host.to_string(), repo.to_string(), branches, now);
    }
}

/// A job, as the contracts see it.
pub enum JobView {
    Bookmarks(Seq<char>),
    Listing(Seq<char>, Seq<char>),
    Branches(Seq<char>, Seq<char>),
}

impl View for Job {
    type V = JobView;

    open spec fn view(&self) -> JobView {
        match self {
            Job::Bookmarks(host) => JobView::Bookmarks(host@),
            Job::Listing(host, dir) => JobView::Listing(host@, dir@),
            Job::Branches(host, repo) => JobView::Branches(host@, repo@),
        }
    }
}

/// `s` without `x`.
pub open spec fn without(s: Seq<Seq<char>>, x: Seq<char>) -> Seq<Seq<char>>
    decreases s.len(),
{
    if s.len() == 0 {
        seq![]
    } else if s.last() == x {
        without(s.drop_last(), x)
    } else {
        without(s.drop_last(), x).push(s.last())
    }
}

/// A finished read folded into what the store holds, at `now`.
pub open spec fn land(v: StoreView, done: Done, now: u64) -> StoreView {
    match done {
        Done::Bookmarks { host, rows } => StoreView {
            inflight: without(v.inflight, host@),
            bookmarks: put(v.bookmarks, host@, (now, rows_view(rows@))),
            ..v
        },
        Done::Listing { host, dir, listing } => StoreView { listings: put(v.listings, (host@, dir@), (now, listing@)), ..v },
        Done::Branches { host, repo, branches } => StoreView { branches: put(v.branches, (host@, repo@), (now, branches@)), ..v },
    }
}

/// Finished reads folded in, in the order they arrived.
pub open spec fn land_all(v: StoreView, dones: Seq<Done>, now: u64) -> StoreView
    decreases dones.len(),
{
    if dones.len() == 0 {
        v
    } else {
        land(land_all(v, dones.drop_last(), now), dones.last(), now)
    }
}

/// What serving the flow's wants does: each request in turn, bookmarks,
/// then the directory, then the branches, and the reads to start.
pub open spec fn serve_spec(v: StoreView, wants: Wants, now: u64) -> (StoreView, Seq<JobView>) {
    let (v1, j1) = match wants.bookmarks {
        Some(host) => if ask_bookmarks(v, host@, now) {
            (StoreView { inflight: v.inflight.push(host@), ..v }, seq![JobView::Bookmarks(host@)])
        } else {
            (v, seq![])
        },
        None => (v, seq![]),
    };
    let (v2, j2) = match wants.browse {
        Some((host, dir)) => if ask_listing(v1, (host@, dir@), now) {
            (StoreView { listings: put(v1.listings, (host@, dir@), (now, ListingView::Pending)), ..v1 }, j1.push(JobView::Listing(host@, dir@)))
        } else {
            (v1, j1)
        },
        None => (v1, j1),
    };
    match wants.branches {
        Some((host, repo)) => if ask_branches(v2, (host@, repo@), now) {
            (StoreView { branches: put(v2.branches, (host@, repo@), (now, BranchesView::Pending)), ..v2 }, j2.push(JobView::Branches(host@, repo@)))
        } else {
            (v2, j2)
        },
        None => (v2, j2),
    }
}

impl RepoStore {
    fn forget_inflight(&mut self, host: &String)
        ensures
            final(self)@ == (StoreView { inflight: without(old(self)@.inflight, host@), ..old(self)@ }),
    {
        let mut kept: Vec<String> = Vec::new();
        let mut i: usize = 0;
        let ghost all = old(self)@.inflight;
        assert(all.take(0) =~= Seq::<Seq<char>>::empty());
        while i < self.inflight.len()
            invariant
                self@ == old(self)@,
                all == self@.inflight,
                all.len() == self.inflight@.len(),
                i <= all.len(),
                names_view(kept@) == without(all.take(i as int), host@),
            decreases self.inflight.len() - i,
        {
            assert(all[i as int] == self.inflight@[i as int]@);
            assert(all.take(i + 1).drop_last() =~= all.take(i as int));
            assert(all.take(i + 1).last() == all[i as int]);
            if self.inflight[i] != *host {
                let ghost before = kept@;
                kept.push(self.inflight[i].clone());
                assert(names_view(kept@) =~= names_view(before).push(all[i as int]));
            }
            i += 1;
        }
        assert(all.take(i as int) =~= all);
        self.inflight = kept;
    }

    /// Fold finished reads in, at `now`, in the order they arrived. True when
    /// anything arrived, so the loop repaints.
    pub fn poll(&mut self, arrived: Vec<Done>, now: u64) -> (changed: bool)
        ensures
            changed == (arrived@.len() > 0),
            final(self)@ == land_all(old(self)@, arrived@, now),
    {
        let ghost all = arrived@;
        let n = arrived.len();
        let mut rest = arrived;
        let mut i: usize = 0;
        assert(all.take(0) =~= Seq::<Done>::empty());
        while i < n
            invariant
                n == all.len(),
                i <= n,
                rest@ == all.subrange(i as int, n as int),
                self@ == land_all(old(self)@, all.take(i as int), now),
            decreases n - i,
        {
            let done = rest.remove(0);
            proof {
                assert(all.take(i + 1).drop_last() =~= all.take(i as int));
                assert(all.take(i + 1).last() == done);
                assert(rest@ =~= all.subrange(i + 1, n as int));
            }
            match done {
                Done::Bookmarks { host, rows } => {
                    self.forget_inflight(&host);
                    self.remember_bookmarks(host, rows, now);
                },
                Done::Listing { host, dir, listing } => {
                    self.remember_listing(host, dir, listing, now);
                },
                Done::Branches { host, repo, branches } => {
                    self.remember_branches(host, repo, branches, now);
                },
            }
            i += 1;
        }
        assert(all.take(n as int) =~= all);
        n > 0
    }

    /// Ask for everything the flow is currently asking about, at `now`, and
    /// say which reads to start. Every request underneath is idempotent.
    pub fn serve(&mut self, wants: &Wants, now: u64) -> (jobs: Vec<Job>)
        ensures
            final(self)@ == serve_spec(old(self)@, *wants, now).0,
            jobs@.map_values(|j: Job| j@) == serve_spec(old(self)@, *wants, now).1,
    {
        let mut jobs: Vec<Job> = Vec::new();
        if let Some(host) = &wants.bookmarks {
            if self.request_bookmarks(host.as_str(), now) {
                jobs.push(Job::Bookmarks(host.clone()));
            }
        }
        let ghost j1 = jobs@.map_values(|j: Job| j@);
        if let Some((host, dir)) = &wants.browse {
            if self.request_listing(host.as_str(), dir.as_str(), now) {
                let ghost before = jobs@;
                jobs.push(Job::Listing(host.clone(), dir.clone()));
                assert(jobs@.map_values(|j: Job| j@) =~= before.map_values(|j: Job| j@).push(JobView::Listing(host@, dir@)));
            }
        }
        if let Some((host, repo)) = &wants.branches {
            if self.request_branches(host.as_str(), repo.as_str(), now) {
                let ghost before = jobs@;
                jobs.push(Job::Branches(host.clone(), repo.clone()));
                assert(jobs@.map_values(|j: Job| j@) =~= before.map_values(|j: Job| j@).push(JobView::Branches(host@, repo@)));
            }
        }
        assert(jobs@.map_values(|j: Job| j@) =~= serve_spec(old(self)@, *wants, now).1);
        jobs
    }
}

/// A pending listing is never asked for twice: once a read of a directory
/// has started, asking again — however much later — starts nothing until
/// its answer lands.
pub proof fn lemma_pending_listing_asked_once(v: StoreView, key: (Seq<char>, Seq<char>), now: u64, later: u64)
    ensures
        !ask_listing(StoreView { listings: put(v.listings, key, (now, ListingView::Pending)), ..v }, key, later),
{
    crate::keyed::lemma_put(v.listings, key, (now, ListingView::Pending), key);
}

/// Listings are kept per host and directory: answering one leaves every
/// other host's directory as it was.
pub proof fn lemma_listings_are_keyed(v: StoreView, key: (Seq<char>, Seq<char>), other: (Seq<char>, Seq<char>), held: (u64, ListingView))
    requires
        key != other,
    ensures
        lookup(put(v.listings, key, held), other) == lookup(v.listings, other),
{
    crate::keyed::lemma_put(v.listings, key, held, other);
}


/// A branch name the listing offers: not blank, and not a remote's `HEAD`
/// pointer.
pub open spec fn offered_branch(name: Seq<char>) -> bool {
    name.len() > 0 && !(name.len() >= 5 && name.subrange(name.len() - 5, name.len() as int) == "/HEAD"@)
}

/// The branch names in `git branch` output: each line trimmed, blank lines
/// and `HEAD` pointers left out, in listed order.
pub open spec fn branch_names(lines: Seq<Seq<char>>) -> Seq<Seq<char>>
    decreases lines.len(),
{
    if lines.len() == 0 {
        Seq::empty()
    } else {
        let name = crate::surfaces::trimmed(lines.last());
        if offered_branch(name) {
            branch_names(lines.drop_last()).push(name)
        } else {
            branch_names(lines.drop_last())
        }
    }
}

fn is_offered(name: &String) -> (r: bool)
    ensures
        r == offered_branch(name@),
{
    let chars = crate::text::to_chars(name.as_str());
    if chars.len() == 0 {
        return false;
    }
    proof { reveal_strlit("/HEAD"); }
    if chars.len() >= 5 {
        let n = chars.len();
        let tail = crate::text::string_of(chars.as_slice(), n - 5, n);
        if crate::text::same_text(tail.as_str(), "/HEAD") {
            return false;
        }
    }
    true
}

/// What a repository's branch listing comes to: its names — `listed` is the
/// output of listing every branch, one short name a line — with the local
/// default first and the remote's pinned above it, or the failure to show
/// when no branch is left. The defaults are the repository's symbolic refs as
/// read, white space and all.
pub fn parse_branches(listed: &str, local_default: Option<&str>, remote_default: Option<&str>) -> (r: Branches)
    ensures
        ({
            let names = branch_names(crate::surfaces::lines_of(listed@));
            if names.len() == 0 {
                r matches Branches::Failed(m) && m@ == "No branches found in repository"@
            } else {
                r matches Branches::Ready(v) && names_view(v@) == promote_spec(
                    names,
                    match local_default { Some(d) => Some(crate::surfaces::trimmed(d@)), None => None },
                    match remote_default { Some(d) => Some(crate::surfaces::trimmed(d@)), None => None },
                )
            }
        }),
{
    let lines = crate::surfaces::split_lines(listed);
    let ghost lv = lines@.map_values(|s: String| s@);
    let mut names: Vec<String> = Vec::new();
    let mut i: usize = 0;
    assert(lv.take(0) =~= Seq::<Seq<char>>::empty());
    while i < lines.len()
        invariant
            i <= lines@.len(),
            lv == lines@.map_values(|s: String| s@),
            names_view(names@) == branch_names(lv.take(i as int)),
        decreases lines.len() - i,
    {
        proof {
            assert(lv.take(i + 1).drop_last() =~= lv.take(i as int));
            assert(lv.take(i + 1).last() == lines@[i as int]@);
        }
        let name = crate::surfaces::trim(lines[i].as_str());
        if is_offered(&name) {
            let ghost before = names_view(names@);
            names.push(name);
            assert(names_view(names@) =~= before.push(names@.last()@));
        }
        i += 1;
    }
    assert(lv.take(i as int) =~= lv);
    if names.len() == 0 {
        proof { reveal_strlit("No branches found in repository"); }
        return Branches::Failed("No branches found in repository".to_string());
    }
    let local = match local_default {
        Some(d) => Some(crate::surfaces::trim(d)),
        None => None,
    };
    let remote = match remote_default {
        Some(d) => Some(crate::surfaces::trim(d)),
        None => None,
    };
    let l = match &local {
        Some(d) => Some(d.as_str()),
        None => None,
    };
    let m = match &remote {
        Some(d) => Some(d.as_str()),
        None => None,
    };
    Branches::Ready(promote(names, l, m))
}

/// A directory name the browser shows: not a hidden (dot) name.
pub open spec fn shown_entry(name: Seq<char>) -> bool {
    !(name.len() > 0 && name[0] == '.')
}

/// The directories read, hidden ones left out, in read order.
pub open spec fn shown_entries(entries: Seq<(Seq<char>, bool)>) -> Seq<(Seq<char>, bool)>
    decreases entries.len(),
{
    if entries.len() == 0 {
        Seq::empty()
    } else if shown_entry(entries.last().0) {
        shown_entries(entries.drop_last()).push(entries.last())
    } else {
        shown_entries(entries.drop_last())
    }
}

/// A directory's entries as the browser lists them: the directories read —
/// each with whether it is a repository — hidden ones left out, the rest in
/// name order, each with the flag of the first entry of its name.
pub fn browse_entries(entries: &Vec<(String, bool)>) -> (r: Vec<BrowseEntry>)
    ensures
        ({
            let shown = shown_entries(entries@.map_values(|e: (String, bool)| (e.0@, e.1)));
            &&& r@.map_values(|e: BrowseEntry| e.name@) == shown.map_values(|e: (Seq<char>, bool)| e.0).sort_by(crate::registry::text_le())
            &&& forall|k: int| 0 <= k < r@.len() ==> lookup(shown, #[trigger] r@[k].name@) == Some(r@[k].is_git)
        }),
{
    let ghost ev = entries@.map_values(|e: (String, bool)| (e.0@, e.1));
    let mut kept: Vec<(String, bool)> = Vec::new();
    let mut i: usize = 0;
    assert(ev.take(0) =~= Seq::<(Seq<char>, bool)>::empty());
    while i < entries.len()
        invariant
            i <= entries@.len(),
            ev == entries@.map_values(|e: (String, bool)| (e.0@, e.1)),
            kept@.map_values(|e: (String, bool)| (e.0@, e.1)) == shown_entries(ev.take(i as int)),
        decreases entries.len() - i,
    {
        proof {
            assert(ev.take(i + 1).drop_last() =~= ev.take(i as int));
            assert(ev.take(i + 1).last() == ev[i as int]);
        }
        let chars = crate::text::to_chars(entries[i].0.as_str());
        if chars.len() == 0 || chars[0] != '.' {
            let ghost before = kept@.map_values(|e: (String, bool)| (e.0@, e.1));
            kept.push((entries[i].0.clone(), entries[i].1));
            assert(kept@.map_values(|e: (String, bool)| (e.0@, e.1)) =~= before.push(ev[i as int]));
        }
        i += 1;
    }
    assert(ev.take(i as int) =~= ev);
    let ghost shown = kept@.map_values(|e: (String, bool)| (e.0@, e.1));
    let mut names: Vec<String> = Vec::new();
    let mut j: usize = 0;
    while j < kept.len()
        invariant
            j <= kept@.len(),
            shown == kept@.map_values(|e: (String, bool)| (e.0@, e.1)),
            names_view(names@) == shown.map_values(|e: (Seq<char>, bool)| e.0).take(j as int),
        decreases kept.len() - j,
    {
        let ghost before = names_view(names@);
        let ghost xs = shown.map_values(|e: (Seq<char>, bool)| e.0);
        names.push(kept[j].0.clone());
        proof {
            assert(shown[j as int] == (kept@[j as int].0@, kept@[j as int].1));
            assert(xs[j as int] == kept@[j as int].0@);
            assert(names_view(names@) =~= before.push(kept@[j as int].0@));
            assert(xs.take(j + 1) =~= xs.take(j as int).push(xs[j as int]));
        }
        j += 1;
    }
    assert(shown.map_values(|e: (Seq<char>, bool)| e.0).take(j as int) =~= shown.map_values(|e: (Seq<char>, bool)| e.0));
    let sorted = crate::registry::sort_texts(names);
    let ghost sv = names_view(sorted@);
    proof {
        crate::registry::lemma_text_le_total();
        shown.map_values(|e: (Seq<char>, bool)| e.0).lemma_sort_by_ensures(crate::registry::text_le());
    }
    let mut out: Vec<BrowseEntry> = Vec::new();
    let mut k: usize = 0;
    while k < sorted.len()
        invariant
            k <= sorted@.len(),
            sv == names_view(sorted@),
            shown == kept@.map_values(|e: (String, bool)| (e.0@, e.1)),
            forall|x: Seq<char>| sv.contains(x) ==> shown.map_values(|e: (Seq<char>, bool)| e.0).contains(x),
            out@.map_values(|e: BrowseEntry| e.name@) == sv.take(k as int),
            forall|m: int| 0 <= m < out@.len() ==> lookup(shown, #[trigger] out@[m].name@) == Some(out@[m].is_git),
        decreases sorted.len() - k,
    {
        let name = &sorted[k];
        proof {
            assert(sv[k as int] == name@);
            assert(sv.contains(name@));
        }
        let mut p: usize = 0;
        let mut flag = false;
        let mut found = false;
        while p < kept.len()
            invariant
                p <= kept@.len(),
                shown == kept@.map_values(|e: (String, bool)| (e.0@, e.1)),
                !found ==> forall|q: int| 0 <= q < p ==> shown[q].0 != name@,
                found ==> lookup(shown, name@) == Some(flag),
            decreases kept.len() - p,
        {
            if !found && crate::text::same_text(kept[p].0.as_str(), name.as_str()) {
                proof { lemma_first_key(shown, name@, p as int, false); }
                flag = kept[p].1;
                found = true;
            }
            p += 1;
        }
        proof {
            if !found {
                let xs = shown.map_values(|e: (Seq<char>, bool)| e.0);
                let q = choose|q: int| 0 <= q < xs.len() && xs[q] == name@;
                assert(shown[q].0 == name@);
            }
        }
        let ghost before = out@.map_values(|e: BrowseEntry| e.name@);
        out.push(BrowseEntry { name: name.clone(), is_git: flag });
        assert(out@.map_values(|e: BrowseEntry| e.name@) =~= before.push(name@));
        assert(sv.take(k + 1) =~= sv.take(k as int).push(sv[k as int]));
        k += 1;
    }
    assert(sv.take(k as int) =~= sv);
    out
}

} // verus!
