//! Which file-system events could change what the interface loads.
//!
//! The caller drains a watcher and asks, per event, whether to look again.
//! Reading a file, version-control bookkeeping and editor scratch files
//! never change what is loaded; anything else — an event naming no path
//! included, since that is a backend saying it lost track — does.
use vstd::prelude::*;
use crate::text::{same_text, starts_with, to_chars};
use crate::snapshot::{leaf, path_leaf};

verus! {

/// `Path::components`, each as its text. How a path splits is the build
/// target's: on Windows a backslash separates too and a drive prefix is a
/// component of its own.
pub uninterp spec fn path_components(path: Seq<char>) -> Seq<Seq<char>>;

/// The components of a path, as `std::path::Path::components` splits it.
#[verifier::external_body]
fn components(path: &str) -> (r: Vec<String>)
    ensures
        r@.map_values(|c: String| c@) == path_components(path@),
{
    std::path::Path::new(path).components().map(|c| c.as_os_str().to_string_lossy().to_string()).collect()
}

/// One event as the watcher reported it: whether it was a read, and the
/// paths it names.
#[derive(Debug, Clone)]
pub struct Change {
    pub access: bool,
    pub paths: Vec<String>,
}

/// A file an editor writes beside the one being edited: a backup ending in
/// `~`, emacs' `.#name`, or gio's `.goutputstream` temporaries.
pub open spec fn scratch_name(name: Seq<char>) -> bool {
    (name.len() > 0 && name.last() == '~')
        || (name.len() >= 2 && name.take(2) == ".#"@)
        || (name.len() >= 14 && name.take(14) == ".goutputstream"@)
}

/// A path that never holds an interface edit: anything under a `.git`
/// component, or a scratch file.
pub open spec fn noise_path(path: Seq<char>) -> bool {
    path_components(path).contains(".git"@) || (path_leaf(path) matches Some(name) && scratch_name(name))
}

/// Whether an event never affects what is loaded: a read, or a batch whose
/// every path is noise. A batch naming no path is not noise.
pub open spec fn noise(access: bool, paths: Seq<Seq<char>>) -> bool {
    access || (paths.len() > 0 && forall|i: int| 0 <= i < paths.len() ==> #[trigger] noise_path(paths[i]))
}

fn is_noise_path(path: &str) -> (r: bool)
    ensures
        r == noise_path(path@),
{
    let parts = components(path);
    let ghost pv = parts@.map_values(|c: String| c@);
    let mut i: usize = 0;
    while i < parts.len()
        invariant
            i <= parts@.len(),
            pv == parts@.map_values(|c: String| c@),
            pv == path_components(path@),
            forall|k: int| 0 <= k < i ==> pv[k] != ".git"@,
        decreases parts.len() - i,
    {
        if same_text(parts[i].as_str(), ".git") {
            assert(pv[i as int] == ".git"@);
            return true;
        }
        i += 1;
    }
    assert(!pv.contains(".git"@));
    match leaf(path) {
        Some(name) => {
            let chars = to_chars(name.as_str());
            proof {
                reveal_strlit(".#");
                reveal_strlit(".goutputstream");
            }
            let backup = chars.len() > 0 && chars[chars.len() - 1] == '~';
            let lock = starts_with(name.as_str(), ".#");
            let temp = starts_with(name.as_str(), ".goutputstream");
            proof {
                if name@.len() >= 2 {
                    assert(name@.subrange(0, 2) == name@.take(2));
                }
                if name@.len() >= 14 {
                    assert(name@.subrange(0, 14) == name@.take(14));
                }
            }
            backup || lock || temp
        },
        None => false,
    }
}

/// Whether an event never affects what is loaded: reading a file is not
/// changing it, and a batch is noise only when every path in it is.
pub fn is_noise(change: &Change) -> (r: bool)
    ensures
        r == noise(change.access, change.paths@.map_values(|p: String| p@)),
{
    if change.access {
        return true;
    }
    if change.paths.len() == 0 {
        return false;
    }
    let ghost pv = change.paths@.map_values(|p: String| p@);
    let mut i: usize = 0;
    while i < change.paths.len()
        invariant
            i <= change.paths@.len(),
            pv == change.paths@.map_values(|p: String| p@),
            !change.access,
            forall|k: int| 0 <= k < i ==> #[trigger] noise_path(pv[k]),
        decreases change.paths.len() - i,
    {
        if !is_noise_path(change.paths[i].as_str()) {
            assert(!noise_path(pv[i as int]));
            return false;
        }
        i += 1;
    }
    true
}

/// Whether a drained batch of events asks for a look: any event that is not
/// noise, or any error the watcher reported, since going stale silently is
/// worse than looking again.
pub fn changed(events: &Vec<Option<Change>>) -> (r: bool)
    ensures
        r == exists|i: int| 0 <= i < events@.len() && match #[trigger] events@[i] {
            Some(c) => !noise(c.access, c.paths@.map_values(|p: String| p@)),
            None => true,
        },
{
    let mut i: usize = 0;
    while i < events.len()
        invariant
            i <= events@.len(),
            forall|k: int| 0 <= k < i ==> match #[trigger] events@[k] {
                Some(c) => noise(c.access, c.paths@.map_values(|p: String| p@)),
                None => false,
            },
        decreases events.len() - i,
    {
        match &events[i] {
            Some(c) => {
                if !is_noise(c) {
                    return true;
                }
            },
            None => {
                return true;
            },
        }
        i += 1;
    }
    false
}

} // verus!
