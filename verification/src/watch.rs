//! When a change reported by the file watcher rebuilds the index.

use vstd::prelude::*;
use crate::paths::path_extension;
use crate::serve::{is_markdown_path, MARKDOWN_EXTENSION};

verus! {

broadcast use vstd::string::group_string_axioms;

/// The least time between two rebuilds caused by file changes, in
/// nanoseconds.
pub const DEBOUNCE_NANOS: u128 = 2_000_000_000;

/// Seconds between two full rebuilds of the index.
pub const REINDEX_INTERVAL_SECS: u64 = 600;

/// The kind of a reported change.
#[derive(PartialEq, Eq, Structural, Clone, Copy, Debug)]
pub enum ChangeKind {
    Create,
    Remove,
    Modify,
    Other,
}

/// A path named in a reported change, and whether it is a directory.
pub struct ChangedPath {
    pub path: String,
    pub is_dir: bool,
}

/// A path that matters to the index: a markdown file or a directory.
pub open spec fn path_matters(p: ChangedPath) -> bool {
    path_extension(p.path@) == Some(MARKDOWN_EXTENSION@) || p.is_dir
}

/// A change rebuilds the index when it creates, removes or modifies, and
/// names some path that matters.
pub open spec fn change_rebuilds(kind: ChangeKind, paths: Seq<ChangedPath>) -> bool {
    (kind == ChangeKind::Create || kind == ChangeKind::Remove || kind == ChangeKind::Modify)
        && exists|i: int| 0 <= i < paths.len() && path_matters(#[trigger] paths[i])
}

/// Exactly markdown files (extension `md`, as written) and directories
/// matter to the index.
pub proof fn law_markdown_and_directories_matter(p: ChangedPath)
    ensures
        path_matters(p) == (path_extension(p.path@) == Some("md"@) || p.is_dir),
{
}

/// A create, remove or modify rebuilds the index as soon as any one of its
/// paths, at any position, matters.
pub proof fn law_any_path_rebuilds(kind: ChangeKind, paths: Seq<ChangedPath>, i: int)
    requires
        kind == ChangeKind::Create || kind == ChangeKind::Remove || kind == ChangeKind::Modify,
        0 <= i < paths.len(),
        path_matters(paths[i]),
    ensures
        change_rebuilds(kind, paths),
{
}

/// Naming more paths in a change never turns a rebuild off, whether the
/// paths come after or before those that caused it.
pub proof fn law_more_paths_keep_rebuild(kind: ChangeKind, ps: Seq<ChangedPath>, qs: Seq<ChangedPath>)
    ensures
        change_rebuilds(kind, ps) ==> change_rebuilds(kind, ps + qs),
        change_rebuilds(kind, qs) ==> change_rebuilds(kind, ps + qs),
{
    let all = ps + qs;
    if change_rebuilds(kind, ps) {
        let i = choose|i: int| 0 <= i < ps.len() && path_matters(#[trigger] ps[i]);
        assert(all[i] == ps[i]);
        law_any_path_rebuilds(kind, all, i);
    }
    if change_rebuilds(kind, qs) {
        let i = choose|i: int| 0 <= i < qs.len() && path_matters(#[trigger] qs[i]);
        assert(all[ps.len() + i] == qs[i]);
        law_any_path_rebuilds(kind, all, ps.len() + i);
    }
}

/// A change of another kind never rebuilds, and neither does one that
/// names no path that matters.
pub proof fn law_rebuild_needs_kind_and_path(kind: ChangeKind, paths: Seq<ChangedPath>)
    ensures
        change_rebuilds(kind, paths) ==> kind != ChangeKind::Other,
        (forall|i: int| 0 <= i < paths.len() ==> !path_matters(#[trigger] paths[i])) ==> !change_rebuilds(kind, paths),
{
}

/// Whether a reported change rebuilds the index (before debouncing).
pub fn change_needs_rebuild(kind: ChangeKind, paths: &Vec<ChangedPath>) -> (r: bool)
    ensures
        r == change_rebuilds(kind, paths@),
{
    let relevant = kind == ChangeKind::Create || kind == ChangeKind::Remove || kind == ChangeKind::Modify;
    let n = paths.len();
    let mut any = false;
    let mut i: usize = 0;
    while i < n
        invariant
            i <= n,
            n == paths@.len(),
            any == exists|k: int| 0 <= k < i && path_matters(#[trigger] paths@[k]),
        decreases n - i,
    {
        let p = &paths[i];
        if is_markdown_path(p.path.as_str()) || p.is_dir {
            assert(path_matters(paths@[i as int]));
            any = true;
        }
        i += 1;
    }
    relevant && any
}

/// Whether enough time has passed since the last rebuild for another.
pub fn debounce_passed(elapsed_nanos: u128) -> (r: bool)
    ensures
        r == (elapsed_nanos >= DEBOUNCE_NANOS),
{
    elapsed_nanos >= DEBOUNCE_NANOS
}

} // verus!
