//! The index of directories that hold markdown, and the server's state.

use vstd::prelude::*;
use crate::paths::{components, path_components, same_path};
use crate::text::views;
use crate::text::chars_of;

verus! {

broadcast use vstd::string::group_string_axioms;

/// `paths` with `p` added unless it is there already.
pub open spec fn with_path(paths: Seq<Seq<Seq<char>>>, p: Seq<Seq<char>>) -> Seq<Seq<Seq<char>>> {
    if paths.contains(p) {
        paths
    } else {
        paths.push(p)
    }
}

/// `paths` with each of `dirs`, in order, added as `with_path` adds one.
pub open spec fn with_dirs(paths: Seq<Seq<Seq<char>>>, dirs: Seq<Seq<char>>) -> Seq<Seq<Seq<char>>>
    decreases dirs.len(),
{
    if dirs.len() == 0 {
        paths
    } else {
        with_path(with_dirs(paths, dirs.drop_last()), path_components(dirs.last()))
    }
}

/// After adding `dir`, a query for `other` finds it exactly when it was
/// there before or names the same directory as `dir`.
pub proof fn law_insert_then_contains(paths: Seq<Seq<Seq<char>>>, dir: Seq<char>, other: Seq<char>)
    ensures
        with_path(paths, path_components(dir)).contains(path_components(other)) == (paths.contains(
            path_components(other),
        ) || same_path(dir, other)),
{
    let c = path_components(dir);
    let q = path_components(other);
    if !paths.contains(c) {
        let p2 = paths.push(c);
        if p2.contains(q) {
            let k = choose|k: int| 0 <= k < p2.len() && p2[k] == q;
            if k < paths.len() {
                assert(paths[k] == q);
            }
        }
        if paths.contains(q) {
            let k = choose|k: int| 0 <= k < paths.len() && paths[k] == q;
            assert(p2[k] == q);
        }
        if same_path(dir, other) {
            assert(p2[paths.len() as int] == q);
        }
    }
}

/// After adding the directories `dirs`, a query finds a directory exactly
/// when it was there before or names the same directory as one of `dirs`.
pub proof fn law_with_dirs_contains(paths: Seq<Seq<Seq<char>>>, dirs: Seq<Seq<char>>, other: Seq<char>)
    ensures
        with_dirs(paths, dirs).contains(path_components(other)) == (paths.contains(path_components(other))
            || exists|i: int| 0 <= i < dirs.len() && same_path(#[trigger] dirs[i], other)),
    decreases dirs.len(),
{
    if dirs.len() > 0 {
        let init = dirs.drop_last();
        law_with_dirs_contains(paths, init, other);
        law_insert_then_contains(with_dirs(paths, init), dirs.last(), other);
        if exists|i: int| 0 <= i < init.len() && same_path(#[trigger] init[i], other) {
            let i = choose|i: int| 0 <= i < init.len() && same_path(#[trigger] init[i], other);
            assert(dirs[i] == init[i]);
        }
        if exists|i: int| 0 <= i < dirs.len() && same_path(#[trigger] dirs[i], other) {
            let i = choose|i: int| 0 <= i < dirs.len() && same_path(#[trigger] dirs[i], other);
            if i < init.len() {
                assert(init[i] == dirs[i]);
            }
        }
    }
}

/// Two spellings of one directory are found alike.
pub proof fn law_contains_ignores_spelling(paths: Seq<Seq<Seq<char>>>, a: Seq<char>, b: Seq<char>)
    requires
        same_path(a, b),
    ensures
        paths.contains(path_components(a)) == paths.contains(path_components(b)),
{
}

/// The components of each of `entries`.
pub open spec fn components_of_all(entries: Seq<Seq<char>>) -> Seq<Seq<Seq<char>>> {
    entries.map_values(|d: Seq<char>| path_components(d))
}

/// `entries` with `d` appended, unless a directory with its components is
/// there already.
pub open spec fn with_entry(entries: Seq<Seq<char>>, d: Seq<char>) -> Seq<Seq<char>> {
    if components_of_all(entries).contains(path_components(d)) {
        entries
    } else {
        entries.push(d)
    }
}

/// `entries` with each of `dirs`, in order, added as `with_entry` adds one.
pub open spec fn with_entries(entries: Seq<Seq<char>>, dirs: Seq<Seq<char>>) -> Seq<Seq<char>>
    decreases dirs.len(),
{
    if dirs.len() == 0 {
        entries
    } else {
        with_entry(with_entries(entries, dirs.drop_last()), dirs.last())
    }
}

/// Adding two lists of directories one after the other adds their
/// concatenation.
pub proof fn lemma_with_entries_concat(entries: Seq<Seq<char>>, a: Seq<Seq<char>>, b: Seq<Seq<char>>)
    ensures
        with_entries(entries, a + b) == with_entries(with_entries(entries, a), b),
    decreases b.len(),
{
    if b.len() == 0 {
        assert(a + b =~= a);
    } else {
        lemma_with_entries_concat(entries, a, b.drop_last());
        assert((a + b).drop_last() =~= a + b.drop_last());
        assert((a + b).last() == b.last());
    }
}

/// No element occurs twice.
pub open spec fn distinct<T>(s: Seq<T>) -> bool {
    forall|i: int, j: int| 0 <= i < j < s.len() ==> s[i] != s[j]
}

/// The set of directories (by their canonical paths) that hold a markdown
/// file, directly or below. Two spellings of one path (`/a/b`, `/a//b/`)
/// count as one directory, as `PathBuf` equality has it.
pub struct MdIndex {
    dirs_with_md: Vec<String>,
}

impl MdIndex {
    /// The indexed directories as they were inserted, in insertion order.
    pub closed spec fn entries(&self) -> Seq<Seq<char>> {
        Seq::new(self.dirs_with_md@.len(), |i: int| self.dirs_with_md@[i]@)
    }

    /// The components of the indexed directories, in insertion order.
    pub open spec fn paths(&self) -> Seq<Seq<Seq<char>>> {
        components_of_all(self.entries())
    }

    /// No directory is held twice.
    #[verifier::type_invariant]
    closed spec fn well_formed(self) -> bool {
        distinct(self.paths())
    }

    /// The indexed directories as a set of paths, each by its components.
    pub open spec fn dir_set(&self) -> Set<Seq<Seq<char>>> {
        self.paths().to_set()
    }

    /// An index with no directory.
    pub fn new() -> (r: MdIndex)
        ensures
            r.entries() == Seq::<Seq<char>>::empty(),
            r.paths() == Seq::<Seq<Seq<char>>>::empty(),
    {
        let r = MdIndex { dirs_with_md: Vec::new() };
        assert(r.entries() =~= Seq::<Seq<char>>::empty());
        assert(r.paths() =~= Seq::<Seq<Seq<char>>>::empty());
        r
    }

    /// Whether `dir` is indexed (compared component by component).
    pub fn contains_dir(&self, dir: &str) -> (r: bool)
        ensures
            r == self.paths().contains(path_components(dir@)),
    {
        assert(forall|k: int| 0 <= k < self.dirs_with_md@.len() ==> self.paths()[k] == path_components(#[trigger] self.dirs_with_md@[k]@));
        let key = components(&chars_of(dir));
        let n = self.dirs_with_md.len();
        let mut i: usize = 0;
        while i < n
            invariant
                i <= n,
                n == self.dirs_with_md@.len(),
                views(key@) == path_components(dir@),
                forall|k: int| 0 <= k < i ==> self.paths()[k] != path_components(dir@),
            decreases n - i,
        {
            let other = components(&chars_of(self.dirs_with_md[i].as_str()));
            if same_key(&other, &key) {
                assert(self.paths()[i as int] == path_components(dir@));
                return true;
            }
            i += 1;
        }
        proof {
            if self.paths().contains(path_components(dir@)) {
                let k = choose|k: int| 0 <= k < self.paths().len() && self.paths()[k] == path_components(dir@);
                assert(self.paths()[k] == path_components(dir@));
            }
        }
        false
    }

    /// Adds `dir` unless it is indexed already; says whether it was added.
    pub fn insert(&mut self, dir: &str) -> (added: bool)
        ensures
            final(self).paths() == with_path(old(self).paths(), path_components(dir@)),
            added == !old(self).paths().contains(path_components(dir@)),
            added ==> final(self).entries() == old(self).entries().push(dir@),
            !added ==> final(self).entries() == old(self).entries(),
            final(self).entries() == with_entry(old(self).entries(), dir@),
    {
        if self.contains_dir(dir) {
            return false;
        }
        proof {
            use_type_invariant(&*self);
        }
        let ghost before = self.paths();
        let ghost before_entries = self.entries();
        let mut dirs: Vec<String> = Vec::new();
        std::mem::swap(&mut dirs, &mut self.dirs_with_md);
        dirs.push(dir.to_owned());
        let ghost after_entries = Seq::new(dirs@.len(), |i: int| dirs@[i]@);
        assert(after_entries =~= before_entries.push(dir@));
        let ghost after = after_entries.map_values(|d: Seq<char>| path_components(d));
        assert(after =~= before.push(path_components(dir@)));
        assert(distinct(after)) by {
            assert forall|i: int, j: int| 0 <= i < j < after.len() implies after[i] != after[j] by {
                if j == after.len() - 1 {
                    assert(before[i] == after[i]);
                }
            }
        }
        self.dirs_with_md = dirs;
        assert(self.entries() =~= after_entries);
        assert(self.paths() =~= after);
        true
    }

    /// The number of indexed directories.
    pub fn len(&self) -> (n: usize)
        ensures
            n == self.paths().len(),
    {
        self.dirs_with_md.len()
    }

    /// The indexed directories as they were inserted, in insertion order.
    pub fn dirs(&self) -> (r: Vec<String>)
        ensures
            r@.len() == self.entries().len(),
            forall|i: int| 0 <= i < r@.len() ==> #[trigger] r@[i]@ == self.entries()[i],
    {
        let mut r: Vec<String> = Vec::new();
        let n = self.dirs_with_md.len();
        let mut i: usize = 0;
        while i < n
            invariant
                i <= n,
                n == self.dirs_with_md@.len(),
                r@.len() == i,
                forall|k: int| 0 <= k < i ==> #[trigger] r@[k]@ == self.dirs_with_md@[k]@,
            decreases n - i,
        {
            r.push(self.dirs_with_md[i].clone());
            i += 1;
        }
        r
    }
}

/// Whether two component lists are equal.
fn same_key(a: &Vec<Vec<char>>, b: &Vec<Vec<char>>) -> (r: bool)
    ensures
        r == (views(a@) == views(b@)),
{
    crate::paths::same_pieces(a, b)
}

/// The state the request handler reads: the home directory it serves and
/// the index of directories with markdown.
pub struct AppState {
    pub home_dir: String,
    pub index: MdIndex,
}

impl AppState {
    /// A state serving `home_dir` with the given index.
    pub fn new(home_dir: String, index: MdIndex) -> (r: AppState)
        ensures
            r.home_dir == home_dir,
            r.index == index,
    {
        AppState { home_dir, index }
    }

    /// The index of directories with markdown.
    pub fn get_index(&self) -> (r: &MdIndex)
        ensures
            *r == self.index,
    {
        &self.index
    }

    /// Puts a freshly built index in place of the current one.
    pub fn replace_index(&mut self, index: MdIndex)
        ensures
            final(self).index == index,
            final(self).home_dir == old(self).home_dir,
    {
        self.index = index;
    }
}

} // verus!
