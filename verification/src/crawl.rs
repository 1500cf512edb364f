//! The search for directories that hold markdown, over a directory tree
//! read from disk.

use vstd::prelude::*;
use crate::index::{law_with_dirs_contains, lemma_with_entries_concat, with_dirs, with_entries, with_entry, MdIndex};
use crate::paths::{joined, lemma_components_join_name, path_components, path_starts_with, plain_name, same_path};
use crate::text::{chars_of, ends_with_chars, has_suffix, same_chars};

verus! {

broadcast use vstd::string::group_string_axioms;

/// How deep below the home directory the search looks.
pub const CRAWL_DEPTH: u8 = 6;

/// What a directory entry is, as its file type (not following links) says.
#[derive(PartialEq, Eq, Structural, Clone, Copy, Debug)]
pub enum EntryKind {
    File,
    Dir,
    Symlink,
    Other,
}

/// A directory entry: its name, its file type (`None` where reading the
/// type failed), and for a directory that the search enters, what was read
/// of it.
pub struct DirEntryNode {
    pub name: String,
    pub kind: Option<EntryKind>,
    pub subdir: Option<DirNode>,
}

/// A directory as read from disk: its path, its canonical path (`None`
/// where canonicalizing failed) and its entries in the order the system
/// listed them (`None` where it was not listed, or listing failed).
pub struct DirNode {
    pub path: String,
    pub canonical: Option<String>,
    pub entries: Option<Vec<DirEntryNode>>,
}

/// Directory names that the search never enters.
pub open spec fn skip_dir_names() -> Seq<Seq<char>> {
    seq![
        "node_modules"@, "target"@, "vendor"@, "build"@, "dist"@, "cache"@,
        "Cache"@, "Caches"@, "Library"@, "Applications"@, "Pictures"@, "Music"@,
        "Movies"@, "Photos"@, "Downloads"@, "__pycache__"@, "venv"@, ".venv"@,
        "Trash"@, ".Trash"@, "Containers"@, "WebKit"@, "Logs"@,
        "Documents"@, "Desktop"@, "Public"@, "openclaw"@, "go"@,
    ]
}

/// Entries the search passes over: hidden ones and the names above.
pub open spec fn skipped_name(name: Seq<char>) -> bool {
    (name.len() > 0 && name[0] == '.') || skip_dir_names().contains(name)
}

/// A markdown file name: one that ends with `.md`.
pub open spec fn is_markdown_name(name: Seq<char>) -> bool {
    has_suffix(name, ".md"@)
}

/// Some entry of `entries` (a directory searched with `depth` levels
/// left) is a markdown file, or a directory whose search finds one.
pub open spec fn entries_have_markdown(entries: Seq<DirEntryNode>, depth: nat) -> bool
    decreases depth, entries.len(),
{
    if entries.len() == 0 {
        false
    } else {
        let e = entries.last();
        entries_have_markdown(entries.drop_last(), depth) || (!skipped_name(e.name@) && match e.kind {
            Some(EntryKind::File) => is_markdown_name(e.name@),
            Some(EntryKind::Dir) => match e.subdir {
                Some(sub) => depth > 1 && match sub.entries {
                    Some(es) => entries_have_markdown(es@, (depth - 1) as nat),
                    None => false,
                },
                None => false,
            },
            _ => false,
        })
    }
}

/// The search of `node` with `depth` levels left finds markdown.
pub open spec fn has_markdown(node: DirNode, depth: nat) -> bool {
    depth > 0 && match node.entries {
        Some(es) => entries_have_markdown(es@, depth),
        None => false,
    }
}

/// What a directory in which markdown was found adds to the index: its
/// canonical path; nothing where canonicalizing it failed, since the index
/// holds canonical paths only.
pub open spec fn index_entry(node: DirNode) -> Seq<Seq<char>> {
    match node.canonical {
        Some(c) => seq![c@],
        None => Seq::<Seq<char>>::empty(),
    }
}

/// The directories found below the entries `entries` of a directory
/// searched with `depth` levels left, in the order the search finds them:
/// each directory after those found inside it.
pub open spec fn entries_found(entries: Seq<DirEntryNode>, depth: nat) -> Seq<Seq<char>>
    decreases depth, entries.len(),
{
    if entries.len() == 0 {
        Seq::<Seq<char>>::empty()
    } else {
        let e = entries.last();
        let before = entries_found(entries.drop_last(), depth);
        if !skipped_name(e.name@) && e.kind == Some(EntryKind::Dir) && e.subdir is Some && depth > 1
            && e.subdir->0.entries is Some {
            let sub = e.subdir->0;
            let es = sub.entries->0@;
            before + entries_found(es, (depth - 1) as nat) + if entries_have_markdown(es, (depth - 1) as nat) {
                index_entry(sub)
            } else {
                Seq::<Seq<char>>::empty()
            }
        } else {
            before
        }
    }
}

/// The directories found by searching `node` with `depth` levels left:
/// those found below it, then `node` itself (by its canonical path) if
/// markdown was found.
pub open spec fn found_dirs(node: DirNode, depth: nat) -> Seq<Seq<char>> {
    if depth > 0 && node.entries is Some {
        let es = node.entries->0@;
        entries_found(es, depth) + if entries_have_markdown(es, depth) {
            index_entry(node)
        } else {
            Seq::<Seq<char>>::empty()
        }
    } else {
        Seq::<Seq<char>>::empty()
    }
}

/// An entry the search passes over (a hidden or listed name, a link, an
/// entry of another or unknown type) changes neither whether markdown is
/// found nor which directories are added.
pub proof fn law_passed_over_entries_change_nothing(entries: Seq<DirEntryNode>, e: DirEntryNode, depth: nat)
    requires
        skipped_name(e.name@) || (e.kind != Some(EntryKind::File) && e.kind != Some(EntryKind::Dir)),
    ensures
        entries_have_markdown(entries.push(e), depth) == entries_have_markdown(entries, depth),
        entries_found(entries.push(e), depth) == entries_found(entries, depth),
{
    assert(entries.push(e).drop_last() =~= entries);
}

/// An entry the search passes over: a hidden or listed name, or neither
/// a file nor a directory (a link, another type, a type not read).
pub open spec fn passed_over(e: DirEntryNode) -> bool {
    skipped_name(e.name@) || (e.kind != Some(EntryKind::File) && e.kind != Some(EntryKind::Dir))
}

/// Two lists of entries agree for a search with `depth` levels left:
/// leaving out the entries passed over, anywhere in the tree, they have
/// the same names and kinds in the same order, and their directories agree
/// in canonical path and, one level down, in their entries.
pub open spec fn entries_similar(a: Seq<DirEntryNode>, b: Seq<DirEntryNode>, depth: nat) -> bool
    decreases depth, a.len() + b.len(),
{
    if a.len() > 0 && passed_over(a.last()) {
        entries_similar(a.drop_last(), b, depth)
    } else if b.len() > 0 && passed_over(b.last()) {
        entries_similar(a, b.drop_last(), depth)
    } else if a.len() == 0 || b.len() == 0 {
        a.len() == 0 && b.len() == 0
    } else {
        let x = a.last();
        let y = b.last();
        &&& entries_similar(a.drop_last(), b.drop_last(), depth)
        &&& x.name@ == y.name@
        &&& x.kind == y.kind
        &&& (x.kind == Some(EntryKind::Dir) && depth > 1) ==> match (x.subdir, y.subdir) {
            (Some(s), Some(t)) => index_entry(s) == index_entry(t) && match (s.entries, t.entries) {
                (Some(p), Some(q)) => entries_similar(p@, q@, (depth - 1) as nat),
                (None, None) => true,
                _ => false,
            },
            (None, None) => true,
            _ => false,
        }
    }
}

/// Two directories agree for a search with `depth` levels left: same
/// canonical path, and agreeing entries (see `entries_similar`).
pub open spec fn node_similar(n1: DirNode, n2: DirNode, depth: nat) -> bool {
    &&& index_entry(n1) == index_entry(n2)
    &&& depth > 0 ==> match (n1.entries, n2.entries) {
        (Some(p), Some(q)) => entries_similar(p@, q@, depth),
        (None, None) => true,
        _ => false,
    }
}

/// Agreeing entry lists search alike.
proof fn lemma_similar_entries_search_alike(a: Seq<DirEntryNode>, b: Seq<DirEntryNode>, depth: nat)
    requires
        entries_similar(a, b, depth),
    ensures
        entries_have_markdown(a, depth) == entries_have_markdown(b, depth),
        entries_found(a, depth) == entries_found(b, depth),
    decreases depth, a.len() + b.len(),
{
    if a.len() > 0 && passed_over(a.last()) {
        lemma_similar_entries_search_alike(a.drop_last(), b, depth);
        assert(a.drop_last().push(a.last()) =~= a);
        law_passed_over_entries_change_nothing(a.drop_last(), a.last(), depth);
    } else if b.len() > 0 && passed_over(b.last()) {
        lemma_similar_entries_search_alike(a, b.drop_last(), depth);
        assert(b.drop_last().push(b.last()) =~= b);
        law_passed_over_entries_change_nothing(b.drop_last(), b.last(), depth);
    } else if a.len() == 0 || b.len() == 0 {
    } else {
        lemma_similar_entries_search_alike(a.drop_last(), b.drop_last(), depth);
        let x = a.last();
        let y = b.last();
        if x.kind == Some(EntryKind::Dir) && depth > 1 {
            if let (Some(s), Some(t)) = (x.subdir, y.subdir) {
                if let (Some(p), Some(q)) = (s.entries, t.entries) {
                    lemma_similar_entries_search_alike(p@, q@, (depth - 1) as nat);
                }
            }
        }
    }
}

/// Directories that agree (see `node_similar`) search alike: entries that
/// the search passes over, with everything below them, make no difference
/// to whether markdown is found or to what the index receives.
pub proof fn law_similar_trees_search_alike(n1: DirNode, n2: DirNode, depth: nat)
    requires
        node_similar(n1, n2, depth),
    ensures
        has_markdown(n1, depth) == has_markdown(n2, depth),
        found_dirs(n1, depth) == found_dirs(n2, depth),
{
    if depth > 0 {
        if let (Some(p), Some(q)) = (n1.entries, n2.entries) {
            lemma_similar_entries_search_alike(p@, q@, depth);
        }
    }
}

/// Appending an entry passed over to either side keeps lists agreeing.
proof fn lemma_similar_push_passed_over(a: Seq<DirEntryNode>, b: Seq<DirEntryNode>, e: DirEntryNode, depth: nat)
    requires
        entries_similar(a, b, depth),
        passed_over(e),
    ensures
        entries_similar(a.push(e), b, depth),
        entries_similar(a, b.push(e), depth),
    decreases a.len(),
{
    assert(a.push(e).drop_last() =~= a);
    assert(b.push(e).drop_last() =~= b);
    if a.len() > 0 && passed_over(a.last()) {
        lemma_similar_push_passed_over(a.drop_last(), b, e, depth);
    }
}

/// Every list of entries agrees with itself.
pub proof fn lemma_similar_reflexive(a: Seq<DirEntryNode>, depth: nat)
    ensures
        entries_similar(a, a, depth),
    decreases depth, a.len(),
{
    if a.len() > 0 {
        let d = a.drop_last();
        lemma_similar_reflexive(d, depth);
        let x = a.last();
        if passed_over(x) {
            lemma_similar_push_passed_over(d, d, x, depth);
            assert(d.push(x) =~= a);
        } else {
            if x.kind == Some(EntryKind::Dir) && depth > 1 {
                if let Some(s) = x.subdir {
                    if let Some(p) = s.entries {
                        lemma_similar_reflexive(p@, (depth - 1) as nat);
                    }
                }
            }
        }
    }
}

/// Appending the same entry to agreeing lists keeps them agreeing.
proof fn lemma_similar_push_same(a: Seq<DirEntryNode>, b: Seq<DirEntryNode>, x: DirEntryNode, depth: nat)
    requires
        entries_similar(a, b, depth),
    ensures
        entries_similar(a.push(x), b.push(x), depth),
{
    assert(a.push(x).drop_last() =~= a);
    assert(b.push(x).drop_last() =~= b);
    if passed_over(x) {
        lemma_similar_push_passed_over(a, b, x, depth);
        lemma_similar_push_passed_over(a.push(x), b, x, depth);
    } else if x.kind == Some(EntryKind::Dir) && depth > 1 {
        if let Some(s) = x.subdir {
            if let Some(p) = s.entries {
                lemma_similar_reflexive(p@, (depth - 1) as nat);
            }
        }
    }
}

/// Inserting an entry passed over anywhere in a directory's entries keeps
/// them agreeing with the entries as they were.
pub proof fn law_insert_passed_over_entry(entries: Seq<DirEntryNode>, i: int, e: DirEntryNode, depth: nat)
    requires
        0 <= i <= entries.len(),
        passed_over(e),
    ensures
        entries_similar(entries, entries.insert(i, e), depth),
    decreases entries.len(),
{
    lemma_similar_reflexive(entries, depth);
    if i == entries.len() {
        assert(entries.insert(i, e) =~= entries.push(e));
        lemma_similar_push_passed_over(entries, entries, e, depth);
    } else {
        let d = entries.drop_last();
        let l = entries.last();
        law_insert_passed_over_entry(d, i, e, depth);
        assert(entries.insert(i, e) =~= d.insert(i, e).push(l));
        assert(d.push(l) =~= entries);
        lemma_similar_push_same(d, d.insert(i, e), l, depth);
    }
}

/// Replacing the directory below entry `i` by one that agrees with it one
/// level down keeps the entries agreeing: agreement reaches every level of
/// the tree.
pub proof fn law_replace_similar_subdir(entries: Seq<DirEntryNode>, i: int, sub: DirNode, depth: nat)
    requires
        0 <= i < entries.len(),
        depth > 1,
        entries[i].subdir matches Some(old_sub) && node_similar(old_sub, sub, (depth - 1) as nat),
    ensures
        entries_similar(
            entries,
            entries.update(i, DirEntryNode { name: entries[i].name, kind: entries[i].kind, subdir: Some(sub) }),
            depth,
        ),
    decreases entries.len(),
{
    let new_entry = DirEntryNode { name: entries[i].name, kind: entries[i].kind, subdir: Some(sub) };
    let d = entries.drop_last();
    let l = entries.last();
    if i == entries.len() - 1 {
        lemma_similar_reflexive(d, depth);
        assert(entries.update(i, new_entry) =~= d.push(new_entry));
        assert(d.push(l) =~= entries);
        assert(d.push(new_entry).drop_last() =~= d);
        if passed_over(l) {
            lemma_similar_push_passed_over(d, d, l, depth);
            lemma_similar_push_passed_over(entries, d, new_entry, depth);
        }
    } else {
        law_replace_similar_subdir(d, i, sub, depth);
        assert(entries.update(i, new_entry) =~= d.update(i, new_entry).push(l));
        assert(d.push(l) =~= entries);
        lemma_similar_push_same(d, d.update(i, new_entry), l, depth);
    }
}

/// Searching entries one level deeper finds markdown wherever the
/// shallower search did.
pub proof fn lemma_entries_deeper(entries: Seq<DirEntryNode>, depth: nat)
    requires
        entries_have_markdown(entries, depth),
    ensures
        entries_have_markdown(entries, depth + 1),
    decreases depth, entries.len(),
{
    let e = entries.last();
    if entries_have_markdown(entries.drop_last(), depth) {
        lemma_entries_deeper(entries.drop_last(), depth);
    } else if e.kind == Some(EntryKind::Dir) {
        let sub = e.subdir->0;
        lemma_entries_deeper(sub.entries->0@, (depth - 1) as nat);
        assert((depth + 1 - 1) as nat == ((depth - 1) as nat + 1) as nat);
    }
}

/// A search that goes deeper finds markdown wherever a shallower one does.
pub proof fn law_deeper_search_finds_more(node: DirNode, depth: nat)
    requires
        has_markdown(node, depth),
    ensures
        has_markdown(node, depth + 1),
{
    lemma_entries_deeper(node.entries->0@, depth);
}

/// Whether `x` is among `a + b`.
proof fn lemma_contains_add(a: Seq<Seq<char>>, b: Seq<Seq<char>>, x: Seq<char>)
    ensures
        (a + b).contains(x) == (a.contains(x) || b.contains(x)),
{
    if (a + b).contains(x) {
        let k = choose|k: int| 0 <= k < (a + b).len() && (a + b)[k] == x;
        if k < a.len() {
            assert(a[k] == x);
        } else {
            assert(b[k - a.len()] == x);
        }
    }
    if a.contains(x) {
        let k = choose|k: int| 0 <= k < a.len() && a[k] == x;
        assert((a + b)[k] == x);
    }
    if b.contains(x) {
        let k = choose|k: int| 0 <= k < b.len() && b[k] == x;
        assert((a + b)[a.len() + k] == x);
    }
}

/// Searching entries one level deeper finds every directory that the
/// shallower search finds.
proof fn lemma_entries_found_deeper(entries: Seq<DirEntryNode>, depth: nat, x: Seq<char>)
    requires
        entries_found(entries, depth).contains(x),
    ensures
        entries_found(entries, depth + 1).contains(x),
    decreases depth, entries.len(),
{
    let e = entries.last();
    let init = entries.drop_last();
    let before = entries_found(init, depth);
    let before2 = entries_found(init, depth + 1);
    let cond2 = !skipped_name(e.name@) && e.kind == Some(EntryKind::Dir) && e.subdir is Some
        && depth + 1 > 1 && e.subdir->0.entries is Some;
    if cond2 {
        let sub = e.subdir->0;
        let es = sub.entries->0@;
        let tail2 = if entries_have_markdown(es, depth) { index_entry(sub) } else { Seq::<Seq<char>>::empty() };
        lemma_contains_add(before2 + entries_found(es, depth), tail2, x);
        lemma_contains_add(before2, entries_found(es, depth), x);
        if depth > 1 {
            let tail = if entries_have_markdown(es, (depth - 1) as nat) {
                index_entry(sub)
            } else {
                Seq::<Seq<char>>::empty()
            };
            lemma_contains_add(before + entries_found(es, (depth - 1) as nat), tail, x);
            lemma_contains_add(before, entries_found(es, (depth - 1) as nat), x);
            if before.contains(x) {
                lemma_entries_found_deeper(init, depth, x);
            } else if entries_found(es, (depth - 1) as nat).contains(x) {
                lemma_entries_found_deeper(es, (depth - 1) as nat, x);
                assert(((depth - 1) as nat + 1) as nat == depth);
            } else {
                lemma_entries_deeper(es, (depth - 1) as nat);
                assert(((depth - 1) as nat + 1) as nat == depth);
            }
        } else {
            lemma_entries_found_deeper(init, depth, x);
        }
    } else {
        lemma_entries_found_deeper(init, depth, x);
    }
}

/// A search one level deeper finds markdown wherever the shallower one does
/// and every directory the shallower one finds.
proof fn lemma_found_deeper(node: DirNode, depth: nat, x: Seq<char>)
    requires
        found_dirs(node, depth).contains(x),
    ensures
        found_dirs(node, depth + 1).contains(x),
{
    let es = node.entries->0@;
    let t1 = if entries_have_markdown(es, depth) { index_entry(node) } else { Seq::<Seq<char>>::empty() };
    let t2 = if entries_have_markdown(es, depth + 1) { index_entry(node) } else { Seq::<Seq<char>>::empty() };
    lemma_contains_add(entries_found(es, depth), t1, x);
    lemma_contains_add(entries_found(es, depth + 1), t2, x);
    if entries_found(es, depth).contains(x) {
        lemma_entries_found_deeper(es, depth, x);
    } else {
        lemma_entries_deeper(es, depth);
    }
}

/// A deeper search finds markdown wherever a shallower one does, finds
/// every directory the shallower one finds, and so leaves in the index
/// every directory the shallower one leaves there.
pub proof fn law_deeper_search_finds_every_directory(
    node: DirNode,
    d1: nat,
    d2: nat,
    paths: Seq<Seq<Seq<char>>>,
    q: Seq<char>,
)
    requires
        d1 <= d2,
    ensures
        has_markdown(node, d1) ==> has_markdown(node, d2),
        forall|x: Seq<char>| found_dirs(node, d1).contains(x) ==> #[trigger] found_dirs(node, d2).contains(x),
        with_dirs(paths, found_dirs(node, d1)).contains(path_components(q)) ==> with_dirs(
            paths,
            found_dirs(node, d2),
        ).contains(path_components(q)),
    decreases d2 - d1,
{
    if d1 < d2 {
        law_deeper_search_finds_every_directory(node, d1, (d2 - 1) as nat, paths, q);
        let m = (d2 - 1) as nat;
        if has_markdown(node, m) {
            law_deeper_search_finds_more(node, m);
        }
        assert forall|x: Seq<char>| found_dirs(node, m).contains(x) implies #[trigger] found_dirs(node, d2).contains(x) by {
            lemma_found_deeper(node, m, x);
        }
        law_with_dirs_contains(paths, found_dirs(node, d1), q);
        law_with_dirs_contains(paths, found_dirs(node, d2), q);
        if with_dirs(paths, found_dirs(node, d1)).contains(path_components(q)) && !paths.contains(path_components(q)) {
            let f1 = found_dirs(node, d1);
            let i = choose|i: int| 0 <= i < f1.len() && same_path(#[trigger] f1[i], q);
            assert(f1.contains(f1[i]));
            assert(found_dirs(node, m).contains(f1[i]));
            let f2 = found_dirs(node, d2);
            assert(f2.contains(f1[i]));
            let j = choose|j: int| 0 <= j < f2.len() && f2[j] == f1[i];
            assert(same_path(f2[j], q));
        }
    }
}

/// Entries that yield some directory hold markdown.
pub proof fn lemma_found_means_markdown(entries: Seq<DirEntryNode>, depth: nat)
    requires
        entries_found(entries, depth).len() > 0,
    ensures
        entries_have_markdown(entries, depth),
    decreases depth, entries.len(),
{
    let e = entries.last();
    let before = entries_found(entries.drop_last(), depth);
    if before.len() > 0 {
        lemma_found_means_markdown(entries.drop_last(), depth);
    } else if !skipped_name(e.name@) && e.kind == Some(EntryKind::Dir) && e.subdir is Some && depth > 1
        && e.subdir->0.entries is Some {
        let es = e.subdir->0.entries->0@;
        if entries_found(es, (depth - 1) as nat).len() > 0 {
            lemma_found_means_markdown(es, (depth - 1) as nat);
        }
    }
}

/// A search adds directories to the index only when it finds markdown;
/// when it does, and the searched directory has a canonical path, that
/// path is the last one it adds.
pub proof fn law_found_iff_markdown(node: DirNode, depth: nat)
    ensures
        found_dirs(node, depth).len() > 0 ==> has_markdown(node, depth),
        has_markdown(node, depth) && node.canonical is Some ==> found_dirs(node, depth).len() > 0
            && found_dirs(node, depth).last() == node.canonical->0@,
{
    if depth > 0 && node.entries is Some {
        let es = node.entries->0@;
        if entries_found(es, depth).len() > 0 {
            lemma_found_means_markdown(es, depth);
        }
    }
}

/// Every file name that ends in `.md`, and no other, is a markdown name.
pub proof fn law_md_suffix_is_markdown(name: Seq<char>)
    ensures
        is_markdown_name(name) == has_suffix(name, ".md"@),
{
}

/// Entries holding a file whose name ends in `.md`, and is not passed
/// over, have markdown, at any depth.
pub proof fn law_markdown_file_is_found(entries: Seq<DirEntryNode>, depth: nat, k: int)
    requires
        0 <= k < entries.len(),
        entries[k].kind == Some(EntryKind::File),
        !skipped_name(entries[k].name@),
        has_suffix(entries[k].name@, ".md"@),
    ensures
        entries_have_markdown(entries, depth),
    decreases entries.len(),
{
    if k == entries.len() - 1 {
        law_md_suffix_is_markdown(entries[k].name@);
    } else {
        assert(entries.drop_last()[k] == entries[k]);
        law_markdown_file_is_found(entries.drop_last(), depth, k);
    }
}

/// A directory holding such a file has markdown whenever it is searched at
/// all, and its canonical path is the last one the search adds, so the
/// index built from it holds that directory.
pub proof fn law_directory_with_markdown_file_is_indexed(node: DirNode, depth: nat, k: int)
    requires
        depth > 0,
        node.entries is Some,
        node.canonical is Some,
        0 <= k < node.entries->0@.len(),
        node.entries->0@[k].kind == Some(EntryKind::File),
        !skipped_name(node.entries->0@[k].name@),
        has_suffix(node.entries->0@[k].name@, ".md"@),
    ensures
        has_markdown(node, depth),
        found_dirs(node, depth).len() > 0,
        found_dirs(node, depth).last() == node.canonical->0@,
        with_dirs(Seq::empty(), found_dirs(node, depth)).contains(path_components(node.canonical->0@)),
{
    law_markdown_file_is_found(node.entries->0@, depth, k);
    law_found_iff_markdown(node, depth);
    let f = found_dirs(node, depth);
    let c = node.canonical->0@;
    law_with_dirs_contains(Seq::empty(), f, c);
    assert(same_path(f[f.len() - 1], c));
}

/// Below `parent`, the entries the search enters have plain names, and
/// each directory it reads has as canonical path its parent's joined with
/// its name, level by level.
pub open spec fn entries_canonical(parent: Seq<char>, entries: Seq<DirEntryNode>, depth: nat) -> bool
    decreases depth, entries.len(),
{
    if entries.len() == 0 {
        true
    } else {
        let e = entries.last();
        &&& entries_canonical(parent, entries.drop_last(), depth)
        &&& (!skipped_name(e.name@) && e.kind == Some(EntryKind::Dir) && e.subdir is Some && depth > 1
            && e.subdir->0.entries is Some) ==> {
            &&& plain_name(e.name@)
            &&& e.subdir->0.canonical is Some
            &&& e.subdir->0.canonical->0@ == joined(parent, e.name@)
            &&& entries_canonical(e.subdir->0.canonical->0@, e.subdir->0.entries->0@, (depth - 1) as nat)
        }
    }
}

/// The tree read from `node` names its directories as the file system
/// does: `node` has a canonical path, and below it every directory's
/// canonical path is its parent's joined with its name.
pub open spec fn canonical_tree(node: DirNode, depth: nat) -> bool {
    &&& node.canonical is Some
    &&& (depth > 0 && node.entries is Some) ==> entries_canonical(node.canonical->0@, node.entries->0@, depth)
}

/// What the search finds below `parent` lies one to `depth - 1` levels
/// below it, and is either a child of `parent` or a child of another
/// directory found.
proof fn lemma_found_shape(parent: Seq<char>, entries: Seq<DirEntryNode>, depth: nat, x: Seq<char>)
    requires
        entries_canonical(parent, entries, depth),
        entries_found(entries, depth).contains(x),
    ensures
        path_components(parent).len() < path_components(x).len() <= path_components(parent).len() + depth - 1,
        path_components(x).take(path_components(parent).len() as int) == path_components(parent),
        (exists|n: Seq<char>| plain_name(n) && x == #[trigger] joined(parent, n)) || (exists|y: Seq<char>, n: Seq<char>|
            entries_found(entries, depth).contains(y) && plain_name(n) && x == #[trigger] joined(y, n)),
    decreases depth, entries.len(),
{
    let e = entries.last();
    let init = entries.drop_last();
    let before = entries_found(init, depth);
    let cp = path_components(parent);
    if !skipped_name(e.name@) && e.kind == Some(EntryKind::Dir) && e.subdir is Some && depth > 1
        && e.subdir->0.entries is Some {
        let sub = e.subdir->0;
        let es = sub.entries->0@;
        let c = sub.canonical->0@;
        let below = entries_found(es, (depth - 1) as nat);
        let tail = if entries_have_markdown(es, (depth - 1) as nat) { index_entry(sub) } else { Seq::<Seq<char>>::empty() };
        let all = entries_found(entries, depth);
        assert(all == before + below + tail);
        lemma_contains_add(before + below, tail, x);
        lemma_contains_add(before, below, x);
        lemma_components_join_name(parent, e.name@);
        let cc = path_components(c);
        assert(cc == cp.push(e.name@));
        if before.contains(x) {
            lemma_found_shape(parent, init, depth, x);
            if exists|y: Seq<char>, n: Seq<char>| before.contains(y) && plain_name(n) && x == #[trigger] joined(y, n) {
                let (y, n) = choose|y: Seq<char>, n: Seq<char>| before.contains(y) && plain_name(n) && x == #[trigger] joined(y, n);
                lemma_contains_add(before + below, tail, y);
                lemma_contains_add(before, below, y);
            }
        } else if below.contains(x) {
            lemma_found_shape(c, es, (depth - 1) as nat, x);
            let cx = path_components(x);
            assert(cx.take(cp.len() as int) =~= cc.take(cc.len() - 1)) by {
                assert(cx.take(cc.len() as int) == cc);
            }
            assert(cc.take(cc.len() - 1) =~= cp);
            if exists|n: Seq<char>| plain_name(n) && x == #[trigger] joined(c, n) {
                lemma_found_means_markdown(es, (depth - 1) as nat);
                assert(tail == seq![c]);
                lemma_contains_add(before + below, tail, c);
                assert(tail[0] == c);
            } else {
                let (y, n) = choose|y: Seq<char>, n: Seq<char>| below.contains(y) && plain_name(n) && x == #[trigger] joined(y, n);
                lemma_contains_add(before + below, tail, y);
                lemma_contains_add(before, below, y);
            }
        } else {
            let k = choose|k: int| 0 <= k < tail.len() && tail[k] == x;
            assert(x == c);
            assert(cc.take(cp.len() as int) =~= cp);
        }
    } else {
        assert(entries_found(entries, depth) == before);
        lemma_found_shape(parent, init, depth, x);
    }
}

/// The shape of the index: where the tree names its directories as the
/// file system does, every directory the search of `home` indexes lies
/// below home's canonical path, at most `depth - 1` levels down, and is
/// home itself or a child of a directory the index also holds.
pub proof fn law_index_shape(home: DirNode, depth: nat, x: Seq<char>)
    requires
        canonical_tree(home, depth),
        with_entries(Seq::empty(), found_dirs(home, depth)).contains(x),
    ensures
        path_starts_with(x, home.canonical->0@),
        path_components(x).len() <= path_components(home.canonical->0@).len() + depth - 1,
        x == home.canonical->0@ || exists|y: Seq<char>, n: Seq<char>|
            plain_name(n) && x == #[trigger] joined(y, n) && with_dirs(Seq::empty(), found_dirs(home, depth)).contains(
                path_components(y),
            ),
{
    let h = home.canonical->0@;
    let f = found_dirs(home, depth);
    lemma_with_entries_from(Seq::empty(), f, x);
    assert(f.contains(x));
    assert(depth > 0 && home.entries is Some);
    let es = home.entries->0@;
    let tail = if entries_have_markdown(es, depth) { index_entry(home) } else { Seq::<Seq<char>>::empty() };
    lemma_contains_add(entries_found(es, depth), tail, x);
    if entries_found(es, depth).contains(x) {
        lemma_found_shape(h, es, depth, x);
        lemma_found_means_markdown(es, depth);
        let (y, n) = if exists|n: Seq<char>| plain_name(n) && x == #[trigger] joined(h, n) {
            (h, choose|n: Seq<char>| plain_name(n) && x == #[trigger] joined(h, n))
        } else {
            choose|y: Seq<char>, n: Seq<char>| entries_found(es, depth).contains(y) && plain_name(n) && x == #[trigger] joined(y, n)
        };
        if y == h {
            lemma_contains_add(entries_found(es, depth), tail, h);
            assert(tail[0] == h);
        } else {
            lemma_contains_add(entries_found(es, depth), tail, y);
        }
        assert(f.contains(y));
        let i = choose|i: int| 0 <= i < f.len() && f[i] == y;
        law_with_dirs_contains(Seq::empty(), f, y);
        assert(same_path(f[i], y));
        assert(plain_name(n) && x == joined(y, n));
    } else {
        let k = choose|k: int| 0 <= k < tail.len() && tail[k] == x;
        assert(x == h);
        let c = path_components(h);
        assert(c.take(c.len() as int) =~= c);
    }
}

/// Every directory in `with_entries(entries, dirs)` was in `entries` or is
/// one of `dirs`.
proof fn lemma_with_entries_from(entries: Seq<Seq<char>>, dirs: Seq<Seq<char>>, x: Seq<char>)
    requires
        with_entries(entries, dirs).contains(x),
    ensures
        entries.contains(x) || dirs.contains(x),
    decreases dirs.len(),
{
    if dirs.len() > 0 {
        let r = with_entries(entries, dirs.drop_last());
        if r.contains(x) {
            lemma_with_entries_from(entries, dirs.drop_last(), x);
            if dirs.drop_last().contains(x) {
                let k = choose|k: int| 0 <= k < dirs.drop_last().len() && dirs.drop_last()[k] == x;
                assert(dirs[k] == x);
            }
        } else {
            let k = choose|k: int| 0 <= k < with_entries(entries, dirs).len() && with_entries(entries, dirs)[k] == x;
            assert(k == r.len());
            assert(dirs[dirs.len() - 1] == x);
        }
    }
}

/// Adding two lists of directories one after the other adds their
/// concatenation.
pub proof fn lemma_with_dirs_concat(
    paths: Seq<Seq<Seq<char>>>,
    a: Seq<Seq<char>>,
    b: Seq<Seq<char>>,
)
    ensures
        with_dirs(paths, a + b) == with_dirs(with_dirs(paths, a), b),
    decreases b.len(),
{
    if b.len() == 0 {
        assert(a + b =~= a);
    } else {
        lemma_with_dirs_concat(paths, a, b.drop_last());
        assert((a + b).drop_last() =~= a + b.drop_last());
        assert((a + b).last() == b.last());
    }
}

/// The names that the search never enters, as a vector.
fn skip_dir_list() -> (v: Vec<&'static str>)
    ensures
        v@.len() == skip_dir_names().len(),
        forall|i: int| 0 <= i < v@.len() ==> #[trigger] v@[i]@ == skip_dir_names()[i],
{
    let v = vec![
        "node_modules", "target", "vendor", "build", "dist", "cache",
        "Cache", "Caches", "Library", "Applications", "Pictures", "Music",
        "Movies", "Photos", "Downloads", "__pycache__", "venv", ".venv",
        "Trash", ".Trash", "Containers", "WebKit", "Logs",
        "Documents", "Desktop", "Public", "openclaw", "go",
    ];
    v
}

/// Whether the search passes over an entry of this name.
pub fn is_skipped_name(name: &str) -> (r: bool)
    ensures
        r == skipped_name(name@),
{
    let v = chars_of(name);
    if v.len() > 0 && v[0] == '.' {
        return true;
    }
    let list = skip_dir_list();
    let n = list.len();
    let mut i: usize = 0;
    while i < n
        invariant
            i <= n,
            n == list@.len(),
            n == skip_dir_names().len(),
            v@ == name@,
            forall|k: int| 0 <= k < list@.len() ==> #[trigger] list@[k]@ == skip_dir_names()[k],
            forall|k: int| 0 <= k < i ==> skip_dir_names()[k] != name@,
        decreases n - i,
    {
        let w = chars_of(list[i]);
        if same_chars(&w, &v) {
            assert(skip_dir_names()[i as int] == name@);
            return true;
        }
        i += 1;
    }
    false
}

/// Whether a file name is a markdown file name.
pub fn is_markdown_file_name(name: &str) -> (r: bool)
    ensures
        r == is_markdown_name(name@),
{
    ends_with_chars(&chars_of(name), &chars_of(".md"))
}

/// Whether the search lists a directory it reaches with `depth` levels
/// left.
pub fn lists_directory(depth: u8) -> (r: bool)
    ensures
        r == (depth > 0),
{
    depth > 0
}

/// The levels left below a directory reached with `depth` levels left.
pub fn child_depth(depth: u8) -> (r: u8)
    requires
        depth > 0,
    ensures
        r == depth - 1,
{
    depth - 1
}

/// Whether the search enters an entry of this name and kind; it then reads
/// it with one level less.
pub fn descends_into(name: &str, kind: EntryKind) -> (r: bool)
    ensures
        r == (!skipped_name(name@) && kind == EntryKind::Dir),
{
    kind == EntryKind::Dir && !is_skipped_name(name)
}

/// Searches `node` with `depth` levels left: adds to `index` the
/// canonical path of every directory below `node` (and of `node` itself)
/// in which markdown is found, leaving out any whose canonical path could
/// not be had, and says whether markdown was found in `node`.
pub fn crawl(node: &DirNode, index: &mut MdIndex, depth: u8) -> (found: bool)
    ensures
        found == has_markdown(*node, depth as nat),
        final(index).paths() == with_dirs(old(index).paths(), found_dirs(*node, depth as nat)),
        final(index).entries() == with_entries(old(index).entries(), found_dirs(*node, depth as nat)),
    decreases depth,
{
    if depth == 0 {
        assert(found_dirs(*node, 0) =~= Seq::<Seq<char>>::empty());
        return false;
    }
    let entries = match &node.entries {
        None => {
            return false;
        },
        Some(es) => es,
    };
    let ghost es = entries@;
    let ghost start = index.paths();
    let ghost start_entries = index.entries();
    let mut found = false;
    let n = entries.len();
    let mut i: usize = 0;
    assert(es.take(0) =~= Seq::<DirEntryNode>::empty());
    while i < n
        invariant
            i <= n,
            n == es.len(),
            es == entries@,
            depth > 0,
            found == entries_have_markdown(es.take(i as int), depth as nat),
            index.paths() == with_dirs(start, entries_found(es.take(i as int), depth as nat)),
            index.entries() == with_entries(start_entries, entries_found(es.take(i as int), depth as nat)),
        decreases n - i,
    {
        let e = &entries[i];
        let ghost t = es.take(i + 1);
        assert(t.drop_last() =~= es.take(i as int));
        assert(t.last() == *e);
        let ghost before_found = entries_found(es.take(i as int), depth as nat);
        if !is_skipped_name(e.name.as_str()) {
            match e.kind {
                Some(EntryKind::File) => {
                    if is_markdown_file_name(e.name.as_str()) {
                        found = true;
                    }
                },
                Some(EntryKind::Dir) => {
                    match &e.subdir {
                        Some(sub) => {
                            let ghost mid = index.paths();
                            let ghost mid_entries = index.entries();
                            let sub_found = crawl(sub, index, depth - 1);
                            if sub_found {
                                found = true;
                            }
                            proof {
                                if depth > 1 && sub.entries is Some {
                                    let es2 = sub.entries->0@;
                                    let tail = entries_found(es2, (depth - 1) as nat) + if entries_have_markdown(es2, (depth - 1) as nat) {
                                        index_entry(*sub)
                                    } else {
                                        Seq::<Seq<char>>::empty()
                                    };
                                    assert(found_dirs(*sub, (depth - 1) as nat) == tail);
                                    assert(entries_found(t, depth as nat) == before_found + tail);
                                    lemma_with_dirs_concat(start, before_found, tail);
                                    lemma_with_entries_concat(start_entries, before_found, tail);
                                } else {
                                    assert(found_dirs(*sub, (depth - 1) as nat) =~= Seq::<Seq<char>>::empty());
                                    assert(with_dirs(mid, Seq::<Seq<char>>::empty()) == mid);
                                    assert(with_entries(mid_entries, Seq::<Seq<char>>::empty()) == mid_entries);
                                    assert(entries_found(t, depth as nat) == before_found);
                                }
                            }
                        },
                        None => {},
                    }
                },
                _ => {},
            }
        }
        i += 1;
    }
    assert(es.take(n as int) =~= es);
    if found {
        let ghost mid = index.paths();
        let ghost mid_entries = index.entries();
        match &node.canonical {
            Some(c) => {
                index.insert(c.as_str());
                proof {
                    let last = index_entry(*node);
                    lemma_with_dirs_concat(start, entries_found(es, depth as nat), last);
                    assert(last.drop_last() =~= Seq::<Seq<char>>::empty());
                    assert(with_dirs(mid, last.drop_last()) == mid);
                    assert(last.last() == c@);
                    assert(with_dirs(mid, last) == crate::index::with_path(mid, path_components(c@)));
                    lemma_with_entries_concat(start_entries, entries_found(es, depth as nat), last);
                    assert(with_entries(mid_entries, last.drop_last()) == mid_entries);
                    assert(with_entries(mid_entries, last) == with_entry(mid_entries, c@));
                }
            },
            None => {
                proof {
                    assert(found_dirs(*node, depth as nat) =~= entries_found(es, depth as nat));
                }
            },
        }
    } else {
        assert(found_dirs(*node, depth as nat) =~= entries_found(es, depth as nat));
    }
    found
}

impl MdIndex {
    /// The index of a tree read from the home directory: every directory,
    /// down to `CRAWL_DEPTH` levels, in which markdown is found.
    pub fn build(home: &DirNode) -> (index: MdIndex)
        ensures
            index.paths() == with_dirs(Seq::empty(), found_dirs(*home, CRAWL_DEPTH as nat)),
            index.entries() == with_entries(Seq::empty(), found_dirs(*home, CRAWL_DEPTH as nat)),
    {
        let mut index = MdIndex::new();
        crawl(home, &mut index, CRAWL_DEPTH);
        index
    }
}

} // verus!
