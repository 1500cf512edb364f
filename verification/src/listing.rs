//! The listing of a directory: which entries it shows, their links, their
//! order (directories first, then by lowercased name) and their HTML.

use vstd::prelude::*;
use crate::crawl::{is_markdown_file_name, is_markdown_name};
use crate::index::MdIndex;
use crate::paths::{path_components, strip_trailing_slashes, trim_trailing_slashes};
use crate::text::{append_chars, chars_of, join_with, lex_less, lex_lt, lowercase, push_char, to_lowercase};
use vstd::set_lib::{lemma_int_range, set_int_range};
use crate::text::{lemma_lex_lt_irreflexive, lemma_lex_lt_total, lemma_lex_lt_transitive};

verus! {

broadcast use vstd::string::group_string_axioms;

/// A directory entry as the listing sees it: its name, whether it is a
/// directory (`None` where reading its file type failed) and, for a
/// directory, its canonical path (`None` where canonicalizing failed).
pub struct ListedEntry {
    pub name: String,
    pub is_dir: Option<bool>,
    pub canonical: Option<String>,
}

/// A shown entry: whether it is a directory, its name and its link.
pub struct ListingItem {
    pub is_dir: bool,
    pub name: String,
    pub href: String,
}

impl View for ListingItem {
    type V = (bool, Seq<char>, Seq<char>);

    open spec fn view(&self) -> (bool, Seq<char>, Seq<char>) {
        (self.is_dir, self.name@, self.href@)
    }
}

/// The views of a sequence of items.
pub open spec fn item_views(v: Seq<ListingItem>) -> Seq<(bool, Seq<char>, Seq<char>)> {
    v.map_values(|it: ListingItem| it@)
}

/// The link of an entry of the directory served at `url_path`: the
/// request path without trailing `/`, then `/`, the name, and a `/` after
/// a directory's name. At the root (`""` or `"/"`) it is `/` and the name.
pub open spec fn entry_href(url_path: Seq<char>, name: Seq<char>, is_dir: bool) -> Seq<char> {
    let trailing = if is_dir { seq!['/'] } else { Seq::<char>::empty() };
    if url_path.len() == 0 || url_path == seq!['/'] {
        seq!['/'] + name + trailing
    } else {
        strip_trailing_slashes(url_path) + seq!['/'] + name + trailing
    }
}

/// The shown entries of a listing in the order of `entries`: no hidden
/// entry; a directory when it is in the index (by its canonical path); a
/// file when its name ends with `.md`. `None` when the file type of some
/// entry that is not hidden could not be read.
pub open spec fn listing_items(
    entries: Seq<ListedEntry>,
    url_path: Seq<char>,
    indexed: Seq<Seq<Seq<char>>>,
) -> Option<Seq<(bool, Seq<char>, Seq<char>)>>
    decreases entries.len(),
{
    if entries.len() == 0 {
        Some(Seq::empty())
    } else {
        match listing_items(entries.drop_last(), url_path, indexed) {
            None => None,
            Some(items) => {
                let e = entries.last();
                let name = e.name@;
                if name.len() > 0 && name[0] == '.' {
                    Some(items)
                } else {
                    match e.is_dir {
                        None => None,
                        Some(true) => match e.canonical {
                            Some(c) => if indexed.contains(path_components(c@)) {
                                Some(items.push((true, name, entry_href(url_path, name, true))))
                            } else {
                                Some(items)
                            },
                            None => Some(items),
                        },
                        Some(false) => if is_markdown_name(name) {
                            Some(items.push((false, name, entry_href(url_path, name, false))))
                        } else {
                            Some(items)
                        },
                    }
                }
            },
        }
    }
}

/// The order key of an item: directories first, then by lowercased name.
pub open spec fn item_key(it: (bool, Seq<char>, Seq<char>)) -> (bool, Seq<char>) {
    (it.0, lowercase(it.1))
}

/// Strict order on keys: a directory before a file; otherwise by name.
pub open spec fn key_lt(a: (bool, Seq<char>), b: (bool, Seq<char>)) -> bool {
    (a.0 && !b.0) || (a.0 == b.0 && lex_lt(a.1, b.1))
}

/// Item `x` of `items` comes before item `y` in a stable sort: its key is
/// smaller, or the keys are equal and it came first.
pub open spec fn comes_before(items: Seq<(bool, Seq<char>, Seq<char>)>, x: int, y: int) -> bool {
    key_lt(item_key(items[x]), item_key(items[y])) || (item_key(items[x]) == item_key(items[y])
        && x < y)
}

/// `perm` lists every index of `items` once, in stable sorted order.
pub open spec fn is_sorting_order(items: Seq<(bool, Seq<char>, Seq<char>)>, perm: Seq<int>) -> bool {
    &&& perm.len() == items.len()
    &&& forall|k: int| 0 <= k < perm.len() ==> 0 <= #[trigger] perm[k] < items.len()
    &&& forall|x: int| 0 <= x < items.len() ==> #[trigger] perm.contains(x)
    &&& forall|a: int, b: int| 0 <= a < b < perm.len() ==> comes_before(items, perm[a], perm[b])
}

/// `sorted` is `items` sorted stably by `item_key` (what `sort_by` with
/// the key's comparison yields).
pub open spec fn is_stable_sort(
    items: Seq<(bool, Seq<char>, Seq<char>)>,
    sorted: Seq<(bool, Seq<char>, Seq<char>)>,
) -> bool {
    exists|perm: Seq<int>|
        is_sorting_order(items, perm) && sorted == perm.map_values(|i: int| items[i])
}

/// `html` is the listing of `items` in stable sorted order.
pub open spec fn is_listing_html(items: Seq<(bool, Seq<char>, Seq<char>)>, html: Seq<char>) -> bool {
    exists|sorted: Seq<(bool, Seq<char>, Seq<char>)>|
        is_stable_sort(items, sorted) && html == #[trigger] listing_html(sorted)
}

/// The icon of an item.
pub open spec fn icon(is_dir: bool) -> Seq<char> {
    if is_dir {
        FOLDER_ICON@
    } else {
        FILE_ICON@
    }
}

/// The HTML of one item.
pub open spec fn item_html(it: (bool, Seq<char>, Seq<char>)) -> Seq<char> {
    ITEM_OPEN@ + icon(it.0) + ITEM_LINK@ + it.2 + ITEM_NAME@ + it.1 + ITEM_CLOSE@
}

/// The HTML of a listing: its items, one per line, in a list.
pub open spec fn listing_html(items: Seq<(bool, Seq<char>, Seq<char>)>) -> Seq<char> {
    LIST_OPEN@ + join_with(items.map_values(|it: (bool, Seq<char>, Seq<char>)| item_html(it)), LIST_LINE@)
        + LIST_CLOSE@
}

pub const FOLDER_ICON: &'static str = "📁";

pub const FILE_ICON: &'static str = "📄";

pub const ITEM_OPEN: &'static str = "<li><span class=\"icon\">";

pub const ITEM_LINK: &'static str = "</span><a href=\"";

pub const ITEM_NAME: &'static str = "\">";

pub const ITEM_CLOSE: &'static str = "</a></li>";

pub const LIST_OPEN: &'static str = "<ul class=\"dir-listing\">";

pub const LIST_LINE: &'static str = "\n";

pub const LIST_CLOSE: &'static str = "</ul>";

/// Once a prefix of the entries fails to list, so do all the entries.
pub proof fn lemma_listing_error_persists(
    entries: Seq<ListedEntry>,
    url_path: Seq<char>,
    indexed: Seq<Seq<Seq<char>>>,
    k: int,
)
    requires
        0 <= k <= entries.len(),
        listing_items(entries.take(k), url_path, indexed) is None,
    ensures
        listing_items(entries, url_path, indexed) is None,
    decreases entries.len(),
{
    if k == entries.len() {
        assert(entries.take(k) =~= entries);
    } else {
        assert(entries.drop_last().take(k) =~= entries.take(k));
        lemma_listing_error_persists(entries.drop_last(), url_path, indexed, k);
    }
}

pub proof fn lemma_key_lt_irreflexive(a: (bool, Seq<char>))
    ensures
        !key_lt(a, a),
{
    lemma_lex_lt_irreflexive(a.1);
}

pub proof fn lemma_key_lt_transitive(a: (bool, Seq<char>), b: (bool, Seq<char>), c: (bool, Seq<char>))
    requires
        key_lt(a, b),
        key_lt(b, c),
    ensures
        key_lt(a, c),
{
    if a.0 == b.0 && b.0 == c.0 {
        lemma_lex_lt_transitive(a.1, b.1, c.1);
    }
}

pub proof fn lemma_key_lt_total(a: (bool, Seq<char>), b: (bool, Seq<char>))
    ensures
        a == b || key_lt(a, b) || key_lt(b, a),
{
    lemma_lex_lt_total(a.1, b.1);
}

/// The link of an entry (see `entry_href`), given whether the request path
/// is the root and the request path without trailing `/`.
fn make_href(at_root: bool, base: &str, name: &str, is_dir: bool) -> (r: String)
    ensures
        at_root ==> r@ == seq!['/'] + name@ + if is_dir { seq!['/'] } else { Seq::<char>::empty() },
        !at_root ==> r@ == base@ + seq!['/'] + name@ + if is_dir { seq!['/'] } else { Seq::<char>::empty() },
{
    let mut r = String::new();
    if !at_root {
        r.append(base);
    }
    push_char(&mut r, '/');
    r.append(name);
    if is_dir {
        push_char(&mut r, '/');
    }
    assert(at_root ==> r@ =~= seq!['/'] + name@ + if is_dir { seq!['/'] } else { Seq::<char>::empty() });
    assert(!at_root ==> r@ =~= base@ + seq!['/'] + name@ + if is_dir { seq!['/'] } else { Seq::<char>::empty() });
    r
}

/// The shown entries of a listing, in the order of `entries` (see
/// `listing_items`).
pub fn shown_items(entries: &Vec<ListedEntry>, url_path: &str, index: &MdIndex) -> (r: Option<Vec<ListingItem>>)
    ensures
        match r {
            Some(v) => listing_items(entries@, url_path@, index.paths()) == Some(item_views(v@)),
            None => listing_items(entries@, url_path@, index.paths()) is None,
        },
{
    let uv = chars_of(url_path);
    let at_root = uv.len() == 0 || (uv.len() == 1 && uv[0] == '/');
    assert(at_root == (url_path@.len() == 0 || url_path@ == seq!['/'])) by {
        if uv@.len() == 1 && uv@[0] == '/' {
            assert(url_path@ =~= seq!['/']);
        }
    }
    let base = trim_trailing_slashes(url_path);
    let mut items: Vec<ListingItem> = Vec::new();
    let n = entries.len();
    let mut i: usize = 0;
    assert(entries@.take(0) =~= Seq::<ListedEntry>::empty());
    assert(item_views(items@) =~= Seq::<(bool, Seq<char>, Seq<char>)>::empty());
    while i < n
        invariant
            i <= n,
            n == entries@.len(),
            at_root == (url_path@.len() == 0 || url_path@ == seq!['/']),
            base@ == strip_trailing_slashes(url_path@),
            listing_items(entries@.take(i as int), url_path@, index.paths()) == Some(item_views(items@)),
        decreases n - i,
    {
        let e = &entries[i];
        let ghost t = entries@.take(i + 1);
        assert(t.drop_last() =~= entries@.take(i as int));
        assert(t.last() == *e);
        let ghost before = item_views(items@);
        let nv = chars_of(e.name.as_str());
        if nv.len() > 0 && nv[0] == '.' {
            i += 1;
            continue;
        }
        match e.is_dir {
            None => {
                proof {
                    lemma_listing_error_persists(entries@, url_path@, index.paths(), i + 1);
                }
                return None;
            },
            Some(true) => {
                match &e.canonical {
                    Some(c) => {
                        if index.contains_dir(c.as_str()) {
                            let href = make_href(at_root, base.as_str(), e.name.as_str(), true);
                            assert(href@ == entry_href(url_path@, e.name@, true));
                            let item = ListingItem { is_dir: true, name: e.name.clone(), href };
                            items.push(item);
                            assert(item_views(items@) =~= before.push((true, e.name@, entry_href(url_path@, e.name@, true))));
                        }
                    },
                    None => {},
                }
            },
            Some(false) => {
                if is_markdown_file_name(e.name.as_str()) {
                    let href = make_href(at_root, base.as_str(), e.name.as_str(), false);
                    assert(href@ == entry_href(url_path@, e.name@, false));
                    let item = ListingItem { is_dir: false, name: e.name.clone(), href };
                    items.push(item);
                    assert(item_views(items@) =~= before.push((false, e.name@, entry_href(url_path@, e.name@, false))));
                }
            },
        }
        i += 1;
    }
    assert(entries@.take(n as int) =~= entries@);
    Some(items)
}


/// `it` is how the listing shows some entry of `entries`: not a hidden
/// one; a directory only when it is indexed; a file only when it is a
/// markdown file; with the link `entry_href` gives.
pub open spec fn shown_from(
    entries: Seq<ListedEntry>,
    url_path: Seq<char>,
    indexed: Seq<Seq<Seq<char>>>,
    it: (bool, Seq<char>, Seq<char>),
) -> bool {
    &&& !(it.1.len() > 0 && it.1[0] == '.')
    &&& it.2 == entry_href(url_path, it.1, it.0)
    &&& exists|i: int|
        0 <= i < entries.len() && (#[trigger] entries[i]).name@ == it.1 && if it.0 {
            entries[i].is_dir == Some(true) && (entries[i].canonical matches Some(c) && indexed.contains(
                path_components(c@),
            ))
        } else {
            entries[i].is_dir == Some(false) && is_markdown_name(it.1)
        }
}

/// A listing shows no hidden entry, no directory missing from the index,
/// and no file but markdown files.
pub proof fn law_listing_shows_only_indexed_dirs_and_markdown(
    entries: Seq<ListedEntry>,
    url_path: Seq<char>,
    indexed: Seq<Seq<Seq<char>>>,
)
    ensures
        listing_items(entries, url_path, indexed) matches Some(items) ==> forall|k: int|
            0 <= k < items.len() ==> shown_from(entries, url_path, indexed, #[trigger] items[k]),
    decreases entries.len(),
{
    if entries.len() > 0 {
        let init = entries.drop_last();
        law_listing_shows_only_indexed_dirs_and_markdown(init, url_path, indexed);
        if let Some(items) = listing_items(entries, url_path, indexed) {
            let before = listing_items(init, url_path, indexed)->0;
            assert forall|k: int| 0 <= k < items.len() implies shown_from(entries, url_path, indexed, #[trigger] items[k]) by {
                if k < before.len() {
                    assert(items[k] == before[k]);
                    assert(shown_from(init, url_path, indexed, before[k]));
                    let i = choose|i: int| 0 <= i < init.len() && (#[trigger] init[i]).name@ == before[k].1 && if before[k].0 {
                        init[i].is_dir == Some(true) && (init[i].canonical matches Some(c) && indexed.contains(path_components(c@)))
                    } else {
                        init[i].is_dir == Some(false) && is_markdown_name(before[k].1)
                    };
                    assert(entries[i] == init[i]);
                } else {
                    assert(entries[entries.len() - 1] == entries.last());
                }
            }
        }
    }
}

/// Every directory of index `i1` is in index `i2`.
pub open spec fn index_included(i1: Seq<Seq<Seq<char>>>, i2: Seq<Seq<Seq<char>>>) -> bool {
    forall|p: Seq<Seq<char>>| i1.contains(p) ==> #[trigger] i2.contains(p)
}

/// `a` is `b` with some items left out, the others kept in order.
pub open spec fn is_subsequence(a: Seq<(bool, Seq<char>, Seq<char>)>, b: Seq<(bool, Seq<char>, Seq<char>)>) -> bool
    decreases b.len(),
{
    if b.len() == 0 {
        a.len() == 0
    } else if a.len() > 0 && a.last() == b.last() {
        is_subsequence(a.drop_last(), b.drop_last()) || is_subsequence(a, b.drop_last())
    } else {
        is_subsequence(a, b.drop_last())
    }
}

/// The file (non-directory) items of `items`, in order.
pub open spec fn file_items(items: Seq<(bool, Seq<char>, Seq<char>)>) -> Seq<(bool, Seq<char>, Seq<char>)>
    decreases items.len(),
{
    if items.len() == 0 {
        items
    } else if items.last().0 {
        file_items(items.drop_last())
    } else {
        file_items(items.drop_last()).push(items.last())
    }
}

/// A listing made with a larger index lists the same entries or more: it
/// fails exactly when the other fails; otherwise the other's items are
/// among its items in the same order, and the files are the same.
pub proof fn law_larger_index_lists_more(
    entries: Seq<ListedEntry>,
    url_path: Seq<char>,
    i1: Seq<Seq<Seq<char>>>,
    i2: Seq<Seq<Seq<char>>>,
)
    requires
        index_included(i1, i2),
    ensures
        (listing_items(entries, url_path, i1) is Some) == (listing_items(entries, url_path, i2) is Some),
        listing_items(entries, url_path, i1) matches Some(a) ==> (listing_items(entries, url_path, i2) matches Some(
            b,
        ) && is_subsequence(a, b) && file_items(a) == file_items(b)),
    decreases entries.len(),
{
    if entries.len() == 0 {
        let empty = Seq::<(bool, Seq<char>, Seq<char>)>::empty();
        assert(is_subsequence(empty, empty));
    } else {
        let init = entries.drop_last();
        law_larger_index_lists_more(init, url_path, i1, i2);
        if let (Some(a), Some(b)) = (listing_items(init, url_path, i1), listing_items(init, url_path, i2)) {
            let e = entries.last();
            let name = e.name@;
            if !(name.len() > 0 && name[0] == '.') {
                match e.is_dir {
                    Some(true) => {
                        if let Some(c) = e.canonical {
                            let x = (true, name, entry_href(url_path, name, true));
                            if i1.contains(path_components(c@)) {
                                assert(i2.contains(path_components(c@)));
                                lemma_subsequence_push_same(a, b, x);
                                assert(a.push(x).drop_last() =~= a);
                                assert(b.push(x).drop_last() =~= b);
                            } else if i2.contains(path_components(c@)) {
                                lemma_subsequence_push_right(a, b, x);
                                assert(b.push(x).drop_last() =~= b);
                            }
                        }
                    },
                    Some(false) => {
                        if is_markdown_name(name) {
                            let x = (false, name, entry_href(url_path, name, false));
                            lemma_subsequence_push_same(a, b, x);
                            assert(a.push(x).drop_last() =~= a);
                            assert(b.push(x).drop_last() =~= b);
                        }
                    },
                    None => {},
                }
            }
        }
    }
}

/// Appending the same item to both sides keeps a subsequence one.
proof fn lemma_subsequence_push_same(
    a: Seq<(bool, Seq<char>, Seq<char>)>,
    b: Seq<(bool, Seq<char>, Seq<char>)>,
    x: (bool, Seq<char>, Seq<char>),
)
    requires
        is_subsequence(a, b),
    ensures
        is_subsequence(a.push(x), b.push(x)),
{
    assert(a.push(x).drop_last() =~= a);
    assert(b.push(x).drop_last() =~= b);
}

/// Appending an item to the longer side keeps a subsequence one.
proof fn lemma_subsequence_push_right(
    a: Seq<(bool, Seq<char>, Seq<char>)>,
    b: Seq<(bool, Seq<char>, Seq<char>)>,
    x: (bool, Seq<char>, Seq<char>),
)
    requires
        is_subsequence(a, b),
    ensures
        is_subsequence(a, b.push(x)),
{
    assert(b.push(x).drop_last() =~= b);
}

/// `emb` maps each item of `a`, in order, to an equal item of `b`, at
/// increasing positions.
pub open spec fn embedded(
    a: Seq<(bool, Seq<char>, Seq<char>)>,
    b: Seq<(bool, Seq<char>, Seq<char>)>,
    emb: Seq<int>,
) -> bool {
    &&& emb.len() == a.len()
    &&& forall|i: int, j: int| 0 <= i < j < emb.len() ==> emb[i] < emb[j]
    &&& forall|k: int| 0 <= k < emb.len() ==> 0 <= #[trigger] emb[k] < b.len() && a[k] == b[emb[k]]
}

/// The position of `v` in `emb`.
spec fn pos_in(emb: Seq<int>, v: int) -> int {
    choose|k: int| 0 <= k < emb.len() && emb[k] == v
}

/// The values of `pb` that occur in `emb`, each replaced by its position
/// in `emb`, in the order of `pb`.
spec fn keep(pb: Seq<int>, emb: Seq<int>) -> Seq<int>
    decreases pb.len(),
{
    if pb.len() == 0 {
        Seq::<int>::empty()
    } else if emb.contains(pb.last()) {
        keep(pb.drop_last(), emb).push(pos_in(emb, pb.last()))
    } else {
        keep(pb.drop_last(), emb)
    }
}

/// The positions in `pb` of the values `keep` keeps.
spec fn keep_src(pb: Seq<int>, emb: Seq<int>) -> Seq<int>
    decreases pb.len(),
{
    if pb.len() == 0 {
        Seq::<int>::empty()
    } else if emb.contains(pb.last()) {
        keep_src(pb.drop_last(), emb).push(pb.len() - 1)
    } else {
        keep_src(pb.drop_last(), emb)
    }
}

/// In a strictly increasing `emb`, `pos_in` finds the one position of a
/// value.
proof fn lemma_pos_in(emb: Seq<int>, k: int)
    requires
        0 <= k < emb.len(),
        forall|i: int, j: int| 0 <= i < j < emb.len() ==> emb[i] < emb[j],
    ensures
        pos_in(emb, emb[k]) == k,
{
    assert(emb.contains(emb[k]));
    let p = pos_in(emb, emb[k]);
    if p < k {
        assert(emb[p] < emb[k]);
    } else if p > k {
        assert(emb[k] < emb[p]);
    }
}

/// What `keep` keeps, and where it comes from in `pb`.
proof fn lemma_keep_src(pb: Seq<int>, emb: Seq<int>)
    ensures
        keep_src(pb, emb).len() == keep(pb, emb).len(),
        forall|t: int| 0 <= t < keep_src(pb, emb).len() ==> 0 <= #[trigger] keep_src(pb, emb)[t] < pb.len()
            && emb.contains(pb[keep_src(pb, emb)[t]])
            && keep(pb, emb)[t] == pos_in(emb, pb[keep_src(pb, emb)[t]]),
        forall|t: int, u: int| 0 <= t < u < keep_src(pb, emb).len() ==> keep_src(pb, emb)[t] < keep_src(pb, emb)[u],
    decreases pb.len(),
{
    if pb.len() > 0 {
        lemma_keep_src(pb.drop_last(), emb);
    }
}

/// `keep` keeps the position of every value of `pb` that occurs in `emb`.
proof fn lemma_keep_contains(pb: Seq<int>, emb: Seq<int>, i: int)
    requires
        0 <= i < pb.len(),
        emb.contains(pb[i]),
    ensures
        keep(pb, emb).contains(pos_in(emb, pb[i])),
    decreases pb.len(),
{
    let r = keep(pb.drop_last(), emb);
    if i == pb.len() - 1 {
        assert(keep(pb, emb)[r.len() as int] == pos_in(emb, pb[i]));
    } else {
        lemma_keep_contains(pb.drop_last(), emb, i);
        if emb.contains(pb.last()) {
            let k = choose|k: int| 0 <= k < r.len() && r[k] == pos_in(emb, pb[i]);
            assert(keep(pb, emb)[k] == r[k]);
        }
    }
}

/// The kept items form a subsequence of the items of `pb`.
proof fn lemma_keep_subsequence(
    a: Seq<(bool, Seq<char>, Seq<char>)>,
    b: Seq<(bool, Seq<char>, Seq<char>)>,
    emb: Seq<int>,
    pb: Seq<int>,
)
    requires
        embedded(a, b, emb),
    ensures
        is_subsequence(keep(pb, emb).map_values(|i: int| a[i]), pb.map_values(|i: int| b[i])),
    decreases pb.len(),
{
    if pb.len() == 0 {
        assert(keep(pb, emb).map_values(|i: int| a[i]) =~= Seq::<(bool, Seq<char>, Seq<char>)>::empty());
        assert(pb.map_values(|i: int| b[i]) =~= Seq::<(bool, Seq<char>, Seq<char>)>::empty());
    } else {
        let init = pb.drop_last();
        lemma_keep_subsequence(a, b, emb, init);
        let ra = keep(init, emb).map_values(|i: int| a[i]);
        let rb = init.map_values(|i: int| b[i]);
        let v = pb.last();
        assert(pb.map_values(|i: int| b[i]) =~= rb.push(b[v]));
        if emb.contains(v) {
            let k = pos_in(emb, v);
            assert(a[k] == b[emb[k]]);
            assert(keep(pb, emb).map_values(|i: int| a[i]) =~= ra.push(b[v]));
            lemma_subsequence_push_same(ra, rb, b[v]);
        } else {
            lemma_subsequence_push_right(ra, rb, b[v]);
        }
    }
}

/// The sorting order of items, kept to the positions of an embedded
/// sequence, is a sorting order of that sequence; and its items form a
/// subsequence of the sorted items.
proof fn lemma_restricted_sort(
    a: Seq<(bool, Seq<char>, Seq<char>)>,
    b: Seq<(bool, Seq<char>, Seq<char>)>,
    emb: Seq<int>,
    pb: Seq<int>,
)
    requires
        embedded(a, b, emb),
        is_sorting_order(b, pb),
    ensures
        is_sorting_order(a, keep(pb, emb)),
        is_subsequence(keep(pb, emb).map_values(|i: int| a[i]), pb.map_values(|i: int| b[i])),
{
    let q = keep(pb, emb);
    let src = keep_src(pb, emb);
    lemma_keep_src(pb, emb);
    lemma_keep_subsequence(a, b, emb, pb);
    assert forall|t: int| 0 <= t < q.len() implies 0 <= #[trigger] q[t] < a.len() && emb[q[t]] == pb[src[t]] by {
        assert(src[t] == keep_src(pb, emb)[t]);
        let v = pb[src[t]];
        assert(emb.contains(v));
    }
    assert forall|x: int| 0 <= x < a.len() implies #[trigger] q.contains(x) by {
        assert(0 <= emb[x] < b.len());
        assert(pb.contains(emb[x]));
        let i = choose|i: int| 0 <= i < pb.len() && pb[i] == emb[x];
        assert(emb.contains(pb[i]));
        lemma_keep_contains(pb, emb, i);
        lemma_pos_in(emb, x);
    }
    assert forall|t: int, u: int| 0 <= t < u < q.len() implies comes_before(a, q[t], q[u]) by {
        let i = src[t];
        let j = src[u];
        assert(i < j);
        assert(comes_before(b, pb[i], pb[j]));
        assert(emb[q[t]] == pb[i] && emb[q[u]] == pb[j]);
        assert(a[q[t]] == b[emb[q[t]]] && a[q[u]] == b[emb[q[u]]]);
        if item_key(a[q[t]]) == item_key(a[q[u]]) && !key_lt(item_key(a[q[t]]), item_key(a[q[u]])) {
            if q[t] > q[u] {
                assert(emb[q[u]] < emb[q[t]]);
            } else if q[t] == q[u] {
            }
        }
    }
    assert(q.no_duplicates()) by {
        assert forall|t: int, u: int| 0 <= t < q.len() && 0 <= u < q.len() && t != u implies q[t] != q[u] by {
            lemma_key_lt_irreflexive(item_key(a[q[t]]));
            if t < u {
                assert(comes_before(a, q[t], q[u]));
            } else {
                assert(comes_before(a, q[u], q[t]));
            }
        }
    }
    q.unique_seq_to_set();
    lemma_int_range(0, a.len() as int);
    assert(q.to_set() =~= set_int_range(0, a.len() as int));
}

/// A subsequence comes with its embedding.
proof fn subsequence_embedding(a: Seq<(bool, Seq<char>, Seq<char>)>, b: Seq<(bool, Seq<char>, Seq<char>)>) -> (emb: Seq<int>)
    requires
        is_subsequence(a, b),
    ensures
        embedded(a, b, emb),
    decreases b.len(),
{
    if b.len() == 0 {
        Seq::<int>::empty()
    } else if a.len() > 0 && a.last() == b.last() && is_subsequence(a.drop_last(), b.drop_last()) {
        let e = subsequence_embedding(a.drop_last(), b.drop_last());
        let r = e.push(b.len() - 1);
        assert forall|k: int| 0 <= k < r.len() implies 0 <= #[trigger] r[k] < b.len() && a[k] == b[r[k]] by {
            if k < e.len() {
                assert(a.drop_last()[k] == b.drop_last()[e[k]]);
            }
        }
        r
    } else {
        let e = subsequence_embedding(a, b.drop_last());
        assert forall|k: int| 0 <= k < e.len() implies 0 <= #[trigger] e[k] < b.len() && a[k] == b[e[k]] by {
            assert(b.drop_last()[e[k]] == b[e[k]]);
        }
        e
    }
}

/// The positions of the file items of `x`.
spec fn file_positions(x: Seq<(bool, Seq<char>, Seq<char>)>) -> Seq<int>
    decreases x.len(),
{
    if x.len() == 0 {
        Seq::<int>::empty()
    } else if x.last().0 {
        file_positions(x.drop_last())
    } else {
        file_positions(x.drop_last()).push(x.len() - 1)
    }
}

/// The file items of `x` sit at `file_positions(x)`, the positions of the
/// items that are not directories.
proof fn lemma_file_positions(x: Seq<(bool, Seq<char>, Seq<char>)>)
    ensures
        embedded(file_items(x), x, file_positions(x)),
        forall|v: int| 0 <= v < x.len() ==> (file_positions(x).contains(v) == !(#[trigger] x[v]).0),
        forall|v: int| file_positions(x).contains(v) ==> 0 <= v < x.len(),
    decreases x.len(),
{
    if x.len() > 0 {
        let init = x.drop_last();
        lemma_file_positions(init);
        let fp = file_positions(x);
        let fi = file_items(x);
        assert forall|k: int| 0 <= k < fp.len() implies 0 <= #[trigger] fp[k] < x.len() && fi[k] == x[fp[k]] by {
            if k < file_positions(init).len() {
                assert(init[file_positions(init)[k]] == x[file_positions(init)[k]]);
            }
        }
        assert forall|v: int| 0 <= v < x.len() implies (fp.contains(v) == !(#[trigger] x[v]).0) by {
            if v < x.len() - 1 {
                assert(init[v] == x[v]);
                if fp.contains(v) {
                    let k = choose|k: int| 0 <= k < fp.len() && fp[k] == v;
                    if k == file_positions(init).len() {
                    } else {
                        assert(file_positions(init)[k] == v);
                    }
                }
                if file_positions(init).contains(v) {
                    let k = choose|k: int| 0 <= k < file_positions(init).len() && file_positions(init)[k] == v;
                    assert(fp[k] == v);
                }
            } else {
                if !x.last().0 {
                    assert(fp[fp.len() - 1] == v);
                } else if fp.contains(v) {
                    let k = choose|k: int| 0 <= k < fp.len() && fp[k] == v;
                }
            }
        }
        assert forall|v: int| fp.contains(v) implies 0 <= v < x.len() by {
            let k = choose|k: int| 0 <= k < fp.len() && fp[k] == v;
            if k < file_positions(init).len() {
                assert(file_positions(init).contains(v));
            }
        }
    }
}

/// Keeping the file positions of a sorting order gives the file items of
/// the sorted items.
proof fn lemma_keep_files(x: Seq<(bool, Seq<char>, Seq<char>)>, p: Seq<int>)
    requires
        forall|k: int| 0 <= k < p.len() ==> 0 <= #[trigger] p[k] < x.len(),
    ensures
        keep(p, file_positions(x)).map_values(|i: int| file_items(x)[i]) == file_items(
            p.map_values(|i: int| x[i]),
        ),
    decreases p.len(),
{
    lemma_file_positions(x);
    let fp = file_positions(x);
    let fi = file_items(x);
    if p.len() == 0 {
        assert(keep(p, fp).map_values(|i: int| fi[i]) =~= Seq::<(bool, Seq<char>, Seq<char>)>::empty());
        assert(p.map_values(|i: int| x[i]) =~= Seq::<(bool, Seq<char>, Seq<char>)>::empty());
    } else {
        let init = p.drop_last();
        lemma_keep_files(x, init);
        let v = p.last();
        let m = p.map_values(|i: int| x[i]);
        assert(m.drop_last() =~= init.map_values(|i: int| x[i]));
        assert(m.last() == x[v]);
        if fp.contains(v) {
            let k = pos_in(fp, v);
            assert(fi[k] == x[fp[k]]);
            assert(keep(p, fp).map_values(|i: int| fi[i]) =~= keep(init, fp).map_values(|i: int| fi[i]).push(x[v]));
        } else {
            assert(keep(p, fp).map_values(|i: int| fi[i]) =~= keep(init, fp).map_values(|i: int| fi[i]));
        }
    }
}

/// The file items of a stable sort are the stable sort of the file items.
proof fn lemma_sorted_files(x: Seq<(bool, Seq<char>, Seq<char>)>, sx: Seq<(bool, Seq<char>, Seq<char>)>)
    requires
        is_stable_sort(x, sx),
    ensures
        is_stable_sort(file_items(x), file_items(sx)),
{
    let p = choose|p: Seq<int>| is_sorting_order(x, p) && sx == p.map_values(|i: int| x[i]);
    lemma_file_positions(x);
    lemma_restricted_sort(file_items(x), x, file_positions(x), p);
    lemma_keep_files(x, p);
    let q = keep(p, file_positions(x));
    assert(is_sorting_order(file_items(x), q) && file_items(sx) == q.map_values(|i: int| file_items(x)[i]));
}

/// A listing made with a larger index, once sorted, shows the other's
/// items among its own in the same order, and the same files in the same
/// order.
pub proof fn law_larger_index_sorted_listing(
    entries: Seq<ListedEntry>,
    url_path: Seq<char>,
    i1: Seq<Seq<Seq<char>>>,
    i2: Seq<Seq<Seq<char>>>,
    s1: Seq<(bool, Seq<char>, Seq<char>)>,
    s2: Seq<(bool, Seq<char>, Seq<char>)>,
)
    requires
        index_included(i1, i2),
        listing_items(entries, url_path, i1) matches Some(a) && is_stable_sort(a, s1),
        listing_items(entries, url_path, i2) matches Some(b) && is_stable_sort(b, s2),
    ensures
        is_subsequence(s1, s2),
        file_items(s1) == file_items(s2),
{
    let a = listing_items(entries, url_path, i1)->0;
    let b = listing_items(entries, url_path, i2)->0;
    law_larger_index_lists_more(entries, url_path, i1, i2);
    let emb = subsequence_embedding(a, b);
    let pb = choose|p: Seq<int>| is_sorting_order(b, p) && s2 == p.map_values(|i: int| b[i]);
    lemma_restricted_sort(a, b, emb, pb);
    let q = keep(pb, emb);
    assert(is_stable_sort(a, q.map_values(|i: int| a[i])));
    law_stable_sort_unique(a, s1, q.map_values(|i: int| a[i]));
    lemma_sorted_files(a, s1);
    lemma_sorted_files(b, s2);
    law_stable_sort_unique(file_items(a), file_items(s1), file_items(s2));
}

/// `x` comes before `y` and `y` before `x` never both hold.
pub proof fn lemma_comes_before_asymmetric(items: Seq<(bool, Seq<char>, Seq<char>)>, x: int, y: int)
    ensures
        !(comes_before(items, x, y) && comes_before(items, y, x)),
{
    let kx = item_key(items[x]);
    let ky = item_key(items[y]);
    lemma_key_lt_irreflexive(kx);
    lemma_key_lt_irreflexive(ky);
    if key_lt(kx, ky) && key_lt(ky, kx) {
        lemma_key_lt_transitive(kx, ky, kx);
    }
}

/// Two stable sorting orders of the same items agree up to position `k`.
proof fn lemma_orders_agree(items: Seq<(bool, Seq<char>, Seq<char>)>, p1: Seq<int>, p2: Seq<int>, k: int)
    requires
        is_sorting_order(items, p1),
        is_sorting_order(items, p2),
        0 <= k < p1.len(),
    ensures
        forall|j: int| 0 <= j <= k ==> p1[j] == p2[j],
    decreases k,
{
    if k > 0 {
        lemma_orders_agree(items, p1, p2, k - 1);
    }
    let x = p1[k];
    let y = p2[k];
    if x != y {
        assert(p2.contains(x));
        let m = choose|m: int| 0 <= m < p2.len() && p2[m] == x;
        if m < k {
            assert(p1[m] == x);
            lemma_key_lt_irreflexive(item_key(items[x]));
            assert(comes_before(items, p1[m], p1[k]));
        }
        assert(p1.contains(y));
        let m2 = choose|m2: int| 0 <= m2 < p1.len() && p1[m2] == y;
        if m2 < k {
            assert(p2[m2] == y);
            lemma_key_lt_irreflexive(item_key(items[y]));
            assert(comes_before(items, p2[m2], p2[k]));
        }
        assert(comes_before(items, y, x));
        assert(comes_before(items, x, y));
        lemma_comes_before_asymmetric(items, x, y);
    }
}

/// Items have one stable sorted order: sorting is a function.
pub proof fn law_stable_sort_unique(
    items: Seq<(bool, Seq<char>, Seq<char>)>,
    s1: Seq<(bool, Seq<char>, Seq<char>)>,
    s2: Seq<(bool, Seq<char>, Seq<char>)>,
)
    requires
        is_stable_sort(items, s1),
        is_stable_sort(items, s2),
    ensures
        s1 == s2,
{
    let p1 = choose|p: Seq<int>| is_sorting_order(items, p) && s1 == p.map_values(|i: int| items[i]);
    let p2 = choose|p: Seq<int>| is_sorting_order(items, p) && s2 == p.map_values(|i: int| items[i]);
    if p1.len() > 0 {
        lemma_orders_agree(items, p1, p2, p1.len() - 1);
    }
    assert(s1 =~= s2);
}

/// In a listing, directories come before files, and entries of one kind
/// come in order of their lowercased names.
pub proof fn law_listing_order(items: Seq<(bool, Seq<char>, Seq<char>)>, sorted: Seq<(bool, Seq<char>, Seq<char>)>)
    requires
        is_stable_sort(items, sorted),
    ensures
        sorted.len() == items.len(),
        forall|a: int, b: int| 0 <= a < b < sorted.len() ==> (sorted[b].0 ==> sorted[a].0),
        forall|a: int, b: int|
            0 <= a < b < sorted.len() && sorted[a].0 == sorted[b].0 ==> !lex_lt(
                lowercase(sorted[b].1),
                lowercase(sorted[a].1),
            ),
{
    let p = choose|p: Seq<int>| is_sorting_order(items, p) && sorted == p.map_values(|i: int| items[i]);
    assert forall|a: int, b: int| 0 <= a < b < sorted.len() implies (!sorted[b].0 || sorted[a].0) by {
        assert(comes_before(items, p[a], p[b]));
        assert(sorted[a] == items[p[a]] && sorted[b] == items[p[b]]);
    }
    assert forall|a: int, b: int|
        0 <= a < b < sorted.len() && sorted[a].0 == sorted[b].0 implies !lex_lt(
        lowercase(sorted[b].1),
        lowercase(sorted[a].1),
    ) by {
        assert(comes_before(items, p[a], p[b]));
        assert(sorted[a] == items[p[a]] && sorted[b] == items[p[b]]);
        let ka = item_key(items[p[a]]);
        let kb = item_key(items[p[b]]);
        lemma_key_lt_irreflexive(ka);
        if key_lt(ka, kb) && key_lt(kb, ka) {
            lemma_key_lt_transitive(ka, kb, ka);
        }
    }
}

/// `x` comes before `y`: their keys are equal or `x`'s is smaller.
proof fn lemma_before_key_le(items: Seq<(bool, Seq<char>, Seq<char>)>, x: int, y: int)
    requires
        comes_before(items, x, y),
    ensures
        item_key(items[x]) == item_key(items[y]) || key_lt(item_key(items[x]), item_key(items[y])),
{
}

/// Keys ordered `a <= b <= c` give `a <= c`.
proof fn lemma_key_le_transitive(a: (bool, Seq<char>), b: (bool, Seq<char>), c: (bool, Seq<char>))
    requires
        a == b || key_lt(a, b),
        b == c || key_lt(b, c),
    ensures
        a == c || key_lt(a, c),
{
    if key_lt(a, b) && key_lt(b, c) {
        lemma_key_lt_transitive(a, b, c);
    }
}

/// Whether key `(dir_a, low_a)` is smaller than key `(dir_b, low_b)`.
fn key_before(dir_a: bool, low_a: &Vec<char>, dir_b: bool, low_b: &Vec<char>) -> (r: bool)
    ensures
        r == key_lt((dir_a, low_a@), (dir_b, low_b@)),
{
    (dir_a && !dir_b) || (dir_a == dir_b && lex_less(low_a, low_b))
}

/// A copy of an item.
fn copy_item(it: &ListingItem) -> (r: ListingItem)
    ensures
        r@ == it@,
{
    ListingItem { is_dir: it.is_dir, name: it.name.clone(), href: it.href.clone() }
}

/// The shown entries in listing order: directories first, then by
/// lowercased name; entries with equal keys keep their order.
pub fn sort_listing(items: &Vec<ListingItem>) -> (sorted: Vec<ListingItem>)
    ensures
        is_stable_sort(item_views(items@), item_views(sorted@)),
{
    let ghost iv = item_views(items@);
    let n = items.len();
    let mut lows: Vec<Vec<char>> = Vec::new();
    let mut i: usize = 0;
    while i < n
        invariant
            i <= n,
            n == items@.len(),
            lows@.len() == i,
            forall|k: int| 0 <= k < i ==> #[trigger] lows@[k]@ == lowercase(items@[k].name@),
        decreases n - i,
    {
        let low = to_lowercase(items[i].name.as_str());
        lows.push(chars_of(low.as_str()));
        i += 1;
    }
    let mut order: Vec<usize> = Vec::new();
    let mut j: usize = 0;
    while j < n
        invariant
            j <= n,
            n == items@.len(),
            iv == item_views(items@),
            lows@.len() == n,
            forall|k: int| 0 <= k < n ==> #[trigger] lows@[k]@ == lowercase(items@[k].name@),
            order@.len() == j,
            forall|k: int| 0 <= k < j ==> #[trigger] order@[k] < j,
            forall|x: usize| x < j ==> #[trigger] order@.contains(x),
            forall|a: int, b: int|
                0 <= a < b < j ==> comes_before(iv, order@[a] as int, order@[b] as int),
        decreases n - j,
    {
        let ghost kj = item_key(iv[j as int]);
        assert(kj == (items@[j as int].is_dir, lows@[j as int]@));
        let mut p: usize = j;
        while p > 0 && key_before(items[j].is_dir, &lows[j], items[order[p - 1]].is_dir, &lows[order[p - 1]])
            invariant
                p <= j,
                j < n,
                n == items@.len(),
                iv == item_views(items@),
                lows@.len() == n,
                forall|k: int| 0 <= k < n ==> #[trigger] lows@[k]@ == lowercase(items@[k].name@),
                order@.len() == j,
                forall|k: int| 0 <= k < j ==> #[trigger] order@[k] < j,
                kj == item_key(iv[j as int]),
                forall|q: int| p <= q < j ==> key_lt(kj, #[trigger] item_key(iv[order@[q] as int])),
            decreases p,
        {
            assert(item_key(iv[order@[p - 1] as int]) == (items@[order@[p - 1] as int].is_dir, lows@[order@[p - 1] as int]@));
            p -= 1;
        }
        let ghost old_order = order@;
        proof {
            if p > 0 {
                let m = old_order[p - 1] as int;
                assert(item_key(iv[m]) == (items@[m].is_dir, lows@[m]@));
                assert(!key_lt(kj, item_key(iv[m])));
                lemma_key_lt_total(kj, item_key(iv[m]));
                assert forall|a: int| 0 <= a < p implies comes_before(iv, old_order[a] as int, j as int) by {
                    if a < p - 1 {
                        lemma_before_key_le(iv, old_order[a] as int, m);
                        lemma_key_le_transitive(item_key(iv[old_order[a] as int]), item_key(iv[m]), kj);
                    }
                }
            }
        }
        order.insert(p, j);
        let ghost nw = order@;
        assert(nw == old_order.insert(p as int, j));
        proof {
            assert forall|a: int, b: int| 0 <= a < b < j + 1 implies comes_before(iv, nw[a] as int, nw[b] as int) by {
                if b < p {
                    assert(nw[a] == old_order[a] && nw[b] == old_order[b]);
                } else if b == p {
                    assert(nw[a] == old_order[a]);
                } else if a < p {
                    assert(nw[a] == old_order[a] && nw[b] == old_order[b - 1]);
                } else if a == p {
                    assert(nw[b] == old_order[b - 1]);
                    assert(key_lt(kj, item_key(iv[old_order[b - 1] as int])));
                } else {
                    assert(nw[a] == old_order[a - 1] && nw[b] == old_order[b - 1]);
                }
            }
            assert forall|x: usize| x < j + 1 implies #[trigger] nw.contains(x) by {
                if x == j {
                    assert(nw[p as int] == j);
                } else {
                    assert(old_order.contains(x));
                    let k = choose|k: int| 0 <= k < old_order.len() && old_order[k] == x;
                    if k < p {
                        assert(nw[k] == x);
                    } else {
                        assert(nw[k + 1] == x);
                    }
                }
            }
            assert forall|k: int| 0 <= k < j + 1 implies #[trigger] nw[k] < j + 1 by {
                if k < p {
                    assert(nw[k] == old_order[k]);
                } else if k > p {
                    assert(nw[k] == old_order[k - 1]);
                }
            }
        }
        j += 1;
    }
    let mut sorted: Vec<ListingItem> = Vec::new();
    let mut k: usize = 0;
    while k < n
        invariant
            k <= n,
            n == items@.len(),
            order@.len() == n,
            forall|q: int| 0 <= q < n ==> #[trigger] order@[q] < n,
            sorted@.len() == k,
            forall|q: int| 0 <= q < k ==> #[trigger] sorted@[q]@ == items@[order@[q] as int]@,
        decreases n - k,
    {
        sorted.push(copy_item(&items[order[k]]));
        k += 1;
    }
    proof {
        let perm = order@.map_values(|u: usize| u as int);
        assert forall|x: int| 0 <= x < iv.len() implies #[trigger] perm.contains(x) by {
            assert(order@.contains(x as usize));
            let q = choose|q: int| 0 <= q < order@.len() && order@[q] == x as usize;
            assert(perm[q] == x);
        }
        assert(is_sorting_order(iv, perm));
        assert(item_views(sorted@) =~= perm.map_values(|i: int| iv[i]));
    }
    sorted
}

/// The HTML of a listing of the given items, in their order.
pub fn render_listing(items: &Vec<ListingItem>) -> (html: String)
    ensures
        html@ == listing_html(item_views(items@)),
{
    let ghost iv = item_views(items@);
    let ghost f = |it: (bool, Seq<char>, Seq<char>)| item_html(it);
    let mut body = String::new();
    let n = items.len();
    let mut i: usize = 0;
    assert(iv.take(0).map_values(f) =~= Seq::<Seq<char>>::empty());
    while i < n
        invariant
            i <= n,
            n == items@.len(),
            iv == item_views(items@),
            f == (|it: (bool, Seq<char>, Seq<char>)| item_html(it)),
            body@ == join_with(iv.take(i as int).map_values(f), LIST_LINE@),
        decreases n - i,
    {
        let it = &items[i];
        let ghost before = body@;
        if i > 0 {
            body.append(LIST_LINE);
        }
        body.append(ITEM_OPEN);
        if it.is_dir {
            body.append(FOLDER_ICON);
        } else {
            body.append(FILE_ICON);
        }
        body.append(ITEM_LINK);
        body.append(it.href.as_str());
        body.append(ITEM_NAME);
        body.append(it.name.as_str());
        body.append(ITEM_CLOSE);
        proof {
            let l = iv.take(i + 1).map_values(f);
            assert(l.drop_last() =~= iv.take(i as int).map_values(f));
            assert(l.last() == item_html(it@));
            if i == 0 {
                assert(l =~= seq![item_html(it@)]);
                assert(body@ =~= item_html(it@));
            } else {
                assert(body@ =~= before + LIST_LINE@ + item_html(it@));
            }
        }
        i += 1;
    }
    assert(iv.take(n as int) =~= iv);
    let mut html = String::new();
    html.append(LIST_OPEN);
    html.append(body.as_str());
    html.append(LIST_CLOSE);
    html
}

/// The listing of a directory served at `url_path`: the shown entries in
/// listing order, as HTML; `None` when the entries could not be read.
pub fn dir_listing(entries: &Vec<ListedEntry>, url_path: &str, index: &MdIndex) -> (r: Option<String>)
    ensures
        match r {
            None => listing_items(entries@, url_path@, index.paths()) is None,
            Some(html) => match listing_items(entries@, url_path@, index.paths()) {
                Some(items) => is_listing_html(items, html@),
                None => false,
            },
        },
{
    match shown_items(entries, url_path, index) {
        None => None,
        Some(items) => {
            let sorted = sort_listing(&items);
            let html = render_listing(&sorted);
            assert(is_stable_sort(item_views(items@), item_views(sorted@)));
            Some(html)
        },
    }
}

} // verus!
