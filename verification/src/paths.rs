//! Unix path arithmetic on strings: splitting at `/`, the components of a
//! path as `std::path::Path` reads them, prefix tests, joining, file names
//! and extensions.

use vstd::prelude::*;
use crate::text::{has_suffix, append_chars, chars_of, push_char, same_chars, string_of, views};

verus! {

broadcast use vstd::string::group_string_axioms;

/// The pieces of `s` between `/` separators, empty pieces included
/// (what `str::split('/')` yields); never empty.
pub open spec fn split_slash(s: Seq<char>) -> Seq<Seq<char>>
    decreases s.len(),
{
    if s.len() == 0 {
        seq![Seq::<char>::empty()]
    } else {
        let init = split_slash(s.drop_last());
        if s.last() == '/' {
            init.push(Seq::<char>::empty())
        } else {
            init.update(init.len() - 1, init.last().push(s.last()))
        }
    }
}

/// `split_slash` yields at least one piece.
pub proof fn lemma_split_slash_nonempty(s: Seq<char>)
    ensures
        split_slash(s).len() >= 1,
    decreases s.len(),
{
    if s.len() > 0 {
        lemma_split_slash_nonempty(s.drop_last());
    }
}

/// The pieces of `ps` that are not empty, in order.
pub open spec fn drop_empty(ps: Seq<Seq<char>>) -> Seq<Seq<char>>
    decreases ps.len(),
{
    if ps.len() == 0 {
        ps
    } else {
        let r = drop_empty(ps.drop_last());
        if ps.last().len() == 0 {
            r
        } else {
            r.push(ps.last())
        }
    }
}

/// No character of `p` is `/`.
pub open spec fn slash_free(p: Seq<char>) -> bool {
    forall|i: int| 0 <= i < p.len() ==> p[i] != '/'
}

/// The pieces `split_slash` yields hold no `/`.
proof fn lemma_split_pieces_slash_free(s: Seq<char>)
    ensures
        forall|k: int| 0 <= k < split_slash(s).len() ==> slash_free(#[trigger] split_slash(s)[k]),
    decreases s.len(),
{
    if s.len() > 0 {
        lemma_split_pieces_slash_free(s.drop_last());
        lemma_split_slash_nonempty(s.drop_last());
        let init = split_slash(s.drop_last());
        if s.last() != '/' {
            let p = init.last().push(s.last());
            assert(slash_free(init[init.len() - 1]));
            assert forall|i: int| 0 <= i < p.len() implies p[i] != '/' by {
                if i < p.len() - 1 {
                    assert(p[i] == init[init.len() - 1][i]);
                }
            }
            assert forall|k: int| 0 <= k < split_slash(s).len() implies slash_free(#[trigger] split_slash(s)[k]) by {
                if k < init.len() - 1 {
                    assert(split_slash(s)[k] == init[k]);
                }
            }
        } else {
            assert forall|k: int| 0 <= k < split_slash(s).len() implies slash_free(#[trigger] split_slash(s)[k]) by {
                if k < init.len() {
                    assert(split_slash(s)[k] == init[k]);
                }
            }
        }
    }
}

/// The pieces `drop_empty` keeps are pieces of its argument, and not empty.
proof fn lemma_drop_empty_kept(ps: Seq<Seq<char>>)
    requires
        forall|j: int| 0 <= j < ps.len() ==> slash_free(#[trigger] ps[j]),
    ensures
        forall|k: int| 0 <= k < drop_empty(ps).len() ==> slash_free(#[trigger] drop_empty(ps)[k])
            && drop_empty(ps)[k].len() > 0,
    decreases ps.len(),
{
    if ps.len() > 0 {
        let init = ps.drop_last();
        assert forall|j: int| 0 <= j < init.len() implies slash_free(#[trigger] init[j]) by {
            assert(init[j] == ps[j]);
        }
        lemma_drop_empty_kept(init);
        assert(slash_free(ps[ps.len() - 1]));
        let r = drop_empty(init);
        if ps.last().len() > 0 {
            assert forall|k: int| 0 <= k < drop_empty(ps).len() implies slash_free(#[trigger] drop_empty(ps)[k])
                && drop_empty(ps)[k].len() > 0 by {
                if k < r.len() {
                    assert(drop_empty(ps)[k] == r[k]);
                } else {
                    assert(drop_empty(ps)[k] == ps.last());
                }
            }
        }
    }
}

/// Every segment of a path is non-empty and holds no `/`.
pub proof fn lemma_segment_pieces(s: Seq<char>)
    ensures
        forall|k: int| 0 <= k < segments(s).len() ==> slash_free(#[trigger] segments(s)[k])
            && segments(s)[k].len() > 0,
{
    lemma_split_pieces_slash_free(s);
    lemma_drop_empty_kept(split_slash(s));
}

/// `drop_empty` of two piece lists, one after the other.
pub proof fn lemma_drop_empty_concat(x: Seq<Seq<char>>, y: Seq<Seq<char>>)
    ensures
        drop_empty(x + y) == drop_empty(x) + drop_empty(y),
    decreases y.len(),
{
    if y.len() == 0 {
        assert(x + y =~= x);
        assert(drop_empty(x) + drop_empty(y) =~= drop_empty(x));
    } else {
        lemma_drop_empty_concat(x, y.drop_last());
        assert((x + y).drop_last() =~= x + y.drop_last());
        assert((x + y).last() == y.last());
        let dx = drop_empty(x);
        let dy = drop_empty(y.drop_last());
        assert((dx + dy).push(y.last()) =~= dx + dy.push(y.last()));
    }
}

/// A non-empty text without `/` is its own one segment.
pub proof fn lemma_segments_of_piece(p: Seq<char>)
    requires
        p.len() > 0,
        slash_free(p),
    ensures
        split_slash(p) == seq![p],
        drop_empty(seq![p]) == seq![p],
{
    lemma_split_no_slash(p);
    assert(seq![p].drop_last() =~= Seq::<Seq<char>>::empty());
    assert(drop_empty(seq![p].drop_last()) == Seq::<Seq<char>>::empty());
    assert(drop_empty(seq![p]) =~= seq![p]);
}

/// The empty text splits into one empty piece, which `drop_empty` drops.
pub proof fn lemma_segments_of_empty()
    ensures
        split_slash(Seq::<char>::empty()) == seq![Seq::<char>::empty()],
        drop_empty(seq![Seq::<char>::empty()]) == Seq::<Seq<char>>::empty(),
{
    let p = seq![Seq::<char>::empty()];
    assert(p.drop_last() =~= Seq::<Seq<char>>::empty());
    assert(drop_empty(p.drop_last()) == Seq::<Seq<char>>::empty());
    assert(p.last().len() == 0);
}

/// The non-empty pieces of `s` between `/` separators
/// (`s.split('/').filter(|p| !p.is_empty())`).
pub open spec fn segments(s: Seq<char>) -> Seq<Seq<char>> {
    drop_empty(split_slash(s))
}

/// The one-character piece `.`.
pub open spec fn dot() -> Seq<char> {
    seq!['.']
}

/// The two-character piece `..`.
pub open spec fn dot_dot() -> Seq<char> {
    seq!['.', '.']
}

/// The marker that stands for the root directory among components.
pub open spec fn root_marker() -> Seq<char> {
    seq!['/']
}

/// The pieces of `ps` that are neither empty nor `.`, in order.
pub open spec fn normal_parts(ps: Seq<Seq<char>>) -> Seq<Seq<char>>
    decreases ps.len(),
{
    if ps.len() == 0 {
        ps
    } else {
        let r = normal_parts(ps.drop_last());
        if ps.last().len() == 0 || ps.last() == dot() {
            r
        } else {
            r.push(ps.last())
        }
    }
}

/// The components of a Unix path as `Path::components` yields them: the
/// root (written `/`) when the path starts with `/`, a leading `.` when a
/// relative path starts with the piece `.`, then every piece between
/// separators that is neither empty nor `.`.
pub open spec fn path_components(s: Seq<char>) -> Seq<Seq<char>> {
    let ps = split_slash(s);
    if s.len() > 0 && s[0] == '/' {
        seq![root_marker()] + normal_parts(ps)
    } else if ps[0] == dot() {
        seq![dot()] + normal_parts(ps.drop_first())
    } else {
        normal_parts(ps)
    }
}

/// Two paths are equal as `Path` compares them: component by component.
pub open spec fn same_path(a: Seq<char>, b: Seq<char>) -> bool {
    path_components(a) == path_components(b)
}

/// `base` is a prefix of `path` component by component (`Path::starts_with`).
pub open spec fn path_starts_with(path: Seq<char>, base: Seq<char>) -> bool {
    let p = path_components(path);
    let b = path_components(base);
    b.len() <= p.len() && p.take(b.len() as int) == b
}

/// `PathBuf::join`: an absolute `rel` replaces `base`; otherwise `rel` is
/// appended, with a `/` between unless `base` is empty or ends with `/`.
pub open spec fn joined(base: Seq<char>, rel: Seq<char>) -> Seq<char> {
    if rel.len() > 0 && rel[0] == '/' {
        rel
    } else if base.len() > 0 && base.last() != '/' {
        base + seq!['/'] + rel
    } else {
        base + rel
    }
}

/// `s` without its leading `/` characters (`trim_start_matches('/')`).
pub open spec fn strip_leading_slashes(s: Seq<char>) -> Seq<char>
    decreases s.len(),
{
    if s.len() > 0 && s[0] == '/' {
        strip_leading_slashes(s.drop_first())
    } else {
        s
    }
}

/// `s` without its trailing `/` characters (`trim_end_matches('/')`).
pub open spec fn strip_trailing_slashes(s: Seq<char>) -> Seq<char>
    decreases s.len(),
{
    if s.len() > 0 && s.last() == '/' {
        strip_trailing_slashes(s.drop_last())
    } else {
        s
    }
}

/// The last component of a path when it is a name (`Path::file_name`).
pub open spec fn file_name(s: Seq<char>) -> Option<Seq<char>> {
    let c = path_components(s);
    if c.len() > 0 && c.last() != root_marker() && c.last() != dot() && c.last() != dot_dot() {
        Some(c.last())
    } else {
        None
    }
}

/// The index of the last `.` in `s`, or -1.
pub open spec fn last_dot(s: Seq<char>) -> int
    decreases s.len(),
{
    if s.len() == 0 {
        -1
    } else if s.last() == '.' {
        s.len() - 1
    } else {
        last_dot(s.drop_last())
    }
}

/// The extension of a file name: what follows its last `.`, when that dot
/// is not the name's first character.
pub open spec fn name_extension(name: Seq<char>) -> Option<Seq<char>> {
    let k = last_dot(name);
    if name == dot_dot() || k <= 0 {
        None
    } else {
        Some(name.skip(k + 1))
    }
}

/// The extension of a path (`Path::extension`).
pub open spec fn path_extension(s: Seq<char>) -> Option<Seq<char>> {
    match file_name(s) {
        Some(name) => name_extension(name),
        None => None,
    }
}

pub proof fn lemma_last_dot_range(s: Seq<char>)
    ensures
        -1 <= last_dot(s) < s.len(),
        last_dot(s) >= 0 ==> s[last_dot(s)] == '.',
    decreases s.len(),
{
    if s.len() > 0 {
        lemma_last_dot_range(s.drop_last());
    }
}

/// Splitting at `/` a text made of `a`, a `/` and `b` gives the pieces of
/// `a` followed by those of `b`.
pub proof fn lemma_split_concat(a: Seq<char>, b: Seq<char>)
    ensures
        split_slash(a + seq!['/'] + b) == split_slash(a) + split_slash(b),
    decreases b.len(),
{
    let j = a + seq!['/'] + b;
    lemma_split_slash_nonempty(a);
    if b.len() == 0 {
        assert(j.drop_last() =~= a);
        assert(split_slash(a) + split_slash(b) =~= split_slash(a).push(Seq::<char>::empty()));
    } else {
        lemma_split_concat(a, b.drop_last());
        lemma_split_slash_nonempty(b.drop_last());
        assert(j.drop_last() =~= a + seq!['/'] + b.drop_last());
        assert(j.last() == b.last());
        let sa = split_slash(a);
        let sb = split_slash(b.drop_last());
        if b.last() == '/' {
            assert((sa + sb).push(Seq::<char>::empty()) =~= sa + sb.push(Seq::<char>::empty()));
        } else {
            let i = sa + sb;
            assert(i.update(i.len() - 1, i.last().push(b.last())) =~= sa + sb.update(
                sb.len() - 1,
                sb.last().push(b.last()),
            ));
        }
    }
}

/// The normal parts of two piece lists, one after the other.
pub proof fn lemma_normal_concat(x: Seq<Seq<char>>, y: Seq<Seq<char>>)
    ensures
        normal_parts(x + y) == normal_parts(x) + normal_parts(y),
    decreases y.len(),
{
    if y.len() == 0 {
        assert(x + y =~= x);
        assert(normal_parts(x) + normal_parts(y) =~= normal_parts(x));
    } else {
        lemma_normal_concat(x, y.drop_last());
        assert((x + y).drop_last() =~= x + y.drop_last());
        assert((x + y).last() == y.last());
        let nx = normal_parts(x);
        let ny = normal_parts(y.drop_last());
        assert((nx + ny).push(y.last()) =~= nx + ny.push(y.last()));
    }
}

/// The normal parts of the one empty piece.
proof fn lemma_normal_of_empty_piece()
    ensures
        normal_parts(seq![Seq::<char>::empty()]) == Seq::<Seq<char>>::empty(),
{
    let p = seq![Seq::<char>::empty()];
    assert(p.drop_last() =~= Seq::<Seq<char>>::empty());
    assert(normal_parts(p.drop_last()) == Seq::<Seq<char>>::empty());
    assert(p.last().len() == 0);
}

/// Joining a relative path to a base extends the base: the result starts
/// with the base, component by component.
pub proof fn law_join_extends_base(base: Seq<char>, rel: Seq<char>)
    requires
        !(rel.len() > 0 && rel[0] == '/'),
    ensures
        path_starts_with(joined(base, rel), base),
{
    let j = joined(base, rel);
    if base.len() == 0 {
        lemma_normal_of_empty_piece();
        assert(split_slash(base) == seq![Seq::<char>::empty()]);
        assert(Seq::<char>::empty() != dot());
        assert(path_components(base) =~= Seq::<Seq<char>>::empty());
        assert(path_components(j).take(0) =~= Seq::<Seq<char>>::empty());
    } else {
        // `j` splits into the pieces of `a` then those of `rel`, and `base`
        // splits into the pieces of `a` then `tail`, whose normal parts are
        // none.
        let a = if base.last() != '/' { base } else { base.drop_last() };
        let tail = if base.last() != '/' { Seq::<Seq<char>>::empty() } else { seq![Seq::<char>::empty()] };
        lemma_split_concat(a, rel);
        lemma_split_slash_nonempty(a);
        let sa = split_slash(a);
        let sr = split_slash(rel);
        if base.last() != '/' {
            assert(j == a + seq!['/'] + rel);
            assert(split_slash(base) =~= sa + tail);
        } else {
            assert(j =~= a + seq!['/'] + rel);
            assert(base =~= a + seq!['/'] + Seq::<char>::empty());
            lemma_split_concat(a, Seq::<char>::empty());
            assert(split_slash(base) == sa + tail);
        }
        lemma_normal_of_empty_piece();
        assert(normal_parts(tail) =~= Seq::<Seq<char>>::empty());
        assert(j[0] == base[0]);
        if base[0] == '/' {
            lemma_normal_concat(sa, sr);
            lemma_normal_concat(sa, tail);
            let pb = seq![root_marker()] + normal_parts(sa);
            assert(path_components(base) =~= pb);
            assert(path_components(j) =~= pb + normal_parts(sr));
            assert((pb + normal_parts(sr)).take(pb.len() as int) =~= pb);
        } else {
            assert((sa + sr)[0] == sa[0]);
            assert((sa + tail)[0] == sa[0]);
            if sa[0] == dot() {
                assert((sa + sr).drop_first() =~= sa.drop_first() + sr);
                assert((sa + tail).drop_first() =~= sa.drop_first() + tail);
                lemma_normal_concat(sa.drop_first(), sr);
                lemma_normal_concat(sa.drop_first(), tail);
                let pb = seq![dot()] + normal_parts(sa.drop_first());
                assert(path_components(base) =~= pb);
                assert(path_components(j) =~= pb + normal_parts(sr));
                assert((pb + normal_parts(sr)).take(pb.len() as int) =~= pb);
            } else {
                lemma_normal_concat(sa, sr);
                lemma_normal_concat(sa, tail);
                let pb = normal_parts(sa);
                assert(path_components(base) =~= pb);
                assert(path_components(j) =~= pb + normal_parts(sr));
                assert((pb + normal_parts(sr)).take(pb.len() as int) =~= pb);
            }
        }
    }
}

/// A plain file name: not empty, without `/`, and not `.`.
pub open spec fn plain_name(n: Seq<char>) -> bool {
    n.len() > 0 && (forall|i: int| 0 <= i < n.len() ==> n[i] != '/') && n != dot()
}

/// A text without `/` is one piece.
proof fn lemma_split_no_slash(s: Seq<char>)
    requires
        forall|i: int| 0 <= i < s.len() ==> s[i] != '/',
    ensures
        split_slash(s) == seq![s],
    decreases s.len(),
{
    if s.len() > 0 {
        lemma_split_no_slash(s.drop_last());
        assert(s.last() != '/');
        assert(s.drop_last().push(s.last()) =~= s);
        assert(seq![s.drop_last()].update(0, s.drop_last().push(s.last())) =~= seq![s]);
    } else {
        assert(s =~= Seq::<char>::empty());
    }
}

/// The normal parts of pieces followed by a plain name.
proof fn lemma_normal_push_name(x: Seq<Seq<char>>, n: Seq<char>)
    requires
        plain_name(n),
    ensures
        normal_parts(x + seq![n]) == normal_parts(x).push(n),
{
    lemma_normal_concat(x, seq![n]);
    assert(seq![n].drop_last() =~= Seq::<Seq<char>>::empty());
    assert(normal_parts(seq![n].drop_last()) == Seq::<Seq<char>>::empty());
    assert(normal_parts(seq![n]) =~= seq![n]);
}

/// Joining a plain name to a path adds that name as its last component.
pub proof fn lemma_components_join_name(c: Seq<char>, n: Seq<char>)
    requires
        plain_name(n),
    ensures
        path_components(joined(c, n)) == path_components(c).push(n),
{
    lemma_split_no_slash(n);
    let j = joined(c, n);
    if c.len() == 0 {
        assert(j == n);
        lemma_normal_of_empty_piece();
        assert(dot().len() == 1);
        assert(Seq::<char>::empty() != dot());
        assert(path_components(c) =~= Seq::<Seq<char>>::empty());
        assert(seq![n].drop_last() =~= Seq::<Seq<char>>::empty());
        assert(normal_parts(seq![n].drop_last()) == Seq::<Seq<char>>::empty());
        assert(normal_parts(seq![n]) =~= seq![n]);
        assert(split_slash(j)[0] == n);
        assert(path_components(j) =~= seq![n]);
    } else {
        let a = if c.last() != '/' { c } else { c.drop_last() };
        let tail = if c.last() != '/' { Seq::<Seq<char>>::empty() } else { seq![Seq::<char>::empty()] };
        lemma_split_concat(a, n);
        lemma_split_slash_nonempty(a);
        let sa = split_slash(a);
        if c.last() != '/' {
            assert(j == a + seq!['/'] + n);
            assert(split_slash(c) =~= sa + tail);
        } else {
            assert(j =~= a + seq!['/'] + n);
            assert(c =~= a + seq!['/'] + Seq::<char>::empty());
            lemma_split_concat(a, Seq::<char>::empty());
            assert(split_slash(c) == sa + tail);
        }
        assert(split_slash(j) == sa + seq![n]);
        lemma_normal_of_empty_piece();
        assert(normal_parts(tail) =~= Seq::<Seq<char>>::empty());
        assert(j[0] == c[0]);
        if c[0] == '/' {
            lemma_normal_push_name(sa, n);
            lemma_normal_concat(sa, tail);
            assert(path_components(c) =~= seq![root_marker()] + normal_parts(sa));
            assert(path_components(j) =~= (seq![root_marker()] + normal_parts(sa)).push(n));
        } else {
            assert((sa + seq![n])[0] == sa[0]);
            assert((sa + tail)[0] == sa[0]);
            if sa[0] == dot() {
                assert((sa + seq![n]).drop_first() =~= sa.drop_first() + seq![n]);
                assert((sa + tail).drop_first() =~= sa.drop_first() + tail);
                lemma_normal_push_name(sa.drop_first(), n);
                lemma_normal_concat(sa.drop_first(), tail);
                assert(path_components(c) =~= seq![dot()] + normal_parts(sa.drop_first()));
                assert(path_components(j) =~= (seq![dot()] + normal_parts(sa.drop_first())).push(n));
            } else {
                lemma_normal_push_name(sa, n);
                lemma_normal_concat(sa, tail);
                assert(path_components(c) =~= normal_parts(sa));
                assert(path_components(j) =~= normal_parts(sa).push(n));
            }
        }
    }
}

/// Stripping leading `/` leaves a suffix of the text that does not start
/// with `/`; stripping again changes nothing.
pub proof fn law_strip_leading_slashes(s: Seq<char>)
    ensures
        has_suffix(s, strip_leading_slashes(s)),
        !(strip_leading_slashes(s).len() > 0 && strip_leading_slashes(s)[0] == '/'),
        strip_leading_slashes(strip_leading_slashes(s)) == strip_leading_slashes(s),
    decreases s.len(),
{
    if s.len() > 0 && s[0] == '/' {
        law_strip_leading_slashes(s.drop_first());
        let r = strip_leading_slashes(s);
        assert(s.skip(s.len() - r.len()) =~= s.drop_first().skip(s.drop_first().len() - r.len()));
    } else {
        assert(s.skip(0) =~= s);
    }
}

/// Splits characters at every `/`.
pub fn split_slash_chars(s: &Vec<char>) -> (parts: Vec<Vec<char>>)
    ensures
        views(parts@) == split_slash(s@),
{
    let mut done: Vec<Vec<char>> = Vec::new();
    let mut cur: Vec<char> = Vec::new();
    let n = s.len();
    let mut i: usize = 0;
    assert(s@.take(0) =~= Seq::<char>::empty());
    assert(views(done@).push(cur@) =~= split_slash(s@.take(0)));
    while i < n
        invariant
            i <= n,
            n == s@.len(),
            views(done@).push(cur@) == split_slash(s@.take(i as int)),
        decreases n - i,
    {
        let c = s[i];
        let ghost prev = split_slash(s@.take(i as int));
        assert(s@.take(i + 1).drop_last() =~= s@.take(i as int));
        assert(s@.take(i + 1).last() == c);
        if c == '/' {
            done.push(cur);
            cur = Vec::new();
            assert(views(done@).push(cur@) =~= prev.push(Seq::<char>::empty()));
        } else {
            let ghost old_cur = cur@;
            cur.push(c);
            assert(views(done@).push(cur@) =~= prev.update(prev.len() - 1, old_cur.push(c)));
        }
        i += 1;
    }
    assert(s@.take(n as int) =~= s@);
    done.push(cur);
    assert(views(done@) =~= split_slash(s@));
    done
}

/// The non-empty pieces of `ps[from..]` (`from` is 0 or 1) that are not
/// `.` when `skip_dots` holds.
fn keep_pieces(ps: &Vec<Vec<char>>, from: usize, skip_dots: bool) -> (out: Vec<Vec<char>>)
    requires
        from <= ps@.len(),
    ensures
        skip_dots ==> views(out@) == normal_parts(views(ps@).skip(from as int)),
        !skip_dots ==> views(out@) == drop_empty(views(ps@).skip(from as int)),
{
    let mut out: Vec<Vec<char>> = Vec::new();
    let n = ps.len();
    let mut i: usize = from;
    let dotv: Vec<char> = vec!['.'];
    assert(dotv@ =~= dot());
    assert(views(ps@).subrange(from as int, from as int) =~= Seq::<Seq<char>>::empty());
    while i < n
        invariant
            from <= i <= n,
            n == ps@.len(),
            dotv@ == dot(),
            skip_dots ==> views(out@) == normal_parts(views(ps@).subrange(from as int, i as int)),
            !skip_dots ==> views(out@) == drop_empty(views(ps@).subrange(from as int, i as int)),
        decreases n - i,
    {
        let ghost sub = views(ps@).subrange(from as int, i + 1);
        assert(sub.drop_last() =~= views(ps@).subrange(from as int, i as int));
        assert(sub.last() == ps@[i as int]@);
        let keep = ps[i].len() > 0 && (!skip_dots || !same_chars(&ps[i], &dotv));
        if keep {
            let ghost before = views(out@);
            let piece = ps[i].clone();
            assert(piece@ =~= ps@[i as int]@);
            out.push(piece);
            assert(views(out@) =~= before.push(ps@[i as int]@));
        }
        i += 1;
    }
    assert(views(ps@).subrange(from as int, n as int) =~= views(ps@).skip(from as int));
    out
}


/// The characters `v[from..to]`.
pub fn chars_between(v: &Vec<char>, from: usize, to: usize) -> (r: Vec<char>)
    requires
        from <= to <= v@.len(),
    ensures
        r@ == v@.subrange(from as int, to as int),
{
    let mut r: Vec<char> = Vec::new();
    let mut i = from;
    while i < to
        invariant
            from <= i <= to,
            to <= v@.len(),
            r@ == v@.subrange(from as int, i as int),
        decreases to - i,
    {
        r.push(v[i]);
        assert(v@.subrange(from as int, i + 1) =~= v@.subrange(from as int, i as int).push(v@[i as int]));
        i += 1;
    }
    r
}

/// The components of a path (see `path_components`).
pub fn components(s: &Vec<char>) -> (c: Vec<Vec<char>>)
    ensures
        views(c@) == path_components(s@),
{
    let ps = split_slash_chars(s);
    proof {
        lemma_split_slash_nonempty(s@);
    }
    let dotv: Vec<char> = vec!['.'];
    assert(dotv@ =~= dot());
    if s.len() > 0 && s[0] == '/' {
        let mut rest = keep_pieces(&ps, 0, true);
        assert(views(ps@).skip(0) =~= views(ps@));
        let root: Vec<char> = vec!['/'];
        assert(root@ =~= root_marker());
        let mut out: Vec<Vec<char>> = Vec::new();
        out.push(root);
        let ghost r = views(rest@);
        out.append(&mut rest);
        assert(views(out@) =~= seq![root_marker()] + r);
        out
    } else if same_chars(&ps[0], &dotv) {
        let mut rest = keep_pieces(&ps, 1, true);
        assert(views(ps@).skip(1) =~= views(ps@).drop_first());
        let mut out: Vec<Vec<char>> = Vec::new();
        out.push(dotv);
        let ghost r = views(rest@);
        out.append(&mut rest);
        assert(views(out@) =~= seq![dot()] + r);
        out
    } else {
        let out = keep_pieces(&ps, 0, true);
        assert(views(ps@).skip(0) =~= views(ps@));
        out
    }
}

/// The non-empty pieces of `s` between `/` separators.
pub fn segments_of(s: &Vec<char>) -> (r: Vec<Vec<char>>)
    ensures
        views(r@) == segments(s@),
{
    let ps = split_slash_chars(s);
    let r = keep_pieces(&ps, 0, false);
    assert(views(ps@).skip(0) =~= views(ps@));
    r
}

/// Whether two piece lists are equal.
pub(crate) fn same_pieces(a: &Vec<Vec<char>>, b: &Vec<Vec<char>>) -> (r: bool)
    ensures
        r == (views(a@) == views(b@)),
{
    if a.len() != b.len() {
        assert(views(a@).len() != views(b@).len());
        return false;
    }
    let n = a.len();
    let mut i: usize = 0;
    while i < n
        invariant
            i <= n,
            n == a@.len(),
            n == b@.len(),
            forall|k: int| 0 <= k < i ==> a@[k]@ == b@[k]@,
        decreases n - i,
    {
        if !same_chars(&a[i], &b[i]) {
            assert(views(a@)[i as int] != views(b@)[i as int]);
            return false;
        }
        i += 1;
    }
    assert(views(a@) =~= views(b@));
    true
}

/// Whether the piece list `b` is a prefix of `p`.
fn pieces_prefix(p: &Vec<Vec<char>>, b: &Vec<Vec<char>>) -> (r: bool)
    ensures
        r == (views(b@).len() <= views(p@).len() && views(p@).take(views(b@).len() as int) == views(b@)),
{
    if b.len() > p.len() {
        return false;
    }
    let n = b.len();
    let mut i: usize = 0;
    while i < n
        invariant
            i <= n,
            n == b@.len(),
            n <= p@.len(),
            forall|k: int| 0 <= k < i ==> p@[k]@ == b@[k]@,
        decreases n - i,
    {
        if !same_chars(&p[i], &b[i]) {
            assert(views(p@).take(n as int)[i as int] != views(b@)[i as int]);
            return false;
        }
        i += 1;
    }
    assert(views(p@).take(n as int) =~= views(b@));
    true
}

/// Whether `base` is a prefix of `path` component by component.
pub fn starts_with_path(path: &str, base: &str) -> (r: bool)
    ensures
        r == path_starts_with(path@, base@),
{
    let p = components(&chars_of(path));
    let b = components(&chars_of(base));
    pieces_prefix(&p, &b)
}

/// Whether two paths have the same components.
pub fn is_same_path(a: &str, b: &str) -> (r: bool)
    ensures
        r == same_path(a@, b@),
{
    let ca = components(&chars_of(a));
    let cb = components(&chars_of(b));
    same_pieces(&ca, &cb)
}

/// `base` joined with `rel` (see `joined`).
pub fn join(base: &str, rel: &str) -> (r: String)
    ensures
        r@ == joined(base@, rel@),
{
    let rv = chars_of(rel);
    if rv.len() > 0 && rv[0] == '/' {
        return string_of(&rv);
    }
    let bv = chars_of(base);
    let mut out = string_of(&bv);
    if bv.len() > 0 && bv[bv.len() - 1] != '/' {
        push_char(&mut out, '/');
    }
    append_chars(&mut out, &rv);
    out
}

/// `s` without its leading `/` characters.
pub fn trim_leading_slashes(s: &str) -> (r: String)
    ensures
        r@ == strip_leading_slashes(s@),
{
    let v = chars_of(s);
    let n = v.len();
    let mut i: usize = 0;
    assert(v@.skip(0) =~= v@);
    while i < n && v[i] == '/'
        invariant
            i <= n,
            n == v@.len(),
            strip_leading_slashes(v@) == strip_leading_slashes(v@.skip(i as int)),
        decreases n - i,
    {
        assert(v@.skip(i as int).drop_first() =~= v@.skip(i + 1));
        i += 1;
    }
    let rest = chars_between(&v, i, n);
    assert(rest@ =~= v@.skip(i as int));
    string_of(&rest)
}

/// `s` without its trailing `/` characters.
pub fn trim_trailing_slashes(s: &str) -> (r: String)
    ensures
        r@ == strip_trailing_slashes(s@),
{
    let v = chars_of(s);
    let mut j: usize = v.len();
    assert(v@.take(j as int) =~= v@);
    while j > 0 && v[j - 1] == '/'
        invariant
            j <= v@.len(),
            strip_trailing_slashes(v@) == strip_trailing_slashes(v@.take(j as int)),
        decreases j,
    {
        assert(v@.take(j as int).drop_last() =~= v@.take(j - 1));
        j -= 1;
    }
    let rest = chars_between(&v, 0, j);
    assert(rest@ =~= v@.take(j as int));
    string_of(&rest)
}

/// The index of the last `.` in `v`, if any.
fn find_last_dot(v: &Vec<char>) -> (r: Option<usize>)
    ensures
        match r {
            Some(k) => last_dot(v@) == k,
            None => last_dot(v@) == -1,
        },
{
    let mut j: usize = v.len();
    assert(v@.take(j as int) =~= v@);
    while j > 0
        invariant
            j <= v@.len(),
            last_dot(v@) == last_dot(v@.take(j as int)),
        decreases j,
    {
        assert(v@.take(j as int).drop_last() =~= v@.take(j - 1));
        if v[j - 1] == '.' {
            return Some(j - 1);
        }
        j -= 1;
    }
    None
}

/// The extension of a path (see `path_extension`).
pub fn extension(path: &str) -> (r: Option<String>)
    ensures
        r matches Some(e) ==> path_extension(path@) == Some(e@),
        r is None ==> path_extension(path@) is None,
{
    let c = components(&chars_of(path));
    if c.len() == 0 {
        return None;
    }
    let last = &c[c.len() - 1];
    let root: Vec<char> = vec!['/'];
    let dotv: Vec<char> = vec!['.'];
    let dots: Vec<char> = vec!['.', '.'];
    assert(root@ =~= root_marker());
    assert(dotv@ =~= dot());
    assert(dots@ =~= dot_dot());
    assert(views(c@).last() == last@);
    if same_chars(last, &root) || same_chars(last, &dotv) || same_chars(last, &dots) {
        return None;
    }
    match find_last_dot(last) {
        None => None,
        Some(k) => {
            if k == 0 {
                None
            } else {
                proof {
                    lemma_last_dot_range(last@);
                }
                let ln = last.len();
                assert(k < ln);
                let e = chars_between(last, k + 1, ln);
                assert(e@ =~= last@.skip(k + 1));
                Some(string_of(&e))
            }
        }
    }
}

} // verus!
