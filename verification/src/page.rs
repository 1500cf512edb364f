//! Assembly of HTML pages: the page frame with its style sheet and the
//! breadcrumb trail of a path.

use vstd::prelude::*;
use crate::paths::{
    lemma_drop_empty_concat, lemma_segment_pieces, lemma_segments_of_empty, lemma_segments_of_piece,
    lemma_split_concat, segments, segments_of, slash_free, split_slash,
};
use crate::text::{append_chars, chars_of, join_with, push_char, views};

verus! {

broadcast use vstd::string::group_string_axioms;

/// The style sheet of every page.
pub const CSS: &'static str = r#"
:root {
    --bg: #1a1a2e;
    --surface: #16213e;
    --text: #e0e0e0;
    --text-muted: #8a8a9a;
    --accent: #e94560;
    --link: #64b5f6;
    --code-bg: #0f3460;
    --border: #2a2a4a;
}
* { margin: 0; padding: 0; box-sizing: border-box; }
body {
    font-family: -apple-system, BlinkMacSystemFont, 'Segoe UI', Roboto, sans-serif;
    background: var(--bg);
    color: var(--text);
    line-height: 1.7;
    max-width: 860px;
    margin: 0 auto;
    padding: 2rem 1.5rem;
}
a { color: var(--link); text-decoration: none; }
a:hover { text-decoration: underline; }
h1, h2, h3, h4, h5, h6 {
    color: #fff;
    margin: 1.5em 0 0.5em;
    line-height: 1.3;
}
h1 { font-size: 2em; border-bottom: 2px solid var(--accent); padding-bottom: 0.3em; }
h2 { font-size: 1.5em; border-bottom: 1px solid var(--border); padding-bottom: 0.2em; }
p { margin: 0.8em 0; }
code {
    background: var(--code-bg);
    padding: 0.15em 0.4em;
    border-radius: 4px;
    font-size: 0.9em;
}
pre {
    background: var(--code-bg);
    padding: 1em;
    border-radius: 8px;
    overflow-x: auto;
    margin: 1em 0;
}
pre code { background: none; padding: 0; }
blockquote {
    border-left: 4px solid var(--accent);
    padding-left: 1em;
    color: var(--text-muted);
    margin: 1em 0;
}
ul, ol { padding-left: 1.5em; margin: 0.5em 0; }
li { margin: 0.3em 0; }
table { border-collapse: collapse; width: 100%; margin: 1em 0; }
th, td { border: 1px solid var(--border); padding: 0.5em 0.8em; text-align: left; }
th { background: var(--surface); color: #fff; }
img { max-width: 100%; height: auto; border-radius: 8px; }
hr { border: none; border-top: 1px solid var(--border); margin: 2em 0; }
.breadcrumb { color: var(--text-muted); margin-bottom: 1.5em; font-size: 0.9em; }
.breadcrumb a { color: var(--link); }
.breadcrumb span { margin: 0 0.3em; }
.dir-listing { list-style: none; padding: 0; }
.dir-listing li { padding: 0.4em 0; border-bottom: 1px solid var(--border); }
.dir-listing li:last-child { border-bottom: none; }
.dir-listing .icon { margin-right: 0.5em; }
@media (max-width: 600px) {
    body { padding: 1rem; }
    h1 { font-size: 1.5em; }
}
"#;

/// Everything of a page before its title.
pub const PAGE_HEAD: &'static str = "<!DOCTYPE html>\n<html lang=\"en\">\n<head>\n<meta charset=\"utf-8\">\n<meta name=\"viewport\" content=\"width=device-width, initial-scale=1\">\n<title>";

/// What follows the title, up to the style sheet.
pub const TITLE_TAIL: &'static str = " — Jazz</title>\n<style>";

/// What follows the style sheet, up to the breadcrumb.
pub const STYLE_TAIL: &'static str = "</style>\n</head>\n<body>\n";

/// The line break between breadcrumb and body.
pub const LINE_BREAK: &'static str = "\n";

/// What follows the body.
pub const PAGE_TAIL: &'static str = "\n</body>\n</html>";

/// The first crumb, a link to the home directory.
pub const HOME_CRUMB: &'static str = "<a href=\"/\">~</a>";

/// What stands between two crumbs.
pub const CRUMB_SEPARATOR: &'static str = "<span>/</span>";

/// The opening of the breadcrumb block.
pub const TRAIL_OPEN: &'static str = "<div class=\"breadcrumb\">";

/// The closing of the breadcrumb block.
pub const TRAIL_CLOSE: &'static str = "</div>";

pub const STRONG_OPEN: &'static str = "<strong>";

pub const STRONG_CLOSE: &'static str = "</strong>";

pub const LINK_OPEN: &'static str = "<a href=\"";

pub const LINK_MIDDLE: &'static str = "\">";

pub const LINK_CLOSE: &'static str = "</a>";

/// A whole page: title, style sheet, breadcrumb and body in the frame.
pub open spec fn page_html(title: Seq<char>, breadcrumb: Seq<char>, body: Seq<char>) -> Seq<char> {
    PAGE_HEAD@ + title + TITLE_TAIL@ + CSS@ + STYLE_TAIL@ + breadcrumb + LINE_BREAK@ + body
        + PAGE_TAIL@
}

/// The link target of crumb `i`: `/` followed by the first `i + 1` parts
/// joined with `/`.
pub open spec fn crumb_href(parts: Seq<Seq<char>>, i: int) -> Seq<char> {
    seq!['/'] + join_with(parts.take(i + 1), seq!['/'])
}

/// The first crumb links to `/` followed by the first part.
pub proof fn law_first_crumb_link(parts: Seq<Seq<char>>)
    requires
        parts.len() > 0,
    ensures
        crumb_href(parts, 0) == seq!['/'] + parts[0],
{
    assert(parts.take(1) =~= seq![parts[0]]);
}

/// Each further crumb links to the previous crumb's link, a `/`, and its
/// own part: so the link of crumb `i` runs through parts `0..=i`, in order.
pub proof fn law_next_crumb_link(parts: Seq<Seq<char>>, i: int)
    requires
        0 <= i,
        i + 1 < parts.len(),
    ensures
        crumb_href(parts, i + 1) == crumb_href(parts, i) + seq!['/'] + parts[i + 1],
{
    let t = parts.take(i + 2);
    assert(t.drop_last() =~= parts.take(i + 1));
    assert(t.last() == parts[i + 1]);
    assert(t.len() > 1);
    assert(join_with(t, seq!['/']) == join_with(parts.take(i + 1), seq!['/']) + seq!['/'] + parts[i + 1]);
    assert(crumb_href(parts, i + 1) =~= crumb_href(parts, i) + seq!['/'] + parts[i + 1]);
}

/// A `/` followed by non-empty parts without `/`, joined with `/`, has
/// exactly those parts as its segments.
proof fn lemma_segments_of_slash_join(q: Seq<Seq<char>>)
    requires
        q.len() > 0,
        forall|k: int| 0 <= k < q.len() ==> slash_free(#[trigger] q[k]) && q[k].len() > 0,
    ensures
        segments(seq!['/'] + join_with(q, seq!['/'])) == q,
    decreases q.len(),
{
    let last = q.last();
    assert(slash_free(q[q.len() - 1]) && q[q.len() - 1].len() > 0);
    lemma_segments_of_piece(last);
    if q.len() == 1 {
        let e = Seq::<char>::empty();
        assert(seq!['/'] + join_with(q, seq!['/']) =~= e + seq!['/'] + last);
        lemma_split_concat(e, last);
        lemma_segments_of_empty();
        lemma_drop_empty_concat(seq![e], seq![last]);
        assert(q =~= seq![last]);
        assert(Seq::<Seq<char>>::empty() + seq![last] =~= seq![last]);
    } else {
        let init = q.drop_last();
        assert forall|k: int| 0 <= k < init.len() implies slash_free(#[trigger] init[k]) && init[k].len() > 0 by {
            assert(init[k] == q[k]);
        }
        lemma_segments_of_slash_join(init);
        let a = seq!['/'] + join_with(init, seq!['/']);
        assert(seq!['/'] + join_with(q, seq!['/']) =~= a + seq!['/'] + last);
        lemma_split_concat(a, last);
        lemma_drop_empty_concat(split_slash(a), seq![last]);
        assert(init + seq![last] =~= q);
    }
}

/// The link of crumb `i` has as its segments exactly the first `i + 1`
/// segments of the path.
pub proof fn law_crumb_link_names_first_parts(path: Seq<char>, i: int)
    requires
        0 <= i < segments(path).len(),
    ensures
        segments(crumb_href(segments(path), i)) == segments(path).take(i + 1),
{
    let ps = segments(path);
    lemma_segment_pieces(path);
    let q = ps.take(i + 1);
    assert forall|k: int| 0 <= k < q.len() implies slash_free(#[trigger] q[k]) && q[k].len() > 0 by {
        assert(q[k] == ps[k]);
    }
    lemma_segments_of_slash_join(q);
}

/// Crumb `i`: the last part in bold, every other part as a link.
pub open spec fn crumb(parts: Seq<Seq<char>>, i: int) -> Seq<char> {
    if i == parts.len() - 1 {
        STRONG_OPEN@ + parts[i] + STRONG_CLOSE@
    } else {
        LINK_OPEN@ + crumb_href(parts, i) + LINK_MIDDLE@ + parts[i] + LINK_CLOSE@
    }
}

/// The crumbs of a path: the home link, then one crumb per non-empty part.
pub open spec fn crumbs(path: Seq<char>) -> Seq<Seq<char>> {
    let parts = segments(path);
    seq![HOME_CRUMB@] + Seq::new(parts.len(), |i: int| crumb(parts, i))
}

/// The breadcrumb block of a path.
pub open spec fn breadcrumb(path: Seq<char>) -> Seq<char> {
    TRAIL_OPEN@ + join_with(crumbs(path), CRUMB_SEPARATOR@) + TRAIL_CLOSE@
}

/// The page with the given title, breadcrumb block and body.
pub fn html_page(title: &str, breadcrumb: &str, body: &str) -> (page: String)
    ensures
        page@ == page_html(title@, breadcrumb@, body@),
{
    let mut page = String::new();
    page.append(PAGE_HEAD);
    page.append(title);
    page.append(TITLE_TAIL);
    page.append(CSS);
    page.append(STYLE_TAIL);
    page.append(breadcrumb);
    page.append(LINE_BREAK);
    page.append(body);
    page.append(PAGE_TAIL);
    assert(page@ =~= page_html(title@, breadcrumb@, body@));
    page
}

/// The breadcrumb block of a request path: a link home, a link for every
/// part but the last, and the last part in bold.
pub fn breadcrumb_html(path: &str) -> (html: String)
    ensures
        html@ == breadcrumb(path@),
{
    let parts = segments_of(&chars_of(path));
    let ghost ps = views(parts@);
    let ghost f = |i: int| crumb(ps, i);
    let n = parts.len();
    let mut trail = String::new();
    trail.append(HOME_CRUMB);
    let mut prefix = String::new();
    assert(seq![HOME_CRUMB@] + Seq::new(0, f) =~= seq![HOME_CRUMB@]);
    let mut i: usize = 0;
    while i < n
        invariant
            i <= n,
            n == parts@.len(),
            ps == views(parts@),
            ps == segments(path@),
            f == (|i: int| crumb(ps, i)),
            trail@ == join_with(seq![HOME_CRUMB@] + Seq::new(i as nat, f), CRUMB_SEPARATOR@),
            i == 0 ==> prefix@ == Seq::<char>::empty(),
            i > 0 ==> prefix@ == crumb_href(ps, i - 1),
        decreases n - i,
    {
        let part = &parts[i];
        assert(part@ == ps[i as int]);
        let mut href = String::new();
        href.append(prefix.as_str());
        push_char(&mut href, '/');
        append_chars(&mut href, part);
        proof {
            let t = ps.take(i + 1);
            if i == 0 {
                assert(t =~= seq![ps[0]]);
                assert(href@ =~= crumb_href(ps, 0));
            } else {
                assert(t.drop_last() =~= ps.take(i as int));
                assert(t.last() == ps[i as int]);
                assert(href@ =~= crumb_href(ps, i as int));
            }
        }
        let ghost before = trail@;
        trail.append(CRUMB_SEPARATOR);
        if i == n - 1 {
            trail.append(STRONG_OPEN);
            append_chars(&mut trail, part);
            trail.append(STRONG_CLOSE);
        } else {
            trail.append(LINK_OPEN);
            trail.append(href.as_str());
            trail.append(LINK_MIDDLE);
            append_chars(&mut trail, part);
            trail.append(LINK_CLOSE);
        }
        proof {
            let l = seq![HOME_CRUMB@] + Seq::new(i as nat, f);
            let l2 = seq![HOME_CRUMB@] + Seq::new((i + 1) as nat, f);
            assert(l2.drop_last() =~= l);
            assert(l2.last() == crumb(ps, i as int));
            assert(trail@ =~= before + CRUMB_SEPARATOR@ + crumb(ps, i as int));
        }
        prefix = href;
        i += 1;
    }
    let mut html = String::new();
    html.append(TRAIL_OPEN);
    html.append(trail.as_str());
    html.append(TRAIL_CLOSE);
    assert(Seq::new(n as nat, f) =~= Seq::new(segments(path@).len(), |i: int| crumb(segments(path@), i)));
    html
}

} // verus!
