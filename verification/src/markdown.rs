//! Markdown rendering, done by `pulldown_cmark` with every extension on.

use vstd::prelude::*;

verus! {

/// The HTML that `pulldown_cmark` renders for a markdown text when every
/// option (tables, footnotes, strikethrough, task lists, ...) is on.
pub uninterp spec fn markdown_html(content: Seq<char>) -> Seq<char>;

/// Appends the HTML rendering of `content` to `out`.
///
/// Trusted: calls `pulldown_cmark::html::push_html` on
/// `Parser::new_ext(content, Options::all())`. `push_html` writes the
/// rendering after what `out` already holds; the rendering itself is only
/// named (`markdown_html`), as a function of the text alone.
#[verifier::external_body]
fn push_markdown_html(out: &mut String, content: &str)
    ensures
        final(out)@ == old(out)@ + markdown_html(content@),
{
    pulldown_cmark::html::push_html(
        out,
        pulldown_cmark::Parser::new_ext(content, pulldown_cmark::Options::all()),
    );
}

/// The HTML rendering of a markdown text.
pub fn render_markdown(content: &str) -> (html: String)
    ensures
        html@ == markdown_html(content@),
{
    let mut html = String::new();
    push_markdown_html(&mut html, content);
    assert(html@ =~= markdown_html(content@));
    html
}

} // verus!
