use jazz::markdown::render_markdown;
use jazz::page::{breadcrumb_html, html_page, CSS};
use jazz::paths::{extension, is_same_path, join, starts_with_path, trim_leading_slashes, trim_trailing_slashes};
use jazz::text::chars_of;

const EXPECTED_CSS: &str = r#"
:root {
    --bg: #1a1a2e;
    --surface: #16213e;
    --text: #e0e0e0;
    --text-muted: #8a8a9a;
    --accent: #e94560;
    --link: #64b5f6;
    --code-bg: #0f3460;
    --border: #2a2a4a;
}
* { margin: 0; padding: 0; box-sizing: border-box; }
body {
    font-family: -apple-system, BlinkMacSystemFont, 'Segoe UI', Roboto, sans-serif;
    background: var(--bg);
    color: var(--text);
    line-height: 1.7;
    max-width: 860px;
    margin: 0 auto;
    padding: 2rem 1.5rem;
}
a { color: var(--link); text-decoration: none; }
a:hover { text-decoration: underline; }
h1, h2, h3, h4, h5, h6 {
    color: #fff;
    margin: 1.5em 0 0.5em;
    line-height: 1.3;
}
h1 { font-size: 2em; border-bottom: 2px solid var(--accent); padding-bottom: 0.3em; }
h2 { font-size: 1.5em; border-bottom: 1px solid var(--border); padding-bottom: 0.2em; }
p { margin: 0.8em 0; }
code {
    background: var(--code-bg);
    padding: 0.15em 0.4em;
    border-radius: 4px;
    font-size: 0.9em;
}
pre {
    background: var(--code-bg);
    padding: 1em;
    border-radius: 8px;
    overflow-x: auto;
    margin: 1em 0;
}
pre code { background: none; padding: 0; }
blockquote {
    border-left: 4px solid var(--accent);
    padding-left: 1em;
    color: var(--text-muted);
    margin: 1em 0;
}
ul, ol { padding-left: 1.5em; margin: 0.5em 0; }
li { margin: 0.3em 0; }
table { border-collapse: collapse; width: 100%; margin: 1em 0; }
th, td { border: 1px solid var(--border); padding: 0.5em 0.8em; text-align: left; }
th { background: var(--surface); color: #fff; }
img { max-width: 100%; height: auto; border-radius: 8px; }
hr { border: none; border-top: 1px solid var(--border); margin: 2em 0; }
.breadcrumb { color: var(--text-muted); margin-bottom: 1.5em; font-size: 0.9em; }
.breadcrumb a { color: var(--link); }
.breadcrumb span { margin: 0 0.3em; }
.dir-listing { list-style: none; padding: 0; }
.dir-listing li { padding: 0.4em 0; border-bottom: 1px solid var(--border); }
.dir-listing li:last-child { border-bottom: none; }
.dir-listing .icon { margin-right: 0.5em; }
@media (max-width: 600px) {
    body { padding: 1rem; }
    h1 { font-size: 1.5em; }
}
"#;

fn expected_page(title: &str, breadcrumb: &str, body: &str) -> String {
    format!(
        r#"<!DOCTYPE html>
<html lang="en">
<head>
<meta charset="utf-8">
<meta name="viewport" content="width=device-width, initial-scale=1">
<title>{title} — Jazz</title>
<style>{EXPECTED_CSS}</style>
</head>
<body>
{breadcrumb}
{body}
</body>
</html>"#
    )
}

#[test]
fn style_sheet_is_the_expected_one() {
    assert_eq!(CSS, EXPECTED_CSS);
}

#[test]
fn page_frame_holds_title_breadcrumb_and_body() {
    assert_eq!(html_page("T", "B", "X"), expected_page("T", "B", "X"));
    assert_eq!(html_page("", "", ""), expected_page("", "", ""));
}

#[test]
fn breadcrumb_of_root_is_home_link_only() {
    assert_eq!(breadcrumb_html(""), r#"<div class="breadcrumb"><a href="/">~</a></div>"#);
    assert_eq!(breadcrumb_html("///"), r#"<div class="breadcrumb"><a href="/">~</a></div>"#);
}

#[test]
fn breadcrumb_links_every_part_but_the_last() {
    assert_eq!(
        breadcrumb_html("a/b/c"),
        r#"<div class="breadcrumb"><a href="/">~</a><span>/</span><a href="/a">a</a><span>/</span><a href="/a/b">b</a><span>/</span><strong>c</strong></div>"#
    );
}

#[test]
fn breadcrumb_skips_empty_parts() {
    assert_eq!(
        breadcrumb_html("/docs//notes.md/"),
        r#"<div class="breadcrumb"><a href="/">~</a><span>/</span><a href="/docs">docs</a><span>/</span><strong>notes.md</strong></div>"#
    );
}

#[test]
fn leading_and_trailing_slashes_are_trimmed() {
    assert_eq!(trim_leading_slashes("///a/b/"), "a/b/");
    assert_eq!(trim_leading_slashes(""), "");
    assert_eq!(trim_trailing_slashes("/a/b///"), "/a/b");
    assert_eq!(trim_trailing_slashes("///"), "");
}

#[test]
fn join_puts_one_separator() {
    assert_eq!(join("/home/u", "docs/a.md"), "/home/u/docs/a.md");
    assert_eq!(join("/home/u/", "docs"), "/home/u/docs");
    assert_eq!(join("", "docs"), "docs");
    assert_eq!(join("/home/u", "/etc"), "/etc");
}

#[test]
fn prefix_test_goes_by_components() {
    assert!(starts_with_path("/home/u/docs", "/home/u"));
    assert!(starts_with_path("/home/u/docs", "/home/u/"));
    assert!(starts_with_path("/home/u", "/home/u"));
    assert!(!starts_with_path("/home/u2/docs", "/home/u"));
    assert!(!starts_with_path("/home", "/home/u"));
    assert!(starts_with_path("/home//u/./docs", "/home/u"));
    assert!(!starts_with_path("home/u", "/home"));
}

#[test]
fn same_path_ignores_spelling() {
    assert!(is_same_path("/a/b", "/a//b/"));
    assert!(is_same_path("/a/./b", "/a/b"));
    assert!(!is_same_path("/a/b", "a/b"));
    assert!(!is_same_path("./a", "a"));
    assert!(!is_same_path("/a/../b", "/b"));
}

#[test]
fn extension_follows_path_rules() {
    assert_eq!(extension("/a/notes.md"), Some("md".to_string()));
    assert_eq!(extension("/a/archive.tar.gz"), Some("gz".to_string()));
    assert_eq!(extension("/a/.bashrc"), None);
    assert_eq!(extension("/a/Makefile"), None);
    assert_eq!(extension("/a/foo."), Some(String::new()));
    assert_eq!(extension("/a/pic.PNG/"), Some("PNG".to_string()));
    assert_eq!(extension("/a/b.md/."), Some("md".to_string()));
    assert_eq!(extension("/a/.."), None);
    assert_eq!(extension("/"), None);
    assert_eq!(extension("..."), Some(String::new()));
}

#[test]
fn chars_are_read_in_order() {
    assert_eq!(chars_of("añb"), vec!['a', 'ñ', 'b']);
}

#[test]
fn markdown_is_rendered_to_html() {
    assert_eq!(render_markdown("# hi"), "<h1>hi</h1>\n");
    assert_eq!(render_markdown(""), "");
    assert_eq!(render_markdown("| a |\n|---|\n| b |\n"), "<table><thead><tr><th>a</th></tr></thead><tbody>\n<tr><td>b</td></tr>\n</tbody></table>\n");
}
