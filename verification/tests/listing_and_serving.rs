use jazz::index::MdIndex;
use jazz::listing::{dir_listing, render_listing, shown_items, sort_listing, ListedEntry, ListingItem};
use jazz::page::{breadcrumb_html, html_page};
use jazz::serve::{asset_content_type, is_markdown_path, mime_for_extension, Body, Next, Response, ServeRequest};
use jazz::watch::{change_needs_rebuild, debounce_passed, ChangeKind, ChangedPath};

fn listed(name: &str, is_dir: Option<bool>, canonical: Option<&str>) -> ListedEntry {
    ListedEntry { name: name.to_string(), is_dir, canonical: canonical.map(|c| c.to_string()) }
}

fn item(is_dir: bool, name: &str, href: &str) -> ListingItem {
    ListingItem { is_dir, name: name.to_string(), href: href.to_string() }
}

fn li(icon: &str, href: &str, name: &str) -> String {
    format!(r#"<li><span class="icon">{icon}</span><a href="{href}">{name}</a></li>"#)
}

fn sample_entries() -> Vec<ListedEntry> {
    vec![
        listed("b.md", Some(false), None),
        listed("A.md", Some(false), None),
        listed(".hidden.md", Some(false), None),
        listed("notes.txt", Some(false), None),
        listed("docs", Some(true), Some("/h/docs")),
        listed("Zed", Some(true), Some("/h/Zed")),
        listed("junk", Some(true), Some("/h/junk")),
        listed("gone", Some(true), None),
        listed(".cache", None, None),
    ]
}

fn sample_index() -> MdIndex {
    let mut idx = MdIndex::new();
    idx.insert("/h/docs");
    idx.insert("/h/Zed/");
    idx
}

fn text_of(r: &Response) -> &str {
    match &r.body {
        Body::Text(t) => t.as_str(),
        Body::Bytes(_) => panic!("expected a text body"),
    }
}

#[test]
fn listing_shows_indexed_dirs_first_then_markdown_files() {
    let html = dir_listing(&sample_entries(), "/", &sample_index()).unwrap();
    let expected = format!(
        r#"<ul class="dir-listing">{}</ul>"#,
        [
            li("📁", "/docs/", "docs"),
            li("📁", "/Zed/", "Zed"),
            li("📄", "/A.md", "A.md"),
            li("📄", "/b.md", "b.md"),
        ]
        .join("\n")
    );
    assert_eq!(html, expected);
}

#[test]
fn listing_links_below_the_request_path() {
    let entries = vec![listed("docs", Some(true), Some("/h/docs")), listed("x.md", Some(false), None)];
    let items = shown_items(&entries, "/sub/dir//", &sample_index()).unwrap();
    assert_eq!(items[0].href, "/sub/dir/docs/");
    assert_eq!(items[1].href, "/sub/dir/x.md");
    let at_root = shown_items(&entries, "", &sample_index()).unwrap();
    assert_eq!(at_root[1].href, "/x.md");
}

#[test]
fn listing_fails_on_unreadable_entry_type() {
    let entries = vec![listed("a.md", Some(false), None), listed("what", None, None)];
    assert!(dir_listing(&entries, "/", &sample_index()).is_none());
    let hidden_only = vec![listed(".what", None, None)];
    assert_eq!(dir_listing(&hidden_only, "/", &sample_index()).unwrap(), r#"<ul class="dir-listing"></ul>"#);
}

#[test]
fn sorting_is_stable_and_case_blind() {
    let items = vec![
        item(false, "b.md", "/b.md"),
        item(false, "a.md", "/a.md"),
        item(true, "Z", "/Z/"),
        item(false, "A.md", "/A.md"),
        item(true, "y", "/y/"),
    ];
    let sorted = sort_listing(&items);
    let names: Vec<&str> = sorted.iter().map(|i| i.name.as_str()).collect();
    assert_eq!(names, vec!["y", "Z", "a.md", "A.md", "b.md"]);
}

#[test]
fn sorting_lowercases_names_first() {
    let items = vec![item(false, "B.md", "/B.md"), item(false, "a.md", "/a.md"), item(false, "É.md", "/É.md")];
    let names: Vec<String> = sort_listing(&items).into_iter().map(|i| i.name).collect();
    assert_eq!(names, vec!["a.md".to_string(), "B.md".to_string(), "É.md".to_string()]);
}

#[test]
fn rendering_joins_items_by_lines() {
    let html = render_listing(&vec![item(true, "d", "/d/"), item(false, "f.md", "/f.md")]);
    assert_eq!(html, format!(r#"<ul class="dir-listing">{}{}{}</ul>"#, li("📁", "/d/", "d"), "\n", li("📄", "/f.md", "f.md")));
}

#[test]
fn content_types_of_assets() {
    assert_eq!(mime_for_extension("png"), Some("image/png".to_string()));
    assert_eq!(mime_for_extension("jpeg"), Some("image/jpeg".to_string()));
    assert_eq!(mime_for_extension("jpg"), Some("image/jpeg".to_string()));
    assert_eq!(mime_for_extension("svg"), Some("image/svg+xml".to_string()));
    assert_eq!(mime_for_extension("ico"), Some("image/x-icon".to_string()));
    assert_eq!(mime_for_extension("pdf"), Some("application/pdf".to_string()));
    assert_eq!(mime_for_extension("gif"), Some("image/gif".to_string()));
    assert_eq!(mime_for_extension("webp"), Some("image/webp".to_string()));
    assert_eq!(mime_for_extension("PNG"), None);
    assert_eq!(asset_content_type("/h/Pic.JPG"), Some("image/jpeg".to_string()));
    assert_eq!(asset_content_type("/h/notes.txt"), None);
    assert_eq!(asset_content_type("/h/.png"), None);
    assert!(is_markdown_path("/h/a.md"));
    assert!(!is_markdown_path("/h/a.MD"));
}

#[test]
fn missing_path_is_not_found() {
    let req = ServeRequest::new("/home/u", "/nope/x.md");
    assert_eq!(req.clean_path, "nope/x.md");
    assert_eq!(req.target(), "/home/u/nope/x.md");
    match req.after_canonicalize(None) {
        Next::Respond(r) => {
            assert_eq!(r.status, 404);
            assert!(r.content_type.is_none());
            assert_eq!(text_of(&r), html_page("Not Found", &breadcrumb_html("nope/x.md"), "<h1>404 — Not Found</h1>"));
        }
        _ => panic!("expected a response"),
    }
}

#[test]
fn outside_home_is_forbidden() {
    let req = ServeRequest::new("/home/u", "/../u2/x.md");
    match req.after_canonicalize(Some("/home/u2/x.md")) {
        Next::Respond(r) => {
            assert_eq!(r.status, 403);
            assert_eq!(
                text_of(&r),
                html_page("Forbidden", "", "<h1>403 — Forbidden</h1><p>Access restricted to user home directory.</p>")
            );
        }
        _ => panic!("expected a response"),
    }
    assert!(matches!(req.after_canonicalize(Some("/home/u/x.md")), Next::CheckIsDir));
}

#[test]
fn root_request_targets_home() {
    let req = ServeRequest::new("/home/u", "/");
    assert_eq!(req.clean_path, "");
    assert_eq!(req.target(), "/home/u");
}

#[test]
fn markdown_file_is_rendered() {
    let req = ServeRequest::new("/home/u", "/notes/a.md");
    assert!(matches!(req.after_is_dir("/home/u/notes/a.md", false), Next::ReadMarkdown));
    let r = req.markdown_response(Some("# T".to_string()));
    assert_eq!(r.status, 200);
    assert_eq!(r.content_type.as_deref(), Some("text/html; charset=utf-8"));
    assert_eq!(text_of(&r), html_page("notes/a.md", &breadcrumb_html("notes/a.md"), "<h1>T</h1>\n"));
    let failed = req.markdown_response(None);
    assert_eq!(failed.status, 500);
    assert!(failed.content_type.is_none());
    assert_eq!(text_of(&failed), "Failed to read file");
}

#[test]
fn image_is_served_with_its_type() {
    let req = ServeRequest::new("/home/u", "/pic.PNG");
    match req.after_is_dir("/home/u/pic.PNG", false) {
        Next::ReadAsset(t) => {
            assert_eq!(t, "image/png");
            let r = req.asset_response(&t, Some(vec![1, 2, 3]));
            assert_eq!(r.status, 200);
            assert_eq!(r.content_type.as_deref(), Some("image/png"));
            assert!(matches!(r.body, Body::Bytes(ref b) if b == &vec![1u8, 2, 3]));
            let unread = req.asset_response(&t, None);
            assert_eq!(unread.status, 404);
        }
        _ => panic!("expected an asset"),
    }
}

#[test]
fn other_files_are_not_served() {
    let req = ServeRequest::new("/home/u", "/a.txt");
    match req.after_is_dir("/home/u/a.txt", false) {
        Next::Respond(r) => {
            assert_eq!(r.status, 404);
            assert_eq!(
                text_of(&r),
                html_page("Not Found", &breadcrumb_html("a.txt"), "<h1>404 — Only markdown and image files are served</h1>")
            );
        }
        _ => panic!("expected a response"),
    }
}

#[test]
fn directory_with_readme_shows_it_above_the_listing() {
    let req = ServeRequest::new("/h", "/docs");
    let readme = match req.after_is_dir("/h/docs", true) {
        Next::CheckReadme(p) => p,
        _ => panic!("expected a readme check"),
    };
    assert_eq!(readme, "/h/docs/README.md");
    let to_read = match req.after_readme_check(&readme, true) {
        Next::ListDirectory(Some(p)) => p,
        _ => panic!("expected a listing with readme"),
    };
    assert_eq!(to_read, "/h/docs/README.md");
    let entries = vec![listed("a.md", Some(false), None)];
    let r = req.directory_response(Some(Some("# R".to_string())), Some(entries), &sample_index());
    assert_eq!(r.status, 200);
    let listing = format!(r#"<ul class="dir-listing">{}</ul>"#, li("📄", "/docs/a.md", "a.md"));
    let body = format!("<h1>R</h1>\n<hr><h3>Files in this directory</h3>{listing}");
    assert_eq!(text_of(&r), html_page("README.md", &breadcrumb_html("docs"), &body));
    let unreadable = req.directory_response(Some(None), None, &sample_index());
    assert_eq!(text_of(&unreadable), html_page("README.md", &breadcrumb_html("docs"), "<hr><h3>Files in this directory</h3>"));
}

#[test]
fn directory_without_readme_is_titled_by_its_path() {
    let req = ServeRequest::new("/h", "/");
    assert!(matches!(req.after_readme_check("/h/README.md", false), Next::ListDirectory(None)));
    let r = req.directory_response(None, Some(sample_entries()), &sample_index());
    let listing = dir_listing(&sample_entries(), "/", &sample_index()).unwrap();
    assert_eq!(text_of(&r), html_page("~", &breadcrumb_html(""), &listing));
    let sub = ServeRequest::new("/h", "/docs/");
    let r2 = sub.directory_response(None, None, &sample_index());
    assert_eq!(text_of(&r2), html_page("docs/", &breadcrumb_html("docs/"), ""));
}

#[test]
fn changes_to_markdown_or_directories_rebuild() {
    let md = vec![ChangedPath { path: "/h/a.md".to_string(), is_dir: false }];
    let txt = vec![ChangedPath { path: "/h/a.txt".to_string(), is_dir: false }];
    let d = vec![ChangedPath { path: "/h/new".to_string(), is_dir: true }];
    assert!(change_needs_rebuild(ChangeKind::Create, &md));
    assert!(change_needs_rebuild(ChangeKind::Remove, &d));
    assert!(change_needs_rebuild(ChangeKind::Modify, &vec![txt[0].clone_path(), md[0].clone_path()]));
    assert!(!change_needs_rebuild(ChangeKind::Modify, &txt));
    assert!(!change_needs_rebuild(ChangeKind::Other, &md));
    assert!(!change_needs_rebuild(ChangeKind::Create, &vec![]));
}

trait ClonePath {
    fn clone_path(&self) -> ChangedPath;
}

impl ClonePath for ChangedPath {
    fn clone_path(&self) -> ChangedPath {
        ChangedPath { path: self.path.clone(), is_dir: self.is_dir }
    }
}

#[test]
fn rebuilds_wait_two_seconds() {
    assert!(!debounce_passed(0));
    assert!(!debounce_passed(1_999_999_999));
    assert!(debounce_passed(2_000_000_000));
    assert!(debounce_passed(u128::MAX));
}

#[test]
fn larger_index_lists_more_directories_and_the_same_files() {
    let mut small = MdIndex::new();
    small.insert("/h/docs");
    let mut large = MdIndex::new();
    large.insert("/h/docs");
    large.insert("/h/Zed");
    large.insert("/h/junk");
    let entries = sample_entries();
    let items_small = shown_items(&entries, "/", &small).unwrap();
    let items_large = shown_items(&entries, "/", &large).unwrap();
    let small_sorted: Vec<String> = sort_listing(&items_small).into_iter().map(|i| i.name).collect();
    let large_sorted: Vec<String> = sort_listing(&items_large).into_iter().map(|i| i.name).collect();
    assert_eq!(small_sorted, vec!["docs", "A.md", "b.md"]);
    assert_eq!(large_sorted, vec!["docs", "junk", "Zed", "A.md", "b.md"]);
}
