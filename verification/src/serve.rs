//! The decisions of the request handler. The handler alternates work on
//! the file system with decisions: each decision is a function here that
//! takes what the last piece of work found and says what to do next,
//! ending in the response.

use vstd::prelude::*;
use crate::index::MdIndex;
use crate::listing::{dir_listing, is_listing_html, listing_items, ListedEntry};
use crate::markdown::{markdown_html, render_markdown};
use crate::page::{breadcrumb, breadcrumb_html, html_page, page_html};
use crate::paths::{
    extension, join, joined, law_join_extends_base, law_strip_leading_slashes, path_components,
    path_extension, path_starts_with, starts_with_path,
    strip_leading_slashes, trim_leading_slashes,
};
use crate::text::{chars_of, lowercase, same_chars, to_lowercase};

verus! {

broadcast use vstd::string::group_string_axioms;

/// The content type of every HTML page answered with success.
pub const HTML_TYPE: &'static str = "text/html; charset=utf-8";

pub const NOT_FOUND_TITLE: &'static str = "Not Found";

pub const NOT_FOUND_BODY: &'static str = "<h1>404 — Not Found</h1>";

pub const FORBIDDEN_TITLE: &'static str = "Forbidden";

pub const FORBIDDEN_BODY: &'static str = "<h1>403 — Forbidden</h1><p>Access restricted to user home directory.</p>";

pub const UNSUPPORTED_BODY: &'static str = "<h1>404 — Only markdown and image files are served</h1>";

pub const README_NAME: &'static str = "README.md";

pub const README_RULE: &'static str = "<hr><h3>Files in this directory</h3>";

pub const HOME_TITLE: &'static str = "~";

pub const READ_FAILURE: &'static str = "Failed to read file";

pub const MARKDOWN_EXTENSION: &'static str = "md";

/// The body of a response.
pub enum Body {
    Text(String),
    Bytes(Vec<u8>),
}

/// A response: status code, content type where one is set, and body.
pub struct Response {
    pub status: u16,
    pub content_type: Option<String>,
    pub body: Body,
}

/// What the handler does next.
pub enum Next {
    /// Answer with this response.
    Respond(Response),
    /// Find out whether the canonical path is a directory.
    CheckIsDir,
    /// Find out whether this readme file exists.
    CheckReadme(String),
    /// Read the directory's entries, and the readme at this path if any.
    ListDirectory(Option<String>),
    /// Read the file at the canonical path as text.
    ReadMarkdown,
    /// Read the file at the canonical path as bytes, served with this
    /// content type.
    ReadAsset(String),
}

/// `r` has this status and content type and the text `text` as body.
pub open spec fn is_text_response(r: Response, status: u16, content_type: Option<Seq<char>>, text: Seq<char>) -> bool {
    &&& r.status == status
    &&& match r.content_type {
        Some(t) => content_type == Some(t@),
        None => content_type is None,
    }
    &&& match r.body {
        Body::Text(t) => t@ == text,
        Body::Bytes(_) => false,
    }
}

/// The page answering a path that does not resolve.
pub open spec fn not_found_page(clean_path: Seq<char>) -> Seq<char> {
    page_html(NOT_FOUND_TITLE@, breadcrumb(clean_path), NOT_FOUND_BODY@)
}

/// The page answering a path outside the home directory.
pub open spec fn forbidden_page() -> Seq<char> {
    page_html(FORBIDDEN_TITLE@, Seq::<char>::empty(), FORBIDDEN_BODY@)
}

/// The page answering a file that is neither markdown nor an image.
pub open spec fn unsupported_page(clean_path: Seq<char>) -> Seq<char> {
    page_html(NOT_FOUND_TITLE@, breadcrumb(clean_path), UNSUPPORTED_BODY@)
}

/// The page of a directory with a readme: the rendered readme, a rule and
/// the listing.
pub open spec fn readme_page(clean_path: Seq<char>, rendered: Seq<char>, listing: Seq<char>) -> Seq<char> {
    page_html(README_NAME@, breadcrumb(clean_path), rendered + README_RULE@ + listing)
}

/// The title of a directory page: `~` at the root, else the path.
pub open spec fn directory_title(clean_path: Seq<char>) -> Seq<char> {
    if clean_path.len() == 0 {
        HOME_TITLE@
    } else {
        clean_path
    }
}

/// The page of a directory without a readme: its listing.
pub open spec fn directory_page(clean_path: Seq<char>, listing: Seq<char>) -> Seq<char> {
    page_html(directory_title(clean_path), breadcrumb(clean_path), listing)
}

/// The page of a markdown file.
pub open spec fn markdown_page(clean_path: Seq<char>, rendered: Seq<char>) -> Seq<char> {
    page_html(clean_path, breadcrumb(clean_path), rendered)
}

/// The content type served for a lowercased extension, if any.
pub open spec fn mime_for(lower: Seq<char>) -> Option<Seq<char>> {
    if lower == "png"@ {
        Some("image/png"@)
    } else if lower == "jpg"@ || lower == "jpeg"@ {
        Some("image/jpeg"@)
    } else if lower == "gif"@ {
        Some("image/gif"@)
    } else if lower == "webp"@ {
        Some("image/webp"@)
    } else if lower == "svg"@ {
        Some("image/svg+xml"@)
    } else if lower == "ico"@ {
        Some("image/x-icon"@)
    } else if lower == "pdf"@ {
        Some("application/pdf"@)
    } else {
        None
    }
}

/// The content type an asset at `path` is served with, if any.
pub open spec fn asset_type(path: Seq<char>) -> Option<Seq<char>> {
    match path_extension(path) {
        Some(e) => mime_for(lowercase(e)),
        None => None,
    }
}

/// The content type of an asset depends on its lowercased extension alone,
/// through the table of media types, whatever the extension's length; a
/// path without extension is no asset.
pub proof fn law_asset_type_by_extension(path: Seq<char>, e: Seq<char>)
    ensures
        path_extension(path) == Some(e) ==> asset_type(path) == mime_for(lowercase(e)),
        path_extension(path) is None ==> asset_type(path) is None,
{
}

/// Two paths whose extensions lowercase alike are served alike.
pub proof fn law_asset_type_ignores_case(p1: Seq<char>, p2: Seq<char>, e1: Seq<char>, e2: Seq<char>)
    requires
        path_extension(p1) == Some(e1),
        path_extension(p2) == Some(e2),
        lowercase(e1) == lowercase(e2),
    ensures
        asset_type(p1) == asset_type(p2),
{
}

/// The media types of the image and document extensions served.
pub proof fn law_served_media_types(path: Seq<char>, e: Seq<char>)
    requires
        path_extension(path) == Some(e),
    ensures
        lowercase(e) == "png"@ ==> asset_type(path) == Some("image/png"@),
        lowercase(e) == "jpg"@ ==> asset_type(path) == Some("image/jpeg"@),
        lowercase(e) == "jpeg"@ ==> asset_type(path) == Some("image/jpeg"@),
        lowercase(e) == "gif"@ ==> asset_type(path) == Some("image/gif"@),
        lowercase(e) == "webp"@ ==> asset_type(path) == Some("image/webp"@),
        lowercase(e) == "svg"@ ==> asset_type(path) == Some("image/svg+xml"@),
        lowercase(e) == "ico"@ ==> asset_type(path) == Some("image/x-icon"@),
        lowercase(e) == "pdf"@ ==> asset_type(path) == Some("application/pdf"@),
        !(lowercase(e) == "png"@ || lowercase(e) == "jpg"@ || lowercase(e) == "jpeg"@ || lowercase(e) == "gif"@
            || lowercase(e) == "webp"@ || lowercase(e) == "svg"@ || lowercase(e) == "ico"@ || lowercase(e)
            == "pdf"@) ==> asset_type(path) is None,
{
    reveal_strlit("png");
    reveal_strlit("jpg");
    reveal_strlit("jpeg");
    reveal_strlit("gif");
    reveal_strlit("webp");
    reveal_strlit("svg");
    reveal_strlit("ico");
    reveal_strlit("pdf");
    let l = lowercase(e);
    if l == "jpg"@ {
        assert(l[0] != "png"@[0]);
    } else if l == "jpeg"@ {
        assert(l[0] != "png"@[0]);
    } else if l == "gif"@ {
        assert(l[0] != "png"@[0] && l[0] != "jpg"@[0] && l[0] != "jpeg"@[0]);
    } else if l == "webp"@ {
        assert(l[0] != "png"@[0] && l[0] != "jpg"@[0] && l[0] != "jpeg"@[0] && l[0] != "gif"@[0]);
    } else if l == "svg"@ {
        assert(l[0] != "png"@[0] && l[0] != "jpg"@[0] && l[0] != "jpeg"@[0] && l[0] != "gif"@[0]);
        assert(l[0] != "webp"@[0]);
    } else if l == "ico"@ {
        assert(l[0] != "png"@[0] && l[0] != "jpg"@[0] && l[0] != "jpeg"@[0] && l[0] != "gif"@[0]);
        assert(l[0] != "webp"@[0] && l[0] != "svg"@[0]);
    } else if l == "pdf"@ {
        assert(l[1] != "png"@[1] && l[0] != "jpg"@[0] && l[0] != "jpeg"@[0] && l[0] != "gif"@[0]);
        assert(l[0] != "webp"@[0] && l[0] != "svg"@[0] && l[0] != "ico"@[0]);
    }
}

/// The path a request asks for below `home`: the request path without its
/// leading `/`, joined to `home` (`home` itself when nothing is left).
pub open spec fn target_path(home: Seq<char>, clean_path: Seq<char>) -> Seq<char> {
    if clean_path.len() == 0 {
        home
    } else {
        joined(home, clean_path)
    }
}

/// Before links are resolved, the path a request asks for lies inside the
/// home directory, component by component.
pub proof fn law_target_inside_home(home: Seq<char>, req_path: Seq<char>)
    ensures
        path_starts_with(target_path(home, strip_leading_slashes(req_path)), home),
{
    let clean = strip_leading_slashes(req_path);
    law_strip_leading_slashes(req_path);
    if clean.len() == 0 {
        let c = path_components(home);
        assert(c.take(c.len() as int) =~= c);
    } else {
        law_join_extends_base(home, clean);
    }
}

/// The readme text of a directory page: `None` when there is no readme,
/// else its text, empty where reading it failed.
pub open spec fn readme_text(readme: Option<Option<String>>) -> Option<Seq<char>> {
    match readme {
        None => None,
        Some(None) => Some(Seq::<char>::empty()),
        Some(Some(t)) => Some(t@),
    }
}

/// `html` is what the listing of the directory shows: its listing, or
/// nothing where its entries could not be read.
pub open spec fn is_listing_or_empty(
    entries: Option<Vec<ListedEntry>>,
    url_path: Seq<char>,
    indexed: Seq<Seq<Seq<char>>>,
    html: Seq<char>,
) -> bool {
    match entries {
        None => html == Seq::<char>::empty(),
        Some(es) => match listing_items(es@, url_path, indexed) {
            None => html == Seq::<char>::empty(),
            Some(items) => is_listing_html(items, html),
        },
    }
}

/// The content type for a lowercased extension.
pub fn mime_for_extension(lower: &str) -> (r: Option<String>)
    ensures
        match r {
            Some(m) => mime_for(lower@) == Some(m@),
            None => mime_for(lower@) is None,
        },
{
    let v = chars_of(lower);
    if same_chars(&v, &chars_of("png")) {
        Some(String::from_str("image/png"))
    } else if same_chars(&v, &chars_of("jpg")) || same_chars(&v, &chars_of("jpeg")) {
        Some(String::from_str("image/jpeg"))
    } else if same_chars(&v, &chars_of("gif")) {
        Some(String::from_str("image/gif"))
    } else if same_chars(&v, &chars_of("webp")) {
        Some(String::from_str("image/webp"))
    } else if same_chars(&v, &chars_of("svg")) {
        Some(String::from_str("image/svg+xml"))
    } else if same_chars(&v, &chars_of("ico")) {
        Some(String::from_str("image/x-icon"))
    } else if same_chars(&v, &chars_of("pdf")) {
        Some(String::from_str("application/pdf"))
    } else {
        None
    }
}

/// The content type an asset at `path` is served with, if any.
pub fn asset_content_type(path: &str) -> (r: Option<String>)
    ensures
        match r {
            Some(m) => asset_type(path@) == Some(m@),
            None => asset_type(path@) is None,
        },
{
    match extension(path) {
        None => None,
        Some(e) => {
            let lower = to_lowercase(e.as_str());
            mime_for_extension(lower.as_str())
        },
    }
}

/// Whether `path` has the extension `md`.
pub fn is_markdown_path(path: &str) -> (r: bool)
    ensures
        r == (path_extension(path@) == Some(MARKDOWN_EXTENSION@)),
{
    match extension(path) {
        None => false,
        Some(e) => same_chars(&chars_of(e.as_str()), &chars_of(MARKDOWN_EXTENSION)),
    }
}

/// An HTML response.
fn text_response(status: u16, content_type: Option<&str>, text: String) -> (r: Response)
    ensures
        is_text_response(r, status, match content_type { Some(t) => Some(t@), None => None }, text@),
{
    let content_type = match content_type {
        Some(t) => Some(String::from_str(t)),
        None => None,
    };
    Response { status, content_type, body: Body::Text(text) }
}

/// One request to the handler: the home directory served, the request
/// path, and the request path without its leading `/`.
pub struct ServeRequest {
    pub home_dir: String,
    pub req_path: String,
    pub clean_path: String,
}

impl ServeRequest {
    /// A request for `req_path` below `home_dir`.
    pub fn new(home_dir: &str, req_path: &str) -> (r: ServeRequest)
        ensures
            r.home_dir@ == home_dir@,
            r.req_path@ == req_path@,
            r.clean_path@ == strip_leading_slashes(req_path@),
    {
        ServeRequest {
            home_dir: String::from_str(home_dir),
            req_path: String::from_str(req_path),
            clean_path: trim_leading_slashes(req_path),
        }
    }

    /// The path to canonicalize first.
    pub fn target(&self) -> (r: String)
        ensures
            r@ == target_path(self.home_dir@, self.clean_path@),
    {
        if self.clean_path.as_str().unicode_len() == 0 {
            self.home_dir.clone()
        } else {
            join(self.home_dir.as_str(), self.clean_path.as_str())
        }
    }

    /// After canonicalizing the target: not found where that failed,
    /// forbidden outside the home directory, else look at what it is.
    pub fn after_canonicalize(&self, canonical: Option<&str>) -> (next: Next)
        ensures
            match canonical {
                None => next matches Next::Respond(r) && is_text_response(r, 404, None, not_found_page(self.clean_path@)),
                Some(c) => if path_starts_with(c@, self.home_dir@) {
                    next is CheckIsDir
                } else {
                    next matches Next::Respond(r) && is_text_response(r, 403, None, forbidden_page())
                },
            },
    {
        match canonical {
            None => {
                let crumbs = breadcrumb_html(self.clean_path.as_str());
                let page = html_page(NOT_FOUND_TITLE, crumbs.as_str(), NOT_FOUND_BODY);
                Next::Respond(text_response(404, None, page))
            },
            Some(c) => {
                if starts_with_path(c, self.home_dir.as_str()) {
                    Next::CheckIsDir
                } else {
                    let page = html_page(FORBIDDEN_TITLE, "", FORBIDDEN_BODY);
                    proof {
                        reveal_strlit("");
                    }
                    Next::Respond(text_response(403, None, page))
                }
            },
        }
    }

    /// After finding out whether the canonical path is a directory: a
    /// directory is shown with its readme if it has one; a markdown file
    /// is rendered; an image is served; anything else is not.
    pub fn after_is_dir(&self, canonical: &str, is_dir: bool) -> (next: Next)
        ensures
            is_dir ==> (next matches Next::CheckReadme(p) && p@ == joined(canonical@, README_NAME@)),
            !is_dir && path_extension(canonical@) == Some(MARKDOWN_EXTENSION@) ==> next is ReadMarkdown,
            !is_dir && path_extension(canonical@) != Some(MARKDOWN_EXTENSION@) ==> match asset_type(canonical@) {
                Some(m) => next matches Next::ReadAsset(t) && t@ == m,
                None => next matches Next::Respond(r) && is_text_response(r, 404, None, unsupported_page(self.clean_path@)),
            },
    {
        if is_dir {
            return Next::CheckReadme(join(canonical, README_NAME));
        }
        if is_markdown_path(canonical) {
            return Next::ReadMarkdown;
        }
        match asset_content_type(canonical) {
            Some(m) => Next::ReadAsset(m),
            None => Next::Respond(self.unsupported()),
        }
    }

    /// After finding out whether the readme exists: list the directory,
    /// and read the readme if it exists.
    pub fn after_readme_check(&self, readme: &str, exists: bool) -> (next: Next)
        ensures
            exists ==> (next matches Next::ListDirectory(Some(p)) && p@ == readme@),
            !exists ==> next matches Next::ListDirectory(None),
    {
        if exists {
            Next::ListDirectory(Some(String::from_str(readme)))
        } else {
            Next::ListDirectory(None)
        }
    }

    /// The page of a directory: with the rendered readme when there is
    /// one, else with the path as title; the listing is empty where the
    /// entries could not be read.
    pub fn directory_response(
        &self,
        readme: Option<Option<String>>,
        entries: Option<Vec<ListedEntry>>,
        index: &MdIndex,
    ) -> (r: Response)
        ensures
            exists|listing: Seq<char>|
                #[trigger] is_listing_or_empty(entries, self.req_path@, index.paths(), listing)
                && match readme_text(readme) {
                    Some(t) => is_text_response(r, 200, Some(HTML_TYPE@), readme_page(self.clean_path@, markdown_html(t), listing)),
                    None => is_text_response(r, 200, Some(HTML_TYPE@), directory_page(self.clean_path@, listing)),
                },
    {
        let ghost es = entries;
        let listing = match &entries {
            None => String::new(),
            Some(v) => match dir_listing(v, self.req_path.as_str(), index) {
                Some(h) => h,
                None => String::new(),
            },
        };
        assert(is_listing_or_empty(es, self.req_path@, index.paths(), listing@));
        let crumbs = breadcrumb_html(self.clean_path.as_str());
        let with_readme = match &readme {
            None => None,
            Some(None) => Some(String::new()),
            Some(Some(t)) => Some(t.clone()),
        };
        match with_readme {
            Some(text) => {
                let rendered = render_markdown(text.as_str());
                let mut body = rendered;
                body.append(README_RULE);
                body.append(listing.as_str());
                let page = html_page(README_NAME, crumbs.as_str(), body.as_str());
                let r = text_response(200, Some(HTML_TYPE), page);
                assert(body@ =~= markdown_html(text@) + README_RULE@ + listing@);
                r
            },
            None => {
                let title = if self.clean_path.as_str().unicode_len() == 0 {
                    String::from_str(HOME_TITLE)
                } else {
                    self.clean_path.clone()
                };
                let page = html_page(title.as_str(), crumbs.as_str(), listing.as_str());
                text_response(200, Some(HTML_TYPE), page)
            },
        }
    }

    /// The page of a markdown file, or a failure where it could not be
    /// read.
    pub fn markdown_response(&self, content: Option<String>) -> (r: Response)
        ensures
            match content {
                Some(c) => is_text_response(r, 200, Some(HTML_TYPE@), markdown_page(self.clean_path@, markdown_html(c@))),
                None => is_text_response(r, 500, None, READ_FAILURE@),
            },
    {
        match content {
            None => text_response(500, None, String::from_str(READ_FAILURE)),
            Some(c) => {
                let rendered = render_markdown(c.as_str());
                let crumbs = breadcrumb_html(self.clean_path.as_str());
                let page = html_page(self.clean_path.as_str(), crumbs.as_str(), rendered.as_str());
                text_response(200, Some(HTML_TYPE), page)
            },
        }
    }

    /// An asset with its content type, or the page for unserved files
    /// where it could not be read.
    pub fn asset_response(&self, content_type: &str, bytes: Option<Vec<u8>>) -> (r: Response)
        ensures
            match bytes {
                Some(b) => r.status == 200 && (r.content_type matches Some(t) && t@ == content_type@)
                    && (r.body matches Body::Bytes(x) && x@ == b@),
                None => is_text_response(r, 404, None, unsupported_page(self.clean_path@)),
            },
    {
        match bytes {
            Some(b) => Response {
                status: 200,
                content_type: Some(String::from_str(content_type)),
                body: Body::Bytes(b),
            },
            None => self.unsupported(),
        }
    }

    /// The answer for a file that is not served.
    fn unsupported(&self) -> (r: Response)
        ensures
            is_text_response(r, 404, None, unsupported_page(self.clean_path@)),
    {
        let crumbs = breadcrumb_html(self.clean_path.as_str());
        let page = html_page(NOT_FOUND_TITLE, crumbs.as_str(), UNSUPPORTED_BODY);
        text_response(404, None, page)
    }
}

} // verus!
