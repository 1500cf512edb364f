//! Building blocks of a small server that renders the markdown files of a
//! home directory as HTML pages: path arithmetic, the directory index,
//! page assembly, directory listings and the request-handling decisions.

pub mod text;
pub mod paths;
pub mod page;
pub mod markdown;
pub mod index;
pub mod crawl;
pub mod listing;
pub mod serve;
pub mod watch;
