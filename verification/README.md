# jazz

A small web server that renders the markdown files of a home directory as
HTML pages. The decisions it takes are in a library verified with Verus
(`src/`); the program around it (`app/`) reads the file system, watches it
for changes and answers HTTP requests as the library tells it to.

- `src/text.rs`, `src/paths.rs`: characters and Unix path arithmetic
  (components, prefix tests, joining, extensions) with their specifications.
- `src/page.rs`: the page frame and the breadcrumb trail.
- `src/markdown.rs`: rendering with `pulldown_cmark`.
- `src/index.rs`, `src/crawl.rs`: the index of directories that hold
  markdown, and the search that builds it over a tree read from disk.
- `src/listing.rs`: which entries a directory listing shows, their links,
  their order and their HTML.
- `src/serve.rs`: the steps of answering a request.
- `src/watch.rs`: which file changes rebuild the index.
