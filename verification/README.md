# mycells

A static site generator for interconnected Markdown notes ("cells"), with
its logic written in Verus and proved against its contracts.

- `src/` — the verified library: the grammar of cell file names, links
  (`[[ID]]`, `[[ID|label]]`) and tags (`#tag`); reading a cell; the site
  (lookup by ID and slug, backlinks, newest pages); the site graph; link
  resolution and the marking up of URLs and tags in rendered HTML; commit
  dates and diffs; template variables. `src/laws.rs` states and proves the
  properties that hold across these functions.
- `app/` — the `mcs` program: command line, file and git I/O, Tera templates,
  JSON output and the preview server.
- `tests/` — tests of the library on concrete values.

Markdown is parsed and written as HTML by `pulldown-cmark`; the library
reaches it only through the trusted items in `src/markdown.rs`, which name
the events of a parse and the HTML written for a chosen list of them.
