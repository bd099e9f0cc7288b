# kepub

Converts EPUB books into Kobo's kepub format: every content document gets
sentence-level `koboSpan` tags and the `book-columns` / `book-inner` wrapper,
the OPF marks the cover image, and the zip container is re-packed with
`mimetype` first.

The library in `src/` is verified with Verus. Its contracts are stated over
mathematical models (sequences of characters and bytes, document trees), and
the zip, XML and HTML5 parsing crates are reached through small trusted
wrappers whose contracts say what those crates do.

- `text`, `sentences` — string helpers and the sentence splitter.
- `dom`, `parse`, `serialize` — the document tree, HTML5 parsing, and
  polyglot XHTML output.
- `wrap`, `kobospan` — the two document transformations (both idempotent).
- `xml`, `container`, `opf` — pull-reading XML, locating the OPF, listing
  content documents, and marking the cover.
- `zip_io` — the container in memory, reading and writing it as zip.
- `convert` — the whole-book conversion.
- `paths`, `jobs` — file names and the plan of conversion jobs.

`app/main.rs` is the command line: it finds the books on disk, asks the
library for a plan, and runs the conversions in parallel with a progress bar.
