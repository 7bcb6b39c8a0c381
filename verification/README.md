# epubthing

A library for reading EPUB books, verified with Verus. The functions in
`src/` carry contracts that Verus proves, except the small wrappers marked
`#[verifier::external_body]` that call the zip, XML, Markdown and date
crates or std (file names, lowercase, clock): their contracts are trusted,
stated from those crates' sources and documentation.

## Layout

- `src/xml.rs`, `src/opf.rs`, `src/ncx.rs`: the book's package files read
  from a stream of XML events (container, OPF metadata, manifest and spine,
  NCX and EPUB 3 navigation tables of contents).
- `src/document.rs`: the archive itself (`EpubDocument`), with the zip and
  XML crates behind small trusted wrappers.
- `src/html.rs`, `src/markdown.rs`, `src/repair.rs`, `src/reader.rs`: chapter
  HTML reduced to styled segments, and the Markdown pipeline (raw HTML
  removal, per-line healing, link and image rewriting).
- `src/paths.rs`, `src/toc.rs`, `src/loading.rs`, `src/sidebar.rs`: path
  resolution inside the archive, table of contents trees, chapter loading.
- `src/search.rs`, `src/session.rs`, `src/config.rs`, `src/conversation.rs`:
  in-chapter search, recent files and keyboard state, settings, notes.
- `src/laws.rs`: properties that hold of these operations on all inputs.
- `src/spike.rs`: the conversion used by the command-line converter.
- `app/`: the command-line converter, file I/O, threads and serde storage.
- `tests/`: tests run against the compiled library.
