# forth_lsp

The logic of a language server for Forth, written in Verus and verified.

- `src/definition_index.rs`: the index of word definitions and references
  across files (case-insensitive, one entry list per lower-case name), with
  doc comments, immediate stack effects and constant values of definitions.
- `src/hover.rs`: the hover text of a word.
- `src/include_resolver.rs`: scanning a file for required files, finding
  them on disk, and a depth-first walk through them: its pending targets
  are taken one at a time in order, and no canonical path is visited
  twice. Which files exist, and their canonical paths, come from the disk.
- `src/document.rs`: applying the editor's content changes to a document,
  and the word under the cursor.
- `src/uri.rs`: the `file://` URIs under which locations are reported
  (a location whose file has no valid URI is left out).
- `src/laws.rs`: properties of the index and of the walk across calls.
- `src/rope.rs`, `src/lexer.rs`, `src/text.rs`, `src/position.rs`,
  `src/table.rs`: the contracts of the outside calls (ropey, forth-lexer,
  std) and the helpers the rest is built from.
- `app/main.rs`: the server itself: command line, LSP over stdio, reading
  files from disk.
