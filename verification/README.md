# anchr_core

The library behind anchr: markers in prose and comments (`@anchor[...]`, `@ref[...]`,
`@[alias]`, `@noref[...]`) are lexed into an index per root, references are checked against
it, anchors and aliases are renamed by byte-exact edits, and coverage finds reference-shaped
text that carries no marker yet.

- `src/` is the library, verified with Verus: the marker grammar (`marker/`), the index, the
  checker and its report (`check`, `diagnostic`), the resolver's decisions (`resolve`), rename
  planning and edit application (`rename`, `edit`), coverage (`coverage/`), configuration
  validation (`config`), and the orders, suggestions and text helpers they share. What the
  outside crates compute (globset, the `ignore` crate's gitignore matcher, line-index, strsim)
  is called through small trusted wrappers whose contracts say what those crates do.
- Lookups the library cannot make itself (the file tree on disk, a file's symbol table) are
  arguments: the resolver's functions take what the caller looked up and decide from it.
- `app/` is the disk side: finding and parsing `anchr.toml`, walking a root, loading a
  workspace, answering each reference and path token from the walked trees and running the
  check and coverage, and writing planned edits back.
- `tests/` exercises the library from outside.
