# dolfin-analysis

Semantic analysis for the Dolfin ontology language, verified with Verus.

A parsed ontology file goes through four passes:

- `index::SymbolIndex` collects the declared symbols of one or many files,
  with incremental add and remove of files and `<stem>.<name>` aliases for
  cross-file references;
- `resolve::resolve_file` resolves every type reference against the index;
- `validate::validate` reports structural errors (`S001` unresolved type,
  `S002` duplicate declaration, `S003` circular inheritance);
- `types::check_types` reports type-level errors (`S004` a `sub` parent that
  is not a concept, `S005` a property domain that is not a concept, `S006` a
  cardinality range with `min > max`).

`references`, `hover` and `completion` serve editors: every span that refers
to a name, the description of the symbol under a position, and the keywords
and symbols that begin with a typed prefix.

## Layout

- `src/` is the verified library. It works on plain values: `ast` holds the
  parsed file as the passes read it, and every pass states its result in its
  contract, over spec functions of the same module. The laws that relate
  several operations (what re-indexing a file does, that every reported cycle
  is a real one, that hover only answers over a span of the file, ...) are
  public proof functions next to the operations they speak of.
- Maps keyed by name or path (the symbols of a file, the global table, the
  files of an index, the names seen by the duplicate and cycle checks) are
  held as vectors of key/value pairs with distinct keys (`assoc`), read as
  finite maps in the contracts. The global table of an index is the merge of
  its files in the order they were indexed, so the file indexed last wins a
  name, and removing a file hands each of its names back to the latest other
  file that defines it.
- `tests/` runs the library on concrete files.
- `app/` converts the `rowl` parser's syntax tree into the library's values
  and the library's diagnostics into `dolfin_diagnostic` ones.
