# ferrosearch

An in-memory full-text search index for Node-API hosts, with its core
written and proved in Verus.

`src/` is the verified library:

- `radix.rs`: the radix tree that maps terms to postings, with insertion,
  removal, prefix traversal and bounded-edit-distance search, each specified
  over the map it holds.
- `levenshtein.rs`: edit distance, and the facts about it that the banded
  fuzzy search relies on.
- `vecmap.rs`: insertion-ordered posting lists over a flat vector.
- `engine.rs`: the index and the document lifecycle (add, remove, discard,
  vacuum), serialization to the version-2 JSON format, loading a serialized
  index, the index side of search, and result writing.
- `removal.rs`: the proof that removing a document takes back exactly what
  adding it put into the index.
- `written.rs`: the members that serialization writes, read back, and the
  proof that loading them gives back the tables they came from.
- `search.rs`: per-query term interning, match sets, and how the results of
  subqueries combine.
- `tokens.rs`, `options.rs`, `js.rs`, `text.rs`, `maps.rs`: tokenization,
  search options, JSON text, characters, and the insertion-ordered hash maps
  that back the engine's tables.

`app/` is the Node-API class around the library: option and document
parsing from JSON values, BM25+ scoring and the other floating-point work,
and conversion of results to JavaScript values.

`tests/` exercises the library on concrete values.
