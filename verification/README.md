# ragrs

Fast local retrieval for markdown and text documents: sentence-aware
chunking, BM25 ranking with positional and phrase boosts, and an optional
fact-checking call on the results.

## Layout

- `src/` — the verified library (Verus). Each public function states its
  result in its contract:
  - `text` — character classes, trimming, joining, decimal numerals, UTF-8
    byte lengths;
  - `token_counter` — cl100k_base token counts; the encoder can give up on a
    text, so the functions that count tokens require texts it accepts, and
    each has a `try_` companion that checks first and returns `None` (or
    `false`) where it does not;
  - `tokenize` — lowercase, stop-word filtered query/document terms;
  - `chunking` — sentence splitting, overlap, chunk construction;
  - `bm25` — per-document term positions, document frequencies, phrase
    matches;
  - `retriever` — stable top-k ranking by integer keys;
  - `snippet` — markdown stripping, snippet selection, byte-bounded cuts;
  - `engine`, `verify` — indexable extensions and fact-check request parts;
  - `types`, `error` — chunks, indexing results, errors.
- `app/` — the I/O around it: SQLite store (sqlx), the engine over it,
  floating-point BM25 scores, the HTTP verification client (reqwest) and the
  command line (clap).
- `tests/` — tests of the library.
