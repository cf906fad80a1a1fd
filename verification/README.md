# tantivy_go

Typo-tolerant term expansion for the tantivy search engine, verified with Verus.

A fuzzy query token is not scored by an automaton. Its near-spellings are
enumerated from the term dictionaries and become ordinary term queries, each
boosted down by its edit distance, so BM25 ranking survives.

## Layout

- `src/queries/fuzzy.rs` — the verified logic:
  - `effective_distance`: the edit budget of a token. A token holding an
    ASCII digit gets none; otherwise the request is capped by length (one
    edit from 5 characters, two from 9).
  - `Expansion`: collects the terms that the automata enumerate, pass by
    pass, narrowest first. Keys that are not UTF-8, the token itself and
    repeats are skipped; each term keeps the distance of the first pass that
    found it; collection stops at 50 terms.
  - The laws of both, as public proof functions.
- `src/queries/models.rs` — the query kinds and clause modifiers.
- `app/` — the engine side: streaming each segment's term dictionary
  through a Levenshtein DFA, the builder cache, the serialised payload types,
  and the boosted boolean query built from an `Expansion`.
- `tests/` — the budget and expansion on concrete values.
