# rucene

The matching, ranking and slicing logic of a full-text search engine, written in Rust and
proved with Verus.

- `src/search/` holds the search logic: iterators over documents, disjunctions and
  conjunctions, scorers that collect windows of documents, queues of the best hits, queries
  and their weights, phrase and fuzzy matching, and the searcher that divides an index into
  slices and searches them.
- `src/util/` holds what the search logic is built of: bit sets, heaps and priority queues,
  stable sorting, byte strings and texts, and the integers that stand for floating-point
  numbers.
- `tests/` runs the library on examples.
- `app/` holds what stands around the library: floating-point scores, the thread that reopens
  readers, state that threads share, and errors as the standard library knows them.

Scores and other floating-point numbers are integers in `src/` that are ordered like them
(`src/util/number_keys.rs`); `app/` converts. What an index stores is read through traits
whose contracts say what is read.

Properties that relate several functions are public proof functions beside the functions they
speak of.
