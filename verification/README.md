# icm_store

A store of memories, facts, hook telemetry, edited files and raw tool output. Its rules are
verified with Verus; a SQLite database keeps its rows.

- `src/` is the library. `store` is the store as a whole; `memories`, `row`, `queries`, `relations`
  and `cache` hold the memories, `pending`, `code_areas`, `hooks` and `facts` the other tables.
  `memory`, `digest` and `embedding` say what a memory is, how it is recognised and how its
  vector is kept. `fts`, `like`, `uri` and `open` are the rules around the database; `text`,
  `bytes`, `order`, `table`, `time`, `json` and `ident` are what the others build on.
- `app/` is the store on disk. It opens the database, reads the tables into the library's store and
  writes the rows that an operation changed.
- `tests/` holds the tests of the library.

Weights and the components of embeddings are kept as the bit patterns of IEEE 754 singles.
