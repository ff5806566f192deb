# kepos-tact-memory

Remote memory for Tact clients, published as a Kepos HTTP service and kept in one SQLite file.
The rules of the server are a library that Verus verifies; the HTTP and SQLite plumbing around it
is ordinary Rust.

## Layout

- `src/` is the verified library. Authentication (`auth`), settings (`config`), admission of
  requests and answers to failures (`router`), and the namespace-bound store (`store`) on a memory
  database (`table`). Contracts speak of `StoreView`, the contents of a database as a sorted
  sequence of rows and the smallest unused identifier of each namespace.
- The modules whose names end in `laws`, and `history`, hold what is true across operations: a read
  gives back what a put wrote, identifiers are never reused, a snapshot that is applied twice
  changes nothing, an export page by page omits and repeats nothing, no operation takes a namespace
  over its limits.
- `app/` runs the server. It loads the tables inside one Immediate transaction, runs one library
  operation, writes the rows that changed, and commits. It also makes the ranking call, which works
  on floating-point scores.
- `tests/` runs the library on concrete values.

## Trusted

Three facts about code that is not verified here: `String::push` appends a character,
`str::to_lowercase` and SHA-256 are functions of their input.
