# nedb_engine

A content-addressed document database: every version of a document is an
immutable object under the hash of its content, and versions are joined to what
came before them and to what caused them.

- `src/` is the library, verified with Verus: objects and segments, the id index,
  sorted indexes, the causal graph, the query language, taking over old logs, and
  what a server answers to requests. Databases live in memory as images of their
  files; opening takes files in, and saving hands changes out.
- `tests/` runs the library.
- `app/` is the daemon and the bindings for Python and Node.js: it reads and
  writes the files, speaks HTTP, and adds up floating-point numbers.

What holds of the library as a whole is stated and proved in modules of its own:

| module        | what it says                                                      |
|---------------|-------------------------------------------------------------------|
| `guarantees`  | what writes and deletions leave, provenance, tamper evidence      |
| `history`     | reads give back writes, and earlier writes stay readable          |
| `timeline`    | time travel past any number of writes and deletions               |
| `commitment`  | the head commits to the whole history                             |
| `batch_laws`  | what a batch of writes leaves                                     |
| `index_laws`  | sorted indexes hold the current versions, and no others           |
| `clauses`     | the clauses of a query may stand in any order                     |
| `query_laws`  | what queries find, and in what order                              |
| `links`       | links are found from both ends, now and at earlier writes         |
| `substrate`   | where the bytes of objects live makes no difference               |
| `persistence` | files and indexes stay in step, and old logs are taken over whole |
| `restart`     | a database that is opened again is what it was                    |
| `segment`     | packed objects survive torn writes and lost sidecars              |
| `compaction`  | compaction keeps the live objects, also when it is cut short      |
