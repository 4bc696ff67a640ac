# breezy-registry

The rules of a single-binary container registry, verified with Verus: which request leads to
what, who may do it, what a push records, how a repository's index changes under
compare-and-swap, what garbage collection and retention take and what they leave.

## Layout

- `src/` is the library. Every function states its contract, and Verus proves it.
  - `text`, `number`, `order`, `table`: strings, decimal numbers, sorting, ordered tables.
  - `digest`, `json`, `ident`: content hashes, JSON values, random identifiers.
  - `config`, `auth`, `shard`: settings, credentials and roles, rendezvous hashing.
  - `storage`, `objectstore`: where blobs and objects lie, conditional reads and writes.
  - `truth`, `cache`, `db`: the index of a repository, the local cache of it, its rows.
  - `pending`, `gc`, `sweep`, `retention`: what goes, when, and behind which guards.
  - `oci`, `api`, `ui`: the distribution API, the dashboard's endpoints and its files.
- `app/` is the process around the library: HTTP, SQLite, files, buckets, the clock.
- `tests/` runs the library on concrete values.

Calls into other crates stand behind small functions whose contracts are believed rather than
proved; each says so in its doc comment. They are in `text`, `digest`, `json`, `ident`, `auth`,
`retention` and `ui`.
