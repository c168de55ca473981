# ducklake_batches

Atomic per-table write units for a DuckLake change-data-capture destination,
verified with Verus.

- `src/` decides everything: which statements a batch of changes becomes, how a
  backlog is cut into batches, what is read back for partial updates, and what a
  host does next while it applies, replays, retries or copies. Every item of it
  is verified.
- `app/` runs statements on DuckDB connections, moves values and records metrics.
- `tests/` runs the library, against an in-memory lake where statements are
  involved.

The statements of a batch leave a table with the rows that its events leave it
with one by one (`src/equivalence.rs`, `src/mutation_run.rs`). A replay commits each
streaming batch of a backlog exactly once, whatever prefix of the backlog was
committed before and whatever progress the table had (`src/resume.rs`), and each
copy batch that has no marker yet exactly once (`src/markers.rs`). A pipeline
with its own progress table keeps its position when it moves there and when it is
rolled back (`src/frontier.rs`).

What is trusted stands in `src/external.rs` and `src/text.rs`: calls into
`pg_escape`, `uuid`, `serde_json`, `chrono` and `String::push`.
