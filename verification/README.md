# iceberg_upsert

Upserts of Arrow batches into Iceberg tables, verified with Verus.

A source batch is matched by key against the rows of a table. Rows of the table whose key is among
those of the source are updated, and source rows that match nothing are inserted. The result is
written in one of two ways:

- **copy-on-write** rewrites the files in which a row changed;
- **merge-on-read** writes the keys of the old rows as equality deletes, and all source rows as new
  data.

## Layout

- `src/` is the verified library. `upsert.rs` plans an upsert, `planner.rs` resolves keys and builds
  pruning predicates, `matcher.rs` matches rows and detects changes, `cow_executor.rs` and
  `mor_executor.rs` decide what is written, `google_adc.rs` and `bindings.rs` serve authentication
  and the Python module.
- `src/columnar.rs` and `src/text.rs` hold what is taken on trust: small wrappers of Arrow's and
  std's functions, each with a contract over the models of `src/model.rs`.
- `src/laws.rs`, `src/run_laws.rs` and `src/planning_laws.rs` state what holds of an upsert as a
  whole: which rows the table holds afterwards, that both strategies agree, that to upsert twice is
  to upsert once, that a run counts and writes the same whether or not its outcome is committed at
  once, and that pruning leaves out no file with a match.
- `app/` is the unverified rest: traits for tables and catalogs, the asynchronous reading, writing
  and committing, access tokens, and the Python module.
- `tests/` runs the library on concrete batches.

## Limits

Key columns are neither nested nor run-end encoded, and a batch has at most 2^32 rows. Copy-on-write
takes some of the rows of a batch, and not all or none, only where the batch has no run-end encoded
columns, and no lists, maps or dense unions that hold dictionary-encoded values or list views.
