# columnar_exec

Kernels of a columnar query engine, written and proved in Verus.

- `src/` is the library. Each module states what its functions compute in `requires`
  and `ensures` clauses over sequences, maps and integers; proof functions named
  `law_...` state what holds across functions.
  - `dense`, `domain`, `routing`, `dictionary_ids`, `group_keys`,
    `group_values_column`: grouping by an integer and a dictionary value, by direct
    addressing where the values allow it and by hashing elsewhere.
  - `fixed_size_binary`, `null_builder`: group values of fixed-size binary type.
  - `probe_runs`: a hash join that looks up each run of equal probe keys once.
  - `dictionary_compaction`: dictionaries without repeated values.
  - `any_match`: whether a predicate holds of any element of a list.
  - `approx_distinct`, `column_values`, `distinct_counter`, `hyperloglog`: counting
    distinct values.
  - `trace`: the tracer of tasks, and the rule that a task is spawned once.
  - `arrays`, `hashing`, `shared`, `value_ids`: the calls into `arrow`, `arrow_ord`,
    `ahash`, `hashbrown` and the standard library whose contracts are believed and
    not proved. Each says what it claims of the function that it calls.
- `tests/` runs the library with these crates linked.
- `app/` turns arrow arrays into the columns of the library and back, and runs tasks on
  Tokio.
