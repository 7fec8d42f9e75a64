# Arena

Model-vs-model evaluation for LLMs: the same tasks are run against several
models, replies are scored against expected answers, and pairs of replies are
put before a judge model in both orders.

- `src/` is the verified library. Its contracts say what a run asks, how replies
  are read, and how pairs are resolved, counted, rated, recorded and reported.
- `tests/` runs the library on concrete values.
- `app/` is the program around it: command line, files, HTTP providers, the web
  server, and what is computed in floating point (the Bradley–Terry fit and
  percentiles), which the library takes as functions.

What the library relies on without proof stands in a few small functions that
call the standard library, `serde_json`, `rand` and `chrono`; each says what it
claims.
