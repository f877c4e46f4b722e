# docs_sentry

Audits the README files of a GitHub organization's repositories against a weighted
template and reports documentation gaps as a terminal table, a markdown report or JSON.

- `src/` is the verified library (Verus): the scoring model (`audit`), option parsing
  (`config`), the interpretation of `gh` output (`github`), the report renderers
  (`output`), a JSON reader used to state what the JSON report reads as (`json`) and the
  text primitives they rest on (`text`). Every public function states its result exactly
  in its contract; the properties of the scoring model, the ordering, the option parser
  and the JSON output are stated and proved as `lemma_*` proof functions.
- `app/main.rs` is the command-line program: it runs `gh`, computes the floating-point
  average score, and hands everything else to the library.
- `tests/` holds the tests.
