# mdatron

A conformance engine for typed markdown, written in Verus: the checks'
logic lives in `src/` with `requires`/`ensures` contracts proved by Verus,
and `app/` is the thin command line around it (file reading, YAML and JSON
through serde, the terminal).

## Layout

- `src/` — the verified library.
  - `confine`, `snapshot` — lexical path confinement and the run's
    read-once capture of file contents under per-file and aggregate budgets.
  - `frontmatter`, `markup`, `text` — fence location, YAML frontmatter, JSON
    Pointer resolution over a position-marked tree, non-fenced lines, ATX
    headings, slugs, and the character-level helpers they share.
  - `diagnostic`, `output`, `codes`, `explain`, `cli` — findings and their
    TTY/compact renderings, fingerprints and summaries, the code registry,
    explain pages, and command-line argument normalization.
  - `route`, `pin`, `codecat`, `format_version`, `limits` — the adopter
    records (route table, pin record, code catalogs), their validation, the
    pin check and recomputation over the run's snapshot, and the declared
    bounds.
  - `path_order` — the component-wise order in which dependents are listed.
  - `cite`, `link`, `marker`, `section`, `dep`, `memo` — the body-reference
    check families, section rules (count and disjointness assertions over
    body sections), the dependency graph, and the
    run-level memo types.
  - `schema` — JSON Schema compilation and validation through `jsonschema`,
    the violation descriptions, and the conservative `$self.<path>` walk.
  - `dsl` — the rule-expression parser and its types.
  - `pattern`, `digest` — regex (`regex-lite`), glob (`glob`) and SHA-256
    (`sha2`) behind small trusted wrappers.
- `tests/` — tests run against the compiled library with the real outside
  crates linked.
- `app/` — `main`, argument handling, no-follow file opening, and the serde
  copies of library types.

Laws that span several functions stand as public proof functions named
`lemma_*` in the module they are about.
