# pontifex_conformance

The gates that keep the two independently authored wire-contract authorities of
Agent Pontifex in step: the authored JSON Schemas and the TypeSpec-generated
ones.

- **Conformance**: every fixture is validated against the authored schemas
  (Draft 2020-12, formats checked) and against the rules schema cannot express
  (sorted, namespaced capabilities; matching service and protocol; a minimum
  major version of at least 1 and no greater than the maximum; distinct
  realtime recipients; reasons on refused acknowledgements). Fixtures named `invalid-*` must be rejected, all others
  accepted. Optionally the generated schemas must give the same verdicts.
- **Peer parity**: configured enums, models and scalars must have the same enum
  wire values and wire shapes in both authorities.

## Layout

- `src/` — the library, verified with Verus.
  - `json.rs` — the JSON document model; objects refuse repeated keys.
  - `canonical.rs` — compact JSON text, as `serde_json` writes it.
  - `text.rs`, `order.rs` — string operations, the order of `str`, sorting.
  - `invariants.rs` — the rules beyond schema, with their laws.
  - `fixtures.rs` — what a fixture's name selects.
  - `conformance.rs` — schema resources, registries and validation through
    `jsonschema`.
  - `verdict.rs` — the verdict on each fixture and the agreement of both
    authorities.
  - `refs.rs`, `shape.rs`, `parity.rs` — references, enum values, wire shapes
    and the parity findings.
- `tests/` — tests on concrete values.
- `app/` — the command-line tools: `run-conformance [ROOT [GENERATED_ROOT]]`
  and `check-peer-parity [ROOT [GENERATED_ROOT]]`, given as the first argument;
  they read the files and print the results.
