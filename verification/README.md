# custos_dedup

Deterministic, explainable deduplication of security finding occurrences,
written in Verus: every function of the library carries a contract, and Verus
proves the code against it.

## Layout

- `src/` is the verified library.
  - `text`, `normalize`: character-level text handling and text similarity.
  - `config`: validated thresholds and block policy.
  - `fingerprint`: versioned BLAKE3 occurrence and correlation keys.
  - `identity`, `purl`, `cpe`, `canonical`: canonical Package URL and CPE
    identities; `canonical` proves that a normalized CPE name parses back to
    itself.
  - `model`: candidates, origins, issue identifiers and the builder.
  - `evidence`, `compare`: field evidence, scores and pairwise decisions,
    with the symmetry and hard-boundary laws.
  - `cluster`: batch clustering. Its contract states the partition, the
    cross-source rule, complete link, how far exact and fuzzy merges go,
    the order of fuzzy merges (best score first, then by key pair), the
    review pairs, the block warnings and every counter.
- `tests/` holds the tests, which run the library with the real outside
  crates.
- `app/` holds what Verus does not see: serde and error-trait copies of the
  library's types.

Calls into `blake3`, `cpe`, `packageurl` and `rapidfuzz` stand behind small
trusted wrappers in `src/`, each with a doc comment that says what its
contract assumes of the outside function.
