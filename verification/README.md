# unleash_types

The types that Unleash servers, proxies and clients exchange, and the rules by
which they are combined, written in Verus with their contracts proved.

- `src/` is the verified library:
  - `client_features`: feature toggle configuration; merging and upserting
    feature sets, applying delta events, reading operators and context values.
  - `client_metrics`: toggle counters, metric buckets, client registrations and
    their merge, metric types, label keys and the plan by which impact metric
    samples are merged.
  - `frontend`: evaluated toggles for frontend clients.
  - `entries`, `ordering`, `string_map`, `deep_clone`: keyed deduplication, stable
    sorting, string-keyed maps and deep copies, with the lemmas about them.
  - `hashing`: the XXH3/base64 fingerprint of serialized data; `time`: instants.
  - `lib.rs`: the `Merge`, `Upsert` and `Deduplicate` traits and their laws.
- `app/` holds the same types with their JSON forms (serde), OpenAPI schemas
  (utoipa) and builders, converts them to and from the library's types, and does
  the floating-point arithmetic of impact metrics.
- `tests/` runs the library on concrete values.
