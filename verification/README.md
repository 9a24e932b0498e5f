# majestical_services

The operation layer of a media catalog, written in Verus: the decisions
behind scanning, ingest, indexing, search, browse, sync, PARA organization,
the describer configuration and `doctor`, each with a contract over a
mathematical model and proved.

- `src/` is the verified library. It takes what the host read (file
  sightings, catalog rows, probe results) as plain values and returns the
  events, rows, outcomes and messages to act on. Calls into `toml`,
  `xxhash-rust` and `ulid` go through small trusted wrappers whose
  contracts are stated next to them.
- `app/` is the unverified host, and only partly written: walking and
  reading files for scan, inbox checks and doctor's residue check, the
  failure ledger file, the keyframe manifest parse, JSON wire shapes with
  their serde derives, and rank fusion scores. The drivers that talk to
  the catalog store, the index and the sync transport are not here.
- `tests/` exercises the library from outside.
