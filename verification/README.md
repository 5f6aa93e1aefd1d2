# vault_manifest

The verified core of a peer-to-peer shared folder: agents scan a local
directory into content-defined chunks and a conflict-free replicated
manifest, gossip manifests and chunk bytes with their peers, and write what
they learn back to disk.

- `src/` — the library, verified with Verus:
  - `hlc` — hybrid logical clock (`tick`, `observe`).
  - `manifest` — the OR-Set manifest: last-writer-wins per path by HLC,
    conflict copies on truly concurrent writes (ties broken by content key,
    then author key, size and deletion), and the merge laws. Merging is
    idempotent without conditions; merge order and grouping do not matter
    when every conflict's loser lands on a free copy path of its own, the
    tie order tells the conflicting writes apart, and no side holds a later
    write at a path where the other two conflict.
  - `chunk` — buzhash content-defined chunking, chunks named by BLAKE3.
  - `lease` — the provider-lease merge rule.
  - `wire` — bounded message reads, base64 chunk payloads, gossip messages.
  - `store` — the scan and materialize decisions an agent makes between its
    disk and the manifest.
  - `strings` — byte-wise string order, joining, lowercase hex.
- `tests/` — scenarios and edge cases, run against the compiled library.
- `app/` — the `vault-agent` program (and the `gossip-handler` mode): disk
  and network I/O, JSON, subprocess dials, floating-point lease scores.
