# kally

Kally is the Git-first package manager for Kalcite. It keeps requested
dependencies in `kally.toml`, resolves Git branches or tags once, and records
the immutable commit and a deterministic source checksum in `kally.lock`.

This crate is Kally's core, written in Verus: the rules, file grammars,
checksums and the decisions of its commands are verified functions with
contracts, and the promises that span several functions are proved as
lemmas. The command in `app/` parses arguments and performs the file and Git
work.

## Layout

- `src/bounded.rs`, `src/policy.rs`: bounded byte strings and the byte-level
  rules for names, sources, references, revisions and checksums.
- `src/rules.rs`: the public validation functions and the resolver decision
  (keep a lock entry, resolve a new request, or report a divergence).
- `src/syntax.rs`, `src/lockfile.rs`, `src/manifest.rs`: the line grammar of
  `kally.lock` and `kally.toml`, their readers and writers;
  `src/roundtrip.rs` proves that what is written reads back unchanged.
- `src/checksum.rs`, `src/tree.rs`: checksums of byte streams and of package
  trees, with the proof that a tree's checksum does not depend on the order
  in which its files are listed.
- `src/audit.rs`, `src/status.rs`, `src/sync.rs`, `src/cache.rs`,
  `src/update.rs`: the checks and decisions of `verify`, `status`, `sync`,
  `add` and `update`, including the steps that `sync` takes for
  `--locked` and `--offline`.
- `src/package_map.rs`: a map from package names to records kept in name
  order.
- `app/main.rs`: the `kally` command. It reads and writes files, walks and
  copies package trees and runs Git, and hands what it observed to the
  library.
