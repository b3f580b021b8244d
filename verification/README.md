# ddup-bak

Deduplicated backups, with the rules that keep them safe proved in Verus.

A repository holds archives, which list the chunks that files are made of, and chunks, which are
stored once under their hash. An index counts how many references each chunk has. What must never
happen is that a chunk goes while an archive still uses it, wherever a deletion, a cleaning, a
recount or a backup is interrupted, be it by a failure or by a crash of the machine that undoes
what was not durable yet. `repository/world.rs` states that and proves it of the steps that the
library hands out. A move of a file is taken to be one change, and saving the index to be durable.

Beside it stand two more laws. `repository/migration.rs`: a migration of format 1 may stop anywhere
and be run again; the index can always be opened, and no archive loses the ids it is read with.
`repository/roundtrip.rs`: what a backup walked comes back from a restore, path by path, with its
content, modes, times and link targets.

- `src/chunks/`: chunk format, hashes, cutting files, the index file and its counts
- `src/repository/`: names, markers, backups, deletions, rebuilding, migration and restores, as
  decisions and steps
- `src/tree.rs`, `src/entries.rs`, `src/migrate.rs`: entries, their nesting, and format 1
- `app/`: carries the steps out on disk, over traits for chunk storage, archive files, locks and
  staged restores
- `tests/`: given values, and whole operations on a repository in memory

The library takes bytes and values that were read and gives back values and steps. Digests,
compression, cutting and the concurrent map come from `blake2`, `blake3`, `flate2`, `zstd`,
`fastcdc` and `dashmap`; the doc comment above each of those calls says what is taken for granted.
This build neither writes nor reads Brotli.
