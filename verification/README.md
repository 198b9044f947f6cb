# snap

Region snapshots of a replicated key-value store: how they are named, built, checked, sent,
received, saved, applied and deleted, and how a manager keeps track of them.

- `src/` is the library. It decides and computes; it opens no file. Its contracts are proved by
  Verus.
  - `key`, `names`, `text`: keys of snapshots, file names, and reading them back.
  - `codec`, `records`, `checksum`: byte strings, the records of a snapshot, checksums.
  - `keys`, `apply`: stored keys, and applying records in batches.
  - `v1`: snapshots in one file. `v2`: snapshots with a file for each column family.
  - `start`, `size`, `manager`: what building starts from, the tracked size, the registry.
  - `store`, `v2::round_trip`: what a store holds before and after, and the whole way of a snapshot.
- `app/` carries out what the library decides, on files, locks and a store.
- `tests/` runs the library on files that are held in memory.

Theorems about several functions are the public proof functions whose names begin with `law_`.
The checksum function of the `crc` crate, and writing and reading four bytes with `byteorder`, are
trusted; see `src/checksum.rs`.
