# fs_apfs

A verified, read-only parser for the Apple File System (APFS).

`src/` is the library. Every function in it is verified with Verus: a parser's
contract equates its result with a spec function of the bytes it was given, and
whatever reads through a `Reader` is stated over the reader's `Device`, the model
of what it answers at every place. Proof functions named `law_...` state what
holds across functions.

The layers, from the bottom:

- `bytes`, `io`, `error`, `text`, `sort`, `index`: byte access, readers, errors,
  and small tools.
- `types`, `object`, `checksum`, `container`, `checkpoint`: blocks, object
  headers, the container superblock, and the choice of a checkpoint.
- `btree`, `search`, `tree`, `omap`: B-trees, what a descent finds in an ordered
  one, whole-tree walks, and object maps.
- `apfs`, `volume`, `catalog`, `pruning`, `agreement`, `inode`, `directory`,
  `xattr`, `extended_field`, `extent`, `fext`, `sibling`, `clones`, `snapshot`,
  `traverse`: volumes and their file-system records.
- `space_manager`, `fusion`, `reaper`, `keybag`, `enc_rolling`, `efi`, `sealed`,
  `unicode`, `time`: the remaining on-disk structures.
- `forensic`, `recovery`, `orphans`: timelines, clone maps, and deleted files.

The few outside calls (SHA-2 digests, Unicode normalization and case mapping,
lossy UTF-8 decoding, date-times) sit behind small trusted functions whose doc
comments say what is taken from the outside crate.

`app/` is a thin crate around the library: a reader over `std::io`, an error type
with messages, and date-times with a time zone.
