# uf2_file

A verified library for the [UF2 firmware format](https://github.com/microsoft/uf2):
reading, writing and checking 512-byte UF2 blocks and whole UF2 images.

## Layout

- `src/` — the library, verified with Verus.
  - `block.rs` — the block: its fields, the byte layout (`from_bytes`,
    `to_bytes`), the payload layout of data, extensions and checksum, and
    the block check. The laws about reading back what was written are
    proof functions (`law_*`) beside the block's specification.
  - `extension.rs` — extension records, extension tags and the reader that
    walks the records of a block.
  - `flags.rs` — the flag word of a block.
  - `file.rs` — `Uf2File`, a sequence of blocks: parsing an image, checking
    block order, collecting payload and family IDs, and making blocks from a
    payload or from a binary cut into flash pages.
  - `decimal.rs` — decimal digits of a number.
  - `digest.rs` — the MD5 digest, computed by the `md5` crate.
- `tests/` — tests of the library.
- `app/` — file-system access (`is_uf2_file`, `Uf2FileExt::from_file`) and
  `Display` adapters for errors and tags.
