# afptool

Packs and unpacks RockChip firmware images: RKFW firmware images and the RKAF
update images embedded in them. The logic is written in Verus and verified;
a thin command-line program does the file I/O around it.

## Layout

- `src/` — the verified library
  - `header.rs` — the 2048-byte RKAF header: decoding, encoding, and the laws
    that tie the two together; container signatures
  - `layout.rs` — recovering true 64-bit offsets and sizes from the header's
    32-bit fields (members beyond 4 GiB)
  - `rkaf.rs` — RKAF packing (package-file, parameter file, partition
    metadata, header preparation, member layout) and unpacking (extraction plan)
  - `member_paths.rs` — member paths taken from a saved header when repacking
  - `roundtrip.rs` — what unpacking reads back from what packing wrote
  - `rkfw.rs` — RKFW header building, layout fields, MD5 trailer, header reading
  - `chip.rs` — chip names, family codes and the chip field
  - `crc.rs` — the RockChip CRC-32 and PARM blobs
  - `text.rs`, `bytes.rs` — text and byte helpers
  - `error.rs` — the library's errors and their messages
- `tests/` — tests of the library on concrete values
- `app/main.rs` — the `afptool-rs` command (`unpack`, `pack-rkfw`, `pack-rkaf`)
