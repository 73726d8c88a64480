# scanner

Reads over-the-air firmware update images, decodes the text and container formats they
come in (Intel HEX, Motorola S-record, gzip, zip) into the raw bytes of the image header,
and matches that header against vendor signatures to show who made the image and what
its header says (sizes, versions, entry points, checksums).

Layout:

- `src/` — the verified library
  - `text.rs`: integer fields read as std's `from_str_radix` reads them, character
    boundaries, runs of hex pairs
  - `records.rs`: Intel HEX and S-record decoding, hex strings
  - `format.rs`, `extract.rs`: recognising the input format, decompressing, keeping the
    header, the interactive file prompt
  - `signature.rs`: signatures and their definition file
  - `matching.rs`: matching a header against signatures
  - `strings.rs`, `unicode.rs`: text helpers
  - `laws.rs`: properties that hold for all inputs
- `app/main.rs` — the command-line program (stdin, files, printing)
- `tests/` — tests of the library
