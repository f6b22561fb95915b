# qrism

A QR code library whose logic is verified with Verus: encoding text into segments and
bit streams, Reed-Solomon error correction over GF(256), building a symbol (function
patterns, format and version information, data placement, masking and mask choice),
rendering it, and reading a symbol's modules back.

Layout:

- `src/` — the verified library.
  - `codec/` — modes, segments, the encoder and the decoder, and the round trip between them.
  - `ec/` — field arithmetic, block encoding, syndromes, Berlekamp-Massey, Forney, erasures,
    and the proof that an encoded block is a codeword.
  - `builder/` — the symbol, its drawing, the build of a whole symbol, and rendering.
  - `deqr.rs`, `deqr/` — a symbol as a reader sees it: reading modules from an image,
    marking function patterns, reading format and version information, unmasking and
    extracting the payload.
  - `iter.rs`, `mask.rs`, `metadata.rs`, `bit_types.rs`, `bit_matrix.rs`, `bits.rs` —
    the placement walk, mask patterns and penalties, the standard's tables, bit streams.
- `tests/` — tests run against the compiled library.
- `app/` — a small command line program: builds a symbol, writes it as an image and reads
  its modules back, with the `image` crate.
