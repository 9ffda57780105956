# snippy

A Snappy-style compressor and decompressor, written in Verus.

A compressed stream is a varint holding the uncompressed length, followed by
literals (raw bytes) and copies (back-references into the output so far). The input
is compressed in blocks of 64 KiB, in parallel with rayon.

- `src/varint.rs`: the length header; reading gives back what writing wrote.
- `src/decompress.rs`, `src/decompress/tag.rs`: the decoder, specified exactly by
  `spec_decompress`.
- `src/compress.rs`, `src/compress/hash_table.rs`: the compressor; its output
  decompresses to its input and fits in `5 + n + n / 64` bytes.
- `app/main.rs`: compresses `input.txt` and checks the round trip.
