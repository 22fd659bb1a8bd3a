# quicklz

QuickLZ 1.5.0 compression and decompression at the levels 1 and 3, written in
Rust and verified with Verus.

- `src/` is the library. `compress` and `decompress` work on bytes in memory;
  `Decoder` is fed with the bytes that it asks for.
  - `state` defines what a stream means, `format` and `matching` what data are
    compressed to.
  - `decoder` reads streams; `encoder`, `writer`, `search1` and `search3` write
    them.
  - `roundtrip` proves that decompression undoes compression, `laws` what holds
    of every input.
  - `bytes` and `bits` hold the calls into `byteorder` and `bit-vec`, whose
    contracts are not proved.
- `tests/` holds the tests.
- `app/` is ordinary Rust around the library: decompression from a reader, with
  the reader's errors.
