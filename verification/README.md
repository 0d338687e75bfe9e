# xp3

Reads `.xp3` archives and extracts their entries, decrypting them with the
cxdec scheme.

- `src/` is the library, verified with Verus: little-endian readers
  (`utils`), the archive header (`header`), the index and its entries
  (`info`, `file`, `segment`), the opened archive (`solve`), zlib
  decompression through `libflate` (`inflate`), and the cxdec decoder with
  its x-code programs (`cxdec`, `decoder`).
- `app/` is the command-line extractor: argument handling, reading the
  archive and the JSON scheme file, and writing the entries to disk.
- `tests/` exercises the library on hand-built archives.
