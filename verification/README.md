# cookfs

A reader for cookfs, the page-based Tcl virtual filesystem archive format
found at the end of tclkits and BitRock / InstallBuilder installers, written
in Verus. Every function of the library carries a contract; Verus proves
them all but those of the small wrappers around the outside crates (flate2,
liblzma, la-arena, lru, positioned-io), whose contracts are trusted and say in
their doc comments what they claim of the crate they call.

- `src/read.rs`: bounds-checked byte access, the `Cursor`, and the backward
  scan for a trailer signature.
- `src/codec.rs`: the codec ids and page decoding (stored, deflate, raw LZMA1,
  `.lzma`-alone).
- `src/parsers/`: the `CFS0002` and `CFS0003` trailers and page tables.
- `src/index.rs`: the fsindex directory tree and its name-ordered walk.
- `src/cache.rs`: the bounded LRU page cache and its sizing.
- `src/lib.rs`: `Archive`, which opens an archive and reads files through the
  cache.
- `app/`: loading an archive from a file, and error messages.
