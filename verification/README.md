# oci2squashfs bookkeeping library

Verified bookkeeping for flattening the layers of an OCI image into a single
tar stream, processed newest layer first:

- `src/tracker.rs` — `WhiteoutTracker` (a trie of whiteouts; decides whether an
  entry of an older layer is hidden), `EmittedPathTracker` (the set of paths
  already written), `HardLinkTracker` (deferred hard links and hard links whose
  target was whited out and that must become regular files).
- `src/canonical.rs` — `CanonicalTarHeader`: a raw 512-byte tar header with its
  PAX extensions; PAX-aware path and link name, the regular-file clone, parsing
  (through the `tar` crate) and decoding of PAX extension blocks, and the PAX
  records and header block of a hard-link entry, with the law that such an entry
  reads back as written.
- `src/paths.rs` — Unix path components on raw bytes, compared as
  `std::path::Path` compares them.
- `src/sorting.rs` — a stable sort by layer index.
- `src/ustar.rs`, `src/text.rs` — the calls into the `tar` crate and into
  `std`'s UTF-8 conversions, each with the contract it is trusted for.
- `app/lib.rs` — the I/O: reading a header block and its PAX extension block
  from a `tar::Entry`, and writing entries through a `tar::Builder`.

Every function in `src/` is verified by Verus against its contract, except
the small wrappers in `src/ustar.rs`, `src/text.rs` and `parse_pax_block` in
`src/canonical.rs`: each makes one call into `tar` or `std`, and its contract
is trusted, as its doc comment says.  The laws the library keeps are stated
and proved as `law_*` proof functions.
