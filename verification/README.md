# qzt

A verified library for QZT containers: chunked, zstd-compressed text with a
checksummed skeleton (header, metadata, index root, chunk table, footer) that
supports random access by byte range and by line, document indexes, and
search sidecars (token and n-gram indexes).

Layout:

- `src/`: the library, written in Verus. Each public function states its
  result in `requires`/`ensures` over spec functions of the format (CBOR
  blocks, chunk table, skeleton checks, search and sidecar layouts), and the
  laws of the format stand as public proof functions. BLAKE3 and zstd are
  called through small trusted wrappers whose results are named.
- `app/`: the `qzt` command line program: argument handling, file I/O, timing,
  and the positioned writes that the streaming writer hands out.
- `tests/`: tests of the library on concrete values.
