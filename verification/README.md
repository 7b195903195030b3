# trigrep_index

The index library of trigrep, an indexed regex search tool: every
overlapping 3-byte window (trigram) of each text file goes into an inverted
index on disk, and a query plan of trigrams is answered from that index with
the set of candidate files.

`src/` is verified with Verus:

- `types`, `masks`, `trigram`: trigram hashing, Bloom bits, and the trigram
  table of a file (location and next-byte masks), with its adjacency laws.
- `builder`: the in-memory inverted index and the law that it is exact.
- `format`, `ondisk`: the little-endian byte format of postings.bin,
  lookup.bin and files.bin, and the encoder.
- `reader`: binary search over lookup.bin and decoding of posting lists and
  of the file table.
- `roundtrip`: what the reader reads back of what the encoder wrote, and the
  exactness of `And` queries over an encoded index.
- `query`: the query executor.
- `meta`, `walker`, `error`: metadata checks, binary-file detection, errors.

`app/` holds the file system, process, mmap, parallel and JSON plumbing.
