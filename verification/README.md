# snix_refs

Nix store plumbing with machine-checked contracts (Verus):

- `refscan`, `reader`: scanning byte streams for known store path references
  and rewriting them in place; the streaming readers are state machines whose
  I/O is driven from outside. The multi-pattern searcher that locates the
  needles is outside the library (`find_matches` is a simple one of its
  own); every operation takes the reported matches and is specified for any
  list of real, ordered, non-overlapping occurrences that misses none
  (`check_matches` decides that). Over a whole stream, read in any
  chunks, the readers scan and rewrite exactly as one pass over the whole
  input would (`lemma_stream_scan_flags`, `lemma_stream_rewrite_is_one_shot`).
- `nar`, `nar_hash`: the NAR serialisation of a file tree and its MD5, SHA-1,
  SHA-256 or SHA-512 hash.
- `nixbase32`, `hashing`, `nixhash`, `store_path`: encodings, digests and the
  construction of store paths (text, content-addressed and output paths).
- `aterm`, `aterm_write`, `aterm_refs`, `derivation`, `keyed`, `sorted`:
  derivations, their ATerm serialisation, `.drv` paths, hashes modulo
  fixed-output derivations and output path calculation; reading the
  references of a derivation straight from its ATerm.
- `content_hash`, `ingest`: turning input-addressed outputs into
  content-addressed ones, and ingestion entries of a file system walk (file
  contents scanned or rewritten, then handed to the blob upload).

`app/` holds what does the I/O: reading trees from disk, the async readers,
writing derivations to writers, and a command-line tool that prints the NAR
hash of a path.
