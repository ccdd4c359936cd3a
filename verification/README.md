# vex

A small vector database: an exact brute-force index, an HNSW graph index,
a registry of named collections served over HTTP, and a framed on-disk
format. The index logic is written in Verus and proved against its
contracts.

## Layout

- `src/` — the verified library.
  - `ieee.rs`: the order of `f32` values given by their bit patterns.
  - `index/topk.rs`: selection of the `k` best hits, with ties broken by ID.
  - `index/flat.rs`: the exact index; a search returns the `k` nearest
    vectors.
  - `index/hnsw.rs`: the HNSW index; every insertion keeps the graph well
    formed and links the new node, both ways up to pruning of full lists to
    their nearest nodes, to the first `m` results of a beam search on each
    layer; a search descends greedily through the layers and returns the
    first `k` results of a beam search on the bottom layer, a local minimum
    first, and is exact when its width covers the reachable nodes. An index
    of at most `m + 1` vectors keeps every bottom-layer list complete, so
    its searches return the hits of the flat index.
  - `index/any.rs`: either index behind one type.
  - `server.rs`: the collection registry and the decisions behind each
    HTTP request.
  - `storage.rs`: the file header (magic bytes and version).
- `app/` — the server binary: the `f32` distance kernels, level sampling
  with a seeded RNG, `bincode` encoding, file I/O and the `axum` routes.
- `tests/` — tests of the library on concrete values.

Distances reach the library through a metric oracle: a closure that returns
the bit pattern of the `f32` distance between two vectors. Node levels of
the HNSW graph reach it through a closure that draws one level per insertion.
