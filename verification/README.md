# cmx_rdma

A per-node KV cache agent for sharing LLM prefix caches across a cluster,
written in Verus: the cache's data structures and request handling are
proved against their contracts, and a thin program around them does the
I/O.

## Layout

- `src/` — the verified library.
  - `pool.rs`: the slab pool of fixed-size blocks and its free-list.
  - `block.rs`, `allocator.rs`: block headers (CRC-32C, generation, size) and
    the allocator that writes and checks blocks.
  - `eviction.rs`, `index.rs`: the slab-backed LRU list and the prefix-hash
    index with eviction at capacity.
  - `remote_index.rs`, `placement.rs`: the index of blocks held by other
    nodes, and the consistent-hashing ring.
  - `service.rs`: lookup, batch lookup, store, get, delete and statistics.
  - `metadata.rs`: registry keys and records, and how watch events update
    the remote index and the ring.
  - `transport.rs`: peers, the in-process mock transport, the connection
    cache.
  - `config.rs`, `gpu.rs`, `numa.rs`, `digest.rs`, `prefix.rs`, `dash.rs`:
    configuration defaults and checks, hardware stubs, SHA-256/hex, prefix
    keys, and the `DashMap` type as the verifier sees it.
- `tests/` — tests of the library on concrete values.
- `app/` — the daemon: configuration file, tracing, metrics, the etcd
  client, pressure monitoring, and the request handlers' status codes.
