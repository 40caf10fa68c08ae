# holographic_memory

A holographic memory store: signals are cut into overlapping frames, kept as
spectra, woven with redundancy, protected by Reed-Solomon parity, indexed,
persisted, and spread over a cluster (consistent hashing, gossip membership,
Merkle anti-entropy).

## Layout

- `src/` — the verified library (Verus). Integer, byte and text logic with
  its contracts and laws: GF(2^8) arithmetic and Reed-Solomon coding
  (`gf256`, `linalg`, `poly`, `gauss`, `reed_solomon`), weaving and recovery
  plans (`weaver`, `tags`, `recovery`), framing (`window`, `math`), the
  fragment indexes and storage formats (`index`, `segment`, `tiered`, `table`,
  `manifest`, `wal`, `frame`, `hash`, `memory_pool`, `access`, `config`), the
  cluster (`consistent_hash`, `gossip`, `anti_entropy`, `node`, `clock`) and
  plain records and texts (`records`, `error_text`, `order`, `modality`, `importance`,
  `cli`, `text`, `types`).
- `tests/` — tests of the library.
- `app/` — ordinary Rust around the library: the floating-point signal
  processing (FFT, similarity, reasoning), file and memory-map I/O,
  serialization, the HTTP service and the command-line programs.
