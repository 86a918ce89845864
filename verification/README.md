# los_node

The decision logic of a block-lattice node, verified with Verus: request
rate limiting, the transaction pool, the ledger merge and history walk,
consensus vote counting on pending sends, the application of confirmed
transfers, slash proposals, validator heartbeats, the stale-ledger watcher,
gossip message reading and ledger requests, send and faucet admission,
peer discovery, the proof-of-work nonce search, and the text renderings
the node prints and serves.

- `src/` is the verified library. Each module states its model as spec
  functions and views, and the contracts of its functions over them; the
  public `lemma_*` proof functions state the properties that relate several
  calls (what a merge repeated, a reset, or a burst of requests gives).
- `tests/` runs the library on concrete values.
- `app/` is the REST front: warp routes and filters, the Prometheus
  registry, and the reading of the environment and the genesis file.
