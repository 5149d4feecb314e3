# agave

The verified core of a validator node, written in Verus: the replicated
gossip data store and what works on it, the slots a node gossips, the
ping cache, and the configuration and command-line values of the
validator.

## Layout

- `src/` — the library. Its functions are verified, except the trusted
  wrappers around outside crates, whose contracts are believed as stated
  in their doc comments: `bitvec.rs` (the `bv` bit-vector and its `bincode`
  size), `flate.rs` (raw DEFLATE through `flate2`), `index_map.rs` and
  `index_set.rs` (`indexmap`), `ping_pong.rs` (`lru`), `crds.rs` (the
  `BTreeMap` range read), `crds_gossip.rs` and `entrypoints.rs` (`rand`),
  `blockstore_options.rs` (`num_cpus`) and `response.rs` (`semver`).
  - `crds`, `crds_value`, `crds_shards`, `index_set`, `index_map`: the
    gossip data store, its labels and values, its hash shards, and the
    `indexmap` collections it is built on.
  - `crds_gossip`, `crds_gossip_push`, `push_active_set`: storing pushed
    values, the verdict on prune messages, duplicate shred proofs, the
    stake bucket of a node, and picking and pinging the nodes to gossip
    with. The push active set itself (the peers each value is pushed to)
    is not here.
  - `epoch_slots`, `bitvec`, `flate`: completed slots as bit-vectors,
    compressed with DEFLATE.
  - `ping_pong`: when a remote node counts as verified, and when to ping it.
  - `restart_window`, `dashboard`, `entrypoints`: the decisions of the
    validator's watch loops and what they print, and the order in which
    entrypoints are asked for the shred version.
  - `default_args`, `blockstore_options`, `snapshot_config`, `thread_args`,
    `validator_options`, `cli`, `socket`, `partitioned_rewards`,
    `epoch_info`, `response`, `text`, `sanitize`, `pubkey`: configuration,
    command-line values and RPC answers.
- `tests/` — tests of the library.
- `app/` — a command-line front: argument handling, the keys that make
  ping tokens, and the JSON forms of RPC answers.
