# epaxos

A replica of an EPaxos-style replication protocol and the storage it runs
on, written in Rust and verified with Verus.

## Layout

- `src/` — the verified library:
  - `lex`, `sorted_kv`, `mem_engine`: byte-string order, an ordered
    key-value table, and an in-memory engine with three columns, batches
    and transactions;
  - `namespace`: namespaces sharing one engine under key prefixes;
  - `byte_str`, `keys`: decimal and hexadecimal text, and the keys
    instances and column references are stored under;
  - `prost_wire`, `wire`, `codec`: the protobuf encoding of the protocol's
    data, on top of prost's wire primitives;
  - `qpaxos`: instance ids, ballots, commands and instances;
  - `snapshot`: the storage interface of a replica (`Base`, `TxEngine`,
    `ObjectEngine`, `ColumnedEngine`, `StatusEngine`, `InstanceEngine`)
    and its implementation by the in-memory engine;
  - `replica`, `fixtures`: a replica and its answer to a fast-accept
    request, and ready-made replicas and instances;
  - `service`: the replies of the replication service.
- `tests/` — tests of the library.
- `app/` — the asynchronous service handlers (tonic) and std iterators over
  the library's cursors.
