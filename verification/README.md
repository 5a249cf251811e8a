# kadnet

The core of a Kademlia-style distributed hash table, verified with Verus.

- `src/primitives.rs`: 256-bit identifiers as big-endian bytes, the XOR
  distance and leading-zero count, with the lemmas that tie them to the
  integers they denote.
- `src/routing/`: node entries, k-buckets (least-recently-seen order) and the
  routing table with its invariant; insertion is split in two steps so that
  the caller can ping the oldest entry of a full bucket in between.
- `src/network/`: peer addresses, the RPC wire format (`Rpc::as_bytes`,
  `Rpc::from_bytes` and their round-trip lemmas), the registry of pending
  transaction ids, and the decisions taken on a received message.
- `src/node/`, `src/storage/`, `src/utils/`: node errors and bootstrap
  selection, the local store, random bytes. The random bytes come from
  std's keyed hasher (`RandomState`), which is not a cryptographically
  secure generator; they are meant for transaction ids only.
- `app/`: the asynchronous runtime around the library (sockets, retries,
  timers, tasks).
