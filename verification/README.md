# peer_blocking

Blocking of misbehaving network peers, verified with Verus.

A `BlockingManager` keeps the libp2p block list (which denies connections of
blocked peers and asks the swarm to close their open ones) together with a
record of when and why each peer was blocked. A block is lifted once it has
lasted `RETAIN_SCORE_EPOCH_MULTIPLIER` epochs.

Layout:

- `src/peer.rs`: `PeerKey`, a peer named by the encoding of its libp2p peer id.
- `src/block_list.rs`: the libp2p block list, seen as the set of encodings it holds.
- `src/clock.rs`: the tokio clock, read as nanoseconds since an origin.
- `src/blocking.rs`: the manager, its invariant and the contracts of its
  operations, stated over a map from blocked peer to `BlockedPeerInfo`.
- `src/laws.rs`: properties that span operations (unblocking undoes blocking,
  no double blocking, a block lasts exactly the retention period, counts by
  reason add up, the blocked peers over a manager's whole history of
  operations, close requests handed out in blocking order).
- `app/`: peer ids, logging and Prometheus gauges around the library.

Design notes:

- The manager keeps a ghost history of its operations; its invariant says
  that the blocked peers and the queue of close requests are what replaying
  that history from a new manager gives, which lets the laws speak of any
  sequence of calls.
- The records are a `Vec` of entries with a no-duplicate invariant, and the
  counts by reason are a struct with one field per reason. vstd specifies
  `HashMap` only for keys whose key model it establishes (integers, `bool`,
  and boxes of them); neither the peer encodings (`Vec<u8>`) nor `BlockReason`
  are among them, and establishing it for them would take an assumption.
