# hyparview

A node of the HyParView membership protocol: every node keeps a small
*active view* of peers it is linked to and a larger *passive view* of peers
it knows about, and the two are kept up to date by join, forward-join,
neighbour, disconnect and shuffle messages.

The library (`src/`) is verified with Verus:

- `addr`, `peer_set`: peer addresses and finite sets of them.
- `message`, `action`: the protocol messages and what a node decides to send.
- `state`: the views and the handler of each message, with their contracts
  and the invariant they keep (the node is never in its own views, and the
  active view never outgrows its capacity).
- `random`: the random choices the handlers make, through `rand`.
- `buffer`, `messages`, `codec`: the byte format of messages in a `BytesMut`.
- `frame`: the length-prefixed frames in which messages travel.
- `backoff`: the retry schedule of the listener.
- `command`: the commands a node carries out.

`app/` holds the networked program (tokio, serde/CBOR, clap, tracing); `tests/`
runs the library on concrete values.
