# sequencer

A central limit order book sequencer for a rollup exchange, and the checks
a zero-knowledge guest runs over the batches of trades it produces.

`src/` is the verified library:

- `orderbook`: the book (live orders by id, price-sorted FIFO queues per
  side), with placement under price-time priority, lookup and lazy
  cancellation, each proved against the model in `book_model`.
- `book_laws`: properties of placement and cancellation proved over the
  model (volume conservation, limit prices, best price first, an uncrossed
  book, positive fills, distinct queued ids).
- `book_invariant`: the well-formedness every reachable book keeps (each
  live order queued once at its price on its own side, non-empty levels,
  an uncrossed book over live orders) and what follows from it (cancelled
  orders never fill, fills equal the amount taken from resting orders).
- `engine`: one engine step per request, with fills buffered into batches.
- `rollup`, `trade`, `codec`, `digest`, `signatures`: account leaves,
  Merkle paths, order hashes, ECDSA checks and the batch state-transition
  check, which rejects misaligned batches and any trade whose quote amount,
  balances or nonces would overflow.
- `rpc`: the client order request and the order built from it.

`app/` holds the process around it: the Tokio engine loop, the Axum
WebSocket server with its EIP-712 check, the SP1 prover client and the zkVM
guest entry point, and serde copies of the library types.
