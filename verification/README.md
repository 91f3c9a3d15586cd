# engine

A limit order book for one trading pair, verified with Verus.

- `src/types.rs` — the values exchanged with the book (`Side`, `PriceLevel`, `Trade`, `OrderResult`, ...).
- `src/matching.rs` — the mathematics of one book side: priority order, the sweep of a taker
  across the opposing levels, where a residual comes to rest, and their lemmas.
- `src/order_book.rs` — `OrderBook` (`new`, `place_limit_buy`, `place_limit_sell`), its model
  `BookState` with the invariant `wf`, and the functions `apply`/`report` that every placement follows.
- `src/laws.rs` — properties of every placement: refusals change nothing, identifiers are used
  once, quantity is conserved, trades happen at maker prices in priority order, residuals rest at
  the limit price, consumed levels are reported and removed.
- `app/main.rs` — the engine process: a ZeroMQ reply socket that acknowledges each message.
