# craes

A central limit order book with stop orders, verified with Verus.

Limit and market orders are matched against resting orders at the best price
first; stop orders wait in their own books and, once an incoming order reaches
their trigger price, interrupt it and trade before it goes on. Prices are whole
numbers of ticks.

## Layout

- `src/order.rs` — orders, their conversions, and how they rank in a book.
- `src/ranking.rs` — the comparison of orders (`PartialOrd`).
- `src/queue.rs` — a priority queue kept sorted by rank.
- `src/matching.rs` — the matching rules as a state machine (`step`, `run`,
  `resolve`), which the contract of `Orderbook::resolve_order` refers to.
- `src/orderbook.rs` — the order book and the resolution of incoming orders.
- `src/laws.rs` — what every resolution guarantees, proved over the rules.
- `src/config.rs`, `src/setup.rs` — configuration and boot data.
- `src/clock.rs` — times read from the system clock.
- `app/` — the program: command line, database access and server errors.
