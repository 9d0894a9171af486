# ses — a small stock exchange, verified with Verus

The exchange keeps one order book per listed stock, the accounts of its
investors, and the history of market-data events. Investors log in once,
send new orders (limit or market, day or immediate-or-cancel) and cancel
them; subscribers receive every event.

Prices and cash are integers in the smallest unit the exchange quotes
(`Price = u64`, `Cash = i128`). A stock's minimum price fluctuation and lot
size are integers too: a price is valid when it is a multiple of the
fluctuation, a size when it is a whole number of lots.

## Layout

- `src/` — the verified library.
  - `types/` — orders, requests, logs, events and account updates.
  - `ticker_map.rs` — a small map keyed by ticker, with distinct keys.
  - `portal/orderbook.rs` — an order book: both sides kept in price-time
    priority, cancellations marked lazily; matching, resting and best-price
    lookup, each against an exact specification.
  - `portal/account*.rs`, `stock_manager.rs`, `order_info.rs`,
    `event_history.rs`, `orderbook_manager.rs` — the portal's parts.
  - `portal/spec.rs` — the portal as a state machine over an abstract state;
    `Portal::process_request` is proved to follow it.
  - `portal/orderbook_laws.rs`, `portal/later_laws.rs`, `portal/laws.rs`,
    `portal/cash_laws.rs`, `portal/resting_laws.rs` — properties proved
    across calls: books never stay crossed, matching conserves shares and
    respects limits, a cancelled order is never traded again, a price lookup
    changes nothing later requests see, order ids only grow, the history only
    grows, rejected requests change nothing, a limit order keeps its price,
    no investor's cash ever drops below zero, and the resting sizes the
    portal keeps are exactly the live orders of its books.
  - `server.rs` — the wire messages, their conversion to and from portal
    types, and the routing of the portal's tasks.
  - `investor.rs` — a test investor's session: a login, then its orders.
- `tests/` — tests on concrete values.
- `app/` — the runnable program: configuration files (JSON, with prices in
  whole currency units, converted at a scale of 100), the asynchronous
  service loop, a subscriber and test investors.
