# engine

The matching engine of a centralized crypto exchange, as a verified library.

Each trading pair (BTC_USDT, ETH_USDT, SOL_USDT) has its own order book: bids and asks
grouped into price levels. Incoming orders are matched by price-time priority (a buy takes
asks from the lowest price up, a sell takes bids from the highest down, oldest order first
within a price, each trade at the resting order's price). Limit orders rest with what they
could not fill; market orders drop it.

Prices and quantities are fixed-point integers: one unit is 10^-8.

- `src/` — the library, verified with Verus:
  - `models.rs` — orders, trades, requests and replies, balances;
  - `orderbook.rs` — price levels and the book (add, cancel, best prices, depth);
  - `matcher.rs` — matching, with its exact specification;
  - `laws.rs` — what matching guarantees (quantity conserved, limits respected, price
    priority with better levels used up first, time priority within each level, when
    matching stops, resting orders stay live, the book stays uncrossed, a cancel returns
    what was added);
  - `handlers.rs` — what the engine does with each request;
  - `redis.rs` — the messages the engine sends, queued for the program that owns the
    connection;
  - `keys.rs` — the keys of a map in increasing order;
  - `error.rs` — the engine's errors and their messages.
- `app/` — the program: Redis I/O, JSON, one thread per pair.
- `tests/` — tests of the library.
