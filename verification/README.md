# fix_lob_engine

A FIX 4.4 limit order book engine whose core is verified with Verus.

## Layout

- `src/fix/scanner.rs` — splits a FIX message into `tag=value` fields and picks out the
  fields of a new order.
- `src/fix/ringbuffer.rs` — the per-connection byte ring with lookahead, and the framer
  that finds a whole message by its body length (tag 9).
- `src/lob/arena.rs` — a fixed-capacity slot arena with a free list.
- `src/lob/rbtree.rs` — the price levels of one side of a book: a search tree over the
  arena, kept in key order through insertions, rotations and deletions.
- `src/lob/orderbook.rs` — orders and fills, fixed-point prices, price-time priority
  matching, resting orders, top of book and spread, execution reports.
- `src/engine/` — the matching engine (one book per symbol), settlement, and the
  quantity, price and id rules of TWAP execution.
- `src/net/listener.rs` — the step that takes framed messages out of a connection's
  buffer for the engine.
- `app/` — the program around the library: stdin mode, the TCP listener (tokio), the
  TWAP runner (timing, random jitter, operator prompts) and argument handling.

## What is proved

Every function in `src/` is verified against its contract. Among them:

- matching follows price-time priority exactly: the fills of a submission are those of a
  step-by-step model that always fills the first order of the best level;
- a submission leaves the book uncrossed, neither loses nor makes quantity, and fills
  only at prices within the order's limit, best first;
- the framer's result on the buffered bytes, including how it skips garbage and bad
  headers;
- execution reports carry their body length and checksum, and the engine's own field
  scanner reads their order fields back;
- formatted prices read back as the same price, and fit in 20 bytes when not negative;
- queues stay in time order, and live orders are accounted for across submissions;
- inserting a level keeps a red-black tree red-black; removing one keeps it red-black
  where the node taken out of its place is red or leaves a child there (a black node
  that leaves nothing behind is not repaired).

The tests under `tests/` exercise the library with concrete values.
