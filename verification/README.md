# orderflow

A single-threaded, price-time-priority limit order book matching engine with a
fixed-layout binary order-entry protocol, deterministic workloads, an
event-driven backtester that uses the engine as its exchange, and the data side
of a live dashboard. The library is written in Verus: every function carries a
contract, and every contract is proved.

## Layout

| path | what it holds |
|------|---------------|
| `src/model.rs` | what a book is and what each request does to it, as mathematics |
| `src/book.rs` | the engine: slab storage, intrusive FIFO queues, price ladders |
| `src/slab.rs`, `src/ladder.rs`, `src/hash.rs`, `src/parts.rs` | the structures the engine is made of, and how they represent a book |
| `src/laws.rs`, `src/requests.rs` | what the matching rules and the requests promise |
| `src/flat.rs` | a deliberately naive book, and the proof that the engine has the same events |
| `src/events.rs`, `src/types.rs` | events, sinks and basic types |
| `src/wire.rs` | the codec and its round-trip laws |
| `src/rng.rs`, `src/flow.rs`, `src/replay.rs`, `src/workloads.rs` | seeded order flow and fixed workloads |
| `src/account.rs`, `src/strategy.rs`, `src/sim.rs`, `src/sim_laws.rs` | the backtester |
| `src/safety.rs` | when a simulation is safe, so that a run owes a report |
| `src/dashboard.rs` | JSON snapshots, the trade tape, request routing and control |
| `app/` | the command-line front end: timing, sockets, threads, printing |

## Reading the contracts

A book's view is a `BookState`: per side and price, the queue of resting
orders, oldest first. `submit_limit`, `submit_market`, `cancel` and `replace`
say that the next view, and the exact sequence of events handed to the sink,
are those of the function of that name on `BookState`. What a sink makes of an
event is up to the sink: it says so in `EventSink::takes`, and the engine
promises that exactly the events of the request were delivered, in order.

Orders rest only while machine limits allow it: a level's total quantity is a
`u64` and the slab addresses fewer than 2^32 orders. `OrderBook::limit_has_room`
and `OrderBook::replace_has_room` say exactly whether a request fits;
`OrderBook::has_room` says whether any request of a size at a price would.

Prices are integer ticks and quantities integer lots; there is no floating
point in the library.
