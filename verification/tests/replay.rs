//! Workload and replay tests: exact numbers, exact messages, determinism.

use orderflow::flow::FlowGen;
use orderflow::replay::{apply, counts, depth_digest, generate, has_room_for, try_apply};
use orderflow::rng::Rng;
use orderflow::workloads::{sample_stream, seeded_book};
use orderflow::{
    CountingSink, Event, Msg, NullSink, OrderBook, Reader, Side, Tif, VecSink,
};

fn messages(stream: &[u8]) -> Vec<Msg> {
    let mut reader = Reader::new(stream);
    let mut msgs = Vec::new();
    while let Some(msg) = reader.next() {
        msgs.push(msg.expect("stream decodes"));
    }
    msgs
}

#[test]
fn rng_is_splitmix64() {
    let mut rng = Rng::new(0);
    assert_eq!(rng.next(), 0xE220_A839_7B1D_CDAF);
    assert_eq!(rng.next(), 0x6E78_9E6A_A1B9_65F4);
    assert_eq!(rng.next(), 0x06C4_5D18_8009_454F);
    let mut rng = Rng::new(0);
    assert_eq!(rng.below(100), 0xE220_A839_7B1D_CDAF % 100);
}

#[test]
fn generate_gives_the_seeded_messages() {
    let new = |id, side, price, qty, tif| Msg::New {
        id,
        side,
        price,
        qty,
        tif,
    };
    assert_eq!(
        messages(&generate(14, 42)),
        vec![
            new(1, Side::Bid, 10_004, 63, Tif::Fok),
            new(2, Side::Ask, 10_014, 47, Tif::Gtc),
            Msg::Market {
                id: 3,
                side: Side::Bid,
                qty: 131
            },
            new(4, Side::Ask, 10_000, 42, Tif::Ioc),
            new(5, Side::Bid, 9_999, 92, Tif::Gtc),
            new(6, Side::Ask, 10_014, 59, Tif::Gtc),
            Msg::Cancel { id: 6 },
            new(7, Side::Bid, 9_998, 45, Tif::Gtc),
            Msg::Cancel { id: 7 },
            new(8, Side::Bid, 9_985, 49, Tif::Ioc),
            Msg::Replace {
                id: 5,
                price: 10_003,
                qty: 50
            },
            new(9, Side::Bid, 9_994, 3, Tif::Gtc),
            new(10, Side::Ask, 10_004, 98, Tif::Gtc),
            new(11, Side::Ask, 10_002, 71, Tif::Gtc),
        ]
    );
}

#[test]
fn generated_streams_are_reproducible_and_decode() {
    let stream = generate(5_000, 7);
    assert_eq!(stream, generate(5_000, 7));
    assert_ne!(stream, generate(5_000, 8));
    let msgs = messages(&stream);
    assert_eq!(msgs.len(), 5_000);
    // New ids only ever grow, and every other id was handed out before.
    let mut last = 0;
    for msg in &msgs {
        match *msg {
            Msg::New { id, qty, .. } => {
                assert_eq!(id, last + 1);
                assert!((1..=100).contains(&qty));
                last = id;
            }
            Msg::Market { id, qty, .. } => {
                assert_eq!(id, last + 1);
                assert!((1..=200).contains(&qty));
                last = id;
            }
            Msg::Cancel { id } => assert!(id <= last),
            Msg::Replace { id, qty, .. } => {
                assert!(id <= last);
                assert!((1..=100).contains(&qty));
            }
        }
    }
    assert_eq!(generate(0, 7), Vec::<u8>::new());
}

#[test]
fn flow_follows_the_reference_it_is_given() {
    // Nobody is informed: prices stay near the book mid, not the hidden one.
    let mut flow = FlowGen::new(3, 10_000);
    for _ in 0..500 {
        match flow.next_op(Some(500), 0) {
            Msg::New { price, .. } => assert!((485..=515).contains(&price)),
            Msg::Replace { price, .. } => assert!((492..=507).contains(&price)),
            _ => {}
        }
    }
    assert!(flow.mid() > 9_000);
    // Everybody is informed: prices stay near the hidden mid.
    let mut flow = FlowGen::new(3, 10_000);
    for _ in 0..500 {
        if let Msg::New { price, .. } = flow.next_op(Some(500), 100) {
            assert!((price - flow.mid()).abs() <= 15);
        }
    }
    // Without a book mid, the hidden one serves.
    let mut flow = FlowGen::new(3, 10_000);
    if let Msg::New { price, .. } = flow.next_op(None, 0) {
        assert!((price - flow.mid()).abs() <= 15);
    }
    assert!(flow.next_id() >= 1);
}

#[test]
fn flow_is_asked_before_its_numbers_run_out() {
    // Whatever is drawn, a message is at most 15 ticks from its reference.
    for seed in 0..200 {
        assert!(FlowGen::new(seed, i64::MAX - 16).allows_next_op(None, 100));
        assert!(FlowGen::new(seed, i64::MIN + 16).allows_next_op(None, 100));
    }
    // At the very end it depends on the draw.
    let ends = |allowed| {
        (0..200).filter(move |s| FlowGen::new(*s, i64::MAX).allows_next_op(None, 100) == allowed)
    };
    assert!(ends(true).count() > 0 && ends(false).count() > 0);
    for seed in ends(true) {
        let mut flow = FlowGen::new(seed, i64::MAX);
        if let Msg::New { price, .. } = flow.next_op(None, 100) {
            assert!(price >= i64::MAX - 16);
        }
    }
}

#[test]
fn replay_twice_gives_the_same_totals_and_digest() {
    let stream = generate(20_000, 42);
    let mut results = Vec::new();
    for _ in 0..2 {
        let mut book = OrderBook::with_capacity(10_000);
        let mut sink = CountingSink::default();
        for msg in messages(&stream) {
            assert!(try_apply(&mut book, msg, &mut sink));
        }
        assert!(book.assert_consistent());
        results.push((
            sink.accepts,
            sink.trades,
            sink.traded_qty,
            sink.cancels,
            sink.rejects,
            book.len(),
            book.best_bid(),
            book.best_ask(),
            depth_digest(&book),
        ));
    }
    assert_eq!(results[0], results[1]);
    assert!(results[0].1 > 0);
}

#[test]
fn counters_count_each_kind_of_event() {
    let stream = generate(3_000, 9);
    let mut book = OrderBook::new();
    let mut twin = OrderBook::new();
    let mut counts = CountingSink::default();
    let mut events = VecSink::default();
    for msg in messages(&stream) {
        apply(&mut book, msg, &mut counts);
        apply(&mut twin, msg, &mut events);
    }
    let number = |f: &dyn Fn(&Event) -> bool| events.events.iter().filter(|e| f(e)).count() as u64;
    assert_eq!(counts.trades, number(&|e| matches!(e, Event::Trade { .. })));
    assert_eq!(counts.accepts, number(&|e| matches!(e, Event::Accepted { .. })));
    assert_eq!(counts.cancels, number(&|e| matches!(e, Event::Canceled { .. })));
    assert_eq!(counts.rejects, number(&|e| matches!(e, Event::Rejected { .. })));
    let lots: u64 = events
        .events
        .iter()
        .map(|e| match *e {
            Event::Trade { qty, .. } => qty,
            _ => 0,
        })
        .sum();
    assert_eq!(counts.traded_qty, lots);
}

#[test]
fn try_apply_refuses_what_does_not_fit() {
    let mut book = OrderBook::new();
    let mut sink = CountingSink::default();
    let big = |id, qty| Msg::New {
        id,
        side: Side::Bid,
        price: 5,
        qty,
        tif: Tif::Gtc,
    };
    assert!(try_apply(&mut book, big(1, u64::MAX - 1), &mut sink));
    assert!(!try_apply(&mut book, big(2, 2), &mut sink));
    assert_eq!((book.len(), sink.accepts), (1, 1));
    assert!(try_apply(&mut book, big(2, 1), &mut sink));
    assert_eq!(book.level_qty(Side::Bid, 5), u64::MAX);
    sink.traded_qty = u64::MAX;
    let market = Msg::Market {
        id: 3,
        side: Side::Ask,
        qty: 1,
    };
    assert!(!try_apply(&mut book, market, &mut sink));
    sink.traded_qty = 0;
    assert!(try_apply(&mut book, market, &mut sink));
    assert_eq!((sink.trades, sink.traded_qty), (1, 1));
}

#[test]
fn only_what_comes_to_rest_needs_room() {
    let mut book = OrderBook::new();
    let mut sink = CountingSink::default();
    let new = |id, side, price, qty, tif| Msg::New {
        id,
        side,
        price,
        qty,
        tif,
    };
    let ask = new(1, Side::Ask, 100, 1, Tif::Gtc);
    assert!(try_apply(&mut book, ask, &mut sink));
    // Trades one lot and cancels the rest.
    let ioc = new(2, Side::Bid, 100, u64::MAX, Tif::Ioc);
    assert!(has_room_for(&book, ioc) && counts(&book, &sink, ioc));
    assert!(try_apply(&mut book, ioc, &mut sink));
    assert_eq!((sink.trades, sink.traded_qty, sink.cancels), (1, 1, 1));
    assert!(book.is_empty());
    // A full level takes a replacement of its own order, but no more lots.
    let full = new(3, Side::Bid, 99, u64::MAX, Tif::Gtc);
    assert!(try_apply(&mut book, full, &mut sink));
    assert!(!try_apply(&mut book, new(4, Side::Bid, 99, 1, Tif::Gtc), &mut sink));
    assert!(try_apply(&mut book, new(4, Side::Bid, 99, 1, Tif::Fok), &mut sink));
    let replace = |id, price, qty| Msg::Replace { id, price, qty };
    assert!(try_apply(&mut book, replace(3, 99, u64::MAX), &mut sink));
    assert!(try_apply(&mut book, replace(9, 99, u64::MAX), &mut sink));
    assert_eq!(sink.rejects, 2);
    assert!(try_apply(&mut book, new(5, Side::Bid, 98, 1, Tif::Gtc), &mut sink));
    assert!(!try_apply(&mut book, replace(5, 99, 1), &mut sink));
    assert_eq!(book.locate(5), Some((Side::Bid, 98, 1)));
    assert!(book.assert_consistent());
}

#[test]
fn counters_are_only_asked_for_what_happens() {
    let mut book = seeded_book(2, 2);
    let mut sink = CountingSink::default();
    let market = |id, qty| Msg::Market {
        id,
        side: Side::Bid,
        qty,
    };
    // 25 lots meet two orders of ten and a half of a third.
    assert_eq!(book.fill_count(Side::Bid, 10_001, 25), 2);
    assert_eq!(book.fill_count(Side::Bid, 10_002, 25), 3);
    assert_eq!(book.fill_count(Side::Bid, 10_002, 20), 2);
    assert_eq!(book.fill_count(Side::Bid, 10_002, u64::MAX), 4);
    assert_eq!(book.fill_count(Side::Bid, 10_000, 25), 0);
    assert_eq!(book.crossable_qty(Side::Bid, 10_002, u64::MAX), 40);
    sink.trades = u64::MAX - 2;
    assert!(!try_apply(&mut book, market(90, 25), &mut sink));
    assert!(try_apply(&mut book, market(90, 20), &mut sink));
    assert_eq!((sink.trades, sink.traded_qty), (u64::MAX, 20));
    sink.trades = 0;
    sink.traded_qty = u64::MAX - 20;
    assert!(try_apply(&mut book, market(91, u64::MAX), &mut sink));
    assert_eq!((sink.trades, sink.traded_qty), (2, u64::MAX));
    // Nothing is left to trade with: the order is accepted and canceled.
    assert!(try_apply(&mut book, market(92, u64::MAX), &mut sink));
    assert_eq!((sink.accepts, sink.cancels), (3, 2));
    sink.cancels = u64::MAX;
    assert!(!try_apply(&mut book, market(93, 1), &mut sink));
}

#[test]
fn digest_is_fnv_over_the_depth() {
    let mut book = OrderBook::new();
    assert_eq!(depth_digest(&book), 0xcbf2_9ce4_8422_2325);
    book.submit_limit(1, Side::Bid, 98, 7, Tif::Gtc, &mut NullSink);
    book.submit_limit(2, Side::Bid, 99, 5, Tif::Gtc, &mut NullSink);
    book.submit_limit(3, Side::Ask, 101, 3, Tif::Gtc, &mut NullSink);
    assert_eq!(depth_digest(&book), 0xab89_ce7a_ac5b_14de);
    let mut below = OrderBook::new();
    below.submit_limit(1, Side::Ask, -1, 5, Tif::Gtc, &mut NullSink);
    assert_eq!(depth_digest(&below), 0xf7ca_0ef8_4b11_a7d1);
}

#[test]
fn seeded_book_has_the_asked_levels() {
    let book = seeded_book(3, 2);
    assert_eq!(book.len(), 12);
    assert_eq!(
        book.bid_levels(),
        vec![(9_999, 20), (9_998, 20), (9_997, 20)]
    );
    assert_eq!(
        book.ask_levels(),
        vec![(10_001, 20), (10_002, 20), (10_003, 20)]
    );
    assert_eq!(book.order_qty(1), Some(10));
    assert_eq!(book.order_qty(12), Some(10));
    assert_eq!(book.order_qty(13), None);
    assert!(book.assert_consistent());
    assert!(seeded_book(0, 5).is_empty());
    assert!(seeded_book(5, 0).is_empty());
    // Bids have the odd ids, oldest first.
    let mut book = seeded_book(2, 2);
    let mut sink = VecSink::default();
    book.submit_market(99, Side::Ask, 25, &mut sink);
    assert_eq!(
        sink.events,
        vec![
            Event::Accepted { id: 99 },
            Event::Trade {
                maker: 1,
                taker: 99,
                price: 9_999,
                qty: 10
            },
            Event::Trade {
                maker: 3,
                taker: 99,
                price: 9_999,
                qty: 10
            },
            Event::Trade {
                maker: 5,
                taker: 99,
                price: 9_998,
                qty: 5
            },
        ]
    );
}

#[test]
fn sample_stream_mixes_all_messages() {
    assert_eq!(
        messages(&sample_stream(8)),
        vec![
            Msg::New {
                id: 0,
                side: Side::Bid,
                price: 10_000,
                qty: 1,
                tif: Tif::Gtc
            },
            Msg::Cancel { id: 0 },
            Msg::Replace {
                id: 1,
                price: 9_998,
                qty: 3
            },
            Msg::Market {
                id: 3,
                side: Side::Ask,
                qty: 4
            },
            Msg::New {
                id: 4,
                side: Side::Bid,
                price: 10_004,
                qty: 5,
                tif: Tif::Gtc
            },
            Msg::Cancel { id: 2 },
            Msg::Replace {
                id: 3,
                price: 9_994,
                qty: 7
            },
            Msg::Market {
                id: 7,
                side: Side::Ask,
                qty: 8
            },
        ]
    );
}
