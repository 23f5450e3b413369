//! Engine tests beyond the matching rules: conservation, undoing, accessors,
//! the id index and the sinks.

use std::hash::Hasher;

use orderflow::hash::{IdHasher, IdMap};
use orderflow::{
    CountingSink, Event, EventSink, NullSink, OrderBook, RejectReason, Side, Tif, VecSink,
};

fn rest(book: &mut OrderBook, id: u64, side: Side, price: i64, qty: u64) {
    book.submit_limit(id, side, price, qty, Tif::Gtc, &mut NullSink);
}

fn events(f: impl FnOnce(&mut VecSink)) -> Vec<Event> {
    let mut sink = VecSink::default();
    f(&mut sink);
    sink.events
}

#[test]
fn crossing_order_fills_the_maker_in_part() {
    let mut book = OrderBook::new();
    let mut sink = VecSink::default();
    book.submit_limit(1, Side::Ask, 1005, 10, Tif::Gtc, &mut sink); // rests
    book.submit_limit(2, Side::Bid, 1005, 4, Tif::Gtc, &mut sink); // crosses
    assert!(sink.events.contains(&Event::Trade {
        maker: 1,
        taker: 2,
        price: 1005,
        qty: 4
    }));
    assert_eq!(book.order_qty(1), Some(6)); // maker partially filled
}

#[test]
fn sides_are_opposite() {
    assert_eq!(Side::Bid.opposite(), Side::Ask);
    assert_eq!(Side::Ask.opposite(), Side::Bid);
    assert_eq!(Side::Bid.opposite().opposite(), Side::Bid);
}

#[test]
fn empty_books_are_empty() {
    for book in [
        OrderBook::new(),
        OrderBook::default(),
        OrderBook::with_capacity(100),
    ] {
        assert!(book.is_empty());
        assert_eq!(book.len(), 0);
        assert_eq!((book.best_bid(), book.best_ask()), (None, None));
        assert_eq!(book.level_qty(Side::Bid, 1), 0);
        assert_eq!(book.order_qty(1), None);
        assert_eq!(book.bid_levels(), vec![]);
        assert!(book.assert_consistent());
    }
}

#[test]
fn every_refusal_has_its_reason_and_changes_nothing() {
    let mut b = OrderBook::new();
    rest(&mut b, 1, Side::Bid, 100, 5);
    let reject = |id, reason| vec![Event::Rejected { id, reason }];
    assert_eq!(
        events(|s| b.submit_limit(2, Side::Bid, 100, 0, Tif::Gtc, s)),
        reject(2, RejectReason::ZeroQty)
    );
    // No quantity is reported before a known id.
    assert_eq!(
        events(|s| b.submit_limit(1, Side::Bid, 100, 0, Tif::Gtc, s)),
        reject(1, RejectReason::ZeroQty)
    );
    assert_eq!(
        events(|s| b.submit_limit(1, Side::Ask, 100, 5, Tif::Fok, s)),
        reject(1, RejectReason::DuplicateId)
    );
    assert_eq!(
        events(|s| b.submit_limit(2, Side::Ask, 100, 6, Tif::Fok, s)),
        reject(2, RejectReason::FokUnfillable)
    );
    assert_eq!(
        events(|s| b.submit_market(2, Side::Ask, 0, s)),
        reject(2, RejectReason::ZeroQty)
    );
    assert_eq!(
        events(|s| b.submit_market(1, Side::Ask, 1, s)),
        reject(1, RejectReason::DuplicateId)
    );
    assert_eq!(
        events(|s| b.cancel(9, s)),
        reject(9, RejectReason::UnknownOrder)
    );
    // An unknown order is reported before a missing quantity.
    assert_eq!(
        events(|s| b.replace(9, 100, 0, s)),
        reject(9, RejectReason::UnknownOrder)
    );
    assert_eq!(
        events(|s| b.replace(1, 100, 0, s)),
        reject(1, RejectReason::ZeroQty)
    );
    assert_eq!(b.len(), 1);
    assert_eq!(b.order_qty(1), Some(5));
    assert!(b.assert_consistent());
}

#[test]
fn lots_are_conserved() {
    let mut b = OrderBook::new();
    rest(&mut b, 1, Side::Ask, 100, 4);
    rest(&mut b, 2, Side::Ask, 100, 6);
    rest(&mut b, 3, Side::Ask, 102, 9);
    let out = events(|s| b.submit_limit(4, Side::Bid, 101, 25, Tif::Ioc, s));
    let traded: u64 = out
        .iter()
        .map(|e| match *e {
            Event::Trade { qty, .. } => qty,
            _ => 0,
        })
        .sum();
    assert_eq!(traded, 10);
    assert_eq!(
        out.last(),
        Some(&Event::Canceled {
            id: 4,
            remaining: 15
        })
    );
    assert_eq!(b.ask_levels(), vec![(102, 9)]);
    assert_eq!(b.best_bid(), None);
}

#[test]
fn market_order_is_an_unlimited_ioc() {
    let build = || {
        let mut b = OrderBook::new();
        rest(&mut b, 1, Side::Bid, -7, 4);
        rest(&mut b, 2, Side::Bid, i64::MIN, 6);
        b
    };
    let (mut a, mut b) = (build(), build());
    let market = events(|s| a.submit_market(3, Side::Ask, 12, s));
    let limit = events(|s| b.submit_limit(3, Side::Ask, i64::MIN, 12, Tif::Ioc, s));
    assert_eq!(market, limit);
    assert_eq!(market.len(), 4);
    assert!(a.is_empty() && b.is_empty());
}

#[test]
fn cancel_undoes_a_passive_order() {
    let mut b = OrderBook::new();
    rest(&mut b, 1, Side::Bid, 100, 5);
    rest(&mut b, 2, Side::Ask, 103, 5);
    let (bids, asks) = (b.bid_levels(), b.ask_levels());
    rest(&mut b, 3, Side::Bid, 100, 7);
    assert_eq!(b.level_qty(Side::Bid, 100), 12);
    assert_eq!(
        events(|s| b.cancel(3, s)),
        vec![Event::Canceled {
            id: 3,
            remaining: 7
        }]
    );
    assert_eq!((b.bid_levels(), b.ask_levels()), (bids, asks));
    assert_eq!(
        events(|s| b.cancel(3, s)),
        vec![Event::Rejected {
            id: 3,
            reason: RejectReason::UnknownOrder
        }]
    );
}

#[test]
fn replace_is_cancel_and_resubmit_under_the_same_id() {
    let build = || {
        let mut b = OrderBook::new();
        rest(&mut b, 1, Side::Bid, 100, 5);
        rest(&mut b, 2, Side::Bid, 100, 5);
        rest(&mut b, 3, Side::Ask, 104, 2);
        b
    };
    let (mut a, mut b) = (build(), build());
    let replaced = events(|s| a.replace(1, 104, 8, s));
    b.cancel(1, &mut NullSink);
    let fresh = events(|s| b.submit_limit(1, Side::Bid, 104, 8, Tif::Gtc, s));
    assert_eq!(replaced[0], Event::Replaced { id: 1 });
    assert_eq!(fresh[0], Event::Accepted { id: 1 });
    assert_eq!(replaced[1..], fresh[1..]);
    assert_eq!(a.bid_levels(), b.bid_levels());
    assert_eq!(a.order_qty(1), Some(6));
    // The same quantity at the same price goes to the back of the queue.
    let mut c = build();
    c.replace(1, 100, 5, &mut NullSink);
    let out = events(|s| c.submit_market(9, Side::Ask, 5, s));
    assert!(matches!(out[1], Event::Trade { maker: 2, .. }));
}

#[test]
fn extreme_prices_keep_their_order() {
    let mut b = OrderBook::new();
    rest(&mut b, 1, Side::Bid, i64::MIN, 1);
    rest(&mut b, 2, Side::Bid, -1, 2);
    rest(&mut b, 3, Side::Bid, 0, 3);
    rest(&mut b, 4, Side::Ask, i64::MAX, 4);
    rest(&mut b, 5, Side::Ask, 1, 5);
    assert_eq!(b.bid_levels(), vec![(0, 3), (-1, 2), (i64::MIN, 1)]);
    assert_eq!(b.ask_levels(), vec![(1, 5), (i64::MAX, 4)]);
    assert_eq!((b.best_bid(), b.best_ask()), (Some(0), Some(1)));
    assert!(b.assert_consistent());
}

#[test]
fn matching_takes_the_best_and_the_earliest() {
    let mut b = OrderBook::new();
    rest(&mut b, 1, Side::Ask, 12, 5);
    rest(&mut b, 2, Side::Ask, 10, 4);
    rest(&mut b, 3, Side::Ask, 10, 3);
    rest(&mut b, 4, Side::Ask, 11, 2);
    let fill = |maker, price, qty| Event::Trade {
        maker,
        taker: 9,
        price,
        qty,
    };
    let mut sink = VecSink::default();
    // Within the limit only the two lower prices can be had.
    assert_eq!(b.match_incoming(9, Side::Bid, Some(11), 20, &mut sink), 11);
    assert_eq!(
        sink.events,
        vec![fill(2, 10, 4), fill(3, 10, 3), fill(4, 11, 2)]
    );
    sink.events.clear();
    assert_eq!(b.match_incoming(9, Side::Bid, None, 2, &mut sink), 0);
    assert_eq!(sink.events, vec![fill(1, 12, 2)]);
    assert_eq!(b.ask_levels(), vec![(12, 3)]);
    assert!(b.assert_consistent());
}

#[test]
fn replacing_is_cancel_and_resubmit() {
    let seeded = || {
        let mut b = OrderBook::new();
        rest(&mut b, 1, Side::Bid, 9, 4);
        rest(&mut b, 2, Side::Bid, 9, 5);
        rest(&mut b, 3, Side::Ask, 11, 3);
        rest(&mut b, 4, Side::Ask, 12, 3);
        b
    };
    for (price, qty) in [(9, 4), (9, 7), (8, 1), (11, 2), (12, 9)] {
        let mut replaced = seeded();
        let mut events = VecSink::default();
        replaced.replace(1, price, qty, &mut events);
        let mut fresh = seeded();
        let mut steps = VecSink::default();
        fresh.cancel(1, &mut steps);
        steps.events.clear();
        fresh.submit_limit(1, Side::Bid, price, qty, Tif::Gtc, &mut steps);
        assert_eq!(events.events[0], Event::Replaced { id: 1 });
        assert_eq!(steps.events[0], Event::Accepted { id: 1 });
        assert_eq!(events.events[1..], steps.events[1..]);
        assert_eq!(replaced.bid_levels(), fresh.bid_levels());
        assert_eq!(replaced.ask_levels(), fresh.ask_levels());
        assert_eq!(replaced.locate(1), fresh.locate(1));
    }
}

#[test]
fn room_is_limited_by_the_level_quantity() {
    let mut b = OrderBook::new();
    assert!(b.has_room(7, u64::MAX));
    rest(&mut b, 1, Side::Ask, 7, 10);
    assert!(b.has_room(7, u64::MAX - 10));
    assert!(!b.has_room(7, u64::MAX - 9));
    assert!(b.has_room(8, u64::MAX));
}

#[test]
fn slots_are_recycled() {
    let mut b = OrderBook::new();
    for round in 0..50u64 {
        for k in 0..20 {
            rest(&mut b, round * 100 + k, Side::Bid, 100 - k as i64 % 3, 5);
        }
        for k in (0..20).rev() {
            b.cancel(round * 100 + (k * 7) % 20, &mut NullSink);
        }
        assert!(b.is_empty());
        assert!(b.assert_consistent());
    }
}

#[test]
fn hasher_is_a_splitmix_finalizer() {
    let mut h = IdHasher::default();
    assert_eq!(h.finish(), 0);
    h.write_u64(0);
    assert_eq!(h.finish(), 0xE220_A839_7B1D_CDAF);
    // Other keys are folded byte by byte, then mixed.
    let mut folded = IdHasher::default();
    folded.write(&[1, 2]);
    let mut direct = IdHasher::default();
    direct.write_u64(258);
    assert_eq!(folded.finish(), direct.finish());
}

#[test]
fn id_map_behaves_like_a_map() {
    let mut map: IdMap<u32> = IdMap::with_capacity(0);
    for id in 0..1_000u64 {
        map.insert(id * 0x1_0000_0001, id as u32);
    }
    assert_eq!(map.len(), 1_000);
    map.insert(0, 77);
    assert_eq!(map.len(), 1_000);
    assert_eq!(map.get(0), Some(77));
    assert_eq!(map.get(1), None);
    for id in 1..1_000u64 {
        assert!(map.contains_key(id * 0x1_0000_0001));
        assert_eq!(map.remove(id * 0x1_0000_0001), Some(id as u32));
    }
    assert_eq!(map.remove(5), None);
    assert_eq!(map.len(), 1);
}

#[test]
fn sinks_take_what_they_say() {
    let trade = Event::Trade {
        maker: 1,
        taker: 2,
        price: 3,
        qty: 4,
    };
    let mut all = VecSink::default();
    let mut counts = CountingSink::default();
    let mut none = NullSink;
    for ev in [
        trade,
        trade,
        Event::Accepted { id: 1 },
        Event::Canceled {
            id: 1,
            remaining: 2,
        },
        Event::Replaced { id: 1 },
        Event::Rejected {
            id: 1,
            reason: RejectReason::ZeroQty,
        },
    ] {
        all.on_event(ev);
        counts.on_event(ev);
        none.on_event(ev);
    }
    assert_eq!(all.events.len(), 6);
    assert_eq!(all.events[1], trade);
    assert_eq!((counts.trades, counts.traded_qty), (2, 8));
    assert_eq!((counts.accepts, counts.cancels, counts.rejects), (1, 1, 1));
}

#[test]
fn callers_may_bring_their_own_sink() {
    struct Last(Option<Event>);
    impl EventSink for Last {
        fn on_event(&mut self, ev: Event) {
            self.0 = Some(ev);
        }
    }
    let mut sink = Last(None);
    OrderBook::new().submit_market(5, Side::Bid, 9, &mut sink);
    assert_eq!(
        sink.0,
        Some(Event::Canceled {
            id: 5,
            remaining: 9
        })
    );
}
