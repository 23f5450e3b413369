//! Backtester tests: determinism, accounting and the example strategies.

use orderflow::sim::{checked_metrics, compute_metrics, involves, is_strategy};
use orderflow::strategy::book_mid;
use orderflow::{
    run, Account, Action, Event, IdGen, MarketMaker, MarketView, Momentum, NullSink, OrderBook,
    RejectReason, Side, Sim, SimConfig, Strategy, Tif, STRATEGY_ID_BASE,
};

struct DoNothing;

impl Strategy for DoNothing {
    fn on_wake(&mut self, _: &MarketView, _: &mut IdGen, _: &mut Vec<Action>) {}
    fn on_event(&mut self, _: &Event) {}
}

#[test]
fn deterministic_across_runs() {
    let cfg = SimConfig {
        steps: 50_000,
        ..SimConfig::default()
    };
    let r1 = run(&cfg, &mut MarketMaker::new(2, 5, 50, 50)).unwrap();
    let r2 = run(&cfg, &mut MarketMaker::new(2, 5, 50, 50)).unwrap();
    assert_eq!(r1.final_equity, r2.final_equity);
    assert_eq!(r1.fills, r2.fills);
    assert_eq!(r1.equity_curve, r2.equity_curve);
}

#[test]
fn accounting_flat_strategy_has_zero_pnl() {
    let cfg = SimConfig {
        steps: 20_000,
        ..SimConfig::default()
    };
    let r = run(&cfg, &mut DoNothing).unwrap();
    assert_eq!(r.fills, 0);
    assert_eq!(r.final_position, 0);
    assert_eq!(r.final_equity, 0);
}

#[test]
fn market_taker_pays_the_spread() {
    // A strategy that immediately buys and sells at market should lose
    // roughly the spread on each round trip — its equity must be <= 0
    // in a book with a positive spread.
    struct RoundTripper {
        done: bool,
    }
    impl Strategy for RoundTripper {
        fn on_wake(&mut self, view: &MarketView, ids: &mut IdGen, out: &mut Vec<Action>) {
            if self.done || view.book.best_bid().is_none() || view.book.best_ask().is_none() {
                return;
            }
            out.push(Action::Market {
                id: ids.next_id(),
                side: Side::Bid,
                qty: 10,
            });
            out.push(Action::Market {
                id: ids.next_id(),
                side: Side::Ask,
                qty: 10,
            });
            self.done = true;
        }
        fn on_event(&mut self, _: &Event) {}
    }
    let cfg = SimConfig {
        steps: 20_000,
        ..SimConfig::default()
    };
    let r = run(&cfg, &mut RoundTripper { done: false }).unwrap();
    assert_eq!(r.final_position, 0);
    assert!(
        r.final_equity <= 0,
        "crossing the spread twice cannot profit"
    );
    assert!(r.fills >= 2);
}

#[test]
fn default_config_has_the_documented_values() {
    assert_eq!(
        SimConfig::default(),
        SimConfig {
            steps: 1_000_000,
            seed: 42,
            wake_every: 8,
            sample_every: 1_000,
            start_mid: 10_000,
            warmup: 5_000,
            informed_pct: 100,
        }
    );
    assert_eq!(STRATEGY_ID_BASE, 1 << 40);
}

#[test]
fn account_books_both_sides() {
    let mut a = Account::default();
    a.on_fill(Side::Bid, 100, 7);
    assert_eq!((a.position, a.cash), (7, -700));
    a.on_fill(Side::Ask, 103, 10);
    assert_eq!((a.position, a.cash), (-3, 330));
    assert_eq!((a.fills, a.traded_lots), (2, 17));
    assert_eq!((a.bought_lots, a.bought_notional), (7, 700));
    assert_eq!((a.sold_lots, a.sold_notional), (10, 1030));
    assert_eq!(a.equity(110), 0);
    assert_eq!(a.equity(100), 30);
    // A fill at the mark leaves equity as it was.
    let before = a.equity(105);
    a.on_fill(Side::Bid, 105, 4);
    assert_eq!(a.equity(105), before);
}

#[test]
fn account_refuses_what_it_cannot_hold() {
    let mut a = Account::default();
    assert!(a.accepts(Side::Bid, i64::MAX, i64::MAX as u64));
    assert!(!a.accepts(Side::Bid, 1, i64::MAX as u64 + 1));
    a.on_fill(Side::Bid, 1, i64::MAX as u64);
    assert!(!a.accepts(Side::Bid, 1, 1));
    assert!(a.accepts(Side::Ask, 1, 1));
    assert_eq!(a.checked_equity(1), Some(0));
    assert_eq!(a.checked_equity(-1), Some(-2 * (i64::MAX as i128)));
    // Equity is in range as long as its type holds it.
    a.position = 1;
    a.cash = i128::MAX - 5;
    assert_eq!(a.checked_equity(5), Some(i128::MAX));
    assert_eq!(a.checked_equity(6), None);
    a.cash = i128::MIN + 5;
    assert_eq!(a.checked_equity(-5), Some(i128::MIN));
    assert_eq!(a.checked_equity(-6), None);
}

#[test]
fn drawdown_is_the_largest_fall() {
    assert_eq!(compute_metrics(&vec![]), 0);
    assert_eq!(compute_metrics(&vec![(0, 5)]), 0);
    assert_eq!(compute_metrics(&vec![(0, 1), (1, 2), (2, 3)]), 0);
    assert_eq!(
        compute_metrics(&vec![(0, 10), (1, 4), (2, 12), (3, -1), (4, 7)]),
        13
    );
    assert_eq!(compute_metrics(&vec![(0, -5), (1, -9)]), 4);
    // A fall that its type cannot hold is told apart.
    assert_eq!(
        checked_metrics(&vec![(0, i128::MAX), (1, 0), (2, 7)]),
        Some(i128::MAX)
    );
    assert_eq!(checked_metrics(&vec![(0, i128::MAX), (1, -1)]), None);
    assert_eq!(checked_metrics(&vec![(0, i128::MIN), (1, i128::MAX)]), Some(0));
}

#[test]
fn ids_come_from_the_reserved_range() {
    let mut ids = IdGen::new();
    assert_eq!(ids.next_id(), STRATEGY_ID_BASE);
    assert_eq!(ids.next_id(), STRATEGY_ID_BASE + 1);
    assert_eq!(ids.left(), u64::MAX - STRATEGY_ID_BASE - 2);
    assert!(is_strategy(STRATEGY_ID_BASE));
    assert!(!is_strategy(STRATEGY_ID_BASE - 1));
    assert!(involves(Event::Trade {
        maker: 1,
        taker: STRATEGY_ID_BASE,
        price: 1,
        qty: 1
    }));
    assert!(!involves(Event::Accepted { id: 9 }));
}

fn book_with(orders: &[(u64, Side, i64, u64)]) -> OrderBook {
    let mut book = OrderBook::new();
    for &(id, side, price, qty) in orders {
        book.submit_limit(id, side, price, qty, Tif::Gtc, &mut NullSink);
    }
    book
}

fn view(book: &OrderBook, position: i64) -> MarketView<'_> {
    MarketView {
        book,
        step: 0,
        last_trade: None,
        position,
        cash: 0,
    }
}

#[test]
fn mid_rounds_towards_zero_and_falls_back() {
    let both = book_with(&[(1, Side::Bid, 99, 1), (2, Side::Ask, 102, 1)]);
    assert_eq!(view(&both, 0).mid(), Some(100));
    let below = book_with(&[(1, Side::Bid, -102, 1), (2, Side::Ask, -99, 1)]);
    assert_eq!(book_mid(&below, Some(7)), Some(-100));
    let one = book_with(&[(1, Side::Bid, 99, 1)]);
    assert_eq!(book_mid(&one, Some(7)), Some(7));
    assert_eq!(book_mid(&one, None), None);
    let wide = book_with(&[(1, Side::Bid, i64::MAX - 2, 1), (2, Side::Ask, i64::MAX, 1)]);
    assert_eq!(book_mid(&wide, None), Some(i64::MAX - 1));
}

#[test]
fn market_maker_quotes_around_the_skewed_mid() {
    let book = book_with(&[(1, Side::Bid, 90, 1), (2, Side::Ask, 110, 1)]);
    let mut mm = MarketMaker::new(2, 5, 50, 50);
    let mut ids = IdGen::new();
    let mut out = Vec::new();
    // Long 9 lots at half a tick each: the center moves down 4 ticks.
    mm.on_wake(&view(&book, 9), &mut ids, &mut out);
    assert_eq!(
        out,
        vec![
            Action::Limit {
                id: STRATEGY_ID_BASE,
                side: Side::Bid,
                price: 94,
                qty: 5,
                tif: Tif::Gtc
            },
            Action::Limit {
                id: STRATEGY_ID_BASE + 1,
                side: Side::Ask,
                price: 98,
                qty: 5,
                tif: Tif::Gtc
            },
        ]
    );
    // Nothing moved: the quotes keep their place.
    out.clear();
    mm.on_wake(&view(&book, 9), &mut ids, &mut out);
    assert_eq!(out, vec![]);
    // Position gone: both sides are pulled and quoted anew.
    mm.on_wake(&view(&book, 0), &mut ids, &mut out);
    assert_eq!(
        out,
        vec![
            Action::Cancel {
                id: STRATEGY_ID_BASE
            },
            Action::Cancel {
                id: STRATEGY_ID_BASE + 1
            },
            Action::Limit {
                id: STRATEGY_ID_BASE + 2,
                side: Side::Bid,
                price: 98,
                qty: 5,
                tif: Tif::Gtc
            },
            Action::Limit {
                id: STRATEGY_ID_BASE + 3,
                side: Side::Ask,
                price: 102,
                qty: 5,
                tif: Tif::Gtc
            },
        ]
    );
}

#[test]
fn market_maker_never_quotes_through_the_touch() {
    let book = book_with(&[(1, Side::Bid, 99, 1), (2, Side::Ask, 101, 1)]);
    let mut mm = MarketMaker::new(2, 5, 100, 50);
    let mut ids = IdGen::new();
    let mut out = Vec::new();
    // Short 20 lots: the center would move up 20 ticks, to 120.
    mm.on_wake(&view(&book, -20), &mut ids, &mut out);
    assert_eq!(
        out[0],
        Action::Limit {
            id: STRATEGY_ID_BASE,
            side: Side::Bid,
            price: 100,
            qty: 5,
            tif: Tif::Gtc
        }
    );
    // At the limit only the side that reduces the position is quoted.
    let mut capped = MarketMaker::new(2, 5, 0, 50);
    out.clear();
    capped.on_wake(&view(&book, 50), &mut ids, &mut out);
    assert_eq!(out.len(), 1);
    assert!(matches!(out[0], Action::Limit { side: Side::Ask, .. }));
    out.clear();
    let mut capped = MarketMaker::new(2, 5, 0, 50);
    capped.on_wake(&view(&book, -50), &mut ids, &mut out);
    assert_eq!(out.len(), 1);
    assert!(matches!(out[0], Action::Limit { side: Side::Bid, .. }));
    // Held back on that side, it has nothing to add when woken again.
    out.clear();
    capped.on_wake(&view(&book, -50), &mut ids, &mut out);
    assert_eq!(out, vec![]);
    // Without a mid there is nothing to quote around.
    out.clear();
    MarketMaker::new(2, 5, 0, 50).on_wake(&view(&OrderBook::new(), 0), &mut ids, &mut out);
    assert_eq!(out, vec![]);
}

#[test]
fn market_maker_tracks_its_quotes() {
    let book = book_with(&[(1, Side::Bid, 90, 1), (2, Side::Ask, 110, 1)]);
    let mut mm = MarketMaker::new(2, 5, 0, 50);
    let mut ids = IdGen::new();
    let mut out = Vec::new();
    mm.on_wake(&view(&book, 0), &mut ids, &mut out);
    let (bid, ask) = (STRATEGY_ID_BASE, STRATEGY_ID_BASE + 1);
    // A partial fill leaves the quote, a full one forgets it.
    mm.on_event(&Event::Trade {
        maker: bid,
        taker: 8,
        price: 98,
        qty: 3,
    });
    out.clear();
    mm.on_wake(&view(&book, 0), &mut ids, &mut out);
    assert_eq!(out, vec![]);
    mm.on_event(&Event::Trade {
        maker: bid,
        taker: 9,
        price: 98,
        qty: 2,
    });
    mm.on_wake(&view(&book, 0), &mut ids, &mut out);
    assert_eq!(out.len(), 1);
    assert!(matches!(out[0], Action::Limit { side: Side::Bid, id, .. } if id == ask + 1));
    // A reject forgets the quote too.
    mm.on_event(&Event::Rejected {
        id: ask,
        reason: RejectReason::DuplicateId,
    });
    mm.on_event(&Event::Canceled {
        id: ask + 1,
        remaining: 5,
    });
    out.clear();
    mm.on_wake(&view(&book, 0), &mut ids, &mut out);
    assert_eq!(out.len(), 2);
}

#[test]
fn momentum_crosses_when_the_mid_moved_enough() {
    let low = book_with(&[(1, Side::Bid, 99, 1), (2, Side::Ask, 101, 1)]);
    let high = book_with(&[(1, Side::Bid, 104, 1), (2, Side::Ask, 106, 1)]);
    let mut momentum = Momentum::new(1, 4, 5, 50);
    let mut ids = IdGen::new();
    let mut out = Vec::new();
    momentum.on_wake(&view(&low, 0), &mut ids, &mut out);
    assert_eq!(out, vec![]);
    momentum.on_wake(&view(&high, 0), &mut ids, &mut out);
    assert_eq!(
        out,
        vec![Action::Market {
            id: STRATEGY_ID_BASE,
            side: Side::Bid,
            qty: 5
        }]
    );
    out.clear();
    momentum.on_wake(&view(&low, 0), &mut ids, &mut out);
    assert_eq!(
        out,
        vec![Action::Market {
            id: STRATEGY_ID_BASE + 1,
            side: Side::Ask,
            qty: 5
        }]
    );
    // At the position limit it stays out.
    out.clear();
    momentum.on_wake(&view(&high, 50), &mut ids, &mut out);
    assert_eq!(out, vec![]);
}

#[test]
fn momentum_stays_out_at_its_threshold() {
    let low = book_with(&[(1, Side::Bid, 999, 10), (2, Side::Ask, 1001, 10)]);
    let high = book_with(&[(1, Side::Bid, 1003, 10), (2, Side::Ask, 1005, 10)]);
    let mut momentum = Momentum::new(1, 4, 5, 50);
    let mut ids = IdGen::new();
    let mut out = Vec::new();
    for book in [&low, &high, &low] {
        momentum.on_wake(&view(book, 0), &mut ids, &mut out);
        assert_eq!(out, vec![]);
    }
    assert_eq!(ids.next_id(), STRATEGY_ID_BASE);
}

#[test]
fn account_balances_at_every_step() {
    let cfg = SimConfig {
        steps: 8_000,
        warmup: 500,
        informed_pct: 40,
        ..SimConfig::default()
    };
    let mut sim = Sim::new(cfg);
    let mut mm = MarketMaker::new(2, 5, 50, 50);
    for step in 0..cfg.steps {
        assert_eq!(sim.current_step(), step);
        assert!(sim.step(&mut mm));
        let a = sim.account();
        assert_eq!(a.position as i128, a.bought_lots as i128 - a.sold_lots as i128);
        assert_eq!(a.cash, a.sold_notional - a.bought_notional);
        assert_eq!(a.traded_lots, a.bought_lots + a.sold_lots);
    }
    assert!(sim.book().assert_consistent());
    let report = sim.report().unwrap();
    assert_eq!(report.equity_curve.len(), 9);
    assert_eq!(report.equity_curve[8], (8_000, report.final_equity));
    assert_eq!(sim.equity_curve().len(), 8);
    assert!(report.fills > 0);
    // The same run in one go reports the same.
    let again = run(&cfg, &mut MarketMaker::new(2, 5, 50, 50)).unwrap();
    assert_eq!(again.equity_curve, report.equity_curve);
    assert_eq!(again.max_drawdown_ticklots, report.max_drawdown_ticklots);
}

#[test]
fn wake_ups_come_when_they_are_due() {
    struct Log {
        steps: Vec<u64>,
    }
    impl Strategy for Log {
        fn on_wake(&mut self, view: &MarketView, _: &mut IdGen, out: &mut Vec<Action>) {
            assert!(out.is_empty());
            self.steps.push(view.step);
            out.push(Action::Cancel { id: 0 });
        }
        fn on_event(&mut self, _: &Event) {}
    }
    let cfg = SimConfig {
        steps: 60,
        wake_every: 7,
        warmup: 20,
        ..SimConfig::default()
    };
    let mut log = Log { steps: Vec::new() };
    assert!(run(&cfg, &mut log).is_some());
    assert_eq!(log.steps, vec![21, 28, 35, 42, 49, 56]);
}

#[test]
fn resubmitted_orders_are_noted_anew() {
    // A canceled order is forgotten; submitted again under the same id, its
    // fills are booked again.
    struct Again {
        id: u64,
    }
    impl Strategy for Again {
        fn on_wake(&mut self, view: &MarketView, ids: &mut IdGen, out: &mut Vec<Action>) {
            if self.id == 0 {
                self.id = ids.next_id();
            }
            let Some(price) = view.book.best_bid() else {
                return;
            };
            out.push(Action::Cancel { id: self.id });
            out.push(Action::Limit {
                id: self.id,
                side: Side::Bid,
                price,
                qty: 5,
                tif: Tif::Gtc,
            });
        }
        fn on_event(&mut self, _: &Event) {}
    }
    let cfg = SimConfig {
        steps: 5_000,
        warmup: 100,
        ..SimConfig::default()
    };
    let r = run(&cfg, &mut Again { id: 0 }).unwrap();
    assert!(r.fills > 0);
    assert_eq!(r.final_position as i128, r.bought_lots as i128);
}

#[test]
fn run_stops_where_numbers_run_out() {
    let cfg = SimConfig {
        steps: 10,
        start_mid: i64::MAX,
        ..SimConfig::default()
    };
    assert!(run(&cfg, &mut DoNothing).is_none());
    // Close to the end of the price type only what is drawn matters.
    let near = SimConfig {
        steps: 1,
        seed: 0,
        start_mid: i64::MAX - 12,
        ..SimConfig::default()
    };
    let r = run(&near, &mut DoNothing).unwrap();
    assert_eq!(r.equity_curve, vec![(0, 0), (1, 0)]);
    let none = SimConfig {
        steps: 0,
        ..SimConfig::default()
    };
    let r = run(&none, &mut DoNothing).unwrap();
    assert_eq!(r.equity_curve, vec![(0, 0)]);
}

fn toxicity(informed_pct: u64) -> (i128, i128, f64) {
    let cfg = SimConfig {
        steps: 1_000_000,
        informed_pct,
        ..SimConfig::default()
    };
    let r = run(&cfg, &mut MarketMaker::new(2, 5, 50, 50)).unwrap();
    let avg_buy = r.bought_notional as f64 / r.bought_lots.max(1) as f64;
    let avg_sell = r.sold_notional as f64 / r.sold_lots.max(1) as f64;
    (
        r.final_equity,
        r.max_drawdown_ticklots,
        ((avg_sell - avg_buy) * 100.0).round(),
    )
}

#[test]
fn uninformed_flow_pays_the_market_maker() {
    assert_eq!(toxicity(0), (52_549, 282, 32.0));
}

#[test]
fn half_informed_flow_still_pays() {
    assert_eq!(toxicity(40), (91_554, 258, 49.0));
}

#[test]
fn informed_flow_runs_the_market_maker_over() {
    assert_eq!(toxicity(100), (-349_838, 351_020, -250.0));
}
