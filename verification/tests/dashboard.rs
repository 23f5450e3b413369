//! Dashboard tests: the snapshot's text, routing and control.

use orderflow::dashboard::{
    answer, is_space, record, request_path, response_head, route, serialize, Control, Print, Route,
};
use orderflow::{Event, MarketMaker, Sim, SimConfig, STRATEGY_ID_BASE};

fn chars(s: &str) -> Vec<char> {
    s.chars().collect()
}

fn path_of(line: &str) -> String {
    request_path(&chars(line)).into_iter().collect()
}

fn routed(path: &str) -> Route {
    route(&chars(path))
}

#[test]
fn fresh_snapshot_has_exactly_this_text() {
    let sim = Sim::new(SimConfig {
        informed_pct: 40,
        ..SimConfig::default()
    });
    assert_eq!(
        serialize(&sim, false, &vec![]),
        "{\"step\":0,\"paused\":false,\"informed\":40,\"mark\":10000,\"position\":0,\"cash\":0,\
         \"equity\":0,\"fills\":0,\"lots\":0,\"best_bid\":0,\"best_ask\":0,\"bids\":[],\"asks\":[],\
         \"tape\":[],\"curve\":[]}"
    );
}

#[test]
fn snapshot_lists_levels_tape_and_curve() {
    let cfg = SimConfig {
        sample_every: 2,
        ..SimConfig::default()
    };
    let mut sim = Sim::new(cfg);
    let mut mm = MarketMaker::new(2, 5, 50, 50);
    for _ in 0..1_700 {
        assert!(sim.step(&mut mm));
    }
    let mut tape = Vec::new();
    for i in 0..30 {
        tape.push(Print {
            step: i,
            price: -(i as i64),
            qty: 100 + i,
            strategy_involved: i % 2 == 1,
        });
    }
    let json = serialize(&sim, true, &tape);
    assert!(json.starts_with("{\"step\":1700,\"paused\":true,\"informed\":100,"));
    // The newest 24 trades, newest first.
    assert!(json.contains("\"tape\":[[29,-29,129,1],[28,-28,128,0],"));
    assert!(json.contains(",[6,-6,106,0]],\"curve\":"));
    // At most 15 levels, best first.
    let bids: Vec<String> = sim
        .book()
        .bid_levels()
        .into_iter()
        .take(15)
        .map(|(p, q)| format!("[{p},{q}]"))
        .collect();
    assert!(json.contains(&format!("\"bids\":[{}],\"asks\"", bids.join(","))));
    // 850 samples: every second one and the last.
    let curve = sim.equity_curve();
    assert_eq!(curve.len(), 850);
    let shown: Vec<String> = (0..850)
        .filter(|i| i % 2 == 0 || *i == 849)
        .map(|i| format!("[{},{}]", curve[i].0, curve[i].1))
        .collect();
    assert!(json.ends_with(&format!("\"curve\":[{}]}}", shown.join(","))));
}

#[test]
fn tape_keeps_the_newest_trades() {
    let trade = |maker, price| Event::Trade {
        maker,
        taker: 7,
        price,
        qty: 3,
    };
    let print = |step, price, ours| Print {
        step,
        price,
        qty: 3,
        strategy_involved: ours,
    };
    let mut tape = Vec::new();
    record(
        &mut tape,
        4,
        &vec![
            Event::Accepted { id: 7 },
            trade(1, 10),
            trade(STRATEGY_ID_BASE, 11),
            Event::Canceled { id: 7, remaining: 1 },
        ],
        3,
    );
    assert_eq!(tape, vec![print(4, 10, false), print(4, 11, true)]);
    record(&mut tape, 5, &vec![], 3);
    assert_eq!(tape.len(), 2);
    record(&mut tape, 6, &vec![trade(2, 12), trade(3, 13)], 3);
    assert_eq!(
        tape,
        vec![print(4, 11, true), print(6, 12, false), print(6, 13, false)]
    );
    record(&mut tape, 7, &vec![trade(2, 14)], 0);
    assert_eq!(tape, vec![]);
}

#[test]
fn request_lines_name_their_path() {
    assert_eq!(path_of("GET /state HTTP/1.1\r\n"), "/state");
    assert_eq!(path_of("  GET \t /pause"), "/pause");
    assert_eq!(path_of("GET"), "/");
    assert_eq!(path_of("GET   "), "/");
    assert_eq!(path_of(""), "/");
    assert_eq!(path_of("GET\u{2003}/x\u{a0}y"), "/x");
    for c in ['\u{9}', '\n', ' ', '\u{85}', '\u{a0}', '\u{1680}', '\u{2028}', '\u{3000}'] {
        assert!(is_space(c) && c.is_whitespace());
    }
    for c in ['/', 'a', '\u{200b}', '\u{8}', '\u{180e}'] {
        assert!(!is_space(c) && !c.is_whitespace());
    }
}

#[test]
fn paths_are_routed() {
    assert_eq!(routed("/"), Route::Page);
    assert_eq!(routed("/state"), Route::State);
    assert_eq!(routed("/pause"), Route::Pause);
    assert_eq!(routed("/states"), Route::Unknown);
    assert_eq!(routed(""), Route::Unknown);
    assert_eq!(routed("/set?informed"), Route::Unknown);
    for (text, want) in [
        ("0", Route::Informed(0)),
        ("40", Route::Informed(40)),
        ("100", Route::Informed(100)),
        ("+7", Route::Informed(7)),
        ("0000000000000000000000042", Route::Informed(42)),
        ("101", Route::BadInformed),
        ("99999999999999999999999999", Route::BadInformed),
        ("", Route::BadInformed),
        ("+", Route::BadInformed),
        ("-0", Route::BadInformed),
        ("4 0", Route::BadInformed),
        ("x", Route::BadInformed),
    ] {
        assert_eq!(routed(&format!("/set?informed={text}")), want);
        let parsed = text.parse::<u64>().ok().filter(|v| *v <= 100);
        assert_eq!(matches!(want, Route::Informed(_)), parsed.is_some());
    }
    for percent in 0..=100u64 {
        assert_eq!(
            routed(&format!("/set?informed={percent}")),
            Route::Informed(percent)
        );
    }
}

#[test]
fn control_notes_requests() {
    let mut c = Control::new(40);
    assert_eq!(c.take_restart(), Some(40));
    assert_eq!(c.take_restart(), None);
    c.note(Route::Pause);
    assert!(c.paused);
    c.note(Route::Pause);
    assert!(!c.paused);
    c.note(Route::Informed(80));
    c.note(Route::BadInformed);
    c.note(Route::State);
    assert_eq!(c.take_restart(), Some(80));
    assert_eq!(c, Control { informed_pct: 80, paused: false, restart: false });
}

#[test]
fn answers_carry_status_type_and_body() {
    let mut c = Control::new(40);
    let reply = |r, c| answer(r, c, "<page>", "{}");
    let text = |status, body: &str| (status, "text/plain", body.to_string());
    assert_eq!(
        reply(Route::Page, c),
        ("200 OK", "text/html; charset=utf-8", "<page>".to_string())
    );
    assert_eq!(
        reply(Route::State, c),
        ("200 OK", "application/json", "{}".to_string())
    );
    assert_eq!(reply(Route::Informed(3), c), text("200 OK", "ok"));
    assert_eq!(
        reply(Route::BadInformed, c),
        text("400 Bad Request", "informed must be 0-100")
    );
    assert_eq!(reply(Route::Pause, c), text("200 OK", "paused=false"));
    c.note(Route::Pause);
    assert_eq!(reply(Route::Pause, c), text("200 OK", "paused=true"));
    assert_eq!(reply(Route::Unknown, c), text("404 Not Found", "not found"));
    assert_eq!(
        response_head("200 OK", "text/plain", 1_234_567_890),
        "HTTP/1.1 200 OK\r\nContent-Type: text/plain\r\nContent-Length: 1234567890\r\n\
         Connection: close\r\n\r\n"
    );
    assert!(response_head("x", "y", 0).contains("Content-Length: 0\r\n"));
}
