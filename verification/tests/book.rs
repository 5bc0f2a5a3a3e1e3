use binance_stream_handler::book_task::{BookTask, TaskAction};
use binance_stream_handler::depth::{DepthSnapshot, DepthUpdate, UpdateDecision};
use binance_stream_handler::numeric::parse_fixed;
use binance_stream_handler::order_book::{levels_parse, OrderBook};

fn lv(p: &str, q: &str) -> (String, String) {
    (p.to_string(), q.to_string())
}

fn event(sym: &str, first: u64, last: u64, prev: u64) -> DepthUpdate {
    DepthUpdate {
        e: "depthUpdate".to_string(),
        E: 0,
        T: 0,
        s: sym.to_string(),
        U: first,
        u: last,
        pu: prev,
        b: vec![],
        a: vec![],
    }
}

fn snapshot(id: u64, bids: Vec<(String, String)>, asks: Vec<(String, String)>) -> DepthSnapshot {
    DepthSnapshot { last_update_id: id, E: 0, T: 0, bids, asks }
}

#[test]
fn new_book_normalizes_symbol_uppercase() {
    let ob = OrderBook::new("adausdt");
    assert_eq!(ob.symbol, "ADAUSDT");
    assert_eq!(ob.last_u, None);
    assert_eq!(ob.snapshot_id, None);
    assert_eq!(ob.depth, 1000);
    assert!(ob.bids.is_empty());
    assert!(ob.asks.is_empty());
}

#[test]
fn parse_fixed_exact_values() {
    assert_eq!(parse_fixed("10.00"), Some(1_000_000_000));
    assert_eq!(parse_fixed("2"), Some(200_000_000));
    assert_eq!(parse_fixed("0"), Some(0));
    assert_eq!(parse_fixed("0.00000001"), Some(1));
    assert_eq!(parse_fixed("123"), Some(12_300_000_000));
    assert_eq!(parse_fixed(".5"), Some(50_000_000));
    assert_eq!(parse_fixed("5."), Some(500_000_000));
    assert_eq!(parse_fixed("0.000"), Some(0));
}

#[test]
fn parse_fixed_rejects_malformed() {
    assert_eq!(parse_fixed(""), None);
    assert_eq!(parse_fixed("."), None);
    assert_eq!(parse_fixed("1.2.3"), None);
    assert_eq!(parse_fixed("abc"), None);
    assert_eq!(parse_fixed("1e5"), None);
    assert_eq!(parse_fixed("-1"), None);
    assert_eq!(parse_fixed("0.000000001"), None);
}

#[test]
fn parse_fixed_overflow_boundary() {
    // u64::MAX == 18446744073709551615, scaled by 1e8.
    assert_eq!(parse_fixed("184467440737.09551615"), Some(u64::MAX));
    assert_eq!(parse_fixed("184467440737.09551616"), None);
    assert_eq!(parse_fixed("99999999999999999999999999"), None);
}

#[test]
fn levels_parse_detects_bad_entries() {
    assert!(levels_parse(&vec![lv("10.00", "2"), lv("9.5", "0")]));
    assert!(!levels_parse(&vec![lv("10.00", "2"), lv("bad", "0")]));
    assert!(!levels_parse(&vec![lv("10.00", "x")]));
    assert!(levels_parse(&vec![]));
}

#[test]
fn seed_discards_zero_quantities() {
    // Round trip: the book's levels equal the snapshot's non-zero levels.
    let mut ob = OrderBook::new("ADAUSDT");
    let snap = snapshot(
        100,
        vec![lv("10.00", "2"), lv("9.50", "0")],
        vec![lv("11.00", "1")],
    );
    ob.from_snapshot(&snap);
    assert_eq!(ob.bids, vec![(1_000_000_000, 200_000_000)]);
    assert_eq!(ob.asks, vec![(1_100_000_000, 100_000_000)]);
    assert_eq!(ob.snapshot_id, Some(100));
    assert_eq!(ob.last_u, None);
}

#[test]
fn seed_keeps_first_on_duplicate_price_with_zero() {
    // A later zero entry for the same price is skipped, not a removal.
    let mut ob = OrderBook::new("ADAUSDT");
    let snap = snapshot(7, vec![lv("10", "2"), lv("10", "0")], vec![]);
    ob.from_snapshot(&snap);
    assert_eq!(ob.bids, vec![(1_000_000_000, 200_000_000)]);
}

#[test]
fn happy_seed_and_apply() {
    let mut ob = OrderBook::new("ADAUSDT");
    ob.from_snapshot(&snapshot(
        100,
        vec![lv("10.00", "2")],
        vec![lv("11.00", "1")],
    ));
    let mut ev = event("ADAUSDT", 99, 101, 98);
    ev.b = vec![lv("10.00", "3")];
    let d = ob.continuity_check(&ev);
    assert!(matches!(d, UpdateDecision::Apply));
    ob.apply_update(&ev);
    assert_eq!(ob.bids, vec![(1_000_000_000, 300_000_000)]);
    assert_eq!(ob.asks, vec![(1_100_000_000, 100_000_000)]);
    assert_eq!(ob.last_u, Some(101));
}

#[test]
fn apply_sets_last_u_and_removes_on_zero() {
    let mut ob = OrderBook::new("ADAUSDT");
    ob.from_snapshot(&snapshot(
        100,
        vec![lv("10.00", "2"), lv("9.00", "4")],
        vec![lv("11.00", "1")],
    ));
    let mut ev = event("ADAUSDT", 99, 150, 98);
    ev.b = vec![lv("10.00", "0")];
    ev.a = vec![lv("11.50", "7")];
    assert!(matches!(ob.continuity_check(&ev), UpdateDecision::Apply));
    ob.apply_update(&ev);
    assert_eq!(ob.last_u, Some(150));
    assert_eq!(ob.bids, vec![(900_000_000, 400_000_000)]);
    assert_eq!(
        ob.asks,
        vec![(1_100_000_000, 100_000_000), (1_150_000_000, 700_000_000)]
    );
    // Every stored level keeps a strictly positive quantity.
    for (_, q) in ob.bids.iter().chain(ob.asks.iter()) {
        assert!(*q > 0);
    }
}

#[test]
fn apply_overwrites_duplicate_prices_in_one_event() {
    let mut ob = OrderBook::new("ADAUSDT");
    ob.from_snapshot(&snapshot(100, vec![], vec![]));
    let mut ev = event("ADAUSDT", 99, 101, 98);
    ev.b = vec![lv("10.00", "1"), lv("10.00", "2")];
    assert!(matches!(ob.continuity_check(&ev), UpdateDecision::Apply));
    ob.apply_update(&ev);
    assert_eq!(ob.bids, vec![(1_000_000_000, 200_000_000)]);
}

#[test]
fn stale_event_pre_snapshot_dropped() {
    let mut ob = OrderBook::new("ADAUSDT");
    ob.from_snapshot(&snapshot(200, vec![lv("10", "2")], vec![]));
    let ev = event("ADAUSDT", 150, 190, 149);
    let d = ob.continuity_check(&ev);
    assert!(matches!(d, UpdateDecision::Drop));
    assert_eq!(ob.bids, vec![(1_000_000_000, 200_000_000)]);
    assert_eq!(ob.last_u, None);
}

#[test]
fn first_aligned_event_applies() {
    let mut ob = OrderBook::new("ADAUSDT");
    ob.from_snapshot(&snapshot(200, vec![], vec![]));
    // U <= 201 <= u with last_u unset.
    let ev = event("ADAUSDT", 201, 205, 149);
    assert!(matches!(ob.continuity_check(&ev), UpdateDecision::Apply));
}

#[test]
fn gap_after_seed_resyncs() {
    let mut ob = OrderBook::new("ADAUSDT");
    ob.from_snapshot(&snapshot(200, vec![], vec![]));
    let ev = event("ADAUSDT", 250, 260, 249);
    match ob.continuity_check(&ev) {
        UpdateDecision::Resync(c) => {
            assert_eq!(c.symbol, "ADAUSDT");
            assert_eq!(c.expected_pu, None);
            assert_eq!(c.got_pu, 249);
            assert_eq!(c.got_u, 260);
        }
        _ => panic!("expected a resync"),
    }
}

#[test]
fn duplicate_event_mid_stream_dropped() {
    let mut ob = OrderBook::new("ADAUSDT");
    ob.snapshot_id = Some(400);
    ob.last_u = Some(500);
    let ev = event("ADAUSDT", 490, 499, 480);
    assert!(matches!(ob.continuity_check(&ev), UpdateDecision::Drop));
    assert_eq!(ob.last_u, Some(500));
}

#[test]
fn mid_stream_gap_resyncs_and_unsets_last_u() {
    let mut ob = OrderBook::new("ADAUSDT");
    ob.snapshot_id = Some(400);
    ob.last_u = Some(500);
    let ev = event("ADAUSDT", 502, 510, 501);
    match ob.continuity_check(&ev) {
        UpdateDecision::Resync(c) => {
            assert_eq!(c.expected_pu, Some(500));
            assert_eq!(c.got_pu, 501);
            assert_eq!(c.got_u, 510);
        }
        _ => panic!("expected a resync"),
    }
    assert_eq!(ob.last_u, None);
}

#[test]
fn chained_event_applies() {
    let mut ob = OrderBook::new("ADAUSDT");
    ob.snapshot_id = Some(400);
    ob.last_u = Some(500);
    let ev = event("ADAUSDT", 501, 510, 500);
    assert!(matches!(ob.continuity_check(&ev), UpdateDecision::Apply));
}

#[test]
fn consecutive_applies_chain_through_u() {
    // Once running, the only accepted successor of an applied event with
    // final id u is one whose pu equals that u.
    let mut ob = OrderBook::new("ADAUSDT");
    ob.from_snapshot(&snapshot(100, vec![], vec![]));
    let e1 = event("ADAUSDT", 99, 101, 98);
    assert!(matches!(ob.continuity_check(&e1), UpdateDecision::Apply));
    ob.apply_update(&e1);
    let mut dup = event("ADAUSDT", 95, 100, 94);
    assert!(matches!(ob.continuity_check(&dup), UpdateDecision::Drop));
    dup = event("ADAUSDT", 102, 110, 101);
    assert!(matches!(ob.continuity_check(&dup), UpdateDecision::Apply));
    ob.apply_update(&dup);
    assert_eq!(ob.last_u, Some(110));
}

#[test]
fn unseeded_book_resyncs() {
    let mut ob = OrderBook::new("ADAUSDT");
    let ev = event("ADAUSDT", 1, 2, 0);
    match ob.continuity_check(&ev) {
        UpdateDecision::Resync(c) => {
            assert_eq!(c.expected_pu, None);
            assert_eq!(c.got_pu, 0);
            assert_eq!(c.got_u, 2);
        }
        _ => panic!("expected a resync"),
    }
}

#[test]
fn best_bid_and_ask() {
    let mut ob = OrderBook::new("ADAUSDT");
    assert_eq!(ob.best_bid(), None);
    assert_eq!(ob.best_ask(), None);
    ob.from_snapshot(&snapshot(
        5,
        vec![lv("10", "2"), lv("9", "1"), lv("11", "3")],
        vec![lv("12", "1"), lv("13", "2")],
    ));
    assert_eq!(ob.best_bid(), Some((1_100_000_000, 300_000_000)));
    assert_eq!(ob.best_ask(), Some((1_200_000_000, 100_000_000)));
}

#[test]
fn task_drains_until_snapshot() {
    let mut task = BookTask::new("adausdt");
    assert!(task.resync_pending);
    let ev = event("ADAUSDT", 1, 2, 0);
    assert!(matches!(task.on_event(&ev), TaskAction::Ignore));
    let ok = task.on_snapshot(&snapshot(100, vec![lv("10", "2")], vec![]));
    assert!(ok);
    assert!(!task.resync_pending);
    assert_eq!(task.book.snapshot_id, Some(100));
}

#[test]
fn task_publishes_on_aligned_event() {
    let mut task = BookTask::new("ADAUSDT");
    assert!(task.on_snapshot(&snapshot(100, vec![lv("10", "2")], vec![])));
    let mut ev = event("ADAUSDT", 99, 101, 98);
    ev.b = vec![lv("10", "3")];
    assert!(matches!(task.on_event(&ev), TaskAction::Publish));
    assert_eq!(task.book.last_u, Some(101));
    assert_eq!(task.book.bids, vec![(1_000_000_000, 300_000_000)]);
}

#[test]
fn task_resyncs_on_gap_then_reseeds() {
    let mut task = BookTask::new("ADAUSDT");
    assert!(task.on_snapshot(&snapshot(200, vec![], vec![])));
    let ev = event("ADAUSDT", 250, 260, 249);
    match task.on_event(&ev) {
        TaskAction::Resync(c) => {
            assert_eq!(c.got_u, 260);
        }
        _ => panic!("expected a resync"),
    }
    assert!(task.resync_pending);
    // Events are drained while the resync is pending.
    let ev2 = event("ADAUSDT", 261, 270, 260);
    assert!(matches!(task.on_event(&ev2), TaskAction::Ignore));
    // A fresh snapshot reseeds and resumes.
    assert!(task.on_snapshot(&snapshot(300, vec![lv("1", "1")], vec![])));
    assert!(!task.resync_pending);
    assert_eq!(task.book.snapshot_id, Some(300));
}

#[test]
fn task_ignores_malformed_event() {
    let mut task = BookTask::new("ADAUSDT");
    assert!(task.on_snapshot(&snapshot(100, vec![lv("10", "2")], vec![])));
    let mut ev = event("ADAUSDT", 99, 101, 98);
    ev.b = vec![lv("not-a-number", "3")];
    assert!(matches!(task.on_event(&ev), TaskAction::Ignore));
    assert_eq!(task.book.last_u, None);
    assert_eq!(task.book.bids, vec![(1_000_000_000, 200_000_000)]);
}

#[test]
fn task_refuses_malformed_snapshot() {
    let mut task = BookTask::new("ADAUSDT");
    let ok = task.on_snapshot(&snapshot(100, vec![lv("oops", "2")], vec![]));
    assert!(!ok);
    assert!(task.resync_pending);
    assert_eq!(task.book.snapshot_id, None);
}
