use binance_stream_handler::depth::DepthUpdate;
use binance_stream_handler::router::{
    in_window, sub_secs_wrap, Active, DualRouter, Mode, ModeTicker, RouterAction, RouterCore,
};

fn event(sym: &str, final_id: u64) -> DepthUpdate {
    DepthUpdate {
        e: "depthUpdate".to_string(),
        E: 0,
        T: 0,
        s: sym.to_string(),
        U: final_id,
        u: final_id,
        pu: final_id.wrapping_sub(1),
        b: vec![],
        a: vec![],
    }
}

fn forwarded(out: &mut Vec<(usize, u64)>, act: RouterAction) {
    if let RouterAction::Forward(idx, ev) = act {
        out.push((idx, ev.u));
    }
}

#[test]
fn in_window_plain_and_wrapping() {
    assert!(in_window(5, 0, 10));
    assert!(!in_window(10, 0, 10));
    assert!(in_window(0, 0, 10));
    // Wraps midnight: [86000, 100).
    assert!(in_window(86100, 86000, 100));
    assert!(in_window(50, 86000, 100));
    assert!(!in_window(100, 86000, 100));
    assert!(!in_window(40000, 86000, 100));
}

#[test]
fn sub_secs_wrap_wraps_midnight() {
    assert_eq!(sub_secs_wrap(10, 3), 7);
    assert_eq!(sub_secs_wrap(1, 3), 86398);
    assert_eq!(sub_secs_wrap(0, 3), 86397);
}

#[test]
fn ticker_computes_modes_and_deduplicates() {
    // cut_a = 02:00:00, cut_b = 12:00:00.
    let mut t = ModeTicker::new(7200, 43200);
    // The control channel starts on OnlyA, so OnlyA is not re-emitted.
    assert_eq!(t.tick(10000), None);
    // Overlap window [43197, 43200) before cut_b.
    assert_eq!(t.tick(43197), Some(Mode::BothAB));
    // Identical mode twice in succession: one change seen, not two.
    assert_eq!(t.tick(43198), None);
    assert_eq!(t.tick(43200), Some(Mode::OnlyB));
    assert_eq!(t.tick(50000), None);
    // Overlap before cut_a, then A's own window.
    assert_eq!(t.tick(7197), Some(Mode::BothAB));
    assert_eq!(t.tick(7200), Some(Mode::OnlyA));
    assert_eq!(t.tick(7201), None);
}

#[test]
fn dual_router_pairs_complementary_windows() {
    let dr = DualRouter::new(
        (7200, 43200),
        vec!["ADAUSDT".to_string(), "DOGEUSDT".to_string()],
    );
    assert_eq!(dr.stream_a.life_span, (7200, 43200));
    assert_eq!(dr.stream_b.life_span, (43200, 7200));
    assert_eq!(dr.stream_a.currency_pairs, dr.currency_pairs);
    assert_eq!(dr.stream_b.currency_pairs, dr.currency_pairs);
}

#[test]
fn start_actions_align_connections() {
    let core = RouterCore::new(vec!["XUSDT".to_string()], 4, Mode::OnlyA);
    let acts = core.start_actions();
    assert!(matches!(acts[0], RouterAction::OpenA));
    assert!(matches!(acts[1], RouterAction::CloseB));
    let core_b = RouterCore::new(vec!["XUSDT".to_string()], 4, Mode::OnlyB);
    let acts_b = core_b.start_actions();
    assert!(matches!(acts_b[0], RouterAction::OpenB));
    assert!(matches!(acts_b[1], RouterAction::CloseA));
}

#[test]
fn unknown_symbol_dropped_silently() {
    let mut core = RouterCore::new(vec!["XUSDT".to_string()], 4, Mode::OnlyA);
    assert!(core.on_event(Active::A, event("YUSDT", 1)).is_none());
}

#[test]
fn event_symbol_is_normalized_uppercase() {
    let mut core = RouterCore::new(vec!["XUSDT".to_string()], 4, Mode::OnlyA);
    match core.on_event(Active::A, event("xusdt", 9)) {
        Some(RouterAction::Forward(0, ev)) => assert_eq!(ev.u, 9),
        _ => panic!("expected a forward to index 0"),
    }
}

#[test]
fn invalid_mode_hop_is_refused() {
    let mut core = RouterCore::new(vec!["XUSDT".to_string()], 4, Mode::OnlyA);
    let r = core.on_mode_change(Mode::OnlyB);
    match r {
        Err(e) => {
            assert_eq!(e.from, Mode::OnlyA);
            assert_eq!(e.to, Mode::OnlyB);
        }
        Ok(_) => panic!("expected the hop to be refused"),
    }
    // A repeated mode is a silent no-op.
    let same = core.on_mode_change(Mode::OnlyA).unwrap();
    assert!(same.is_empty());
}

#[test]
fn handoff_preserves_per_symbol_order() {
    // A carries x1,x2,x3; B carries y1,y2,y3 around the cutover.
    let mut core = RouterCore::new(vec!["XUSDT".to_string()], 16, Mode::OnlyA);
    let mut out: Vec<(usize, u64)> = Vec::new();

    // Before the overlap: x1, x2 forward directly.
    for id in [1u64, 2] {
        if let Some(a) = core.on_event(Active::A, event("XUSDT", id)) {
            forwarded(&mut out, a);
        }
    }
    // Overlap opens B; A stays active.
    let acts = core.on_mode_change(Mode::BothAB).unwrap();
    assert!(matches!(acts[0], RouterAction::OpenB));
    // y1 parks, x3 forwards, y2 parks.
    assert!(core.on_event(Active::B, event("XUSDT", 101)).is_none());
    if let Some(a) = core.on_event(Active::A, event("XUSDT", 3)) {
        forwarded(&mut out, a);
    }
    assert!(core.on_event(Active::B, event("XUSDT", 102)).is_none());
    // Hand-off: the flush emits y1, y2 before anything else.
    let acts = core.on_mode_change(Mode::OnlyB).unwrap();
    for a in acts {
        forwarded(&mut out, a);
    }
    // y3 forwards from the new active stream.
    if let Some(a) = core.on_event(Active::B, event("XUSDT", 103)) {
        forwarded(&mut out, a);
    }
    assert_eq!(
        out,
        vec![(0, 1), (0, 2), (0, 3), (0, 101), (0, 102), (0, 103)]
    );
}

#[test]
fn park_overflow_drops_oldest() {
    let mut core = RouterCore::new(vec!["XUSDT".to_string()], 2, Mode::OnlyA);
    core.on_mode_change(Mode::BothAB).unwrap();
    for id in [1u64, 2, 3, 4] {
        assert!(core.on_event(Active::B, event("XUSDT", id)).is_none());
    }
    let acts = core.on_mode_change(Mode::OnlyB).unwrap();
    let mut out: Vec<(usize, u64)> = Vec::new();
    for a in acts {
        forwarded(&mut out, a);
    }
    assert_eq!(out, vec![(0, 3), (0, 4)]);
}

#[test]
fn parks_are_empty_after_every_transition() {
    let mut core = RouterCore::new(vec!["XUSDT".to_string()], 8, Mode::OnlyA);
    core.on_mode_change(Mode::BothAB).unwrap();
    assert!(core.park.iter().all(|b| b.is_empty()));
    core.on_event(Active::B, event("XUSDT", 1));
    assert_eq!(core.park[0].len(), 1);
    core.on_mode_change(Mode::OnlyB).unwrap();
    assert!(core.park.iter().all(|b| b.is_empty()));
    core.on_mode_change(Mode::BothAB).unwrap();
    assert!(core.park.iter().all(|b| b.is_empty()));
    core.on_event(Active::A, event("XUSDT", 2));
    core.on_mode_change(Mode::OnlyA).unwrap();
    assert!(core.park.iter().all(|b| b.is_empty()));
}

#[test]
fn inactive_stream_parks_and_active_forwards_by_entry_side() {
    // Entering the overlap from OnlyB keeps B active, so A parks.
    let mut core = RouterCore::new(vec!["XUSDT".to_string()], 8, Mode::OnlyB);
    core.on_mode_change(Mode::BothAB).unwrap();
    assert!(core.on_event(Active::A, event("XUSDT", 1)).is_none());
    assert!(matches!(
        core.on_event(Active::B, event("XUSDT", 2)),
        Some(RouterAction::Forward(0, _))
    ));
    assert_eq!(core.park[0].len(), 1);
}

#[test]
fn closed_stream_events_are_dropped() {
    let mut core = RouterCore::new(vec!["XUSDT".to_string()], 8, Mode::OnlyA);
    assert!(core.on_event(Active::B, event("XUSDT", 1)).is_none());
    assert!(core.park[0].is_empty());
}

#[test]
fn two_symbols_route_to_their_own_queues() {
    let mut core = RouterCore::new(
        vec!["XUSDT".to_string(), "YUSDT".to_string()],
        8,
        Mode::OnlyA,
    );
    match core.on_event(Active::A, event("yusdt", 5)) {
        Some(RouterAction::Forward(idx, _)) => assert_eq!(idx, 1),
        _ => panic!("expected a forward to index 1"),
    }
    match core.on_event(Active::A, event("XUSDT", 6)) {
        Some(RouterAction::Forward(idx, _)) => assert_eq!(idx, 0),
        _ => panic!("expected a forward to index 0"),
    }
}
