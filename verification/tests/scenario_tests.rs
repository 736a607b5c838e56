use arbitrage_engine::{ArbitrageEngine, Config, EngineError, MarketTick, PriceGraph};

fn bid_weight(bid: f64) -> Option<i64> {
    if bid > 0.0 && bid.is_finite() {
        Some((-bid.ln() * 1e9).round() as i64)
    } else {
        None
    }
}

fn ask_weight(ask: f64) -> Option<i64> {
    if ask > 0.0 && ask.is_finite() {
        Some((ask.ln() * 1e9).round() as i64)
    } else {
        None
    }
}

fn threshold_for(fraction: f64) -> i64 {
    ((1.0 + fraction).ln() * 1e9).round() as i64
}

fn submit(engine: &mut ArbitrageEngine, venue: &str, symbol: &str, bid: f64, ask: f64) {
    engine
        .update_price(venue, symbol, bid_weight(bid), ask_weight(ask), 1_000_000_000, 7)
        .unwrap();
}

fn drain(engine: &mut ArbitrageEngine) {
    while engine.drain_one().is_some() {}
}

fn triangle_engine(min_profit_fraction: f64, gbp_usd_bid: f64) -> ArbitrageEngine {
    let mut config = Config::default();
    config.min_profit_threshold = threshold_for(min_profit_fraction);
    let mut engine = ArbitrageEngine::new(config);
    engine.start();
    submit(&mut engine, "X", "USD/EUR", 0.85, 0.85);
    submit(&mut engine, "X", "EUR/GBP", 0.90, 0.90);
    submit(&mut engine, "X", "GBP/USD", gbp_usd_bid, gbp_usd_bid);
    drain(&mut engine);
    engine
}

#[test]
fn triangle_arbitrage_detected() {
    let mut engine = triangle_engine(0.001, 1.35);
    let emitted = engine.detect_opportunities(42);
    assert_eq!(emitted.len(), 1);
    let opp = &emitted[0];
    assert_eq!(opp.path, vec!["USD_X", "EUR_X", "GBP_X"]);
    assert_eq!(opp.exchanges, vec!["X", "X", "X"]);
    assert_eq!(opp.detected_at, 42);
    let profit = (opp.profit_log_nano as f64 / 1e9).exp() - 1.0;
    assert!((profit - 0.03275).abs() < 1e-4);
}

#[test]
fn triangle_profit_matches_weight_sum_exactly() {
    // the emitted log profit is exactly the negated sum of the three
    // edge weights the ticks wrote
    let mut engine = triangle_engine(0.001, 1.35);
    let emitted = engine.detect_opportunities(0);
    assert_eq!(emitted.len(), 1);
    let s = bid_weight(0.85).unwrap() + bid_weight(0.90).unwrap() + bid_weight(1.35).unwrap();
    assert_eq!(emitted[0].profit_log_nano, -s);
    // and the realized multiplier agrees with exp(-sum) to within 1e-9
    let multiplier = (-(s as f64) / 1e9).exp();
    let one_plus_profit = 1.0 + ((emitted[0].profit_log_nano as f64 / 1e9).exp() - 1.0);
    assert!((multiplier - one_plus_profit).abs() < 1e-9);
}

#[test]
fn no_arbitrage_no_emission() {
    // forward product 0.85 * 0.90 * 1.25 = 0.95625 < 1, and the asks
    // sit above the bids, so the reverse direction profits nothing
    // either
    let mut config = Config::default();
    config.min_profit_threshold = threshold_for(0.001);
    let mut engine = ArbitrageEngine::new(config);
    engine.start();
    submit(&mut engine, "X", "USD/EUR", 0.85, 0.86);
    submit(&mut engine, "X", "EUR/GBP", 0.90, 0.91);
    submit(&mut engine, "X", "GBP/USD", 1.25, 1.30);
    drain(&mut engine);
    let emitted = engine.detect_opportunities(0);
    assert!(emitted.is_empty());
    assert!(engine.get_recent_opportunities(10).is_empty());
}

#[test]
fn threshold_gates_emission() {
    // 3.275% profit sits below a 5% gate
    let mut engine = triangle_engine(0.05, 1.35);
    let emitted = engine.detect_opportunities(0);
    assert!(emitted.is_empty());
}

#[test]
fn stale_tick_rejected() {
    let mut graph = PriceGraph::new(10);
    let venue = String::from("X");
    let base = String::from("A_X");
    let quote = String::from("B_X");
    let u = graph.upsert_index(&base, &venue).unwrap();
    let v = graph.upsert_index(&quote, &venue).unwrap();
    let w100 = bid_weight(100.0).unwrap();
    let w101 = bid_weight(101.0).unwrap();
    graph.write_edge(u, v, w100, 1);
    graph.write_edge(u, v, w101, 2);
    graph.write_edge(u, v, w100, 1);
    assert_eq!(graph.edge_weight(u, v), Some(w101));
    assert_eq!(graph.edge_sequence(u, v), 2);
}

#[test]
fn lifecycle_gates_submissions() {
    let mut engine = ArbitrageEngine::new(Config::default());
    let err = engine.update_price("X", "A/B", bid_weight(1.0), ask_weight(1.0), 0, 0);
    assert_eq!(err, Err(EngineError::EngineNotRunning));

    engine.start();
    let ok = engine.update_price("X", "A/B", bid_weight(1.0), ask_weight(1.0), 0, 0);
    assert_eq!(ok, Ok(()));

    engine.stop();
    let err = engine.update_price("X", "A/B", bid_weight(1.0), ask_weight(1.0), 0, 0);
    assert_eq!(err, Err(EngineError::EngineNotRunning));
}

#[test]
fn start_and_stop_are_idempotent() {
    let mut engine = ArbitrageEngine::new(Config::default());
    engine.start();
    assert!(engine.is_running());
    engine.start();
    assert!(engine.is_running());
    engine.stop();
    assert!(!engine.is_running());
    engine.stop();
    assert!(!engine.is_running());
    // stopped is terminal
    engine.start();
    assert!(!engine.is_running());
}

#[test]
fn fewer_than_three_currencies_yield_nothing() {
    let mut engine = ArbitrageEngine::new(Config::default());
    engine.start();
    // a single pair indexes two currencies, with mutually profitable
    // crossed quotes on both directions
    submit(&mut engine, "X", "USD/EUR", 2.0, 0.25);
    drain(&mut engine);
    let emitted = engine.detect_opportunities(0);
    assert!(emitted.is_empty());
}

#[test]
fn subscriber_fanout_counts_and_payloads() {
    let mut engine = triangle_engine(0.001, 1.35);
    let a = engine.register_callback();
    let b = engine.register_callback();
    let c = engine.register_callback();
    assert_eq!((a, b, c), (0, 1, 2));
    let emitted = engine.detect_opportunities(5);
    assert_eq!(emitted.len(), 1);
    let deliveries = engine.deliveries_for(&emitted);
    assert_eq!(deliveries.len(), 3);
    for (i, d) in deliveries.iter().enumerate() {
        assert_eq!(d.subscriber, i);
        assert_eq!(d.opportunity, emitted[0]);
    }
}

#[test]
fn no_subscribers_no_deliveries() {
    let mut engine = triangle_engine(0.001, 1.35);
    let emitted = engine.detect_opportunities(5);
    let deliveries = engine.deliveries_for(&emitted);
    assert!(deliveries.is_empty());
}

#[test]
fn applying_a_tick_twice_equals_once() {
    let mut graph = PriceGraph::new(10);
    let tick = MarketTick {
        exchange: String::from("X"),
        symbol: String::from("USD/EUR"),
        bid_log_nano: bid_weight(0.85),
        ask_log_nano: ask_weight(0.86),
        volume_nano: 5,
        timestamp: 9,
        sequence: 3,
    };
    graph.apply_tick(&tick);
    let n1 = graph.node_count();
    let w_fwd = graph.edge_weight(0, 1);
    let w_rev = graph.edge_weight(1, 0);
    let s_fwd = graph.edge_sequence(0, 1);
    graph.apply_tick(&tick);
    assert_eq!(graph.node_count(), n1);
    assert_eq!(graph.edge_weight(0, 1), w_fwd);
    assert_eq!(graph.edge_weight(1, 0), w_rev);
    assert_eq!(graph.edge_sequence(0, 1), s_fwd);
}

#[test]
fn self_loops_stay_zero() {
    let mut engine = triangle_engine(0.001, 1.35);
    // a degenerate symbol whose base and quote coincide must not
    // disturb the zero self-loop
    submit(&mut engine, "X", "USD/USD", 0.5, 0.5);
    drain(&mut engine);
    for i in 0..engine.graph.node_count() {
        assert_eq!(engine.graph.edge_weight(i, i), Some(0));
    }
}

#[test]
fn ring_keeps_newest_and_bounds_length() {
    let mut config = Config::default();
    config.min_profit_threshold = threshold_for(0.001);
    config.opportunity_ring_capacity = 2;
    let mut engine = ArbitrageEngine::new(config);
    engine.start();
    submit(&mut engine, "X", "USD/EUR", 0.85, 0.85);
    submit(&mut engine, "X", "EUR/GBP", 0.90, 0.90);
    submit(&mut engine, "X", "GBP/USD", 1.35, 1.35);
    drain(&mut engine);
    for now in 0..3u64 {
        let emitted = engine.detect_opportunities(now);
        assert_eq!(emitted.len(), 1);
    }
    let recent = engine.get_recent_opportunities(10);
    assert_eq!(recent.len(), 2);
    // chronological order: the two newest scans survive
    assert_eq!(recent[0].detected_at, 1);
    assert_eq!(recent[1].detected_at, 2);
    let one = engine.get_recent_opportunities(1);
    assert_eq!(one.len(), 1);
    assert_eq!(one[0].detected_at, 2);
}

#[test]
fn stats_track_messages_and_opportunities() {
    let mut engine = triangle_engine(0.001, 1.35);
    let stats = engine.get_performance_stats();
    assert_eq!(stats.messages_processed, 3);
    assert_eq!(stats.opportunities_found, 0);
    engine.detect_opportunities(0);
    let stats = engine.get_performance_stats();
    assert_eq!(stats.opportunities_found, 1);
}

#[test]
fn latency_average_blends_samples() {
    let mut engine = ArbitrageEngine::new(Config::default());
    engine.record_ingress_latency(100);
    assert_eq!(engine.get_performance_stats().avg_latency_us, 100);
    engine.record_ingress_latency(200);
    assert_eq!(engine.get_performance_stats().avg_latency_us, (9 * 100 + 200) / 10);
    engine.record_detection_latency(5_000);
    assert_eq!(engine.get_performance_stats().detection_latency_us, 5_000);
}

#[test]
fn queue_counts_pending_ticks() {
    let mut engine = ArbitrageEngine::new(Config::default());
    engine.start();
    submit(&mut engine, "X", "USD/EUR", 0.85, 0.86);
    submit(&mut engine, "X", "EUR/GBP", 0.90, 0.91);
    assert_eq!(engine.queue_len(), 2);
    drain(&mut engine);
    assert_eq!(engine.queue_len(), 0);
}
