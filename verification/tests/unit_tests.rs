use arbitrage_engine::graph::TickOutcome;
use arbitrage_engine::symbol::parse_symbol;
use arbitrage_engine::{Config, MarketTick, PriceGraph, reconstruct_cycle};

#[test]
fn parse_symbol_edge_cases() {
    assert_eq!(parse_symbol(""), None);
    assert_eq!(parse_symbol("/"), None);
    assert_eq!(parse_symbol("A/"), None);
    assert_eq!(parse_symbol("/B"), None);
    assert_eq!(parse_symbol("A/B/C"), None);
    assert_eq!(parse_symbol("AB"), None);
    assert_eq!(
        parse_symbol("A/B"),
        Some(("A".to_string(), "B".to_string()))
    );
    assert_eq!(
        parse_symbol("€Ü/ß"),
        Some(("€Ü".to_string(), "ß".to_string()))
    );
}

#[test]
fn reconstruct_cycle_returns_trade_order() {
    // parent[v] == Some(u) records the relaxed edge u -> v, so the
    // walk runs backwards and the result must come out reversed
    let parent = vec![Some(2), Some(0), Some(1)];
    let cycle = reconstruct_cycle(parent, 0).unwrap();
    assert_eq!(cycle, vec![1, 2, 0]);
}

#[test]
fn reconstruct_cycle_dies_on_missing_parent() {
    let parent = vec![None, Some(0)];
    assert_eq!(reconstruct_cycle(parent, 1), None);
}

#[test]
fn default_config_values() {
    let c = Config::default();
    assert_eq!(c.exchanges, vec!["binance", "coinbase"]);
    assert_eq!(c.symbols, vec!["BTC/USDT", "ETH/USDT"]);
    assert_eq!(c.min_profit_threshold, 999_500);
    assert_eq!(c.dashboard_port, 8080);
    assert_eq!(c.detection_period_ms, 10);
    assert_eq!(c.opportunity_ring_capacity, 1000);
    assert_eq!(c.max_currencies, 100);
    assert!(c.enable_triangle_arbitrage);
    assert!(c.enable_cross_exchange);
    assert!(c.thread_pool_size >= 1);
}

fn tick(symbol: &str, sequence: u64) -> MarketTick {
    MarketTick {
        exchange: String::from("X"),
        symbol: String::from(symbol),
        bid_log_nano: Some(100),
        ask_log_nano: Some(-90),
        volume_nano: 0,
        timestamp: 0,
        sequence,
    }
}

#[test]
fn malformed_symbol_is_reported_and_ignored() {
    let mut graph = PriceGraph::new(4);
    let outcome = graph.apply_tick(&tick("INVALID", 1));
    assert_eq!(outcome, TickOutcome::MalformedSymbol);
    assert_eq!(graph.node_count(), 0);
}

#[test]
fn capacity_exhaustion_drops_ticks() {
    let mut graph = PriceGraph::new(2);
    assert_eq!(graph.apply_tick(&tick("A/B", 1)), TickOutcome::Applied);
    assert_eq!(graph.node_count(), 2);
    assert_eq!(graph.apply_tick(&tick("C/D", 2)), TickOutcome::CapacityExhausted);
    assert_eq!(graph.apply_tick(&tick("A/B", 3)), TickOutcome::Applied);
}

#[test]
fn one_sided_quote_writes_one_edge() {
    let mut graph = PriceGraph::new(4);
    let mut t = tick("A/B", 1);
    t.ask_log_nano = None;
    graph.apply_tick(&t);
    assert_eq!(graph.edge_weight(0, 1), Some(100));
    assert_eq!(graph.edge_weight(1, 0), None);
}

#[test]
fn oversized_weights_fall_away() {
    let mut graph = PriceGraph::new(4);
    let venue = String::from("X");
    let a = graph.upsert_index(&String::from("A_X"), &venue).unwrap();
    let b = graph.upsert_index(&String::from("B_X"), &venue).unwrap();
    graph.write_edge(a, b, 2_000_000_000_000, 1);
    assert_eq!(graph.edge_weight(a, b), None);
    graph.write_edge(a, b, 1_000_000_000_000, 2);
    assert_eq!(graph.edge_weight(a, b), Some(1_000_000_000_000));
}

#[test]
fn upsert_is_idempotent_and_monotonic() {
    let mut graph = PriceGraph::new(4);
    let venue = String::from("X");
    let a = graph.upsert_index(&String::from("A_X"), &venue).unwrap();
    let b = graph.upsert_index(&String::from("B_X"), &venue).unwrap();
    let a2 = graph.upsert_index(&String::from("A_X"), &venue).unwrap();
    assert_eq!(a, 0);
    assert_eq!(b, 1);
    assert_eq!(a2, a);
    assert_eq!(graph.node_count(), 2);
}
