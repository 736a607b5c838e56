use arbitrage_engine::symbol::parse_symbol;
use arbitrage_engine::{ArbitrageEngine, Config, reconstruct_cycle};
use std::time::Instant;

/// Bid and ask prices as the engine's log-rate nano weights.
fn bid_weight(bid: f64) -> Option<i64> {
    if bid > 0.0 && bid.is_finite() {
        Some((-bid.ln() * 1e9).round() as i64)
    } else {
        None
    }
}

fn ask_weight(ask: f64) -> Option<i64> {
    if ask > 0.0 && ask.is_finite() {
        Some((ask.ln() * 1e9).round() as i64)
    } else {
        None
    }
}

#[test]
fn test_engine_lifecycle() {
    let config = Config::default();
    let mut engine = ArbitrageEngine::new(config);

    assert!(!engine.is_running());

    engine.start();
    assert!(engine.is_running());

    engine.stop();
    assert!(!engine.is_running());
}

#[test]
fn test_price_update_latency() {
    let config = Config::default();
    let mut engine = ArbitrageEngine::new(config);

    engine.start();

    let start = Instant::now();
    engine
        .update_price(
            "binance",
            "BTC/USDT",
            bid_weight(50000.0),
            ask_weight(50001.0),
            100_000_000_000,
            0,
        )
        .unwrap();
    let latency = start.elapsed();

    // Should process in under 1ms
    assert!(latency.as_millis() < 1);

    engine.stop();
}

#[test]
fn test_symbol_parsing() {
    assert_eq!(
        parse_symbol("BTC/USDT"),
        Some(("BTC".to_string(), "USDT".to_string()))
    );

    assert_eq!(parse_symbol("INVALID"), None);
}

#[test]
fn test_arbitrage_engine_creation() {
    let config = Config::default();
    let engine = ArbitrageEngine::new(config);

    assert!(!engine.is_running());
}

#[test]
fn test_performance_latency() {
    let config = Config::default();
    let mut engine = ArbitrageEngine::new(config);

    engine.start();

    // Simulate price update and measure latency
    let start = Instant::now();
    engine
        .update_price(
            "binance",
            "BTC/USDT",
            bid_weight(50000.0),
            ask_weight(50001.0),
            100_000_000_000,
            0,
        )
        .unwrap();

    let latency = start.elapsed();

    // Should process in under 100 microseconds
    assert!(latency.as_micros() < 100);

    engine.stop();
}

// Test helper functions
fn detect_negative_cycle(graph: &Vec<Vec<f64>>) -> Option<Vec<usize>> {
    // Simplified Bellman-Ford for testing
    let n = graph.len();
    let mut dist = vec![f64::INFINITY; n];
    let mut parent = vec![None; n];

    dist[0] = 0.0;

    // Relax edges n-1 times
    for _ in 0..n - 1 {
        for u in 0..n {
            if dist[u] != f64::INFINITY {
                for v in 0..n {
                    if graph[u][v] != f64::INFINITY {
                        let new_dist = dist[u] + graph[u][v];
                        if new_dist < dist[v] {
                            dist[v] = new_dist;
                            parent[v] = Some(u);
                        }
                    }
                }
            }
        }
    }

    // Check for negative cycle
    for u in 0..n {
        if dist[u] != f64::INFINITY {
            for v in 0..n {
                if graph[u][v] != f64::INFINITY {
                    if dist[u] + graph[u][v] < dist[v] {
                        // Found negative cycle, reconstruct it
                        return reconstruct_cycle(parent, v);
                    }
                }
            }
        }
    }

    None
}

fn calculate_cycle_profit(graph: &Vec<Vec<f64>>, cycle: &Vec<usize>) -> f64 {
    let mut total_weight = 0.0;

    for i in 0..cycle.len() {
        let u = cycle[i];
        let v = cycle[(i + 1) % cycle.len()];
        total_weight += graph[u][v];
    }

    (-total_weight).exp() - 1.0
}

#[test]
fn test_bellman_ford_negative_cycle() {
    // Test the mathematical correctness of arbitrage detection
    // Using a simple 3-currency cycle: USD -> EUR -> GBP -> USD

    // Prices: USD/EUR = 0.85, EUR/GBP = 0.90, GBP/USD = 1.35
    // Expected profit: 1 * 0.85 * 0.90 * 1.35 = 1.03275 (3.275% profit)

    let graph = vec![
        vec![0.0, -f64::ln(0.85), f64::INFINITY],
        vec![f64::INFINITY, 0.0, -f64::ln(0.90)],
        vec![-f64::ln(1.35), f64::INFINITY, 0.0],
    ];

    let cycle = detect_negative_cycle(&graph);
    assert!(cycle.is_some());

    if let Some(cycle) = cycle {
        let profit = calculate_cycle_profit(&graph, &cycle);
        assert!(profit > 0.03); // Should be profitable
    }
}
