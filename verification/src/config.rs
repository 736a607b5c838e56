use vstd::prelude::*;

verus! {

/// Default emission gate, in log-rate nano units: a cycle must multiply
/// capital by more than `exp(threshold / 1e9)`. This value corresponds
/// to a fractional profit of about 0.1%.
pub const DEFAULT_MIN_PROFIT_THRESHOLD: i64 = 999_500;

/// Default clamp for an opportunity's advisory `max_volume`, in nano units.
pub const DEFAULT_MAX_POSITION_SIZE: i64 = 1_000_000_000_000;

/// Engine configuration.
///
/// Prices never appear here directly: `min_profit_threshold` is the
/// natural logarithm of one plus the fractional threshold, scaled by
/// 1e9 and rounded, and `max_position_size` is a volume in nano units.
#[derive(Clone, Debug)]
pub struct Config {
    pub exchanges: Vec<String>,
    pub symbols: Vec<String>,
    /// Emission gate in log-rate nano units; non-negative values are
    /// meaningful, and the engine clamps negatives to zero.
    pub min_profit_threshold: i64,
    /// Advisory clamp on an opportunity's volume, in nano units.
    pub max_position_size: i64,
    pub dashboard_port: u16,
    pub websocket_timeout_ms: u64,
    pub reconnect_interval_ms: u64,
    pub max_reconnect_attempts: u32,
    /// Allow cycles confined to a single venue.
    pub enable_triangle_arbitrage: bool,
    /// Allow cycles that cross venues.
    pub enable_cross_exchange: bool,
    pub thread_pool_size: usize,
    pub enable_thread_pinning: bool,
    /// Detector cadence, in milliseconds.
    pub detection_period_ms: u64,
    /// Capacity of the bounded ring of recent opportunities.
    pub opportunity_ring_capacity: usize,
    /// Ceiling on the number of currency-venue nodes.
    pub max_currencies: usize,
}

/// Relies on `num_cpus::get`: the number of logical CPUs of the running
/// system, documented to be at least 1.
#[verifier::external_body]
fn cpu_count() -> (n: usize)
    ensures
        1 <= n,
{
    num_cpus::get()
}

impl Default for Config {
    /// The stock configuration: two well-known venues, two majors, a
    /// 0.1% profit gate, a 10 ms detector cadence and room for 100
    /// currency-venue nodes.
    fn default() -> (c: Config)
        ensures
            c.exchanges@.len() == 2,
            c.exchanges@[0]@ == "binance"@,
            c.exchanges@[1]@ == "coinbase"@,
            c.symbols@.len() == 2,
            c.symbols@[0]@ == "BTC/USDT"@,
            c.symbols@[1]@ == "ETH/USDT"@,
            c.min_profit_threshold == DEFAULT_MIN_PROFIT_THRESHOLD,
            c.max_position_size == DEFAULT_MAX_POSITION_SIZE,
            c.dashboard_port == 8080,
            c.websocket_timeout_ms == 30_000,
            c.reconnect_interval_ms == 5_000,
            c.max_reconnect_attempts == 10,
            c.enable_triangle_arbitrage,
            c.enable_cross_exchange,
            c.thread_pool_size >= 1,
            c.enable_thread_pinning,
            c.detection_period_ms == 10,
            c.opportunity_ring_capacity == 1000,
            c.max_currencies == 100,
    {
        let mut exchanges: Vec<String> = Vec::new();
        exchanges.push("binance".to_owned());
        exchanges.push("coinbase".to_owned());
        let mut symbols: Vec<String> = Vec::new();
        symbols.push("BTC/USDT".to_owned());
        symbols.push("ETH/USDT".to_owned());
        Config {
            exchanges,
            symbols,
            min_profit_threshold: DEFAULT_MIN_PROFIT_THRESHOLD,
            max_position_size: DEFAULT_MAX_POSITION_SIZE,
            dashboard_port: 8080,
            websocket_timeout_ms: 30_000,
            reconnect_interval_ms: 5_000,
            max_reconnect_attempts: 10,
            enable_triangle_arbitrage: true,
            enable_cross_exchange: true,
            thread_pool_size: cpu_count(),
            enable_thread_pinning: true,
            detection_period_ms: 10,
            opportunity_ring_capacity: 1000,
            max_currencies: 100,
        }
    }
}

} // verus!
