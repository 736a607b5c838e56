use vstd::prelude::*;
use std::collections::VecDeque;
use crate::config::Config;
use crate::detector::{detect_scan, effective_threshold, scan_record_ok};
use crate::errors::EngineError;
use crate::graph::{
    EdgeModel, PriceGraph, TickOutcome, clamped_dimension, model_apply_tick, opt_weight,
};
use crate::opportunity::{ArbitrageOpportunity, OpportunityModel};
use crate::stats::{PerformanceStats, stats_wf};
use crate::tick::{MarketTick, TickQueue, tick_queue_view};

verus! {

/// Lifecycle of the engine: it starts `Idle`, runs, and once stopped
/// never runs again.
#[derive(Clone, Copy, Debug, PartialEq, Eq, Structural)]
pub enum EngineState {
    Idle,
    Running,
    Stopped,
}

/// What `start` does to the state: only an idle engine begins to run.
pub open spec fn start_transition(s: EngineState) -> EngineState {
    match s {
        EngineState::Idle => EngineState::Running,
        other => other,
    }
}

/// What `stop` does to the state: any engine ends up stopped.
pub open spec fn stop_transition(s: EngineState) -> EngineState {
    EngineState::Stopped
}

/// Starting twice leaves the same state as starting once.
pub proof fn lemma_start_idempotent(s: EngineState)
    ensures
        start_transition(start_transition(s)) == start_transition(s),
{
}

/// Stopping twice leaves the same state as stopping once.
pub proof fn lemma_stop_idempotent(s: EngineState)
    ensures
        stop_transition(stop_transition(s)) == stop_transition(s),
{
}

/// One callback invocation owed to a subscriber: the subscriber's
/// registration index and its private copy of the payload.
pub struct Delivery {
    pub subscriber: usize,
    pub opportunity: ArbitrageOpportunity,
}

/// The images of the opportunities in a list, in order.
pub open spec fn opp_views(s: Seq<ArbitrageOpportunity>) -> Seq<OpportunityModel> {
    s.map_values(|o: ArbitrageOpportunity| o@)
}

/// The ring holds the newest `capacity` entries: older ones fall off
/// the front.
pub open spec fn ring_evict(s: Seq<OpportunityModel>, capacity: int) -> Seq<OpportunityModel> {
    if s.len() <= capacity {
        s
    } else {
        s.skip(s.len() - capacity)
    }
}

/// The arbitrage detection engine: a price graph fed by a tick queue,
/// a ring of recent opportunities, a subscriber count and counters,
/// all driven by explicit calls so an outer runtime can schedule them.
pub struct ArbitrageEngine {
    pub config: Config,
    pub state: EngineState,
    pub graph: PriceGraph,
    pub queue: TickQueue,
    pub opportunities: VecDeque<ArbitrageOpportunity>,
    pub subscriber_count: usize,
    pub stats: PerformanceStats,
    pub next_sequence: u64,
}

impl ArbitrageEngine {
    /// The engine invariant: a well-formed graph, a bounded ring whose
    /// every record clears the configured gate, a non-negative gate, and
    /// sequences that started at one.
    pub open spec fn wf(&self) -> bool {
        &&& self.graph.wf()
        &&& stats_wf(self.stats)
        &&& self.config.min_profit_threshold >= 0
        &&& self.config.opportunity_ring_capacity >= 1
        &&& self.opportunities@.len() <= self.config.opportunity_ring_capacity
        &&& forall|k: int|
            0 <= k < self.opportunities@.len() ==> (#[trigger] self.opportunities@[k])@.profit_log_nano
                > effective_threshold(&self.config)
        &&& self.next_sequence >= 1
    }

    /// Allocates an engine from a configuration; negative gates and a
    /// zero ring capacity are normalized. The engine is not running.
    pub fn new(config: Config) -> (r: ArbitrageEngine)
        ensures
            r.wf(),
            r.state == EngineState::Idle,
            r.graph@.names.len() == 0,
            r.graph@.edges.len() == clamped_dimension(config.max_currencies),
            forall|i: int, j: int|
                0 <= i < r.graph@.edges.len() && 0 <= j < r.graph@.edges.len() && i != j ==> (
                #[trigger] r.graph@.edges[i][j]) == (EdgeModel { weight: None, sequence: 0 }),
            tick_queue_view(r.queue).len() == 0,
            r.opportunities@.len() == 0,
            r.subscriber_count == 0,
            r.stats.messages_processed == 0,
            r.stats.opportunities_found == 0,
            r.next_sequence == 1,
            r.config.min_profit_threshold == if config.min_profit_threshold >= 0 {
                config.min_profit_threshold as int
            } else {
                0
            },
            r.config.opportunity_ring_capacity == if config.opportunity_ring_capacity >= 1 {
                config.opportunity_ring_capacity as int
            } else {
                1
            },
            r.config.max_position_size == config.max_position_size,
            r.config.enable_triangle_arbitrage == config.enable_triangle_arbitrage,
            r.config.enable_cross_exchange == config.enable_cross_exchange,
            r.config.max_currencies == config.max_currencies,
    {
        let mut config = config;
        if config.min_profit_threshold < 0 {
            config.min_profit_threshold = 0;
        }
        if config.opportunity_ring_capacity < 1 {
            config.opportunity_ring_capacity = 1;
        }
        let graph = PriceGraph::new(config.max_currencies);
        ArbitrageEngine {
            config,
            state: EngineState::Idle,
            graph,
            queue: TickQueue::new(),
            opportunities: VecDeque::new(),
            subscriber_count: 0,
            stats: PerformanceStats::new(),
            next_sequence: 1,
        }
    }

    /// Moves an idle engine to `Running`; anywhere else this is a
    /// no-op, so starting is idempotent and a stopped engine stays
    /// stopped.
    pub fn start(&mut self)
        requires
            old(self).wf(),
        ensures
            final(self).wf(),
            final(self).state == start_transition(old(self).state),
            final(self).graph == old(self).graph,
            final(self).queue == old(self).queue,
            final(self).opportunities == old(self).opportunities,
            final(self).subscriber_count == old(self).subscriber_count,
            final(self).stats == old(self).stats,
            final(self).next_sequence == old(self).next_sequence,
            final(self).config == old(self).config,
    {
        if matches!(self.state, EngineState::Idle) {
            self.state = EngineState::Running;
        }
    }

    /// Moves the engine to `Stopped` from any state; stopping is
    /// idempotent and terminal.
    pub fn stop(&mut self)
        requires
            old(self).wf(),
        ensures
            final(self).wf(),
            final(self).state == stop_transition(old(self).state),
            final(self).graph == old(self).graph,
            final(self).queue == old(self).queue,
            final(self).opportunities == old(self).opportunities,
            final(self).subscriber_count == old(self).subscriber_count,
            final(self).stats == old(self).stats,
            final(self).next_sequence == old(self).next_sequence,
            final(self).config == old(self).config,
    {
        self.state = EngineState::Stopped;
    }

    /// Whether the engine currently accepts price submissions.
    pub fn is_running(&self) -> (r: bool)
        ensures
            r <==> self.state == EngineState::Running,
    {
        matches!(self.state, EngineState::Running)
    }

    /// Submits one quote. The tick is stamped with the next sequence
    /// number and enqueued; nothing else happens on the caller's path.
    /// Fails exactly when the engine is not running.
    pub fn update_price(
        &mut self,
        exchange: &str,
        symbol: &str,
        bid_log_nano: Option<i64>,
        ask_log_nano: Option<i64>,
        volume_nano: i64,
        timestamp: u64,
    ) -> (r: Result<(), EngineError>)
        requires
            old(self).wf(),
        ensures
            final(self).wf(),
            old(self).state != EngineState::Running ==> r == Err::<(), EngineError>(
                EngineError::EngineNotRunning,
            ) && *final(self) == *old(self),
            old(self).state == EngineState::Running ==> {
                &&& r == Ok::<(), EngineError>(())
                &&& tick_queue_view(final(self).queue).len() == tick_queue_view(old(self).queue).len()
                    + 1
                &&& tick_queue_view(final(self).queue) == tick_queue_view(old(self).queue).push(
                    tick_queue_view(final(self).queue).last(),
                )
                &&& {
                    let t = tick_queue_view(final(self).queue).last();
                    &&& t.exchange@ == exchange@
                    &&& t.symbol@ == symbol@
                    &&& t.bid_log_nano == bid_log_nano
                    &&& t.ask_log_nano == ask_log_nano
                    &&& t.volume_nano == volume_nano
                    &&& t.timestamp == timestamp
                    &&& t.sequence == old(self).next_sequence
                }
                &&& final(self).next_sequence == if old(self).next_sequence < u64::MAX {
                    old(self).next_sequence + 1
                } else {
                    u64::MAX as int
                }
                &&& final(self).stats.messages_processed == if old(self).stats.messages_processed
                    < u64::MAX {
                    old(self).stats.messages_processed + 1
                } else {
                    u64::MAX as int
                }
                &&& final(self).stats.opportunities_found == old(self).stats.opportunities_found
                &&& final(self).stats.avg_latency_us == old(self).stats.avg_latency_us
                &&& final(self).graph == old(self).graph
                &&& final(self).opportunities == old(self).opportunities
                &&& final(self).subscriber_count == old(self).subscriber_count
                &&& final(self).state == old(self).state
                &&& final(self).config == old(self).config
            },
    {
        if !matches!(self.state, EngineState::Running) {
            return Err(EngineError::EngineNotRunning);
        }
        let sequence = self.next_sequence;
        if self.next_sequence < u64::MAX {
            self.next_sequence = self.next_sequence + 1;
        }
        let tick = MarketTick {
            exchange: exchange.to_owned(),
            symbol: symbol.to_owned(),
            bid_log_nano,
            ask_log_nano,
            volume_nano,
            timestamp,
            sequence,
        };
        self.queue.push(tick);
        self.stats.record_message();
        Ok(())
    }

    /// Takes one tick off the queue and applies it to the graph: both
    /// directed edges of the quote land in a single call, under the
    /// last-writer-wins rule. Reports what became of the tick, or
    /// nothing when the queue is empty.
    pub fn drain_one(&mut self) -> (r: Option<TickOutcome>)
        requires
            old(self).wf(),
        ensures
            final(self).wf(),
            tick_queue_view(old(self).queue).len() == 0 ==> {
                &&& r is None
                &&& tick_queue_view(final(self).queue) == tick_queue_view(old(self).queue)
                &&& final(self).graph == old(self).graph
                &&& final(self).opportunities == old(self).opportunities
                &&& final(self).subscriber_count == old(self).subscriber_count
                &&& final(self).state == old(self).state
                &&& final(self).config == old(self).config
                &&& final(self).stats == old(self).stats
                &&& final(self).next_sequence == old(self).next_sequence
            },
            tick_queue_view(old(self).queue).len() > 0 ==> {
                let t = tick_queue_view(old(self).queue)[0];
                &&& r is Some
                &&& tick_queue_view(final(self).queue) == tick_queue_view(
                    old(self).queue,
                ).drop_first()
                &&& final(self).graph@ == model_apply_tick(
                    old(self).graph@,
                    t.exchange@,
                    t.symbol@,
                    opt_weight(t.bid_log_nano),
                    opt_weight(t.ask_log_nano),
                    t.sequence as nat,
                )
                &&& (r == Some(TickOutcome::MalformedSymbol) <==> !crate::symbol::is_valid_symbol(
                    t.symbol@,
                ))
                &&& (r == Some(TickOutcome::Applied) <==> crate::graph::tick_indexed(
                    old(self).graph@,
                    t.exchange@,
                    t.symbol@,
                ))
                &&& final(self).opportunities == old(self).opportunities
                &&& final(self).subscriber_count == old(self).subscriber_count
                &&& final(self).state == old(self).state
                &&& final(self).config == old(self).config
                &&& final(self).stats == old(self).stats
                &&& final(self).next_sequence == old(self).next_sequence
            },
    {
        match self.queue.pop() {
            None => None,
            Some(tick) => {
                let outcome = self.graph.apply_tick(&tick);
                Some(outcome)
            },
        }
    }

    /// One detector scan over the current graph: finds profitable
    /// cycles, deduplicates them, appends each to the bounded ring
    /// (evicting the oldest) and returns the emitted records in scan
    /// order. With fewer than three indexed currencies nothing is
    /// emitted.
    pub fn detect_opportunities(&mut self, now: u64) -> (r: Vec<ArbitrageOpportunity>)
        requires
            old(self).wf(),
        ensures
            final(self).wf(),
            old(self).graph@.names.len() < 3 ==> r@.len() == 0,
            forall|k: int|
                0 <= k < r@.len() ==> scan_record_ok(
                    &old(self).config,
                    old(self).graph@,
                    (#[trigger] r@[k])@,
                ),
            forall|k: int| 0 <= k < r@.len() ==> (#[trigger] r@[k])@.detected_at == now,
            forall|a: int, b: int| 0 <= a < b < r@.len() ==> r@[a]@.cycle != r@[b]@.cycle,
            opp_views(final(self).opportunities@) == ring_evict(
                opp_views(old(self).opportunities@) + opp_views(r@),
                old(self).config.opportunity_ring_capacity as int,
            ),
            final(self).stats.opportunities_found == if old(self).stats.opportunities_found
                + r@.len() <= u64::MAX {
                old(self).stats.opportunities_found + r@.len()
            } else {
                u64::MAX as int
            },
            final(self).stats.messages_processed == old(self).stats.messages_processed,
            final(self).stats.avg_latency_us == old(self).stats.avg_latency_us,
            final(self).stats.detection_latency_us == old(self).stats.detection_latency_us,
            final(self).graph == old(self).graph,
            final(self).queue == old(self).queue,
            final(self).subscriber_count == old(self).subscriber_count,
            final(self).state == old(self).state,
            final(self).config == old(self).config,
            final(self).next_sequence == old(self).next_sequence,
    {
        let found = detect_scan(&self.graph, &self.config, now);
        let cap = self.config.opportunity_ring_capacity;
        let count = found.len();
        let ghost old_ring = opp_views(self.opportunities@);
        let ghost found_views = opp_views(found@);
        let mut i: usize = 0;
        while i < count
            invariant
                old(self).wf(),
                count == found@.len(),
                self.config == old(self).config,
                self.graph == old(self).graph,
                self.queue == old(self).queue,
                self.state == old(self).state,
                self.subscriber_count == old(self).subscriber_count,
                self.stats == old(self).stats,
                self.next_sequence == old(self).next_sequence,
                cap == self.config.opportunity_ring_capacity,
                cap >= 1,
                0 <= i <= count,
                found_views == opp_views(found@),
                forall|k: int|
                    0 <= k < found@.len() ==> (#[trigger] found@[k])@.profit_log_nano
                        > effective_threshold(&old(self).config),
                opp_views(self.opportunities@) == ring_evict(
                    old_ring + found_views.take(i as int),
                    cap as int,
                ),
                self.opportunities@.len() <= cap,
                forall|k: int|
                    0 <= k < self.opportunities@.len() ==> (
                    #[trigger] self.opportunities@[k])@.profit_log_nano > effective_threshold(
                        &old(self).config,
                    ),
                old_ring.len() <= cap,
            decreases count - i,
        {
            let ghost ring_before = opp_views(self.opportunities@);
            self.opportunities.push_back(found[i].clone());
            if self.opportunities.len() > cap {
                let _ = self.opportunities.pop_front();
            }
            i = i + 1;
            proof {
                let full = old_ring + found_views.take(i as int);
                assert(found_views.take(i as int) =~= found_views.take(i - 1).push(
                    found@[i - 1]@,
                ));
                assert(opp_views(self.opportunities@) =~= ring_evict(full, cap as int)) by {
                    let prev_full = old_ring + found_views.take(i - 1);
                    assert(full =~= prev_full.push(found@[i - 1]@));
                    lemma_ring_evict_push(prev_full, found@[i - 1]@, cap as int);
                    if ring_before.len() + 1 > cap {
                        assert(opp_views(self.opportunities@) =~= ring_before.push(
                            found@[i - 1]@,
                        ).drop_first());
                        assert(ring_evict(ring_before.push(found@[i - 1]@), cap as int)
                            =~= ring_before.push(found@[i - 1]@).drop_first());
                    } else {
                        assert(opp_views(self.opportunities@) =~= ring_before.push(
                            found@[i - 1]@,
                        ));
                    }
                }
            }
        }
        proof {
            assert(found_views.take(count as int) =~= found_views);
        }
        let count64: u64 = if count as u64 <= u64::MAX {
            count as u64
        } else {
            u64::MAX
        };
        self.stats.record_opportunities(count64);
        found
    }

    /// The callback invocations owed for a batch of emitted
    /// opportunities: one delivery per registered subscriber per
    /// record, in registration order within each record, and every
    /// delivery carries an equal copy of its record.
    pub fn deliveries_for(&self, emitted: &Vec<ArbitrageOpportunity>) -> (ds: Vec<Delivery>)
        ensures
            ds@.len() == emitted@.len() * self.subscriber_count,
            forall|i: int|
                0 <= i < ds@.len() ==> {
                    let k = self.subscriber_count as int;
                    (#[trigger] ds@[i]).subscriber == i % k && ds@[i].opportunity@ == emitted@[
                        i / k
                    ]@
                },
    {
        let k = self.subscriber_count;
        let mut ds: Vec<Delivery> = Vec::new();
        if k == 0 {
            proof {
                assert(emitted@.len() * 0 == 0) by (nonlinear_arith);
            }
            return ds;
        }
        let count = emitted.len();
        let mut e: usize = 0;
        while e < count
            invariant
                count == emitted@.len(),
                k == self.subscriber_count,
                1 <= k,
                0 <= e <= count,
                ds@.len() == e * k,
                e * k <= count * k,
                forall|i: int|
                    0 <= i < ds@.len() ==> {
                        (#[trigger] ds@[i]).subscriber == i % (k as int) && ds@[i].opportunity@
                            == emitted@[i / (k as int)]@
                    },
            decreases count - e,
        {
            let mut s: usize = 0;
            while s < k
                invariant
                    count == emitted@.len(),
                    k == self.subscriber_count,
                    1 <= k,
                    0 <= e < count,
                    0 <= s <= k,
                    ds@.len() == e * k + s,
                    forall|i: int|
                        0 <= i < ds@.len() ==> {
                            (#[trigger] ds@[i]).subscriber == i % (k as int) && ds@[i].opportunity@
                                == emitted@[i / (k as int)]@
                        },
                decreases k - s,
            {
                proof {
                    assert(e * k + s < count * k) by (nonlinear_arith)
                        requires
                            0 <= e < count,
                            0 <= s < k,
                    ;
                    assert((e * k + s) % (k as int) == s && (e * k + s) / (k as int) == e) by (
                    nonlinear_arith)
                        requires
                            0 <= s < k,
                            0 <= e,
                    ;
                }
                ds.push(Delivery { subscriber: s, opportunity: emitted[e].clone() });
                s = s + 1;
            }
            e = e + 1;
            proof {
                assert((e - 1) * k + k == e * k) by (nonlinear_arith);
                assert(e * k <= count * k) by (nonlinear_arith)
                    requires
                        0 <= e <= count,
                        0 <= k,
                ;
            }
        }
        ds
    }

    /// Registers one more subscriber and answers its index. The index
    /// identifies the subscriber in every later delivery.
    pub fn register_callback(&mut self) -> (r: usize)
        requires
            old(self).wf(),
            old(self).subscriber_count < usize::MAX,
        ensures
            final(self).wf(),
            r == old(self).subscriber_count,
            final(self).subscriber_count == old(self).subscriber_count + 1,
            final(self).graph == old(self).graph,
            final(self).queue == old(self).queue,
            final(self).opportunities == old(self).opportunities,
            final(self).stats == old(self).stats,
            final(self).state == old(self).state,
            final(self).config == old(self).config,
            final(self).next_sequence == old(self).next_sequence,
    {
        let r = self.subscriber_count;
        self.subscriber_count = self.subscriber_count + 1;
        r
    }

    /// The up to `limit` newest opportunities, oldest first. Every
    /// record the ring ever holds cleared the configured profit
    /// threshold when it was emitted.
    pub fn get_recent_opportunities(&self, limit: usize) -> (r: Vec<ArbitrageOpportunity>)
        requires
            self.wf(),
        ensures
            r@.len() == if limit <= self.opportunities@.len() {
                limit as int
            } else {
                self.opportunities@.len() as int
            },
            forall|i: int|
                0 <= i < r@.len() ==> (#[trigger] r@[i])@ == self.opportunities@[
                    self.opportunities@.len() - r@.len() + i
                ]@,
            forall|i: int|
                0 <= i < r@.len() ==> (#[trigger] r@[i])@.profit_log_nano > effective_threshold(
                    &self.config,
                ),
    {
        let total = self.opportunities.len();
        let start = if total > limit {
            total - limit
        } else {
            0
        };
        let mut r: Vec<ArbitrageOpportunity> = Vec::new();
        let mut i: usize = start;
        while i < total
            invariant
                total == self.opportunities@.len(),
                start <= i <= total,
                r@.len() == i - start,
                forall|j: int|
                    0 <= j < r@.len() ==> (#[trigger] r@[j])@ == self.opportunities@[start + j]@,
            decreases total - i,
        {
            r.push(self.opportunities[i].clone());
            i = i + 1;
        }
        r
    }

    /// A consistent copy of the metrics.
    pub fn get_performance_stats(&self) -> (r: PerformanceStats)
        ensures
            r == self.stats,
    {
        self.stats
    }

    /// Folds one ingress latency sample into the running average.
    pub fn record_ingress_latency(&mut self, micros: u64)
        requires
            old(self).wf(),
        ensures
            final(self).wf(),
            final(self).stats.avg_latency_us == {
                let sample = if micros <= crate::stats::LATENCY_CLAMP_US {
                    micros as int
                } else {
                    crate::stats::LATENCY_CLAMP_US as int
                };
                if old(self).stats.avg_latency_us == 0 {
                    sample
                } else {
                    crate::stats::ewa_next(old(self).stats.avg_latency_us as int, sample)
                }
            },
            final(self).stats.messages_processed == old(self).stats.messages_processed,
            final(self).stats.opportunities_found == old(self).stats.opportunities_found,
            final(self).stats.detection_latency_us == old(self).stats.detection_latency_us,
            final(self).graph == old(self).graph,
            final(self).queue == old(self).queue,
            final(self).opportunities == old(self).opportunities,
            final(self).subscriber_count == old(self).subscriber_count,
            final(self).state == old(self).state,
            final(self).config == old(self).config,
            final(self).next_sequence == old(self).next_sequence,
    {
        self.stats.record_ingress_latency(micros);
    }

    /// Records how long the most recent detector scan took.
    pub fn record_detection_latency(&mut self, micros: u64)
        requires
            old(self).wf(),
        ensures
            final(self).wf(),
            final(self).stats.detection_latency_us == micros,
            final(self).stats.messages_processed == old(self).stats.messages_processed,
            final(self).stats.opportunities_found == old(self).stats.opportunities_found,
            final(self).stats.avg_latency_us == old(self).stats.avg_latency_us,
            final(self).graph == old(self).graph,
            final(self).queue == old(self).queue,
            final(self).opportunities == old(self).opportunities,
            final(self).subscriber_count == old(self).subscriber_count,
            final(self).state == old(self).state,
            final(self).config == old(self).config,
            final(self).next_sequence == old(self).next_sequence,
    {
        self.stats.record_detection_latency(micros);
    }

    /// How many ticks wait in the ingress queue.
    pub fn queue_len(&self) -> (n: usize)
        ensures
            n == tick_queue_view(self.queue).len(),
    {
        self.queue.len()
    }
}

/// Evicting after a push is the same as evicting the pushed sequence.
proof fn lemma_ring_evict_push(s: Seq<OpportunityModel>, x: OpportunityModel, capacity: int)
    requires
        capacity >= 1,
    ensures
        ring_evict(s, capacity).len() <= capacity,
        ring_evict(ring_evict(s, capacity).push(x), capacity) == ring_evict(
            s.push(x),
            capacity,
        ),
{
    let e = ring_evict(s, capacity);
    if s.len() <= capacity {
        assert(e == s);
    } else {
        assert(e =~= s.skip(s.len() - capacity));
        assert(ring_evict(e.push(x), capacity) =~= ring_evict(s.push(x), capacity));
    }
    assert(ring_evict(e.push(x), capacity) =~= ring_evict(s.push(x), capacity));
}

} // verus!
