use vstd::prelude::*;

verus! {

/// Latency samples are clamped to this many microseconds before they
/// enter the running average, so the average itself stays bounded.
pub const LATENCY_CLAMP_US: u64 = 4_294_967_296;

/// Counters and latency figures maintained by the engine.
#[derive(Clone, Copy, Debug, PartialEq, Eq, Structural)]
pub struct PerformanceStats {
    /// Quote submissions accepted by `update_price`, malformed ones included.
    pub messages_processed: u64,
    /// Opportunities that passed the profit gate and were emitted.
    pub opportunities_found: u64,
    /// Exponentially weighted average of ingress latency, in microseconds.
    pub avg_latency_us: u64,
    /// Duration of the most recent detector scan, in microseconds.
    pub detection_latency_us: u64,
}

/// One step of the exponentially weighted average: nine parts history,
/// one part new sample.
pub open spec fn ewa_next(avg: int, sample: int) -> int {
    (9 * avg + sample) / 10
}

/// A well-formed stats record keeps its average within the clamp, so
/// the next average can be computed without overflow.
pub open spec fn stats_wf(s: PerformanceStats) -> bool {
    s.avg_latency_us <= LATENCY_CLAMP_US
}

impl PerformanceStats {
    /// A fresh record with every counter at zero.
    pub fn new() -> (s: PerformanceStats)
        ensures
            s.messages_processed == 0,
            s.opportunities_found == 0,
            s.avg_latency_us == 0,
            s.detection_latency_us == 0,
            stats_wf(s),
    {
        PerformanceStats {
            messages_processed: 0,
            opportunities_found: 0,
            avg_latency_us: 0,
            detection_latency_us: 0,
        }
    }

    /// Counts one processed message, saturating at the counter's limit.
    pub fn record_message(&mut self)
        ensures
            final(self).messages_processed == if old(self).messages_processed
                < u64::MAX { old(self).messages_processed + 1 } else { u64::MAX as int },
            final(self).opportunities_found == old(self).opportunities_found,
            final(self).avg_latency_us == old(self).avg_latency_us,
            final(self).detection_latency_us == old(self).detection_latency_us,
            stats_wf(*old(self)) ==> stats_wf(*final(self)),
    {
        if self.messages_processed < u64::MAX {
            self.messages_processed = self.messages_processed + 1;
        }
    }

    /// Counts emitted opportunities, saturating at the counter's limit.
    pub fn record_opportunities(&mut self, count: u64)
        ensures
            final(self).opportunities_found == if old(self).opportunities_found + count
                <= u64::MAX { old(self).opportunities_found + count } else { u64::MAX as int },
            final(self).messages_processed == old(self).messages_processed,
            final(self).avg_latency_us == old(self).avg_latency_us,
            final(self).detection_latency_us == old(self).detection_latency_us,
            stats_wf(*old(self)) ==> stats_wf(*final(self)),
    {
        if self.opportunities_found <= u64::MAX - count {
            self.opportunities_found = self.opportunities_found + count;
        } else {
            self.opportunities_found = u64::MAX;
        }
    }

    /// Folds one ingress latency sample into the weighted average.
    /// The first sample seeds the average; later ones are blended in.
    pub fn record_ingress_latency(&mut self, micros: u64)
        requires
            stats_wf(*old(self)),
        ensures
            final(self).avg_latency_us == {
                let sample = if micros <= LATENCY_CLAMP_US { micros as int } else {
                    LATENCY_CLAMP_US as int
                };
                if old(self).avg_latency_us == 0 { sample } else {
                    ewa_next(old(self).avg_latency_us as int, sample)
                }
            },
            final(self).messages_processed == old(self).messages_processed,
            final(self).opportunities_found == old(self).opportunities_found,
            final(self).detection_latency_us == old(self).detection_latency_us,
            stats_wf(*final(self)),
    {
        let sample: u64 = if micros <= LATENCY_CLAMP_US { micros } else { LATENCY_CLAMP_US };
        if self.avg_latency_us == 0 {
            self.avg_latency_us = sample;
        } else {
            self.avg_latency_us = (9 * self.avg_latency_us + sample) / 10;
        }
    }

    /// Records the duration of the most recent detector scan.
    pub fn record_detection_latency(&mut self, micros: u64)
        ensures
            final(self).detection_latency_us == micros,
            final(self).messages_processed == old(self).messages_processed,
            final(self).opportunities_found == old(self).opportunities_found,
            final(self).avg_latency_us == old(self).avg_latency_us,
            stats_wf(*old(self)) ==> stats_wf(*final(self)),
    {
        self.detection_latency_us = micros;
    }
}

} // verus!
