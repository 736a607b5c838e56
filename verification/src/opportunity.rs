use vstd::prelude::*;

verus! {

/// Advisory volume cap of a single opportunity before the configured
/// position clamp, in nano units.
pub const BASE_MAX_VOLUME_NANO: i64 = 100_000_000_000;

/// Mathematical image of one opportunity.
#[verifier::ext_equal]
pub struct OpportunityModel {
    pub path: Seq<Seq<char>>,
    pub cycle: Seq<usize>,
    pub profit_log_nano: int,
    pub max_volume_nano: int,
    pub confidence: int,
    pub detected_at: int,
    pub exchanges: Seq<Seq<char>>,
}

/// A detected profitable cycle, ready for subscribers.
///
/// `profit_log_nano` is `ln(1 + profit_percentage) * 1e9` rounded: the
/// negated weight sum of the cycle. The fractional profit itself is
/// `exp(profit_log_nano / 1e9) - 1`, which unverified layers may
/// compute for display.
#[derive(Debug, PartialEq)]
pub struct ArbitrageOpportunity {
    /// The currency-venue node names around the cycle, in trade order.
    pub path: Vec<String>,
    /// The node indices of the cycle, rotated so the smallest leads.
    pub cycle: Vec<usize>,
    /// Negated sum of the cycle's edge weights; always positive and
    /// above the configured gate.
    pub profit_log_nano: i64,
    /// Advisory volume for the whole cycle, in nano units.
    pub max_volume_nano: i64,
    /// Coarse score in `[0, 100]`; a heuristic, not a probability.
    pub confidence: u32,
    /// Caller-supplied clock reading at detection time.
    pub detected_at: u64,
    /// The venue of each node, in path order.
    pub exchanges: Vec<String>,
}

impl View for ArbitrageOpportunity {
    type V = OpportunityModel;

    open spec fn view(&self) -> OpportunityModel {
        OpportunityModel {
            path: self.path.deep_view(),
            cycle: self.cycle@,
            profit_log_nano: self.profit_log_nano as int,
            max_volume_nano: self.max_volume_nano as int,
            confidence: self.confidence as int,
            detected_at: self.detected_at as int,
            exchanges: self.exchanges.deep_view(),
        }
    }
}

/// The confidence formula: up to fifty points for profit, a point per
/// microlog, and up to fifty for brevity, five docked per hop.
pub open spec fn spec_confidence(profit_log_nano: int, path_length: int) -> int {
    let profit_score = if profit_log_nano / 1_000_000 > 50 {
        50int
    } else {
        profit_log_nano / 1_000_000
    };
    let path_score = if 50 - 5 * path_length > 0 {
        50 - 5 * path_length
    } else {
        0int
    };
    profit_score + path_score
}

/// Computes the confidence score of a cycle.
pub fn calculate_confidence(profit_log_nano: i64, path_length: usize) -> (r: u32)
    requires
        profit_log_nano >= 0,
    ensures
        r == spec_confidence(profit_log_nano as int, path_length as int),
        r <= 100,
{
    let profit_score: i64 = if profit_log_nano / 1_000_000 > 50 {
        50
    } else {
        profit_log_nano / 1_000_000
    };
    let path_score: i64 = if path_length < 10 {
        50 - 5 * (path_length as i64)
    } else {
        0
    };
    (profit_score + path_score) as u32
}

/// Copies a list of names, keeping every character.
pub fn clone_strings(v: &Vec<String>) -> (r: Vec<String>)
    ensures
        r.deep_view() == v.deep_view(),
{
    let mut r: Vec<String> = Vec::new();
    let n = v.len();
    let mut i: usize = 0;
    while i < n
        invariant
            n == v@.len(),
            0 <= i <= n,
            r@.len() == i,
            forall|j: int| 0 <= j < i ==> (#[trigger] r@[j])@ == v@[j]@,
        decreases n - i,
    {
        r.push(v[i].clone());
        i = i + 1;
    }
    proof {
        assert forall|j: int| 0 <= j < n implies #[trigger] r.deep_view()[j]
            == v.deep_view()[j] by {
            assert(r.deep_view()[j] == r@[j]@);
            assert(v.deep_view()[j] == v@[j]@);
        }
        assert(r.deep_view() =~= v.deep_view());
    }
    r
}

/// Copies a list of indices.
pub fn clone_indices(v: &Vec<usize>) -> (r: Vec<usize>)
    ensures
        r@ == v@,
{
    let mut r: Vec<usize> = Vec::new();
    let n = v.len();
    let mut i: usize = 0;
    while i < n
        invariant
            n == v@.len(),
            0 <= i <= n,
            r@ == v@.subrange(0, i as int),
        decreases n - i,
    {
        r.push(v[i]);
        i = i + 1;
        proof {
            assert(r@ =~= v@.subrange(0, i as int));
        }
    }
    proof {
        assert(r@ =~= v@);
    }
    r
}

impl Clone for ArbitrageOpportunity {
    /// The copy subscribers receive carries exactly the same payload.
    fn clone(&self) -> (r: Self)
        ensures
            r@ == self@,
    {
        let r = ArbitrageOpportunity {
            path: clone_strings(&self.path),
            cycle: clone_indices(&self.cycle),
            profit_log_nano: self.profit_log_nano,
            max_volume_nano: self.max_volume_nano,
            confidence: self.confidence,
            detected_at: self.detected_at,
            exchanges: clone_strings(&self.exchanges),
        };
        proof {
            assert(r@ =~= self@);
        }
        r
    }
}

} // verus!
