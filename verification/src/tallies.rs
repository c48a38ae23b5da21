//! Integer tallies kept by the model across resolved markets: per-skew-bucket
//! and per-hour win counts, the direction Markov chain, and the runner's order
//! counters.
use vstd::prelude::*;

verus! {

/// Number of market-mid buckets in a `SkewWinRateTable`.
pub const SKEW_BINS: usize = 10;

/// Number of hour-of-day buckets in a `TimeOfDayTable`.
pub const HOUR_BINS: usize = 24;

pub const NS_PER_SECOND: i64 = 1_000_000_000;

/// How many times the model's side was taken in a bucket and how often the
/// taken side won.
#[derive(Debug, Clone, Copy)]
pub struct SkewBucket {
    pub taken: u32,
    pub yes_wins: u32,
}

/// A bucket that has seen no market.
pub open spec fn empty_bucket() -> SkewBucket {
    SkewBucket { taken: 0, yes_wins: 0 }
}

/// `x + 1`, saturating at `u32::MAX`.
pub open spec fn sat_inc(x: u32) -> u32 {
    if x == u32::MAX {
        x
    } else {
        (x + 1) as u32
    }
}

/// The bucket after recording one resolved market in it.
pub open spec fn bucket_after_record(b: SkewBucket, predicted_yes: bool, resolved_yes: bool) -> SkewBucket {
    SkewBucket {
        taken: sat_inc(b.taken),
        yes_wins: if predicted_yes == resolved_yes {
            sat_inc(b.yes_wins)
        } else {
            b.yes_wins
        },
    }
}

fn record_bucket(b: SkewBucket, predicted_yes: bool, resolved_yes: bool) -> (r: SkewBucket)
    requires
        b.yes_wins <= b.taken,
    ensures
        r == bucket_after_record(b, predicted_yes, resolved_yes),
        r.yes_wins <= r.taken,
{
    SkewBucket {
        taken: b.taken.saturating_add(1),
        yes_wins: if predicted_yes && resolved_yes || !predicted_yes && !resolved_yes {
            b.yes_wins.saturating_add(1)
        } else {
            b.yes_wins
        },
    }
}

/// Empirical win counts of the predicted side, bucketed by market mid.
#[derive(Debug, Clone, Copy)]
pub struct SkewWinRateTable {
    buckets: [SkewBucket; SKEW_BINS],
}

impl SkewWinRateTable {
    #[verifier::type_invariant]
    spec fn wins_never_exceed_taken(self) -> bool {
        forall|i: int| 0 <= i < SKEW_BINS ==> #[trigger] self.buckets@[i].yes_wins <= self.buckets@[i].taken
    }

    /// The buckets, lowest mid first.
    pub closed spec fn view(&self) -> Seq<SkewBucket> {
        self.buckets@
    }

    /// A table with every bucket empty.
    pub fn new() -> (r: Self)
        ensures
            r.view().len() == SKEW_BINS,
            forall|i: int| 0 <= i < SKEW_BINS ==> #[trigger] r.view()[i] == empty_bucket(),
    {
        SkewWinRateTable { buckets: [SkewBucket { taken: 0, yes_wins: 0 }; SKEW_BINS] }
    }

    /// Records one resolved market in bucket `idx`.
    pub fn record_in_bucket(&mut self, idx: usize, predicted_yes: bool, resolved_yes: bool)
        requires
            idx < SKEW_BINS,
        ensures
            final(self).view() == old(self).view().update(
                idx as int,
                bucket_after_record(old(self).view()[idx as int], predicted_yes, resolved_yes),
            ),
    {
        proof {
            use_type_invariant(&*self);
        }
        let b = record_bucket(self.buckets[idx], predicted_yes, resolved_yes);
        self.buckets[idx] = b;
    }

    /// The tallies of bucket `idx`; the wins never exceed the markets taken.
    pub fn bucket(&self, idx: usize) -> (r: SkewBucket)
        requires
            idx < SKEW_BINS,
        ensures
            r == self.view()[idx as int],
            r.yes_wins <= r.taken,
    {
        proof {
            use_type_invariant(self);
        }
        self.buckets[idx]
    }
}

/// Empirical win counts of the predicted side, bucketed by UTC hour.
#[derive(Debug, Clone, Copy)]
pub struct TimeOfDayTable {
    buckets: [SkewBucket; HOUR_BINS],
}

impl TimeOfDayTable {
    #[verifier::type_invariant]
    spec fn wins_never_exceed_taken(self) -> bool {
        forall|i: int| 0 <= i < HOUR_BINS ==> #[trigger] self.buckets@[i].yes_wins <= self.buckets@[i].taken
    }

    /// The buckets, hour 0 first.
    pub closed spec fn view(&self) -> Seq<SkewBucket> {
        self.buckets@
    }

    /// A table with every hour empty.
    pub fn new() -> (r: Self)
        ensures
            r.view().len() == HOUR_BINS,
            forall|i: int| 0 <= i < HOUR_BINS ==> #[trigger] r.view()[i] == empty_bucket(),
    {
        TimeOfDayTable { buckets: [SkewBucket { taken: 0, yes_wins: 0 }; HOUR_BINS] }
    }

    /// Records one resolved market in hour `hour_bucket % 24`.
    pub fn record(&mut self, hour_bucket: usize, predicted_yes: bool, resolved_yes: bool)
        ensures
            final(self).view() == old(self).view().update(
                (hour_bucket % HOUR_BINS) as int,
                bucket_after_record(
                    old(self).view()[(hour_bucket % HOUR_BINS) as int],
                    predicted_yes,
                    resolved_yes,
                ),
            ),
    {
        proof {
            use_type_invariant(&*self);
        }
        let idx = hour_bucket % HOUR_BINS;
        let b = record_bucket(self.buckets[idx], predicted_yes, resolved_yes);
        self.buckets[idx] = b;
    }

    /// The tallies of hour `hour_bucket % 24`.
    pub fn stats(&self, hour_bucket: usize) -> (r: SkewBucket)
        ensures
            r == self.view()[(hour_bucket % HOUR_BINS) as int],
            r.yes_wins <= r.taken,
    {
        proof {
            use_type_invariant(self);
        }
        self.buckets[hour_bucket % HOUR_BINS]
    }
}

/// The UTC hour of day of a positive nanosecond timestamp (0 otherwise).
pub open spec fn spec_hour_bucket(ts_ns: i64) -> int {
    if ts_ns <= 0 {
        0
    } else {
        ((ts_ns / NS_PER_SECOND) % 86400) / 3600
    }
}

/// UTC hour-of-day bucket of a nanosecond timestamp; timestamps at or before
/// the epoch fall in bucket 0.
pub fn hour_bucket(ts_ns: i64) -> (r: usize)
    ensures
        r == spec_hour_bucket(ts_ns),
        r < HOUR_BINS,
{
    if ts_ns <= 0 {
        return 0;
    }
    let seconds = (ts_ns / NS_PER_SECOND) % (24 * 60 * 60);
    ((seconds / 3600) as usize) % HOUR_BINS
}

/// First-order Markov chain over the sign of successive direction scores.
#[derive(Debug, Clone, Copy)]
pub struct DirectionMarkov {
    pub last_side: Option<bool>,
    pub transitions: [[u32; 2]; 2],
    pub observations: u32,
}

/// Row index of a side in the transition matrix (NO = 0, YES = 1).
pub open spec fn side_index(side: bool) -> int {
    if side {
        1
    } else {
        0
    }
}

impl DirectionMarkov {
    /// A chain that has observed nothing.
    pub fn new() -> (r: Self)
        ensures
            r.last_side is None,
            r.observations == 0,
            forall|a: int, b: int| 0 <= a < 2 && 0 <= b < 2 ==> #[trigger] r.transitions[a][b] == 0,
    {
        DirectionMarkov { last_side: None, transitions: [[0u32; 2]; 2], observations: 0 }
    }

    /// Observes the next side. Returns, when a previous side exists, the
    /// number of recorded transitions that stayed on that previous side and
    /// the total number of transitions out of it (this one included); the
    /// model's persistence score is their ratio.
    pub fn observe(&mut self, side: bool) -> (r: Option<(u32, u64)>)
        ensures
            final(self).last_side == Some(side),
            final(self).observations == sat_inc(old(self).observations),
            match old(self).last_side {
                None => r is None && final(self).transitions == old(self).transitions,
                Some(prev) => {
                    let from = side_index(prev);
                    let to = side_index(side);
                    &&& final(self).transitions[from][to] == sat_inc(old(self).transitions[from][to])
                    &&& final(self).transitions[from][1 - to] == old(self).transitions[from][1 - to]
                    &&& final(self).transitions[1 - from] == old(self).transitions[1 - from]
                    &&& r == Some(
                        (
                            final(self).transitions[from][from],
                            (final(self).transitions[from][0] + final(self).transitions[from][1]) as u64,
                        ),
                    )
                },
            },
    {
        match self.last_side {
            Some(prev) => {
                let from: usize = if prev { 1 } else { 0 };
                let to: usize = if side { 1 } else { 0 };
                let mut row = self.transitions[from];
                row[to] = row[to].saturating_add(1);
                self.transitions[from] = row;
                self.observations = self.observations.saturating_add(1);
                self.last_side = Some(side);
                let total: u64 = row[0] as u64 + row[1] as u64;
                Some((row[from], total))
            },
            None => {
                self.last_side = Some(side);
                self.observations = self.observations.saturating_add(1);
                None
            },
        }
    }
}

/// Order bookkeeping of one backtest run.
#[derive(Debug, Clone)]
pub struct StrategyCounters {
    pub orders_submitted: usize,
    pub orders_filled_taker: usize,
    pub orders_filled_maker: usize,
    pub orders_rejected_no_cash: usize,
    pub orders_rejected_no_liquidity: usize,
    pub orders_rejected_bad_price: usize,
    pub orders_rejected_no_inventory: usize,
    pub orders_rejected_risk_gate: usize,
    pub orders_rejected_model_gate: usize,
    pub orders_rejected_model_gate_confidence: usize,
    pub orders_rejected_model_gate_risk: usize,
    pub orders_rejected_model_gate_edge: usize,
    pub resting_orders_active: usize,
    pub resting_orders_cancelled_eom: usize,
}

/// What the runner's model gate did with one requested order.
#[derive(Debug, Clone, Copy, PartialEq, Eq)]
pub enum GateOutcome {
    Submitted,
    RejectedConfidence,
    RejectedRisk,
    RejectedEdge,
}

/// Confidence is tested before risk, and risk before edge.
pub open spec fn spec_gate_outcome(low_confidence: bool, high_risk: bool, low_edge: bool) -> GateOutcome {
    if low_confidence {
        GateOutcome::RejectedConfidence
    } else if high_risk {
        GateOutcome::RejectedRisk
    } else if low_edge {
        GateOutcome::RejectedEdge
    } else {
        GateOutcome::Submitted
    }
}

impl StrategyCounters {
    /// All counters zero.
    pub open spec fn is_zero(&self) -> bool {
        &&& self.orders_submitted == 0
        &&& self.orders_filled_taker == 0
        &&& self.orders_filled_maker == 0
        &&& self.orders_rejected_no_cash == 0
        &&& self.orders_rejected_no_liquidity == 0
        &&& self.orders_rejected_bad_price == 0
        &&& self.orders_rejected_no_inventory == 0
        &&& self.orders_rejected_risk_gate == 0
        &&& self.orders_rejected_model_gate == 0
        &&& self.orders_rejected_model_gate_confidence == 0
        &&& self.orders_rejected_model_gate_risk == 0
        &&& self.orders_rejected_model_gate_edge == 0
        &&& self.resting_orders_active == 0
        &&& self.resting_orders_cancelled_eom == 0
    }

    /// The counters after the model gate handled one order with the given
    /// failed checks: a rejection counts once in the total and once under
    /// its first failing check; a pass counts one submitted order.
    pub open spec fn after_gate(self, outcome: GateOutcome) -> StrategyCounters {
        match outcome {
            GateOutcome::Submitted => StrategyCounters {
                orders_submitted: (self.orders_submitted + 1) as usize,
                ..self
            },
            GateOutcome::RejectedConfidence => StrategyCounters {
                orders_rejected_model_gate: (self.orders_rejected_model_gate + 1) as usize,
                orders_rejected_model_gate_confidence: (self.orders_rejected_model_gate_confidence
                    + 1) as usize,
                ..self
            },
            GateOutcome::RejectedRisk => StrategyCounters {
                orders_rejected_model_gate: (self.orders_rejected_model_gate + 1) as usize,
                orders_rejected_model_gate_risk: (self.orders_rejected_model_gate_risk
                    + 1) as usize,
                ..self
            },
            GateOutcome::RejectedEdge => StrategyCounters {
                orders_rejected_model_gate: (self.orders_rejected_model_gate + 1) as usize,
                orders_rejected_model_gate_edge: (self.orders_rejected_model_gate_edge
                    + 1) as usize,
                ..self
            },
        }
    }

    /// Applies the model gate to one requested order whose confidence, risk
    /// and edge checks failed as given, counts the outcome, and returns it.
    pub fn apply_model_gate(&mut self, low_confidence: bool, high_risk: bool, low_edge: bool) -> (r: GateOutcome)
        requires
            old(self).orders_submitted < usize::MAX,
            old(self).orders_rejected_model_gate < usize::MAX,
            old(self).orders_rejected_model_gate_confidence < usize::MAX,
            old(self).orders_rejected_model_gate_risk < usize::MAX,
            old(self).orders_rejected_model_gate_edge < usize::MAX,
        ensures
            r == spec_gate_outcome(low_confidence, high_risk, low_edge),
            *final(self) == old(self).after_gate(r),
    {
        if low_confidence {
            self.orders_rejected_model_gate += 1;
            self.orders_rejected_model_gate_confidence += 1;
            GateOutcome::RejectedConfidence
        } else if high_risk {
            self.orders_rejected_model_gate += 1;
            self.orders_rejected_model_gate_risk += 1;
            GateOutcome::RejectedRisk
        } else if low_edge {
            self.orders_rejected_model_gate += 1;
            self.orders_rejected_model_gate_edge += 1;
            GateOutcome::RejectedEdge
        } else {
            self.orders_submitted += 1;
            GateOutcome::Submitted
        }
    }
}

/// The model-gate rejection total is the sum of its three reasons.
pub open spec fn gate_totals_add_up(c: StrategyCounters) -> bool {
    c.orders_rejected_model_gate == c.orders_rejected_model_gate_confidence
        + c.orders_rejected_model_gate_risk + c.orders_rejected_model_gate_edge
}

/// Each gated order is counted exactly once, as submitted or as rejected,
/// and the rejection total stays the sum of its reasons.
pub proof fn model_gate_counts_each_order_once(c: StrategyCounters, outcome: GateOutcome)
    requires
        gate_totals_add_up(c),
        c.orders_submitted < usize::MAX,
        c.orders_rejected_model_gate < usize::MAX,
        c.orders_rejected_model_gate_confidence < usize::MAX,
        c.orders_rejected_model_gate_risk < usize::MAX,
        c.orders_rejected_model_gate_edge < usize::MAX,
    ensures
        gate_totals_add_up(c.after_gate(outcome)),
        c.after_gate(outcome).orders_submitted + c.after_gate(outcome).orders_rejected_model_gate
            == c.orders_submitted + c.orders_rejected_model_gate + 1,
{
}

impl Default for StrategyCounters {
    fn default() -> (r: Self)
        ensures
            r.is_zero(),
    {
        StrategyCounters {
            orders_submitted: 0,
            orders_filled_taker: 0,
            orders_filled_maker: 0,
            orders_rejected_no_cash: 0,
            orders_rejected_no_liquidity: 0,
            orders_rejected_bad_price: 0,
            orders_rejected_no_inventory: 0,
            orders_rejected_risk_gate: 0,
            orders_rejected_model_gate: 0,
            orders_rejected_model_gate_confidence: 0,
            orders_rejected_model_gate_risk: 0,
            orders_rejected_model_gate_edge: 0,
            resting_orders_active: 0,
            resting_orders_cancelled_eom: 0,
        }
    }
}

} // verus!
