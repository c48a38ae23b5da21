use polymarket_backtest::tallies::{
    hour_bucket, DirectionMarkov, GateOutcome, SkewBucket, SkewWinRateTable, StrategyCounters,
    TimeOfDayTable,
};

#[test]
fn skew_table_counts_predicted_side_wins() {
    let mut table = SkewWinRateTable::new();
    table.record_in_bucket(5, true, false);
    table.record_in_bucket(5, true, true);
    table.record_in_bucket(5, false, false);
    let b: SkewBucket = table.bucket(5);
    assert_eq!(b.taken, 3);
    assert_eq!(b.yes_wins, 2);
    assert_eq!(table.bucket(0).taken, 0);
}

#[test]
fn time_of_day_table_records_by_hour() {
    let mut table = TimeOfDayTable::new();
    let good_hour_ts = 10_000_000_000_000i64;
    assert_eq!(hour_bucket(good_hour_ts), 2);
    for _ in 0..6 {
        table.record(hour_bucket(good_hour_ts), true, true);
    }
    assert_eq!(table.stats(2).taken, 6);
    assert_eq!(table.stats(2).yes_wins, 6);
    assert_eq!(table.stats(3).taken, 0);
}

#[test]
fn hour_buckets() {
    assert_eq!(hour_bucket(0), 0);
    assert_eq!(hour_bucket(-5), 0);
    assert_eq!(hour_bucket(1_778_587_500 * 1_000_000_000), 12);
    assert_eq!(hour_bucket(86_399 * 1_000_000_000), 23);
}

#[test]
fn markov_counts_transitions() {
    let mut m = DirectionMarkov::new();
    assert_eq!(m.observe(true), None);
    assert_eq!(m.observe(true), Some((1, 1)));
    assert_eq!(m.observe(false), Some((1, 2)));
    assert_eq!(m.observe(false), Some((1, 1)));
    assert_eq!(m.observations, 4);
    assert_eq!(m.transitions, [[1, 0], [1, 1]]);
}

#[test]
fn model_gate_counts_first_failing_check() {
    let mut c = StrategyCounters::default();
    assert_eq!(c.apply_model_gate(true, true, true), GateOutcome::RejectedConfidence);
    assert_eq!(c.apply_model_gate(false, true, true), GateOutcome::RejectedRisk);
    assert_eq!(c.apply_model_gate(false, false, true), GateOutcome::RejectedEdge);
    assert_eq!(c.apply_model_gate(false, false, false), GateOutcome::Submitted);
    assert_eq!(c.orders_rejected_model_gate, 3);
    assert_eq!(c.orders_rejected_model_gate_confidence, 1);
    assert_eq!(c.orders_rejected_model_gate_risk, 1);
    assert_eq!(c.orders_rejected_model_gate_edge, 1);
    assert_eq!(c.orders_submitted, 1);
    assert_eq!(c.orders_filled_taker, 0);
}
