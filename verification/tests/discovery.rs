use polymarket_backtest::calendar::CivilDay;
use polymarket_backtest::discovery::{
    canonical_up_asset_for_row, eq_ignore_ascii_case, market_from_row, market_open_ns,
    outcome_is_up, outcome_label_is_yes, parse_close_ts, parse_close_ts_from_slug, row_market_fields,
    slug_to_nautilus_symbol, MarketHandle, MarketRow,
};

#[test]
fn parquet_discovery_selects_up_asset_from_either_outcome_slot() {
    assert_eq!(
        canonical_up_asset_for_row(Some("Up"), Some("asset0"), Some("Down"), Some("asset1")),
        Some((0, "asset0"))
    );
    assert_eq!(
        canonical_up_asset_for_row(Some("Down"), Some("asset0"), Some("Up"), Some("asset1")),
        Some((1, "asset1"))
    );
}

#[test]
fn parquet_discovery_rejects_rows_without_canonical_up_side() {
    assert_eq!(
        canonical_up_asset_for_row(Some("No"), Some("asset0"), Some("Down"), Some("asset1")),
        None
    );
}

#[test]
fn up_side_without_its_asset_gives_nothing() {
    assert_eq!(canonical_up_asset_for_row(Some("yes"), None, Some("Up"), Some("a1")), None);
    assert_eq!(canonical_up_asset_for_row(None, Some("a0"), Some("ABOVE"), Some("a1")), Some((1, "a1")));
}

#[test]
fn outcome_is_up_ignores_ascii_case() {
    assert!(outcome_is_up(Some("UP")));
    assert!(outcome_is_up(Some("yEs")));
    assert!(outcome_is_up(Some("Above")));
    assert!(!outcome_is_up(Some("down")));
    assert!(!outcome_is_up(Some("upp")));
    assert!(!outcome_is_up(None));
    assert!(eq_ignore_ascii_case("BtC-5m", "btc-5M"));
    assert!(!eq_ignore_ascii_case("é", "É"));
}

#[test]
fn outcome_labels_that_count_as_yes() {
    for label in ["Up", "Yes", "yes", "UP"] {
        assert!(outcome_label_is_yes(label), "{label}");
    }
    for label in ["up", "YES", "Down", "No", ""] {
        assert!(!outcome_label_is_yes(label), "{label}");
    }
}

#[test]
fn parse_close_ts_reads_the_last_slug_piece() {
    assert_eq!(parse_close_ts("btc-updown-5m-1778587500"), Some(1778587500));
    assert_eq!(parse_close_ts("1778587500"), Some(1778587500));
    assert_eq!(parse_close_ts("btc-updown-5m-"), None);
    assert_eq!(parse_close_ts("btc-updown-5m-17785x"), None);
    assert_eq!(parse_close_ts("x-+42"), Some(42));
    assert_eq!(parse_close_ts("x--42"), Some(42));
    assert_eq!(parse_close_ts("x-9223372036854775807"), Some(i64::MAX));
    assert_eq!(parse_close_ts("x-9223372036854775808"), None);
    assert_eq!(parse_close_ts("x-18446744073709551616"), None);
    assert_eq!(parse_close_ts(""), None);
}

#[test]
fn parse_close_ts_from_slug_names_the_slug_on_error() {
    assert_eq!(parse_close_ts_from_slug("btc-updown-5m-1778587500").unwrap(), 1778587500);
    let err = parse_close_ts_from_slug("btc-updown-5m").unwrap_err();
    assert_eq!(err.slug, "btc-updown-5m");
    assert_eq!(
        err.message(),
        "could not parse resolution timestamp from slug: btc-updown-5m"
    );
}

fn handle(slug: &str, close_ts: i64) -> MarketHandle {
    MarketHandle {
        asset_id: "a".to_string(),
        slug: slug.to_string(),
        close_ts,
        outcome: "Up".to_string(),
        date: "2026-05-12".to_string(),
    }
}

#[test]
fn market_open_prefers_the_slug_time() {
    assert_eq!(market_open_ns(&handle("btc-updown-5m-1778587500", 0)), 1_778_587_500_000_000_000);
    assert_eq!(market_open_ns(&handle("btc-updown-5m", 1_000)), 700_000_000_000);
    assert_eq!(market_open_ns(&handle("x-9223372036854775807", 0)), i64::MAX);
    assert_eq!(market_open_ns(&handle("bad", i64::MIN)), i64::MIN);
}

#[test]
fn slug_symbol_is_upper_case() {
    assert_eq!(slug_to_nautilus_symbol("btc-updown-5m-1778587500"), "BTC-UPDOWN-5M-1778587500");
}

fn row() -> MarketRow {
    MarketRow {
        slug: Some("btc-updown-5m-1778587500".to_string()),
        status: Some("resolved".to_string()),
        result_id: Some("0".to_string()),
        outcome_0: Some("Up".to_string()),
        outcome_1: Some("Down".to_string()),
        asset_id_0: Some("asset0".to_string()),
        asset_id_1: Some("asset1".to_string()),
        end_date_us: Some(1_778_587_800_123_456),
    }
}

fn day(year: i32, month: u32, day: u32) -> CivilDay {
    CivilDay { year, month, day }
}

#[test]
fn market_row_becomes_a_handle() {
    let m = market_from_row(&row(), "btc-updown-5m", day(2026, 5, 1), day(2026, 5, 31)).unwrap();
    assert_eq!(m.asset_id, "asset0");
    assert_eq!(m.slug, "btc-updown-5m-1778587500");
    assert_eq!(m.close_ts, 1_778_587_800);
    assert_eq!(m.outcome, "Up");
    assert_eq!(m.date, "2026-05-12");
}

#[test]
fn market_row_outcome_follows_the_winning_slot() {
    let mut r = row();
    r.result_id = Some("1".to_string());
    let m = market_from_row(&r, "btc", day(2026, 5, 12), day(2026, 5, 12)).unwrap();
    assert_eq!(m.outcome, "Down");
    r.result_id = Some("2".to_string());
    assert!(market_from_row(&r, "btc", day(2026, 5, 12), day(2026, 5, 12)).is_none());
}

#[test]
fn market_row_without_end_time_closes_five_minutes_after_start() {
    let mut r = row();
    r.end_date_us = None;
    let m = market_from_row(&r, "", day(2026, 1, 1), day(2026, 12, 31)).unwrap();
    assert_eq!(m.close_ts, 1_778_587_800);
    r.end_date_us = Some(-1);
    let m = market_from_row(&r, "", day(2026, 1, 1), day(2026, 12, 31)).unwrap();
    assert_eq!(m.close_ts, -1);
}

#[test]
fn market_rows_are_filtered() {
    let range = (day(2026, 5, 1), day(2026, 5, 31));
    let mut r = row();
    r.status = Some("open".to_string());
    assert!(market_from_row(&r, "btc", range.0, range.1).is_none());
    assert!(market_from_row(&row(), "eth", range.0, range.1).is_none());
    assert!(market_from_row(&row(), "btc", day(2026, 5, 13), day(2026, 5, 31)).is_none());
    assert!(market_from_row(&row(), "btc", day(2026, 5, 1), day(2026, 5, 11)).is_none());
    let mut r = row();
    r.asset_id_0 = Some(String::new());
    assert!(market_from_row(&r, "btc", range.0, range.1).is_none());
    let mut r = row();
    r.outcome_0 = Some("No".to_string());
    assert!(market_from_row(&r, "btc", range.0, range.1).is_none());
    let mut r = row();
    r.slug = Some("btc-updown-5m-soon".to_string());
    assert!(market_from_row(&r, "btc", range.0, range.1).is_none());
    let mut r = row();
    r.slug = None;
    assert!(market_from_row(&r, "", range.0, range.1).is_none());
}

#[test]
fn row_fields_for_a_placed_day() {
    let d = day(2026, 5, 12);
    assert_eq!(
        row_market_fields(&row(), 1_778_587_500, d, day(2026, 5, 1), day(2026, 5, 31)),
        Some(("asset0".to_string(), "Up".to_string(), 1_778_587_800))
    );
    assert_eq!(row_market_fields(&row(), 1_778_587_500, d, day(2026, 5, 13), day(2026, 5, 31)), None);
    let mut r = row();
    r.end_date_us = None;
    assert_eq!(
        row_market_fields(&r, i64::MAX, d, d, d),
        Some(("asset0".to_string(), "Up".to_string(), i64::MAX))
    );
    r.outcome_0 = Some("Down".to_string());
    r.outcome_1 = Some("up".to_string());
    assert_eq!(
        row_market_fields(&r, 100, d, d, d),
        Some(("asset1".to_string(), "Down".to_string(), 400))
    );
}
