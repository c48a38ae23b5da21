use polymarket_backtest::discovery::MarketHandle;
use polymarket_backtest::listing::{
    asset_id_from_listing, asset_ids_from_dir_names, asset_ids_from_listing, book_day_prefix,
    channel_asset_prefix, first_parquet, keep_listed_markets, sort_texts, spot_trades_prefix, temp_file_name,
    unique_sorted_texts,
};
use polymarket_backtest::market_order::{dedup_markets, select_markets, sort_markets, DedupKey};
use polymarket_backtest::prep_cache::{prep_cache_prefixes, PrepCacheConfig};

fn strings(v: &[&str]) -> Vec<String> {
    v.iter().map(|s| s.to_string()).collect()
}

#[test]
fn asset_ids_from_directory_names_are_sorted() {
    let names = strings(&["asset_id=b", "asset_id=a", "ignore.txt"]);
    assert_eq!(asset_ids_from_dir_names(&names), strings(&["a", "b"]));
}

#[test]
fn key_prefixes() {
    assert_eq!(
        book_day_prefix("2026-05-05"),
        "raw/telonex/exchange=polymarket/channel=book_snapshot_25/date=2026-05-05/"
    );
    assert_eq!(
        channel_asset_prefix("trades", "2026-05-05", "42"),
        "raw/telonex/exchange=polymarket/channel=trades/date=2026-05-05/asset_id=42/"
    );
    assert_eq!(
        spot_trades_prefix("BTCUSDT", "2026-05-05"),
        "raw/binance/exchange=binance/channel=agg_trades/symbol=BTCUSDT/date=2026-05-05/"
    );
}

#[test]
fn asset_ids_are_read_from_listed_prefixes() {
    assert_eq!(
        asset_id_from_listing("raw/x/date=2026-05-05/asset_id=123/"),
        Some("123".to_string())
    );
    assert_eq!(asset_id_from_listing("raw/x/asset_id=9//"), Some("9".to_string()));
    assert_eq!(asset_id_from_listing("asset_id="), Some(String::new()));
    assert_eq!(asset_id_from_listing("raw/x/other=1/"), None);
    let listed = strings(&["p/asset_id=z/", "p/junk/", "p/asset_id=b/", "p/asset_id=m/"]);
    assert_eq!(asset_ids_from_listing(&listed), strings(&["b", "m", "z"]));
}

#[test]
fn first_parquet_key_is_picked() {
    let keys = strings(&["a/part.json", "a/part-0.parquet", "a/part-1.parquet"]);
    assert_eq!(first_parquet(&keys), Some(1));
    assert_eq!(first_parquet(&strings(&["a", "parquet"])), None);
    assert_eq!(first_parquet(&strings(&[".parquet"])), Some(0));
}

#[test]
fn texts_sort_by_code_point_and_dedup() {
    let v = strings(&["b", "a", "ab", "B", "a", ""]);
    assert_eq!(sort_texts(&v), strings(&["", "B", "a", "a", "ab", "b"]));
    assert_eq!(unique_sorted_texts(&v), strings(&["", "B", "a", "ab", "b"]));
}

#[test]
fn temp_file_names() {
    assert_eq!(temp_file_name(Some("summary.json")), "summary.json.tmp");
    assert_eq!(temp_file_name(None), "checkpoint.tmp");
}

fn handle(asset: &str, slug: &str, close_ts: i64) -> MarketHandle {
    MarketHandle {
        asset_id: asset.to_string(),
        slug: slug.to_string(),
        close_ts,
        outcome: "Up".to_string(),
        date: "2026-05-05".to_string(),
    }
}

#[test]
fn markets_sort_stably_by_close_time() {
    let ms = vec![handle("c", "s3", 30), handle("b", "s1", 10), handle("a", "s2", 10)];
    let sorted = sort_markets(&ms, false);
    let assets: Vec<&str> = sorted.iter().map(|m| m.asset_id.as_str()).collect();
    assert_eq!(assets, vec!["b", "a", "c"]);
    let sorted = sort_markets(&ms, true);
    let assets: Vec<&str> = sorted.iter().map(|m| m.asset_id.as_str()).collect();
    assert_eq!(assets, vec!["a", "b", "c"]);
}

#[test]
fn consecutive_repeats_are_dropped() {
    let ms = vec![handle("a", "s", 1), handle("a", "t", 2), handle("b", "t", 3), handle("a", "u", 4)];
    let by_asset = dedup_markets(&ms, DedupKey::AssetId);
    let ts: Vec<i64> = by_asset.iter().map(|m| m.close_ts).collect();
    assert_eq!(ts, vec![1, 3, 4]);
    let by_slug = dedup_markets(&ms, DedupKey::Slug);
    let ts: Vec<i64> = by_slug.iter().map(|m| m.close_ts).collect();
    assert_eq!(ts, vec![1, 2, 4]);
}

#[test]
fn resolved_assets_become_sorted_markets() {
    let records = vec![
        ("a2".to_string(), "btc-updown-5m-1778587800".to_string(), "Up".to_string(), "d".to_string()),
        ("a1".to_string(), "btc-updown-5m-1778587500".to_string(), "Down".to_string(), "d".to_string()),
        ("a3".to_string(), "eth-updown-5m-1778587200".to_string(), "Up".to_string(), "d".to_string()),
        ("a4".to_string(), "btc-updown-5m-later".to_string(), "Up".to_string(), "d".to_string()),
    ];
    let ms = select_markets(&records, "btc-updown-5m");
    assert_eq!(ms.len(), 2);
    assert_eq!(ms[0].asset_id, "a1");
    assert_eq!(ms[0].close_ts, 1_778_587_500);
    assert_eq!(ms[0].outcome, "Down");
    assert_eq!(ms[1].asset_id, "a2");
}

#[test]
fn prep_cache_lists_spot_days_and_market_channels() {
    let mut m1 = handle("a1", "s1", 1);
    m1.date = "2026-05-06".to_string();
    let m2 = handle("a2", "s2", 2);
    let m3 = handle("a3", "s3", 3);
    let cfg = PrepCacheConfig {
        cache_dir: std::path::PathBuf::from("cache"),
        spot_symbol: "BTCUSDT".to_string(),
        max_concurrent: 4,
        skip_existing: true,
    };
    let (spot, markets) = prep_cache_prefixes(&[m1, m2, m3], &cfg);
    assert_eq!(
        spot,
        strings(&[
            "raw/binance/exchange=binance/channel=agg_trades/symbol=BTCUSDT/date=2026-05-05/",
            "raw/binance/exchange=binance/channel=agg_trades/symbol=BTCUSDT/date=2026-05-06/",
        ])
    );
    assert_eq!(markets.len(), 6);
    assert_eq!(
        markets[0],
        "raw/telonex/exchange=polymarket/channel=book_snapshot_25/date=2026-05-06/asset_id=a1/"
    );
    assert_eq!(
        markets[1],
        "raw/telonex/exchange=polymarket/channel=trades/date=2026-05-06/asset_id=a1/"
    );
    let no_spot = PrepCacheConfig { spot_symbol: String::new(), ..cfg };
    let (spot, _) = prep_cache_prefixes(&[handle("a", "s", 1)], &no_spot);
    assert!(spot.is_empty());
}

#[test]
fn markets_are_kept_when_their_asset_is_listed_for_their_date() {
    let mut m1 = handle("a1", "s1", 1);
    m1.date = "2026-05-06".to_string();
    let m2 = handle("a2", "s2", 2);
    let m3 = handle("a3", "s3", 3);
    let available = vec![
        ("2026-05-05".to_string(), strings(&["a2"])),
        ("2026-05-06".to_string(), strings(&["a2", "a3"])),
    ];
    let kept = keep_listed_markets(&[m1, m2, m3], &available);
    let assets: Vec<&str> = kept.iter().map(|m| m.asset_id.as_str()).collect();
    assert_eq!(assets, vec!["a2"]);
    let relisted = vec![
        ("2026-05-05".to_string(), strings(&["a2"])),
        ("2026-05-05".to_string(), strings(&["a3"])),
    ];
    let kept = keep_listed_markets(&[handle("a2", "s", 1), handle("a3", "t", 2)], &relisted);
    assert_eq!(kept.len(), 1);
    assert_eq!(kept[0].asset_id, "a3");
}
