//! Planning a local mirror of the market data: which key prefixes to list
//! for the spot history of each day and for the book and trade files of
//! each market.
use vstd::prelude::*;
use crate::discovery::{MarketHandle, MarketHandleView};
use crate::listing::{
    channel_asset_prefix, dedup_texts, is_text_order, spec_channel_asset_prefix,
    spec_spot_trades_prefix, spot_trades_prefix, texts, unique_sorted_texts,
};
use crate::market_order::handle_views;

verus! {

broadcast use vstd::seq_lib::group_seq_properties;

#[verifier::external_type_specification]
#[verifier::external_body]
pub struct ExPathBuf(std::path::PathBuf);

/// Settings of a cache-preparation run.
#[derive(Debug)]
pub struct PrepCacheConfig {
    pub cache_dir: std::path::PathBuf,
    pub spot_symbol: String,
    pub max_concurrent: usize,
    /// If true, skip files already present locally.
    pub skip_existing: bool,
}

/// The channel of the `i`-th market prefix of a market: book snapshots,
/// then trades.
pub open spec fn mirrored_channel(i: int) -> Seq<char> {
    if i % 2 == 0 {
        "book_snapshot_25"@
    } else {
        "trades"@
    }
}

/// The key prefixes listed for the markets: for each market in order, its
/// book-snapshot prefix and then its trades prefix.
pub open spec fn spec_market_prefixes(ms: Seq<MarketHandleView>) -> Seq<Seq<char>> {
    Seq::new(
        2 * ms.len(),
        |i: int| spec_channel_asset_prefix(mirrored_channel(i), ms[i / 2].date, ms[i / 2].asset_id),
    )
}

/// The spot prefixes listed: one per distinct market date, in ascending
/// date order, none when no spot symbol is set.
pub open spec fn spec_spot_prefixes(symbol: Seq<char>, sorted_unique_dates: Seq<Seq<char>>) -> Seq<Seq<char>> {
    if symbol.len() == 0 {
        Seq::empty()
    } else {
        sorted_unique_dates.map_values(|d: Seq<char>| spec_spot_trades_prefix(symbol, d))
    }
}

/// The dates of a list of markets.
pub open spec fn market_dates(ms: Seq<MarketHandleView>) -> Seq<Seq<char>> {
    ms.map_values(|m: MarketHandleView| m.date)
}

/// The key prefixes to list when mirroring `markets`: spot prefixes (see
/// `spec_spot_prefixes`) and market prefixes (see `spec_market_prefixes`).
pub fn prep_cache_prefixes(markets: &[MarketHandle], cfg: &PrepCacheConfig) -> (r: (Vec<String>, Vec<String>))
    ensures
        exists|order: Seq<int>|
            is_text_order(market_dates(handle_views(markets@)), order) && texts(r.0@)
                == spec_spot_prefixes(
                cfg.spot_symbol@,
                dedup_texts(order.map_values(|p: int| market_dates(handle_views(markets@))[p])),
            ),
        texts(r.1@) == spec_market_prefixes(handle_views(markets@)),
{
    let ghost mv = handle_views(markets@);
    let mut dates: Vec<String> = Vec::new();
    let mut k: usize = 0;
    while k < markets.len()
        invariant
            k <= markets@.len(),
            mv == handle_views(markets@),
            texts(dates@) == market_dates(mv).take(k as int),
        decreases markets@.len() - k,
    {
        let d = markets[k].date.clone();
        let ghost before = dates@;
        dates.push(d);
        assert(texts(dates@) =~= texts(before).push(d@));
        assert(market_dates(mv).take(k + 1) =~= market_dates(mv).take(k as int).push(mv[k as int].date));
        k = k + 1;
    }
    assert(market_dates(mv).take(markets@.len() as int) =~= market_dates(mv));
    let unique = unique_sorted_texts(dates.as_slice());
    let ghost order = choose|o: Seq<int>|
        is_text_order(texts(dates@), o) && texts(unique@) == dedup_texts(
            o.map_values(|p: int| dates@[p]@),
        );
    proof {
        assert(texts(dates@) == market_dates(mv));
        assert(order.map_values(|p: int| dates@[p]@) =~= order.map_values(
            |p: int| market_dates(mv)[p],
        )) by {
            assert forall|i: int| 0 <= i < order.len() implies dates@[order[i]]@ == market_dates(
                mv,
            )[order[i]] by {
                assert(0 <= order[i] < dates@.len());
                assert(texts(dates@)[order[i]] == dates@[order[i]]@);
            }
        }
    }
    let mut spot: Vec<String> = Vec::new();
    if cfg.spot_symbol.unicode_len() > 0 {
        let mut k: usize = 0;
        while k < unique.len()
            invariant
                k <= unique@.len(),
                cfg.spot_symbol@.len() > 0,
                texts(spot@) == texts(unique@).take(k as int).map_values(
                    |d: Seq<char>| spec_spot_trades_prefix(cfg.spot_symbol@, d),
                ),
            decreases unique@.len() - k,
        {
            let pfx = spot_trades_prefix(cfg.spot_symbol.as_str(), unique[k].as_str());
            let ghost before = spot@;
            spot.push(pfx);
            assert(texts(spot@) =~= texts(before).push(pfx@));
            assert(texts(unique@).take(k + 1) =~= texts(unique@).take(k as int).push(unique@[k as int]@));
            k = k + 1;
        }
        assert(texts(unique@).take(unique@.len() as int) =~= texts(unique@));
    } else {
        assert(texts(spot@) =~= Seq::<Seq<char>>::empty());
    }
    let mut per_market: Vec<String> = Vec::new();
    let mut k: usize = 0;
    while k < markets.len()
        invariant
            k <= markets@.len(),
            mv == handle_views(markets@),
            texts(per_market@) == spec_market_prefixes(mv).take(2 * k),
        decreases markets@.len() - k,
    {
        let m = &markets[k];
        let book = channel_asset_prefix("book_snapshot_25", m.date.as_str(), m.asset_id.as_str());
        let trades = channel_asset_prefix("trades", m.date.as_str(), m.asset_id.as_str());
        let ghost before = per_market@;
        per_market.push(book);
        per_market.push(trades);
        proof {
            assert(texts(per_market@) =~= texts(before).push(book@).push(trades@));
            let sp = spec_market_prefixes(mv);
            assert(mv[k as int] == m@);
            assert(sp[2 * k] == book@);
            assert(sp[2 * k + 1] == trades@);
            assert(sp.take(2 * k + 2) =~= sp.take(2 * k).push(sp[2 * k]).push(sp[2 * k + 1]));
        }
        k = k + 1;
    }
    assert(spec_market_prefixes(mv).take(2 * markets@.len() as int) =~= spec_market_prefixes(mv));
    assert(texts(spot@) == spec_spot_prefixes(
        cfg.spot_symbol@,
        dedup_texts(order.map_values(|p: int| market_dates(mv)[p])),
    ));
    (spot, per_market)
}

} // verus!
