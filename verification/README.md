# polymarket_backtest

The verified core of a backtest harness for Polymarket's five-minute BTC
up/down markets: finding the markets, planning the data cache, ordering and
thinning market lists, walk-forward fold planning, sample balancing, and the
small tallies and rolling buffers the model keeps. Every function in `src/`
carries a Verus contract and is proved against it, except the few
`external_body` wrappers around chrono and std calls, whose contracts are
trusted.

Layout:

- `src/text.rs` – characters, splitting, trimming, decimal digits, `i64` parsing.
- `src/catalog.rs` – strategy ids and their names, bands, run modes, strategy lists.
- `src/calendar.rs` – calendar days via chrono: parsing, formatting, stepping, day keys.
- `src/discovery.rs` – market handles, slug timestamps, up-side selection, table rows.
- `src/market_order.rs` – stable sorting, de-duplication and selection of markets.
- `src/listing.rs` – storage key prefixes, asset ids from listings, text sorting.
- `src/availability.rs` – the availability cache and the retry policy of lookups.
- `src/prep_cache.rs` – which prefixes a cache-preparation run lists.
- `src/folds.rs` – walk-forward fold plans.
- `src/sampling.rs` – evenly spaced picks and replay-tape thinning.
- `src/balance.rs` – grouping samples by market, balancing and splitting them.
- `src/ring.rs` – fixed-capacity rolling buffers.
- `src/tallies.rs` – win-rate tables, hour buckets, the direction Markov chain, order counters.
- `app/` – the command-line driver: files, object store, HTTP.
