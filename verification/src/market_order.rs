//! Ordering and de-duplication of market lists: a stable sort by close time
//! (optionally then by asset id), dropping consecutive repeats, and the
//! selection of resolved markets whose slug matches a prefix.
use vstd::prelude::*;
use crate::discovery::{parse_close_ts, slug_close_ts, MarketHandle, MarketHandleView};
use crate::text::{chars_of, same_chars, starts_with_chars};

verus! {

broadcast use vstd::seq_lib::group_seq_properties;

/// Strict lexicographic order of texts by code point, the order of `String`.
pub open spec fn text_less(a: Seq<char>, b: Seq<char>) -> bool
    decreases a.len(),
{
    if a.len() == 0 {
        b.len() > 0
    } else if b.len() == 0 {
        false
    } else if a[0] != b[0] {
        a[0] < b[0]
    } else {
        text_less(a.drop_first(), b.drop_first())
    }
}

/// `text_less` is a strict total order.
pub proof fn lemma_text_less_order(a: Seq<char>, b: Seq<char>, c: Seq<char>)
    ensures
        !text_less(a, a),
        text_less(a, b) ==> !text_less(b, a),
        a != b ==> text_less(a, b) || text_less(b, a),
        text_less(a, b) && text_less(b, c) ==> text_less(a, c),
    decreases a.len() + b.len() + c.len(),
{
    if a.len() > 0 && b.len() > 0 && c.len() > 0 {
        lemma_text_less_order(a.drop_first(), b.drop_first(), c.drop_first());
    } else if a.len() > 0 && b.len() > 0 {
        lemma_text_less_order(a.drop_first(), b.drop_first(), c);
    } else if a.len() > 0 {
        lemma_text_less_order(a.drop_first(), b, c);
    }
    if a.len() > 0 && b.len() > 0 && a[0] == b[0] && a != b {
        assert(a.drop_first() != b.drop_first()) by {
            if a.drop_first() == b.drop_first() {
                assert(a =~= seq![a[0]] + a.drop_first());
                assert(b =~= seq![b[0]] + b.drop_first());
            }
        }
    }
    if a.len() == 0 && b.len() == 0 {
        assert(a =~= b);
    }
    if a.len() > 0 && b.len() > 0 && a[0] != b[0] {
        assert(a[0] < b[0] || b[0] < a[0]);
    }
}

/// Whether `a` comes strictly before `b` in code point order.
pub fn text_before(a: &[char], b: &[char]) -> (r: bool)
    ensures
        r == text_less(a@, b@),
{
    let mut i: usize = 0;
    while i < a.len() && i < b.len() && a[i] == b[i]
        invariant
            i <= a@.len(),
            i <= b@.len(),
            text_less(a@, b@) == text_less(a@.skip(i as int), b@.skip(i as int)),
        decreases a@.len() - i,
    {
        assert(a@.skip(i as int).drop_first() =~= a@.skip(i + 1));
        assert(b@.skip(i as int).drop_first() =~= b@.skip(i + 1));
        i = i + 1;
    }
    if i == a.len() {
        i < b.len()
    } else if i == b.len() {
        false
    } else {
        a[i] < b[i]
    }
}

/// The secondary sort key of a market: its asset id when sorting by it,
/// otherwise nothing.
pub open spec fn tie_key(m: MarketHandleView, by_asset: bool) -> Seq<char> {
    if by_asset {
        m.asset_id
    } else {
        Seq::empty()
    }
}

/// Whether market `i` of `ms` comes before market `j`: earlier close time,
/// then (when `by_asset`) smaller asset id, then earlier position.
pub open spec fn ranks_before(ms: Seq<MarketHandleView>, by_asset: bool, i: int, j: int) -> bool {
    let a = ms[i];
    let b = ms[j];
    a.close_ts < b.close_ts || (a.close_ts == b.close_ts && (text_less(
        tie_key(a, by_asset),
        tie_key(b, by_asset),
    ) || (tie_key(a, by_asset) == tie_key(b, by_asset) && i < j)))
}

proof fn lemma_ranks_order(ms: Seq<MarketHandleView>, by_asset: bool, i: int, j: int, k: int)
    ensures
        i != j ==> ranks_before(ms, by_asset, i, j) || ranks_before(ms, by_asset, j, i),
        ranks_before(ms, by_asset, i, j) ==> !ranks_before(ms, by_asset, j, i),
        ranks_before(ms, by_asset, i, j) && ranks_before(ms, by_asset, j, k) ==> ranks_before(
            ms,
            by_asset,
            i,
            k,
        ),
{
    lemma_text_less_order(tie_key(ms[i], by_asset), tie_key(ms[j], by_asset), tie_key(ms[k], by_asset));
    lemma_text_less_order(tie_key(ms[j], by_asset), tie_key(ms[i], by_asset), tie_key(ms[k], by_asset));
    lemma_text_less_order(tie_key(ms[i], by_asset), tie_key(ms[k], by_asset), tie_key(ms[j], by_asset));
}

/// `order` lists every position of `ms` once, in `ranks_before` order: the
/// stable sort of `ms` by close time (then asset id when `by_asset`).
pub open spec fn is_market_order(ms: Seq<MarketHandleView>, by_asset: bool, order: Seq<int>) -> bool {
    &&& order.len() == ms.len()
    &&& forall|i: int| 0 <= i < order.len() ==> 0 <= #[trigger] order[i] < ms.len()
    &&& forall|i: int, j: int|
        0 <= i < j < order.len() ==> ranks_before(ms, by_asset, #[trigger] order[i], #[trigger] order[j])
}

/// The views of a list of markets.
pub open spec fn handle_views(ms: Seq<MarketHandle>) -> Seq<MarketHandleView> {
    ms.map_values(|m: MarketHandle| m@)
}

fn ranks_before_exec(ms: &[MarketHandle], keys: &Vec<Vec<char>>, by_asset: bool, i: usize, j: usize) -> (r: bool)
    requires
        i < ms@.len(),
        j < ms@.len(),
        keys@.len() == ms@.len(),
        forall|k: int| 0 <= k < ms@.len() ==> #[trigger] keys@[k]@ == tie_key(ms@[k]@, by_asset),
    ensures
        r == ranks_before(handle_views(ms@), by_asset, i as int, j as int),
{
    let a = ms[i].close_ts;
    let b = ms[j].close_ts;
    if a < b {
        true
    } else if a > b {
        false
    } else if text_before(keys[i].as_slice(), keys[j].as_slice()) {
        true
    } else {
        same_chars(keys[i].as_slice(), keys[j].as_slice()) && i < j
    }
}

/// The positions of `ms` in sorted order (see `is_market_order`).
pub fn market_order(ms: &[MarketHandle], by_asset: bool) -> (r: Vec<usize>)
    ensures
        is_market_order(handle_views(ms@), by_asset, r@.map_values(|p: usize| p as int)),
{
    let ghost v = handle_views(ms@);
    let mut keys: Vec<Vec<char>> = Vec::new();
    let mut k: usize = 0;
    while k < ms.len()
        invariant
            k <= ms@.len(),
            keys@.len() == k,
            forall|q: int| 0 <= q < k ==> #[trigger] keys@[q]@ == tie_key(ms@[q]@, by_asset),
        decreases ms@.len() - k,
    {
        if by_asset {
            keys.push(chars_of(ms[k].asset_id.as_str()));
        } else {
            keys.push(Vec::new());
        }
        k = k + 1;
    }
    let mut out: Vec<usize> = Vec::new();
    let mut n: usize = 0;
    while n < ms.len()
        invariant
            n <= ms@.len(),
            v == handle_views(ms@),
            keys@.len() == ms@.len(),
            forall|q: int| 0 <= q < ms@.len() ==> #[trigger] keys@[q]@ == tie_key(ms@[q]@, by_asset),
            out@.len() == n,
            forall|i: int| 0 <= i < n ==> #[trigger] out@[i] < n,
            forall|i: int, j: int|
                0 <= i < j < n ==> ranks_before(v, by_asset, #[trigger] out@[i] as int, #[trigger] out@[j] as int),
        decreases ms@.len() - n,
    {
        let mut p: usize = 0;
        while p < out.len() && ranks_before_exec(ms, &keys, by_asset, out[p], n)
            invariant
                p <= out@.len(),
                out@.len() == n,
                n < ms@.len(),
                keys@.len() == ms@.len(),
                forall|q: int| 0 <= q < ms@.len() ==> #[trigger] keys@[q]@ == tie_key(ms@[q]@, by_asset),
                forall|i: int| 0 <= i < n ==> #[trigger] out@[i] < n,
                v == handle_views(ms@),
                forall|i: int| 0 <= i < p ==> ranks_before(v, by_asset, #[trigger] out@[i] as int, n as int),
            decreases out@.len() - p,
        {
            p = p + 1;
        }
        proof {
            assert forall|q: int| p <= q < n implies ranks_before(v, by_asset, n as int, #[trigger] out@[q] as int) by {
                lemma_ranks_order(v, by_asset, out@[p as int] as int, n as int, out@[q] as int);
                lemma_ranks_order(v, by_asset, n as int, out@[p as int] as int, out@[q] as int);
            }
        }
        let ghost before = out@;
        out.insert(p, n);
        proof {
            assert forall|i: int, j: int| 0 <= i < j < n + 1 implies ranks_before(
                v,
                by_asset,
                #[trigger] out@[i] as int,
                #[trigger] out@[j] as int,
            ) by {
                if j < p {
                    assert(out@[i] == before[i] && out@[j] == before[j]);
                } else if j == p {
                    assert(out@[i] == before[i]);
                } else if i < p {
                    assert(out@[i] == before[i] && out@[j] == before[j - 1]);
                    lemma_ranks_order(v, by_asset, before[i] as int, n as int, before[j - 1] as int);
                } else if i == p {
                    assert(out@[j] == before[j - 1]);
                } else {
                    assert(out@[i] == before[i - 1] && out@[j] == before[j - 1]);
                }
            }
            assert forall|i: int| 0 <= i < n + 1 implies #[trigger] out@[i] < n + 1 by {
                if i < p {
                    assert(out@[i] == before[i]);
                } else if i > p {
                    assert(out@[i] == before[i - 1]);
                }
            }
        }
        n = n + 1;
    }
    let ghost o = out@.map_values(|p: usize| p as int);
    assert forall|i: int, j: int| 0 <= i < j < o.len() implies ranks_before(v, by_asset, #[trigger] o[i], #[trigger] o[j]) by {
        assert(o[i] == out@[i] as int && o[j] == out@[j] as int);
    }
    out
}

/// A copy of a market handle with the same contents.
pub fn copy_handle(m: &MarketHandle) -> (r: MarketHandle)
    ensures
        r@ == m@,
{
    MarketHandle {
        asset_id: m.asset_id.clone(),
        slug: m.slug.clone(),
        close_ts: m.close_ts,
        outcome: m.outcome.clone(),
        date: m.date.clone(),
    }
}

/// The markets sorted by close time (then by asset id when `by_asset`),
/// keeping the input order among equal keys.
pub fn sort_markets(ms: &[MarketHandle], by_asset: bool) -> (r: Vec<MarketHandle>)
    ensures
        exists|order: Seq<int>|
            is_market_order(handle_views(ms@), by_asset, order) && handle_views(r@) == order.map_values(
                |p: int| ms@[p]@,
            ),
        forall|i: int, j: int| 0 <= i < j < r@.len() ==> (#[trigger] r@[i]).close_ts <= (#[trigger] r@[j]).close_ts,
{
    let order = market_order(ms, by_asset);
    let ghost o = order@.map_values(|p: usize| p as int);
    let ghost v = handle_views(ms@);
    let mut out: Vec<MarketHandle> = Vec::new();
    let mut k: usize = 0;
    while k < order.len()
        invariant
            k <= order@.len(),
            o == order@.map_values(|p: usize| p as int),
            v == handle_views(ms@),
            is_market_order(v, by_asset, o),
            handle_views(out@) == o.take(k as int).map_values(|p: int| ms@[p]@),
        decreases order@.len() - k,
    {
        assert(o[k as int] == order@[k as int] as int);
        let m = copy_handle(&ms[order[k]]);
        let ghost before = out@;
        out.push(m);
        proof {
            assert(handle_views(out@) =~= handle_views(before).push(m@));
            assert(o.take(k + 1) =~= o.take(k as int).push(o[k as int]));
            assert(o.take(k + 1).map_values(|p: int| ms@[p]@) =~= o.take(k as int).map_values(
                |p: int| ms@[p]@,
            ).push(ms@[o[k as int]]@));
        }
        k = k + 1;
    }
    assert(o.take(o.len() as int) =~= o);
    assert forall|i: int, j: int| 0 <= i < j < out@.len() implies (#[trigger] out@[i]).close_ts <= (
    #[trigger] out@[j]).close_ts by {
        assert(handle_views(out@)[i] == out@[i]@);
        assert(handle_views(out@)[j] == out@[j]@);
        assert(handle_views(out@)[i] == ms@[o[i]]@);
        assert(handle_views(out@)[j] == ms@[o[j]]@);
        assert(ranks_before(v, by_asset, o[i], o[j]));
    }
    out
}

/// Which field marks two neighbouring markets as repeats.
#[derive(Debug, Clone, Copy, PartialEq, Eq, Structural)]
pub enum DedupKey {
    AssetId,
    Slug,
}

/// The field of `m` that `by` compares.
pub open spec fn dedup_field(m: MarketHandleView, by: DedupKey) -> Seq<char> {
    match by {
        DedupKey::AssetId => m.asset_id,
        DedupKey::Slug => m.slug,
    }
}

/// `ms` without each market whose field equals that of the market just
/// before it (the first of each run of repeats stays).
pub open spec fn dedup_consecutive(ms: Seq<MarketHandleView>, by: DedupKey) -> Seq<MarketHandleView>
    decreases ms.len(),
{
    if ms.len() == 0 {
        Seq::empty()
    } else {
        let kept = dedup_consecutive(ms.drop_last(), by);
        if ms.len() == 1 || dedup_field(ms.last(), by) != dedup_field(ms[ms.len() - 2], by) {
            kept.push(ms.last())
        } else {
            kept
        }
    }
}

/// Dropping consecutive repeats leaves no two neighbours with the same
/// field, keeps the first market, and keeps only markets of the input.
pub proof fn dedup_leaves_no_neighbouring_repeats(ms: Seq<MarketHandleView>, by: DedupKey)
    ensures
        ({
            let r = dedup_consecutive(ms, by);
            &&& r.len() <= ms.len()
            &&& ms.len() > 0 ==> r.len() > 0 && r[0] == ms[0]
            &&& forall|i: int| 0 <= i < r.len() ==> ms.contains(#[trigger] r[i])
            &&& forall|i: int| 0 <= i < r.len() - 1 ==> dedup_field(#[trigger] r[i], by) != dedup_field(r[i + 1], by)
            &&& ms.len() > 0 ==> dedup_field(r.last(), by) == dedup_field(ms.last(), by)
        }),
    decreases ms.len(),
{
    if ms.len() > 0 {
        let p = ms.drop_last();
        dedup_leaves_no_neighbouring_repeats(p, by);
        let kept = dedup_consecutive(p, by);
        let r = dedup_consecutive(ms, by);
        assert forall|i: int| 0 <= i < kept.len() implies ms.contains(#[trigger] kept[i]) by {
            let j = choose|j: int| 0 <= j < p.len() && p[j] == kept[i];
            assert(ms[j] == p[j]);
        }
        assert(ms[ms.len() - 1] == ms.last());
        if ms.len() > 1 {
            assert(p.last() == ms[ms.len() - 2]);
            assert(p[0] == ms[0]);
        }
        assert forall|i: int| 0 <= i < r.len() implies ms.contains(#[trigger] r[i]) by {
            if i < kept.len() {
                assert(r[i] == kept[i]);
            }
        }
        if ms.len() == 1 {
            assert(kept.len() == 0);
        }
    }
}

/// Drops consecutive repeats (see `dedup_consecutive`).
pub fn dedup_markets(ms: &[MarketHandle], by: DedupKey) -> (r: Vec<MarketHandle>)
    ensures
        handle_views(r@) == dedup_consecutive(handle_views(ms@), by),
{
    let ghost v = handle_views(ms@);
    let mut out: Vec<MarketHandle> = Vec::new();
    let mut k: usize = 0;
    while k < ms.len()
        invariant
            k <= ms@.len(),
            v == handle_views(ms@),
            handle_views(out@) == dedup_consecutive(v.take(k as int), by),
        decreases ms@.len() - k,
    {
        proof {
            assert(v.take(k + 1).drop_last() =~= v.take(k as int));
            assert(v.take(k + 1).last() == ms@[k as int]@);
            if k > 0 {
                assert(v.take(k + 1)[k - 1] == ms@[k - 1]@);
            }
        }
        let repeat = if k == 0 {
            false
        } else {
            let cur = match by {
                DedupKey::AssetId => chars_of(ms[k].asset_id.as_str()),
                DedupKey::Slug => chars_of(ms[k].slug.as_str()),
            };
            let prev = match by {
                DedupKey::AssetId => chars_of(ms[k - 1].asset_id.as_str()),
                DedupKey::Slug => chars_of(ms[k - 1].slug.as_str()),
            };
            same_chars(cur.as_slice(), prev.as_slice())
        };
        if !repeat {
            let m = copy_handle(&ms[k]);
            let ghost before = out@;
            out.push(m);
            assert(handle_views(out@) =~= handle_views(before).push(m@));
        }
        k = k + 1;
    }
    assert(v.take(v.len() as int) =~= v);
    out
}

/// An availability record of an asset: asset id, slug, outcome and date.
pub type AssetRecord = (String, String, String, String);

/// The markets among `records` whose slug starts with `prefix` and holds a
/// close time, in input order, each with that close time.
pub open spec fn selected_markets(records: Seq<(Seq<char>, Seq<char>, Seq<char>, Seq<char>)>, prefix: Seq<char>) -> Seq<MarketHandleView>
    decreases records.len(),
{
    if records.len() == 0 {
        Seq::empty()
    } else {
        let kept = selected_markets(records.drop_last(), prefix);
        let (asset_id, slug, outcome, date) = records.last();
        if prefix.is_prefix_of(slug) && slug_close_ts(slug) is Some {
            kept.push(
                MarketHandleView { asset_id, slug, close_ts: slug_close_ts(slug)->0, outcome, date },
            )
        } else {
            kept
        }
    }
}

/// The text of availability records.
pub open spec fn record_views(records: Seq<AssetRecord>) -> Seq<(Seq<char>, Seq<char>, Seq<char>, Seq<char>)> {
    records.map_values(|r: AssetRecord| (r.0@, r.1@, r.2@, r.3@))
}

/// The market handles of the records whose slug starts with `slug_prefix`
/// and holds a close time (see `selected_markets`), sorted by close time
/// with ties in input order.
pub fn select_markets(records: &[AssetRecord], slug_prefix: &str) -> (r: Vec<MarketHandle>)
    ensures
        exists|order: Seq<int>|
            is_market_order(selected_markets(record_views(records@), slug_prefix@), false, order)
                && handle_views(r@) == order.map_values(
                |p: int| selected_markets(record_views(records@), slug_prefix@)[p],
            ),
{
    let ghost rv = record_views(records@);
    let prefix = chars_of(slug_prefix);
    let mut picked: Vec<MarketHandle> = Vec::new();
    let mut k: usize = 0;
    while k < records.len()
        invariant
            k <= records@.len(),
            rv == record_views(records@),
            prefix@ == slug_prefix@,
            handle_views(picked@) == selected_markets(rv.take(k as int), slug_prefix@),
        decreases records@.len() - k,
    {
        proof {
            assert(rv.take(k + 1).drop_last() =~= rv.take(k as int));
            assert(rv.take(k + 1).last() == rv[k as int]);
        }
        let rec = &records[k];
        let slug = chars_of(rec.1.as_str());
        if starts_with_chars(slug.as_slice(), prefix.as_slice()) {
            match parse_close_ts(rec.1.as_str()) {
                Some(ts) => {
                    let m = MarketHandle {
                        asset_id: rec.0.clone(),
                        slug: rec.1.clone(),
                        close_ts: ts,
                        outcome: rec.2.clone(),
                        date: rec.3.clone(),
                    };
                    let ghost before = picked@;
                    picked.push(m);
                    assert(handle_views(picked@) =~= handle_views(before).push(m@));
                },
                None => {},
            }
        }
        k = k + 1;
    }
    assert(rv.take(rv.len() as int) =~= rv);
    let sorted = sort_markets(picked.as_slice(), false);
    sorted
}

/// A market order is a permutation: it lists every position of `ms`
/// exactly once, and the markets it lists come in non-decreasing close time.
pub proof fn market_order_is_a_permutation(ms: Seq<MarketHandleView>, by_asset: bool, order: Seq<int>)
    requires
        is_market_order(ms, by_asset, order),
    ensures
        forall|i: int, j: int| 0 <= i < j < order.len() ==> #[trigger] order[i] != #[trigger] order[j],
        forall|p: int| 0 <= p < ms.len() ==> #[trigger] order.contains(p),
        forall|i: int, j: int|
            0 <= i < j < order.len() ==> ms[#[trigger] order[i]].close_ts <= ms[#[trigger] order[j]].close_ts,
{
    assert forall|i: int, j: int| 0 <= i < j < order.len() implies #[trigger] order[i] != #[trigger] order[j] by {
        lemma_text_less_order(tie_key(ms[order[i]], by_asset), tie_key(ms[order[i]], by_asset), tie_key(ms[order[i]], by_asset));
        assert(ranks_before(ms, by_asset, order[i], order[j]));
    }
    assert(order.no_duplicates());
    order.unique_seq_to_set();
    let full = vstd::set_lib::set_int_range(0, ms.len() as int);
    vstd::set_lib::lemma_int_range(0, ms.len() as int);
    assert(order.to_set().subset_of(full));
    vstd::set_lib::lemma_len_subset(order.to_set(), full);
    vstd::set_lib::lemma_subset_equality(order.to_set(), full);
    assert forall|p: int| 0 <= p < ms.len() implies #[trigger] order.contains(p) by {
        assert(full.contains(p));
        assert(order.to_set().contains(p));
    }
    assert forall|i: int, j: int| 0 <= i < j < order.len() implies ms[#[trigger] order[i]].close_ts
        <= ms[#[trigger] order[j]].close_ts by {
        assert(ranks_before(ms, by_asset, order[i], order[j]));
    }
}

/// Resolving markets gives one handle per availability record whose slug
/// starts with the prefix and holds a close time (see `selected_markets`),
/// each exactly once, sorted by close time.
pub proof fn selected_markets_come_once_sorted(records: Seq<(Seq<char>, Seq<char>, Seq<char>, Seq<char>)>, prefix: Seq<char>, order: Seq<int>, out: Seq<MarketHandleView>)
    requires
        is_market_order(selected_markets(records, prefix), false, order),
        out == order.map_values(|p: int| selected_markets(records, prefix)[p]),
    ensures
        out.len() == selected_markets(records, prefix).len(),
        forall|i: int, j: int| 0 <= i < j < out.len() ==> (#[trigger] out[i]).close_ts <= (#[trigger] out[j]).close_ts,
        forall|j: int| 0 <= j < out.len() ==> #[trigger] out[j] == selected_markets(records, prefix)[order[j]],
        forall|p: int| 0 <= p < selected_markets(records, prefix).len() ==> #[trigger] order.contains(p),
        forall|i: int, j: int| 0 <= i < j < order.len() ==> #[trigger] order[i] != #[trigger] order[j],
{
    let sel = selected_markets(records, prefix);
    market_order_is_a_permutation(sel, false, order);
    assert forall|i: int, j: int| 0 <= i < j < out.len() implies (#[trigger] out[i]).close_ts <= (
    #[trigger] out[j]).close_ts by {
        assert(out[i] == sel[order[i]] && out[j] == sel[order[j]]);
    }
}

} // verus!
