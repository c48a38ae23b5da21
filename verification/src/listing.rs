//! The storage layout of the market data: the key prefixes under which book,
//! trade and spot files sit, reading asset ids back out of listed prefixes,
//! and sorting and de-duplicating the names found.
use vstd::prelude::*;
use crate::discovery::{MarketHandle, MarketHandleView};
use crate::market_order::{copy_handle, handle_views, lemma_text_less_order, text_before, text_less};
use crate::text::{
    chars_of, ends_with_chars, find_segment_start, is_suffix, last_segment, push_chars, same_chars,
    trim_end_char, trim_end_len,
};

verus! {

broadcast use vstd::seq_lib::group_seq_properties;

/// The text of a list of strings.
pub open spec fn texts(v: Seq<String>) -> Seq<Seq<char>> {
    v.map_values(|s: String| s@)
}

/// Whether text `i` of `v` comes before text `j`: smaller text, then
/// earlier position.
pub open spec fn text_ranks_before(v: Seq<Seq<char>>, i: int, j: int) -> bool {
    text_less(v[i], v[j]) || (v[i] == v[j] && i < j)
}

/// `order` lists every position of `v` once, by `text_ranks_before`.
pub open spec fn is_text_order(v: Seq<Seq<char>>, order: Seq<int>) -> bool {
    &&& order.len() == v.len()
    &&& forall|i: int| 0 <= i < order.len() ==> 0 <= #[trigger] order[i] < v.len()
    &&& forall|i: int, j: int|
        0 <= i < j < order.len() ==> text_ranks_before(v, #[trigger] order[i], #[trigger] order[j])
}

proof fn lemma_text_ranks(v: Seq<Seq<char>>, i: int, j: int, k: int)
    ensures
        i != j ==> text_ranks_before(v, i, j) || text_ranks_before(v, j, i),
        text_ranks_before(v, i, j) ==> !text_ranks_before(v, j, i),
        text_ranks_before(v, i, j) && text_ranks_before(v, j, k) ==> text_ranks_before(v, i, k),
{
    lemma_text_less_order(v[i], v[j], v[k]);
    lemma_text_less_order(v[j], v[i], v[k]);
    lemma_text_less_order(v[i], v[k], v[j]);
}

/// The strings sorted (equal strings keep their input order).
pub fn sort_texts(v: &[String]) -> (r: Vec<String>)
    ensures
        exists|order: Seq<int>|
            is_text_order(texts(v@), order) && texts(r@) == order.map_values(|p: int| v@[p]@),
        forall|i: int, j: int| 0 <= i < j < r@.len() ==> !text_less(#[trigger] r@[j]@, #[trigger] r@[i]@),
{
    let ghost t = texts(v@);
    let mut keys: Vec<Vec<char>> = Vec::new();
    let mut k: usize = 0;
    while k < v.len()
        invariant
            k <= v@.len(),
            keys@.len() == k,
            forall|q: int| 0 <= q < k ==> #[trigger] keys@[q]@ == v@[q]@,
        decreases v@.len() - k,
    {
        keys.push(chars_of(v[k].as_str()));
        k = k + 1;
    }
    let mut out: Vec<usize> = Vec::new();
    let mut n: usize = 0;
    while n < v.len()
        invariant
            n <= v@.len(),
            t == texts(v@),
            keys@.len() == v@.len(),
            forall|q: int| 0 <= q < v@.len() ==> #[trigger] keys@[q]@ == v@[q]@,
            out@.len() == n,
            forall|i: int| 0 <= i < n ==> #[trigger] out@[i] < n,
            forall|i: int, j: int|
                0 <= i < j < n ==> text_ranks_before(t, #[trigger] out@[i] as int, #[trigger] out@[j] as int),
        decreases v@.len() - n,
    {
        let mut p: usize = 0;
        while p < out.len() && (text_before(keys[out[p]].as_slice(), keys[n].as_slice()) || (
        same_chars(keys[out[p]].as_slice(), keys[n].as_slice()) && out[p] < n))
            invariant
                p <= out@.len(),
                out@.len() == n,
                n < v@.len(),
                t == texts(v@),
                keys@.len() == v@.len(),
                forall|q: int| 0 <= q < v@.len() ==> #[trigger] keys@[q]@ == v@[q]@,
                forall|i: int| 0 <= i < n ==> #[trigger] out@[i] < n,
                forall|i: int| 0 <= i < p ==> text_ranks_before(t, #[trigger] out@[i] as int, n as int),
            decreases out@.len() - p,
        {
            assert(t[out@[p as int] as int] == v@[out@[p as int] as int]@);
            assert(t[n as int] == v@[n as int]@);
            p = p + 1;
        }
        proof {
            if p < n {
                assert(t[out@[p as int] as int] == v@[out@[p as int] as int]@);
                assert(t[n as int] == v@[n as int]@);
            }
            assert forall|q: int| p <= q < n implies text_ranks_before(t, n as int, #[trigger] out@[q] as int) by {
                lemma_text_ranks(t, out@[p as int] as int, n as int, out@[q] as int);
                lemma_text_ranks(t, n as int, out@[p as int] as int, out@[q] as int);
            }
        }
        let ghost before = out@;
        out.insert(p, n);
        proof {
            assert forall|i: int, j: int| 0 <= i < j < n + 1 implies text_ranks_before(
                t,
                #[trigger] out@[i] as int,
                #[trigger] out@[j] as int,
            ) by {
                if j < p {
                    assert(out@[i] == before[i] && out@[j] == before[j]);
                } else if j == p {
                    assert(out@[i] == before[i]);
                } else if i < p {
                    assert(out@[i] == before[i] && out@[j] == before[j - 1]);
                    lemma_text_ranks(t, before[i] as int, n as int, before[j - 1] as int);
                } else if i == p {
                    assert(out@[j] == before[j - 1]);
                } else {
                    assert(out@[i] == before[i - 1] && out@[j] == before[j - 1]);
                }
            }
            assert forall|i: int| 0 <= i < n + 1 implies #[trigger] out@[i] < n + 1 by {
                if i < p {
                    assert(out@[i] == before[i]);
                } else if i > p {
                    assert(out@[i] == before[i - 1]);
                }
            }
        }
        n = n + 1;
    }
    let ghost o = out@.map_values(|p: usize| p as int);
    let mut sorted: Vec<String> = Vec::new();
    let mut k: usize = 0;
    while k < out.len()
        invariant
            k <= out@.len(),
            out@.len() == v@.len(),
            o == out@.map_values(|p: usize| p as int),
            forall|i: int| 0 <= i < out@.len() ==> #[trigger] out@[i] < v@.len(),
            texts(sorted@) == o.take(k as int).map_values(|p: int| v@[p]@),
        decreases out@.len() - k,
    {
        let s = v[out[k]].clone();
        let ghost before = sorted@;
        sorted.push(s);
        proof {
            assert(texts(sorted@) =~= texts(before).push(s@));
            assert(o.take(k + 1) =~= o.take(k as int).push(o[k as int]));
        }
        k = k + 1;
    }
    proof {
        assert(o.take(o.len() as int) =~= o);
        assert forall|i: int, j: int| 0 <= i < j < o.len() implies text_ranks_before(t, #[trigger] o[i], #[trigger] o[j]) by {
            assert(o[i] == out@[i] as int && o[j] == out@[j] as int);
        }
        assert forall|i: int| 0 <= i < o.len() implies 0 <= #[trigger] o[i] < t.len() by {
            assert(o[i] == out@[i] as int);
        }
        assert(is_text_order(t, o));
        assert(texts(sorted@) == o.map_values(|p: int| v@[p]@));
        assert forall|i: int, j: int| 0 <= i < j < sorted@.len() implies !text_less(
            #[trigger] sorted@[j]@,
            #[trigger] sorted@[i]@,
        ) by {
            assert(texts(sorted@)[i] == sorted@[i]@ && texts(sorted@)[j] == sorted@[j]@);
            assert(sorted@[i]@ == t[o[i]] && sorted@[j]@ == t[o[j]]);
            lemma_text_ranks(t, o[i], o[j], o[j]);
            lemma_text_less_order(t[o[j]], t[o[i]], t[o[i]]);
        }
    }
    sorted
}

/// `v` without each text equal to the one just before it.
pub open spec fn dedup_texts(v: Seq<Seq<char>>) -> Seq<Seq<char>>
    decreases v.len(),
{
    if v.len() == 0 {
        Seq::empty()
    } else {
        let kept = dedup_texts(v.drop_last());
        if v.len() == 1 || v.last() != v[v.len() - 2] {
            kept.push(v.last())
        } else {
            kept
        }
    }
}

/// The distinct strings of `v` in ascending order, as collecting them into
/// an ordered set gives them.
pub fn unique_sorted_texts(v: &[String]) -> (r: Vec<String>)
    ensures
        exists|order: Seq<int>|
            is_text_order(texts(v@), order) && texts(r@) == dedup_texts(
                order.map_values(|p: int| v@[p]@),
            ),
{
    let sorted = sort_texts(v);
    let ghost s = texts(sorted@);
    let mut out: Vec<String> = Vec::new();
    let mut k: usize = 0;
    while k < sorted.len()
        invariant
            k <= sorted@.len(),
            s == texts(sorted@),
            texts(out@) == dedup_texts(s.take(k as int)),
        decreases sorted@.len() - k,
    {
        proof {
            assert(s.take(k + 1).drop_last() =~= s.take(k as int));
            assert(s.take(k + 1).last() == sorted@[k as int]@);
            if k > 0 {
                assert(s.take(k + 1)[k - 1] == sorted@[k - 1]@);
            }
        }
        let repeat = if k == 0 {
            false
        } else {
            let a = chars_of(sorted[k].as_str());
            let b = chars_of(sorted[k - 1].as_str());
            same_chars(a.as_slice(), b.as_slice())
        };
        if !repeat {
            let x = sorted[k].clone();
            let ghost before = out@;
            out.push(x);
            assert(texts(out@) =~= texts(before).push(x@));
        }
        k = k + 1;
    }
    assert(s.take(s.len() as int) =~= s);
    out
}

/// Key prefix of one day of order-book snapshots.
pub open spec fn spec_book_day_prefix(date: Seq<char>) -> Seq<char> {
    "raw/telonex/exchange=polymarket/channel=book_snapshot_25/date="@ + date + "/"@
}

/// The key prefix of one day of order-book snapshots.
pub fn book_day_prefix(date: &str) -> (r: String)
    ensures
        r@ == spec_book_day_prefix(date@),
{
    let mut out = String::from_str("raw/telonex/exchange=polymarket/channel=book_snapshot_25/date=");
    out.append(date);
    out.append("/");
    out
}

/// Key prefix of one asset's files of a channel on a day.
pub open spec fn spec_channel_asset_prefix(channel: Seq<char>, date: Seq<char>, asset_id: Seq<char>) -> Seq<char> {
    "raw/telonex/exchange=polymarket/channel="@ + channel + "/date="@ + date + "/asset_id="@
        + asset_id + "/"@
}

/// The key prefix of one asset's files of a channel on a day.
pub fn channel_asset_prefix(channel: &str, date: &str, asset_id: &str) -> (r: String)
    ensures
        r@ == spec_channel_asset_prefix(channel@, date@, asset_id@),
{
    let mut out = String::from_str("raw/telonex/exchange=polymarket/channel=");
    out.append(channel);
    out.append("/date=");
    out.append(date);
    out.append("/asset_id=");
    out.append(asset_id);
    out.append("/");
    out
}

/// Key prefix of one day of spot trades of a symbol.
pub open spec fn spec_spot_trades_prefix(symbol: Seq<char>, date: Seq<char>) -> Seq<char> {
    "raw/binance/exchange=binance/channel=agg_trades/symbol="@ + symbol + "/date="@ + date
        + "/"@
}

/// The key prefix of one day of spot trades of a symbol.
pub fn spot_trades_prefix(symbol: &str, date: &str) -> (r: String)
    ensures
        r@ == spec_spot_trades_prefix(symbol@, date@),
{
    let mut out = String::from_str("raw/binance/exchange=binance/channel=agg_trades/symbol=");
    out.append(symbol);
    out.append("/date=");
    out.append(date);
    out.append("/");
    out
}

/// The text after `asset_id=` when `name` starts with it.
pub open spec fn strip_asset_marker(name: Seq<char>) -> Option<Seq<char>> {
    if "asset_id="@.is_prefix_of(name) {
        Some(name.skip(9))
    } else {
        None
    }
}

/// The asset id of a listed key prefix such as `.../date=D/asset_id=X/`:
/// its last `/`-separated piece once trailing slashes are gone, when that
/// piece starts with `asset_id=`.
pub open spec fn listed_asset_id(prefix: Seq<char>) -> Option<Seq<char>> {
    strip_asset_marker(last_segment(trim_end_char(prefix, '/'), '/'))
}

fn strip_marker_from(c: &[char], from: usize) -> (r: Option<String>)
    requires
        from <= c@.len(),
    ensures
        match r {
            Some(t) => strip_asset_marker(c@.skip(from as int)) == Some(t@),
            None => strip_asset_marker(c@.skip(from as int)) is None,
        },
{
    proof {
        reveal_strlit("asset_id=");
    }
    let marker = chars_of("asset_id=");
    let n = c.len();
    if n - from < marker.len() {
        return None;
    }
    let mut i: usize = 0;
    while i < marker.len()
        invariant
            i <= marker@.len(),
            marker@ == "asset_id="@,
            from + marker@.len() <= n,
            n == c@.len(),
            forall|j: int| 0 <= j < i ==> marker@[j] == c@[from + j],
        decreases marker@.len() - i,
    {
        if marker[i] != c[from + i] {
            assert(c@.skip(from as int)[i as int] != marker@[i as int]);
            return None;
        }
        i = i + 1;
    }
    assert("asset_id="@.is_prefix_of(c@.skip(from as int)));
    let mut out = String::new();
    let mut k: usize = from + 9;
    while k < n
        invariant
            from + 9 <= k <= n,
            n == c@.len(),
            out@ == c@.subrange(from + 9, k as int),
        decreases n - k,
    {
        let ghost before = out@;
        let mut piece: Vec<char> = Vec::new();
        piece.push(c[k]);
        push_chars(&mut out, piece.as_slice());
        assert(out@ =~= c@.subrange(from + 9, k + 1));
        k = k + 1;
    }
    assert(c@.skip(from as int).skip(9) =~= c@.subrange(from + 9, n as int));
    Some(out)
}

/// The asset id of a listed key prefix (see `listed_asset_id`).
pub fn asset_id_from_listing(prefix: &str) -> (r: Option<String>)
    ensures
        match r {
            Some(t) => listed_asset_id(prefix@) == Some(t@),
            None => listed_asset_id(prefix@) is None,
        },
{
    let c = chars_of(prefix);
    let len = trim_end_len(c.as_slice(), '/');
    let mut trimmed: Vec<char> = Vec::new();
    let mut k: usize = 0;
    while k < len
        invariant
            k <= len <= c@.len(),
            trimmed@ == c@.take(k as int),
        decreases len - k,
    {
        trimmed.push(c[k]);
        assert(c@.take(k + 1) =~= c@.take(k as int).push(c@[k as int]));
        k = k + 1;
    }
    let start = find_segment_start(trimmed.as_slice(), '/');
    proof {
        crate::text::lemma_segment_start(trimmed@, '/');
    }
    strip_marker_from(trimmed.as_slice(), start)
}

/// The asset ids of listed key prefixes, in the order of the sorted
/// prefixes, skipping prefixes that hold none.
pub open spec fn listed_asset_ids(sorted_prefixes: Seq<Seq<char>>) -> Seq<Seq<char>>
    decreases sorted_prefixes.len(),
{
    if sorted_prefixes.len() == 0 {
        Seq::empty()
    } else {
        let kept = listed_asset_ids(sorted_prefixes.drop_last());
        match listed_asset_id(sorted_prefixes.last()) {
            Some(a) => kept.push(a),
            None => kept,
        }
    }
}

/// The asset ids under a day's listing: the listed prefixes are sorted,
/// then each one's asset id is taken (see `listed_asset_id`).
pub fn asset_ids_from_listing(prefixes: &[String]) -> (r: Vec<String>)
    ensures
        exists|order: Seq<int>|
            is_text_order(texts(prefixes@), order) && texts(r@) == listed_asset_ids(
                order.map_values(|p: int| prefixes@[p]@),
            ),
{
    let sorted = sort_texts(prefixes);
    let ghost s = texts(sorted@);
    let mut out: Vec<String> = Vec::new();
    let mut k: usize = 0;
    while k < sorted.len()
        invariant
            k <= sorted@.len(),
            s == texts(sorted@),
            texts(out@) == listed_asset_ids(s.take(k as int)),
        decreases sorted@.len() - k,
    {
        proof {
            assert(s.take(k + 1).drop_last() =~= s.take(k as int));
            assert(s.take(k + 1).last() == sorted@[k as int]@);
        }
        match asset_id_from_listing(sorted[k].as_str()) {
            Some(a) => {
                let ghost before = out@;
                out.push(a);
                assert(texts(out@) =~= texts(before).push(a@));
            },
            None => {},
        }
        k = k + 1;
    }
    assert(s.take(s.len() as int) =~= s);
    out
}

/// The asset ids of directory names that start with `asset_id=`, in input
/// order.
pub open spec fn dir_asset_ids(names: Seq<Seq<char>>) -> Seq<Seq<char>>
    decreases names.len(),
{
    if names.len() == 0 {
        Seq::empty()
    } else {
        let kept = dir_asset_ids(names.drop_last());
        match strip_asset_marker(names.last()) {
            Some(a) => kept.push(a),
            None => kept,
        }
    }
}

/// The asset ids of a day directory of the local cache: the names of its
/// sub-directories that start with `asset_id=`, without that marker,
/// sorted.
pub fn asset_ids_from_dir_names(names: &[String]) -> (r: Vec<String>)
    ensures
        exists|order: Seq<int>|
            is_text_order(dir_asset_ids(texts(names@)), order) && texts(r@) == order.map_values(
                |p: int| dir_asset_ids(texts(names@))[p],
            ),
{
    let ghost t = texts(names@);
    let mut ids: Vec<String> = Vec::new();
    let mut k: usize = 0;
    while k < names.len()
        invariant
            k <= names@.len(),
            t == texts(names@),
            texts(ids@) == dir_asset_ids(t.take(k as int)),
        decreases names@.len() - k,
    {
        proof {
            assert(t.take(k + 1).drop_last() =~= t.take(k as int));
            assert(t.take(k + 1).last() == names@[k as int]@);
        }
        let c = chars_of(names[k].as_str());
        assert(c@.skip(0) =~= c@);
        match strip_marker_from(c.as_slice(), 0) {
            Some(a) => {
                let ghost before = ids@;
                ids.push(a);
                assert(texts(ids@) =~= texts(before).push(a@));
            },
            None => {},
        }
        k = k + 1;
    }
    assert(t.take(t.len() as int) =~= t);
    sort_texts(ids.as_slice())
}

/// Position of the first key ending in `.parquet`.
pub open spec fn first_parquet_pos(keys: Seq<Seq<char>>) -> Option<int>
    decreases keys.len(),
{
    if keys.len() == 0 {
        None
    } else if is_suffix(".parquet"@, keys[0]) {
        Some(0)
    } else {
        match first_parquet_pos(keys.drop_first()) {
            Some(i) => Some(i + 1),
            None => None,
        }
    }
}

/// The position of the first key ending in `.parquet` (see
/// `first_parquet_pos`).
pub fn first_parquet(keys: &[String]) -> (r: Option<usize>)
    ensures
        match r {
            Some(i) => first_parquet_pos(texts(keys@)) == Some(i as int),
            None => first_parquet_pos(texts(keys@)) is None,
        },
{
    let ghost t = texts(keys@);
    let suffix = chars_of(".parquet");
    let mut k: usize = 0;
    while k < keys.len()
        invariant
            k <= keys@.len(),
            t == texts(keys@),
            suffix@ == ".parquet"@,
            first_parquet_pos(t) == match first_parquet_pos(t.skip(k as int)) {
                Some(i) => Some(i + k),
                None => None,
            },
        decreases keys@.len() - k,
    {
        let c = chars_of(keys[k].as_str());
        assert(t.skip(k as int)[0] == keys@[k as int]@);
        assert(t.skip(k as int).drop_first() =~= t.skip(k + 1));
        if ends_with_chars(c.as_slice(), suffix.as_slice()) {
            return Some(k);
        }
        k = k + 1;
    }
    assert(t.skip(k as int) =~= Seq::<Seq<char>>::empty());
    None
}

/// Name of the temporary file written next to `file_name` before it is
/// renamed into place: the file name (or `checkpoint` when the path has
/// none) followed by `.tmp`.
pub open spec fn spec_temp_file_name(file_name: Option<Seq<char>>) -> Seq<char> {
    match file_name {
        Some(n) => n + ".tmp"@,
        None => "checkpoint.tmp"@,
    }
}

/// The temporary sibling file name (see `spec_temp_file_name`).
pub fn temp_file_name(file_name: Option<&str>) -> (r: String)
    ensures
        r@ == spec_temp_file_name(
            match file_name {
                Some(n) => Some(n@),
                None => None,
            },
        ),
{
    match file_name {
        Some(n) => {
            let mut out = String::from_str(n);
            out.append(".tmp");
            out
        },
        None => String::from_str("checkpoint.tmp"),
    }
}

/// The assets listed under each date, as text.
pub open spec fn listing_views(available: Seq<(String, Vec<String>)>) -> Seq<(Seq<char>, Seq<Seq<char>>)> {
    available.map_values(|e: (String, Vec<String>)| (e.0@, texts(e.1@)))
}

/// The assets listed for `date`: those of the last entry for that date (a
/// later listing of a date replaces an earlier one), if any.
pub open spec fn listed_assets(available: Seq<(Seq<char>, Seq<Seq<char>>)>, date: Seq<char>) -> Option<Seq<Seq<char>>>
    decreases available.len(),
{
    if available.len() == 0 {
        None
    } else if available.last().0 == date {
        Some(available.last().1)
    } else {
        listed_assets(available.drop_last(), date)
    }
}

/// Whether a market's asset is listed for its date.
pub open spec fn is_listed(available: Seq<(Seq<char>, Seq<Seq<char>>)>, m: MarketHandleView) -> bool {
    match listed_assets(available, m.date) {
        Some(assets) => assets.contains(m.asset_id),
        None => false,
    }
}

/// The markets whose asset is listed for their date, in order.
pub open spec fn spec_keep_listed(ms: Seq<MarketHandleView>, available: Seq<(Seq<char>, Seq<Seq<char>>)>) -> Seq<MarketHandleView>
    decreases ms.len(),
{
    if ms.len() == 0 {
        Seq::empty()
    } else {
        let kept = spec_keep_listed(ms.drop_last(), available);
        if is_listed(available, ms.last()) {
            kept.push(ms.last())
        } else {
            kept
        }
    }
}

fn contains_text(v: &Vec<String>, t: &[char]) -> (r: bool)
    ensures
        r == texts(v@).contains(t@),
{
    let mut i: usize = 0;
    while i < v.len()
        invariant
            i <= v@.len(),
            forall|j: int| 0 <= j < i ==> v@[j]@ != t@,
        decreases v@.len() - i,
    {
        let c = chars_of(v[i].as_str());
        if same_chars(c.as_slice(), t) {
            assert(texts(v@)[i as int] == t@);
            return true;
        }
        i = i + 1;
    }
    proof {
        if texts(v@).contains(t@) {
            let j = choose|j: int| 0 <= j < texts(v@).len() && texts(v@)[j] == t@;
            assert(texts(v@)[j] == v@[j]@);
        }
    }
    false
}

fn listed_for(available: &[(String, Vec<String>)], m: &MarketHandle) -> (r: bool)
    ensures
        r == is_listed(listing_views(available@), m@),
{
    let ghost lv = listing_views(available@);
    let date = chars_of(m.date.as_str());
    let asset = chars_of(m.asset_id.as_str());
    let mut k: usize = available.len();
    assert(lv.take(k as int) =~= lv);
    while k > 0
        invariant
            k <= available@.len(),
            lv == listing_views(available@),
            date@ == m.date@,
            asset@ == m.asset_id@,
            listed_assets(lv, m.date@) == listed_assets(lv.take(k as int), m.date@),
        decreases k,
    {
        let ghost pre = lv.take(k as int);
        assert(pre.drop_last() =~= lv.take(k - 1));
        assert(pre.last() == lv[k - 1]);
        let d = chars_of(available[k - 1].0.as_str());
        assert(lv[k - 1] == (available@[k - 1].0@, texts(available@[k - 1].1@)));
        if same_chars(d.as_slice(), date.as_slice()) {
            assert(listed_assets(pre, m.date@) == Some(texts(available@[k - 1].1@)));
            let found = contains_text(&available[k - 1].1, asset.as_slice());
            assert(asset@ == m@.asset_id);
            assert(listed_assets(lv, m@.date) == Some(texts(available@[k - 1].1@)));
            return found;
        }
        k = k - 1;
    }
    false
}

/// The markets whose asset is listed under their date (see
/// `spec_keep_listed`).
pub fn keep_listed_markets(markets: &[MarketHandle], available: &[(String, Vec<String>)]) -> (r: Vec<MarketHandle>)
    ensures
        handle_views(r@) == spec_keep_listed(handle_views(markets@), listing_views(available@)),
{
    let ghost v = handle_views(markets@);
    let ghost lv = listing_views(available@);
    let mut out: Vec<MarketHandle> = Vec::new();
    let mut k: usize = 0;
    while k < markets.len()
        invariant
            k <= markets@.len(),
            v == handle_views(markets@),
            lv == listing_views(available@),
            handle_views(out@) == spec_keep_listed(v.take(k as int), lv),
        decreases markets@.len() - k,
    {
        proof {
            assert(v.take(k + 1).drop_last() =~= v.take(k as int));
            assert(v.take(k + 1).last() == markets@[k as int]@);
        }
        if listed_for(available, &markets[k]) {
            let m = copy_handle(&markets[k]);
            let ghost before = out@;
            out.push(m);
            assert(handle_views(out@) =~= handle_views(before).push(m@));
        }
        k = k + 1;
    }
    assert(v.take(v.len() as int) =~= v);
    out
}

/// Whether entry `i` is the last listing given for `date`.
pub open spec fn last_listing_for(available: Seq<(Seq<char>, Seq<Seq<char>>)>, date: Seq<char>, i: int) -> bool {
    &&& 0 <= i < available.len()
    &&& available[i].0 == date
    &&& forall|j: int| i < j < available.len() ==> #[trigger] available[j].0 != date
}

proof fn lemma_listed_assets(available: Seq<(Seq<char>, Seq<Seq<char>>)>, date: Seq<char>)
    ensures
        match listed_assets(available, date) {
            Some(a) => exists|i: int| last_listing_for(available, date, i) && available[i].1 == a,
            None => forall|i: int| 0 <= i < available.len() ==> #[trigger] available[i].0 != date,
        },
        forall|i: int| #[trigger] last_listing_for(available, date, i) ==> listed_assets(available, date)
            == Some(available[i].1),
    decreases available.len(),
{
    if available.len() > 0 {
        let p = available.drop_last();
        lemma_listed_assets(p, date);
        let n = available.len() - 1;
        assert(available[n] == available.last());
        if available.last().0 == date {
            assert(last_listing_for(available, date, n));
            assert forall|i: int| #[trigger] last_listing_for(available, date, i) implies listed_assets(
                available,
                date,
            ) == Some(available[i].1) by {
                if i < n {
                    assert(available[n].0 != date);
                }
            }
        } else {
            match listed_assets(p, date) {
                Some(a) => {
                    let i = choose|i: int| last_listing_for(p, date, i) && p[i].1 == a;
                    assert(available[i] == p[i]);
                    assert forall|j: int| i < j < available.len() implies #[trigger] available[j].0
                        != date by {
                        if j < n {
                            assert(available[j] == p[j]);
                        }
                    }
                    assert(last_listing_for(available, date, i));
                },
                None => {
                    assert forall|i: int| 0 <= i < available.len() implies #[trigger] available[i].0
                        != date by {
                        if i < n {
                            assert(available[i] == p[i]);
                        }
                    }
                },
            }
            assert forall|i: int| #[trigger] last_listing_for(available, date, i) implies listed_assets(
                available,
                date,
            ) == Some(available[i].1) by {
                assert(i < n);
                assert(available[i] == p[i]);
                assert forall|j: int| i < j < p.len() implies #[trigger] p[j].0 != date by {
                    assert(p[j] == available[j]);
                }
                assert(last_listing_for(p, date, i));
            }
        }
    }
}

/// Whether a market's asset is in the last listing given for its date.
pub open spec fn listed_on_its_date(available: Seq<(Seq<char>, Seq<Seq<char>>)>, m: MarketHandleView) -> bool {
    exists|i: int| last_listing_for(available, m.date, i) && #[trigger] available[i].1.contains(m.asset_id)
}

/// Keeping listed markets keeps, in order, exactly the markets whose asset
/// appears in the last listing given for their date; every kept market's
/// asset is listed under an entry with the market's date, so a market on a
/// date with no listing is never kept.
pub proof fn keep_listed_is_exactly_the_listed_markets(ms: Seq<MarketHandleView>, available: Seq<(Seq<char>, Seq<Seq<char>>)>)
    ensures
        spec_keep_listed(ms, available) == ms.filter(|m: MarketHandleView| listed_on_its_date(available, m)),
        forall|j: int| 0 <= j < spec_keep_listed(ms, available).len() ==> exists|i: int|
            0 <= i < available.len() && available[i].0 == (#[trigger] spec_keep_listed(ms, available)[j]).date
                && available[i].1.contains(spec_keep_listed(ms, available)[j].asset_id),
    decreases ms.len(),
{
    reveal(Seq::filter);
    let pred = |m: MarketHandleView| listed_on_its_date(available, m);
    if ms.len() > 0 {
        keep_listed_is_exactly_the_listed_markets(ms.drop_last(), available);
        let m = ms.last();
        lemma_listed_assets(available, m.date);
        assert(is_listed(available, m) == pred(m)) by {
            if is_listed(available, m) {
                let a = listed_assets(available, m.date)->0;
                let i = choose|i: int| last_listing_for(available, m.date, i) && available[i].1 == a;
                assert(last_listing_for(available, m.date, i) && available[i].1.contains(m.asset_id));
            }
            if pred(m) {
                let i = choose|i: int| last_listing_for(available, m.date, i)
                    && #[trigger] available[i].1.contains(m.asset_id);
                assert(listed_assets(available, m.date) == Some(available[i].1));
            }
        }
    }
    let r = spec_keep_listed(ms, available);
    assert(r == ms.filter(pred));
    assert forall|j: int| 0 <= j < r.len() implies exists|i: int|
        0 <= i < available.len() && available[i].0 == (#[trigger] r[j]).date
            && available[i].1.contains(r[j].asset_id) by {
        ms.lemma_filter_pred(pred, j);
        let i = choose|i: int| last_listing_for(available, r[j].date, i)
            && #[trigger] available[i].1.contains(r[j].asset_id);
        assert(0 <= i < available.len() && available[i].0 == r[j].date && available[i].1.contains(r[j].asset_id));
    }
}

} // verus!
