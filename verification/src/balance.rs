//! Grouping of training samples by market, per-market balancing, and the
//! chronological fit/validation split of the meta-calibrator's samples.
//!
//! Samples are identified by their position; `market_idx[p]` is the market
//! (in chronological order) that sample `p` came from.
use vstd::prelude::*;
use crate::sampling::{
    evenly_sampled_positions, evenly_sampled_positions_are_ordered,
    extend_evenly_sampled, lemma_filter_increasing,
};

verus! {

broadcast use vstd::seq_lib::group_seq_properties;

/// The least market id in `m` that is at least `lo`.
pub open spec fn min_at_least(m: Seq<u32>, lo: int) -> Option<u32>
    decreases m.len(),
{
    if m.len() == 0 {
        None
    } else {
        let rest = min_at_least(m.drop_last(), lo);
        let x = m.last();
        if x >= lo {
            match rest {
                None => Some(x),
                Some(y) => Some(
                    if x < y {
                        x
                    } else {
                        y
                    },
                ),
            }
        } else {
            rest
        }
    }
}

/// `min_at_least` is the least id at or above `lo`, or `None` when there is none.
pub proof fn lemma_min_at_least(m: Seq<u32>, lo: int)
    ensures
        match min_at_least(m, lo) {
            None => forall|i: int| 0 <= i < m.len() ==> #[trigger] m[i] < lo,
            Some(v) => v >= lo && m.contains(v) && forall|i: int|
                0 <= i < m.len() && #[trigger] m[i] >= lo ==> v <= m[i],
        },
    decreases m.len(),
{
    if m.len() > 0 {
        let p = m.drop_last();
        lemma_min_at_least(p, lo);
        assert forall|i: int| 0 <= i < p.len() implies #[trigger] p[i] == m[i] by {}
        let x = m.last();
        assert(m[m.len() - 1] == x);
        match min_at_least(p, lo) {
            Some(y) => {
                let k = choose|k: int| 0 <= k < p.len() && p[k] == y;
                assert(m[k] == y);
                let v = if x >= lo && x < y { x } else { y };
                assert(min_at_least(m, lo) == Some(v));
                assert(m.contains(v)) by {
                    if v == x {
                        assert(m[m.len() - 1] == v);
                    } else {
                        assert(m[k] == v);
                    }
                }
                assert forall|i: int| 0 <= i < m.len() && #[trigger] m[i] >= lo implies v <= m[i] by {
                    if i < p.len() {
                        assert(p[i] == m[i]);
                    }
                }
            },
            None => {
                if x >= lo {
                    assert(min_at_least(m, lo) == Some(x));
                    assert(m.contains(x)) by {
                        assert(m[m.len() - 1] == x);
                    }
                    assert forall|i: int| 0 <= i < m.len() && #[trigger] m[i] >= lo implies x <= m[i] by {
                        if i < p.len() {
                            assert(p[i] == m[i]);
                        }
                    }
                } else {
                    assert(min_at_least(m, lo) is None);
                    assert forall|i: int| 0 <= i < m.len() implies #[trigger] m[i] < lo by {
                        if i < p.len() {
                            assert(p[i] == m[i]);
                        }
                    }
                }
            },
        }
    }
}

/// The distinct market ids of `m` that are at least `lo`, ascending.
pub open spec fn market_ids_from(m: Seq<u32>, lo: int) -> Seq<u32>
    decreases 0x1_0000_0000 - lo,
{
    if lo < 0 || lo > u32::MAX {
        Seq::empty()
    } else {
        match min_at_least(m, lo) {
            None => Seq::empty(),
            Some(k) => {
                proof {
                    lemma_min_at_least(m, lo);
                }
                seq![k] + market_ids_from(m, k + 1)
            },
        }
    }
}

/// Positions of the samples of market `key`, in order.
pub open spec fn positions_of(m: Seq<u32>, key: u32) -> Seq<int> {
    Seq::new(m.len(), |i: int| i).filter(has_id(m, key))
}

/// Whether sample `i` belongs to market `key`.
pub open spec fn has_id(m: Seq<u32>, key: u32) -> spec_fn(int) -> bool {
    |i: int| m[i] == key
}

/// A market id paired with the positions of its samples.
pub open spec fn group_entry(m: Seq<u32>) -> spec_fn(u32) -> (u32, Seq<int>) {
    |k: u32| (k, positions_of(m, k))
}

/// The samples grouped by market: ascending market ids, each with the
/// positions of its samples in order.
pub open spec fn spec_market_groups(m: Seq<u32>) -> Seq<(u32, Seq<int>)> {
    market_ids_from(m, 0).map_values(group_entry(m))
}

/// Integer view of a group list.
pub open spec fn groups_view(g: Seq<(u32, Vec<usize>)>) -> Seq<(u32, Seq<int>)> {
    g.map_values(|e: (u32, Vec<usize>)| (e.0, e.1@.map_values(|p: usize| p as int)))
}

fn min_id_at_least(m: &[u32], lo: u64) -> (r: Option<u32>)
    ensures
        r == min_at_least(m@, lo as int),
{
    let mut best: Option<u32> = None;
    let mut j: usize = 0;
    while j < m.len()
        invariant
            j <= m@.len(),
            best == min_at_least(m@.take(j as int), lo as int),
        decreases m@.len() - j,
    {
        proof {
            assert(m@.take(j + 1).drop_last() =~= m@.take(j as int));
            assert(m@.take(j + 1).last() == m@[j as int]);
        }
        let x = m[j];
        if x as u64 >= lo {
            best = match best {
                None => Some(x),
                Some(y) => Some(if x < y { x } else { y }),
            };
        }
        j = j + 1;
    }
    assert(m@.take(m@.len() as int) =~= m@);
    best
}

fn positions_with_id(m: &[u32], key: u32) -> (r: Vec<usize>)
    ensures
        r@.map_values(|p: usize| p as int) == positions_of(m@, key),
{
    let ghost all = Seq::new(m@.len(), |i: int| i);
    let ghost is_key = has_id(m@, key);
    let mut out: Vec<usize> = Vec::new();
    let mut j: usize = 0;
    proof {
        assert(all.take(0) =~= Seq::<int>::empty());
        reveal(Seq::filter);
    }
    while j < m.len()
        invariant
            j <= m@.len(),
            all == Seq::new(m@.len(), |i: int| i),
            is_key == has_id(m@, key),
            out@.map_values(|p: usize| p as int) =~= all.take(j as int).filter(is_key),
        decreases m@.len() - j,
    {
        proof {
            assert(all.take(j + 1) =~= all.take(j as int).push(j as int));
            all.take(j as int).lemma_filter_push(j as int, is_key);
        }
        let ghost before = out@;
        if m[j] == key {
            out.push(j);
            proof {
                assert(out@.map_values(|p: usize| p as int) =~= before.map_values(|p: usize| p as int).push(
                    j as int,
                ));
            }
        }
        j = j + 1;
    }
    assert(all.take(m@.len() as int) =~= all);
    out
}

/// Groups the sample positions by market (see `spec_market_groups`).
pub fn group_positions_by_market(market_idx: &[u32]) -> (r: Vec<(u32, Vec<usize>)>)
    ensures
        groups_view(r@) == spec_market_groups(market_idx@),
{
    let ghost m = market_idx@;
    let ghost entry = group_entry(m);
    let mut groups: Vec<(u32, Vec<usize>)> = Vec::new();
    let mut lo: u64 = 0;
    proof {
        assert(groups_view(groups@) + market_ids_from(m, 0).map_values(entry) =~= market_ids_from(
            m,
            0,
        ).map_values(entry));
    }
    loop
        invariant
            m == market_idx@,
            entry == group_entry(m),
            lo <= 0x1_0000_0000,
            groups_view(groups@) + market_ids_from(m, lo as int).map_values(entry)
                == market_ids_from(m, 0).map_values(entry),
        ensures
            groups_view(groups@) == market_ids_from(m, 0).map_values(entry),
        decreases 0x1_0000_0000 - lo,
    {
        let next = if lo > u32::MAX as u64 { None } else { min_id_at_least(market_idx, lo) };
        match next {
            None => {
                proof {
                    assert(market_ids_from(m, lo as int) =~= Seq::<u32>::empty());
                    assert(groups_view(groups@) + Seq::<(u32, Seq<int>)>::empty() =~= groups_view(
                        groups@,
                    ));
                }
                break ;
            },
            Some(k) => {
                proof {
                    lemma_min_at_least(m, lo as int);
                }
                let positions = positions_with_id(market_idx, k);
                let ghost before = groups@;
                groups.push((k, positions));
                proof {
                    let rest = market_ids_from(m, k + 1);
                    assert(market_ids_from(m, lo as int) == seq![k] + rest);
                    assert(groups_view(groups@) =~= groups_view(before).push(entry(k)));
                    assert((seq![k] + rest).map_values(entry) =~= seq![entry(k)] + rest.map_values(
                        entry,
                    ));
                    assert(groups_view(groups@) + rest.map_values(entry) =~= groups_view(before) + (
                    seq![k] + rest).map_values(entry));
                }
                lo = k as u64 + 1;
            },
        }
    }
    groups
}

/// Positions mapped to integers.
pub open spec fn int_positions(v: Seq<usize>) -> Seq<int> {
    v.map_values(|p: usize| p as int)
}

/// Samples kept per market: the configured cap (unbounded when zero), but
/// no more than an even share of `max_samples` (at least one); a single
/// sample per market when there are more markets than `max_samples`.
pub open spec fn per_market_cap(groups: nat, max_samples: nat, max_per_market: nat) -> nat {
    let configured = if max_per_market == 0 {
        usize::MAX as nat
    } else {
        max_per_market
    };
    if max_samples >= groups {
        let share = if max_samples / groups >= 1 {
            max_samples / groups
        } else {
            1
        };
        if configured < share {
            configured
        } else {
            share
        }
    } else {
        1
    }
}

/// At most `cap` of a market's positions, spread evenly.
pub open spec fn capped_group_picks(positions: Seq<int>, cap: nat) -> Seq<int> {
    let take = if positions.len() < cap {
        positions.len()
    } else {
        cap
    };
    evenly_sampled_positions(positions.len(), take).map_values(|p: int| positions[p])
}

pub open spec fn capped_picks_of(cap: nat) -> spec_fn((u32, Seq<int>)) -> Seq<int> {
    |g: (u32, Seq<int>)| capped_group_picks(g.1, cap)
}

/// The per-market-capped selection, market by market.
pub open spec fn per_market_selection(m: Seq<u32>, max_samples: nat, max_per_market: nat) -> Seq<int> {
    let groups = spec_market_groups(m);
    let cap = per_market_cap(groups.len(), max_samples, max_per_market);
    groups.map_values(capped_picks_of(cap)).flatten()
}

/// Whether balancing reduces to returning every sample or none.
pub open spec fn balancing_is_trivial(m: Seq<u32>, max_samples: nat, max_per_market: nat) -> bool {
    m.len() == 0 || max_samples == 0 || (m.len() <= max_samples && max_per_market == 0)
}

/// Positions of a market-balanced subset of at most `max_samples` samples
/// holding at most `max_per_market` samples per market (zero: no per-market
/// cap), spread evenly within each market; when the per-market selection is
/// still too large it is thinned evenly to `max_samples`.
pub open spec fn spec_market_balanced(m: Seq<u32>, max_samples: nat, max_per_market: nat) -> Seq<int> {
    if m.len() == 0 || max_samples == 0 {
        Seq::empty()
    } else if m.len() <= max_samples && max_per_market == 0 {
        Seq::new(m.len(), |i: int| i)
    } else {
        let selected = per_market_selection(m, max_samples, max_per_market);
        if selected.len() <= max_samples {
            selected
        } else {
            evenly_sampled_positions(selected.len(), max_samples).map_values(|p: int| selected[p])
        }
    }
}

proof fn lemma_ids_nonempty(m: Seq<u32>)
    requires
        m.len() > 0,
    ensures
        market_ids_from(m, 0).len() > 0,
{
    lemma_min_at_least(m, 0);
}

/// Selects a market-balanced subset of the samples (see
/// `spec_market_balanced`) and returns their positions.
pub fn market_balanced_positions(market_idx: &[u32], max_samples: usize, max_samples_per_market: usize) -> (r: Vec<usize>)
    ensures
        int_positions(r@) == spec_market_balanced(
            market_idx@,
            max_samples as nat,
            max_samples_per_market as nat,
        ),
{
    let ghost m = market_idx@;
    let n = market_idx.len();
    if n == 0 || max_samples == 0 {
        let r: Vec<usize> = Vec::new();
        assert(int_positions(r@) =~= Seq::<int>::empty());
        return r;
    }
    if n <= max_samples && max_samples_per_market == 0 {
        let mut r: Vec<usize> = Vec::new();
        let mut k: usize = 0;
        while k < n
            invariant
                k <= n,
                n == market_idx@.len(),
                int_positions(r@) =~= Seq::new(k as nat, |i: int| i),
            decreases n - k,
        {
            let ghost before = r@;
            r.push(k);
            assert(int_positions(r@) =~= int_positions(before).push(k as int));
            k = k + 1;
        }
        return r;
    }
    let groups = group_positions_by_market(market_idx);
    let ghost gs = spec_market_groups(m);
    proof {
        lemma_ids_nonempty(m);
    }
    assert(groups@.len() == gs.len());
    let g = groups.len();
    let configured = if max_samples_per_market == 0 { usize::MAX } else { max_samples_per_market };
    let cap_per_market = if max_samples >= g {
        let share = if max_samples / g >= 1 { max_samples / g } else { 1 };
        if configured < share { configured } else { share }
    } else {
        1
    };
    let ghost cap = cap_per_market as nat;
    assert(cap == per_market_cap(gs.len(), max_samples as nat, max_samples_per_market as nat));
    let ghost picks = gs.map_values(capped_picks_of(cap));
    let mut selected: Vec<usize> = Vec::new();
    let mut k: usize = 0;
    proof {
        assert(picks.take(0) =~= Seq::<Seq<int>>::empty());
        assert(int_positions(selected@) =~= picks.take(0).flatten());
    }
    while k < g
        invariant
            g == groups@.len(),
            g == gs.len(),
            gs == spec_market_groups(m),
            groups_view(groups@) == gs,
            m == market_idx@,
            cap == cap_per_market as nat,
            cap == per_market_cap(gs.len(), max_samples as nat, max_samples_per_market as nat),
            picks == gs.map_values(capped_picks_of(cap)),
            !balancing_is_trivial(m, max_samples as nat, max_samples_per_market as nat),
            k <= g,
            int_positions(selected@) =~= picks.take(k as int).flatten(),
        decreases g - k,
    {
        let positions = &groups[k].1;
        let ghost gp = gs[k as int].1;
        assert(int_positions(positions@) == gp);
        let take = if positions.len() < cap_per_market { positions.len() } else { cap_per_market };
        let ghost before = selected@;
        proof {
            assert(groups_view(groups@)[k as int] == gs[k as int]);
        }
        extend_evenly_sampled(positions.as_slice(), take, &mut selected);
        proof {
            let chosen = evenly_sampled_positions(positions@.len(), take as nat);
            evenly_sampled_positions_are_ordered(positions@.len(), take as nat);
            assert(gp.len() == positions@.len());
            assert(take as nat == (if gp.len() < cap { gp.len() } else { cap }));
            assert(int_positions(selected@) =~= int_positions(before) + chosen.map_values(
                |i: int| positions@[i] as int,
            ));
            assert(chosen.map_values(|i: int| positions@[i] as int) =~= capped_group_picks(gp, cap));
            assert(picks[k as int] == capped_group_picks(gp, cap));
            assert(picks.take(k + 1) =~= picks.take(k as int).push(picks[k as int]));
            picks.take(k as int).lemma_flatten_push(picks[k as int]);
        }
        k = k + 1;
    }
    proof {
        assert(picks.take(g as int) =~= picks);
    }
    assert(int_positions(selected@) == per_market_selection(
        m,
        max_samples as nat,
        max_samples_per_market as nat,
    ));
    if selected.len() <= max_samples {
        selected
    } else {
        let mut bounded: Vec<usize> = Vec::new();
        extend_evenly_sampled(selected.as_slice(), max_samples, &mut bounded);
        proof {
            let sel = int_positions(selected@);
            let chosen = evenly_sampled_positions(selected@.len(), max_samples as nat);
            evenly_sampled_positions_are_ordered(selected@.len(), max_samples as nat);
            assert(int_positions(bounded@) =~= chosen.map_values(|i: int| selected@[i] as int));
            assert(chosen.map_values(|i: int| selected@[i] as int) =~= chosen.map_values(
                |p: int| sel[p],
            ));
        }
        bounded
    }
}

/// Number of markets (in chronological order) that go to the fit part:
/// `markets * fit_percent / 100` rounded half up, kept between one and
/// `markets - 1` so both parts hold at least one market.
pub open spec fn fit_market_count(markets: nat, fit_percent: nat) -> nat {
    let rounded = (2 * markets * fit_percent + 100) / 200;
    if rounded < 1 {
        1
    } else if rounded > markets - 1 {
        (markets - 1) as nat
    } else {
        rounded
    }
}

/// The sample positions of each market group, in group order.
pub open spec fn group_position_lists(groups: Seq<(u32, Seq<int>)>) -> Seq<Seq<int>> {
    groups.map_values(|g: (u32, Seq<int>)| g.1)
}

/// The chronological split of the samples by market: the earliest
/// `fit_market_count` markets form the fit part, the remaining markets the
/// validation part; with fewer than two markets every sample is fit and the
/// validation part is empty.
pub open spec fn spec_split_by_market(m: Seq<u32>, fit_percent: nat) -> (Seq<int>, Seq<int>) {
    let groups = spec_market_groups(m);
    if groups.len() < 2 {
        (Seq::new(m.len(), |i: int| i), Seq::empty())
    } else {
        let lists = group_position_lists(groups);
        let s = fit_market_count(groups.len(), fit_percent) as int;
        (lists.take(s).flatten(), lists.skip(s).flatten())
    }
}

fn append_positions(out: &mut Vec<usize>, src: &[usize])
    ensures
        int_positions(final(out)@) == int_positions(old(out)@) + int_positions(src@),
{
    let mut k: usize = 0;
    while k < src.len()
        invariant
            k <= src@.len(),
            int_positions(out@) =~= int_positions(old(out)@) + int_positions(src@.take(k as int)),
        decreases src@.len() - k,
    {
        let ghost before = out@;
        out.push(src[k]);
        proof {
            assert(int_positions(src@.take(k + 1)) =~= int_positions(src@.take(k as int)).push(
                src@[k as int] as int,
            ));
            assert(int_positions(out@) =~= int_positions(before).push(src@[k as int] as int));
        }
        k = k + 1;
    }
    assert(src@.take(src@.len() as int) =~= src@);
}

/// Splits the samples chronologically by market into a fit part and a
/// validation part (see `spec_split_by_market`), returning the positions of
/// each part in order.
pub fn split_positions_by_market(market_idx: &[u32], fit_percent: u32) -> (r: (Vec<usize>, Vec<usize>))
    ensures
        (int_positions(r.0@), int_positions(r.1@)) == spec_split_by_market(
            market_idx@,
            fit_percent as nat,
        ),
{
    let ghost m = market_idx@;
    let groups = group_positions_by_market(market_idx);
    let ghost gs = spec_market_groups(m);
    let ghost lists = group_position_lists(gs);
    let g = groups.len();
    if g < 2 {
        let mut all: Vec<usize> = Vec::new();
        let mut k: usize = 0;
        while k < market_idx.len()
            invariant
                k <= m.len(),
                m == market_idx@,
                int_positions(all@) =~= Seq::new(k as nat, |i: int| i),
            decreases m.len() - k,
        {
            let ghost before = all@;
            all.push(k);
            assert(int_positions(all@) =~= int_positions(before).push(k as int));
            k = k + 1;
        }
        let none: Vec<usize> = Vec::new();
        assert(int_positions(none@) =~= Seq::<int>::empty());
        return (all, none);
    }
    assert(2 * (g as u128) * (fit_percent as u128) + 100 < 0x1_0000_0000_0000_0000_0000_0000_0000)
        by (nonlinear_arith)
        requires
            g <= u64::MAX,
            fit_percent <= u32::MAX,
    ;
    let rounded = (2 * (g as u128) * (fit_percent as u128) + 100) / 200;
    let split_at: usize = if rounded < 1 {
        1
    } else if rounded > (g - 1) as u128 {
        g - 1
    } else {
        rounded as usize
    };
    assert(split_at == fit_market_count(gs.len(), fit_percent as nat));
    let mut fit: Vec<usize> = Vec::new();
    let mut validation: Vec<usize> = Vec::new();
    let mut k: usize = 0;
    proof {
        assert(lists.take(0) =~= Seq::<Seq<int>>::empty());
        assert(int_positions(fit@) =~= lists.take(0).flatten());
    }
    while k < split_at
        invariant
            g == groups@.len(),
            g == gs.len(),
            groups_view(groups@) == gs,
            lists == group_position_lists(gs),
            k <= split_at < g,
            int_positions(fit@) =~= lists.take(k as int).flatten(),
        decreases split_at - k,
    {
        proof {
            assert(groups_view(groups@)[k as int] == gs[k as int]);
            assert(int_positions(groups@[k as int].1@) == lists[k as int]);
            assert(lists.take(k + 1) =~= lists.take(k as int).push(lists[k as int]));
            lists.take(k as int).lemma_flatten_push(lists[k as int]);
        }
        append_positions(&mut fit, groups[k].1.as_slice());
        k = k + 1;
    }
    proof {
        assert(lists.subrange(split_at as int, split_at as int) =~= Seq::<Seq<int>>::empty());
        assert(int_positions(validation@) =~= lists.subrange(split_at as int, split_at as int).flatten());
    }
    while k < g
        invariant
            g == groups@.len(),
            g == gs.len(),
            groups_view(groups@) == gs,
            lists == group_position_lists(gs),
            split_at <= k <= g,
            int_positions(validation@) =~= lists.subrange(split_at as int, k as int).flatten(),
        decreases g - k,
    {
        proof {
            assert(groups_view(groups@)[k as int] == gs[k as int]);
            assert(int_positions(groups@[k as int].1@) == lists[k as int]);
            assert(lists.subrange(split_at as int, k + 1) =~= lists.subrange(split_at as int, k as int).push(
                lists[k as int],
            ));
            lists.subrange(split_at as int, k as int).lemma_flatten_push(lists[k as int]);
        }
        append_positions(&mut validation, groups[k].1.as_slice());
        k = k + 1;
    }
    assert(lists.subrange(split_at as int, g as int) =~= lists.skip(split_at as int));
    (fit, validation)
}

/// The market ids from `lo` up are ascending, at least `lo`, and occur in `m`.
proof fn lemma_ids_ascending(m: Seq<u32>, lo: int)
    ensures
        ({
            let ids = market_ids_from(m, lo);
            &&& forall|i: int| 0 <= i < ids.len() ==> #[trigger] ids[i] >= lo && m.contains(ids[i])
            &&& forall|i: int, j: int| 0 <= i < j < ids.len() ==> #[trigger] ids[i] < #[trigger] ids[j]
        }),
    decreases 0x1_0000_0000 - lo,
{
    if 0 <= lo <= u32::MAX {
        lemma_min_at_least(m, lo);
        match min_at_least(m, lo) {
            None => {},
            Some(k) => {
                lemma_ids_ascending(m, k + 1);
                let rest = market_ids_from(m, k + 1);
                let ids = market_ids_from(m, lo);
                assert(ids == seq![k] + rest);
                assert forall|i: int| 0 <= i < ids.len() implies #[trigger] ids[i] >= lo && m.contains(
                    ids[i],
                ) by {
                    if i > 0 {
                        assert(ids[i] == rest[i - 1]);
                    }
                }
                assert forall|i: int, j: int| 0 <= i < j < ids.len() implies #[trigger] ids[i]
                    < #[trigger] ids[j] by {
                    assert(ids[j] == rest[j - 1]);
                    if i > 0 {
                        assert(ids[i] == rest[i - 1]);
                    }
                }
            },
        }
    }
}

/// The positions of market `k` are valid positions of samples of market
/// `k`, and there is at least one when `k` occurs in `m`.
proof fn lemma_group_members(m: Seq<u32>, k: u32)
    ensures
        forall|j: int|
            0 <= j < positions_of(m, k).len() ==> 0 <= #[trigger] positions_of(m, k)[j] < m.len()
                && m[positions_of(m, k)[j]] == k,
        m.contains(k) ==> positions_of(m, k).len() > 0,
{
    let all = Seq::new(m.len(), |i: int| i);
    let pred = has_id(m, k);
    let ps = all.filter(pred);
    assert forall|j: int| 0 <= j < ps.len() implies 0 <= #[trigger] ps[j] < m.len() && m[ps[j]]
        == k by {
        all.lemma_filter_pred(pred, j);
        assert(ps.contains(ps[j]));
        all.lemma_filter_contains_rev(pred, ps[j]);
    }
    if m.contains(k) {
        let i = choose|i: int| 0 <= i < m.len() && m[i] == k;
        assert(pred(all[i]));
        all.lemma_filter_contains(pred, i);
    }
}

/// Every element of a flattened list of lists satisfies `ok` when every
/// element of every list does.
proof fn lemma_flatten_all(lists: Seq<Seq<int>>, ok: spec_fn(int) -> bool)
    requires
        forall|i: int, j: int| 0 <= i < lists.len() && 0 <= j < lists[i].len() ==> ok(#[trigger] lists[i][j]),
    ensures
        forall|k: int| 0 <= k < lists.flatten().len() ==> ok(#[trigger] lists.flatten()[k]),
    decreases lists.len(),
{
    if lists.len() > 0 {
        let rest = lists.drop_first();
        assert forall|i: int, j: int| 0 <= i < rest.len() && 0 <= j < rest[i].len() implies ok(
            #[trigger] rest[i][j],
        ) by {
            assert(rest[i] == lists[i + 1]);
        }
        lemma_flatten_all(rest, ok);
        let f = lists.flatten();
        assert(f == lists.first() + rest.flatten());
        assert forall|k: int| 0 <= k < f.len() implies ok(#[trigger] f[k]) by {
            if k < lists.first().len() {
                assert(f[k] == lists[0][k]);
            } else {
                assert(f[k] == rest.flatten()[k - lists.first().len()]);
            }
        }
    }
}

/// The chronological split keeps market order: every fit sample comes from a
/// market that precedes the market of every validation sample, and both
/// parts hold valid positions. When the samples come from at least two
/// markets, neither part is empty.
pub proof fn split_by_market_is_chronological(m: Seq<u32>, fit_percent: nat)
    ensures
        ({
            let (fit, validation) = spec_split_by_market(m, fit_percent);
            &&& forall|i: int| 0 <= i < fit.len() ==> 0 <= #[trigger] fit[i] < m.len()
            &&& forall|j: int| 0 <= j < validation.len() ==> 0 <= #[trigger] validation[j] < m.len()
            &&& forall|i: int, j: int|
                0 <= i < fit.len() && 0 <= j < validation.len() ==> m[#[trigger] fit[i]] < m[#[trigger] validation[j]]
            &&& spec_market_groups(m).len() >= 2 ==> fit.len() > 0 && validation.len() > 0
        }),
{
    let groups = spec_market_groups(m);
    let ids = market_ids_from(m, 0);
    let (fit, validation) = spec_split_by_market(m, fit_percent);
    if groups.len() < 2 {
        assert(validation.len() == 0);
    } else {
        lemma_ids_ascending(m, 0);
        let lists = group_position_lists(groups);
        let s = fit_market_count(groups.len(), fit_percent) as int;
        assert(1 <= s < groups.len());
        let t = ids[s];
        assert forall|i: int| 0 <= i < lists.len() implies #[trigger] lists[i] == positions_of(m, ids[i]) by {}
        let before = lists.take(s);
        let after = lists.skip(s);
        let in_fit = |p: int| 0 <= p < m.len() && m[p] < t;
        let in_validation = |p: int| 0 <= p < m.len() && m[p] >= t;
        assert forall|i: int, j: int| 0 <= i < before.len() && 0 <= j < before[i].len() implies in_fit(
            #[trigger] before[i][j],
        ) by {
            lemma_group_members(m, ids[i]);
            assert(before[i] == positions_of(m, ids[i]));
        }
        assert forall|i: int, j: int| 0 <= i < after.len() && 0 <= j < after[i].len() implies in_validation(
            #[trigger] after[i][j],
        ) by {
            lemma_group_members(m, ids[i + s]);
            assert(after[i] == positions_of(m, ids[i + s]));
            if i > 0 {
                assert(ids[s] < ids[i + s]);
            }
        }
        lemma_flatten_all(before, in_fit);
        lemma_flatten_all(after, in_validation);
        assert(fit == before.flatten());
        assert(validation == after.flatten());
        lemma_group_members(m, ids[0]);
        lemma_group_members(m, ids[s]);
        lists.take(s).lemma_flatten_length_ge_single_element_length(0);
        lists.skip(s).lemma_flatten_length_ge_single_element_length(0);
    }
}

/// A market-balanced selection holds at most `max_samples` positions, each
/// a valid sample position.
pub proof fn market_balanced_is_bounded(m: Seq<u32>, max_samples: nat, max_per_market: nat)
    ensures
        ({
            let r = spec_market_balanced(m, max_samples, max_per_market);
            &&& r.len() <= max_samples
            &&& forall|i: int| 0 <= i < r.len() ==> 0 <= #[trigger] r[i] < m.len()
        }),
{
    let r = spec_market_balanced(m, max_samples, max_per_market);
    if m.len() == 0 || max_samples == 0 {
    } else if m.len() <= max_samples && max_per_market == 0 {
    } else {
        let groups = spec_market_groups(m);
        let cap = per_market_cap(groups.len(), max_samples, max_per_market);
        let picks = groups.map_values(capped_picks_of(cap));
        let valid = |p: int| 0 <= p < m.len();
        lemma_ids_ascending(m, 0);
        assert forall|i: int, j: int| 0 <= i < picks.len() && 0 <= j < picks[i].len() implies valid(
            #[trigger] picks[i][j],
        ) by {
            let ids = market_ids_from(m, 0);
            let ps = positions_of(m, ids[i]);
            lemma_group_members(m, ids[i]);
            assert(groups[i] == (ids[i], ps));
            let take = if ps.len() < cap { ps.len() } else { cap };
            evenly_sampled_positions_are_ordered(ps.len(), take);
            let chosen = evenly_sampled_positions(ps.len(), take);
            assert(picks[i] == chosen.map_values(|p: int| ps[p]));
            assert(picks[i][j] == ps[chosen[j]]);
        }
        lemma_flatten_all(picks, valid);
        let selected = per_market_selection(m, max_samples, max_per_market);
        assert(selected == picks.flatten());
        if selected.len() > max_samples {
            evenly_sampled_positions_are_ordered(selected.len(), max_samples);
            let chosen = evenly_sampled_positions(selected.len(), max_samples);
            assert forall|i: int| 0 <= i < r.len() implies 0 <= #[trigger] r[i] < m.len() by {
                assert(r[i] == selected[chosen[i]]);
                assert(valid(selected[chosen[i]]));
            }
        }
    }
}

/// Whether position `p` holds a sample of market `k`.
pub open spec fn in_market(m: Seq<u32>, k: u32) -> spec_fn(int) -> bool {
    |p: int| 0 <= p < m.len() && m[p] == k
}

/// How many of the positions `r` hold samples of market `k`.
pub open spec fn market_count(r: Seq<int>, m: Seq<u32>, k: u32) -> nat {
    r.filter(in_market(m, k)).len()
}

proof fn lemma_filter_all_or_none(s: Seq<int>, pred: spec_fn(int) -> bool, all: bool)
    requires
        forall|i: int| 0 <= i < s.len() ==> pred(#[trigger] s[i]) == all,
    ensures
        s.filter(pred).len() == if all {
            s.len()
        } else {
            0
        },
    decreases s.len(),
{
    reveal(Seq::filter);
    if s.len() > 0 {
        let p = s.drop_last();
        assert forall|i: int| 0 <= i < p.len() implies pred(#[trigger] p[i]) == all by {
            assert(p[i] == s[i]);
        }
        lemma_filter_all_or_none(p, pred, all);
        assert(pred(s[s.len() - 1]) == all);
    }
}

/// Counting over a flattened list of per-market lists: with distinct market
/// ids, market `k` is counted only in its own list.
proof fn lemma_count_flatten(lists: Seq<Seq<int>>, ids: Seq<u32>, m: Seq<u32>, k: u32, cap: nat)
    requires
        lists.len() == ids.len(),
        forall|a: int, b: int| 0 <= a < b < ids.len() ==> #[trigger] ids[a] < #[trigger] ids[b],
        forall|g: int, j: int|
            0 <= g < lists.len() && 0 <= j < lists[g].len() ==> 0 <= #[trigger] lists[g][j] < m.len()
                && m[lists[g][j]] == ids[g],
        forall|g: int| 0 <= g < lists.len() ==> (#[trigger] lists[g]).len() <= cap,
    ensures
        market_count(lists.flatten(), m, k) <= cap,
        (forall|g: int| 0 <= g < ids.len() ==> #[trigger] ids[g] != k) ==> market_count(
            lists.flatten(),
            m,
            k,
        ) == 0,
        forall|g: int| 0 <= g < ids.len() && #[trigger] ids[g] == k ==> market_count(lists.flatten(), m, k)
            == lists[g].len(),
    decreases lists.len(),
{
    if lists.len() > 0 {
        let first = lists.first();
        let rest = lists.drop_first();
        let rest_ids = ids.drop_first();
        assert forall|a: int, b: int| 0 <= a < b < rest_ids.len() implies #[trigger] rest_ids[a]
            < #[trigger] rest_ids[b] by {
            assert(rest_ids[a] == ids[a + 1] && rest_ids[b] == ids[b + 1]);
        }
        assert forall|g: int, j: int| 0 <= g < rest.len() && 0 <= j < rest[g].len() implies 0
            <= #[trigger] rest[g][j] < m.len() && m[rest[g][j]] == rest_ids[g] by {
            assert(rest[g] == lists[g + 1] && rest_ids[g] == ids[g + 1]);
        }
        assert forall|g: int| 0 <= g < rest.len() implies (#[trigger] rest[g]).len() <= cap by {
            assert(rest[g] == lists[g + 1]);
        }
        lemma_count_flatten(rest, rest_ids, m, k, cap);
        let pred = in_market(m, k);
        assert(lists.flatten() == first + rest.flatten());
        Seq::filter_distributes_over_add(first, rest.flatten(), pred);
        assert forall|i: int| 0 <= i < first.len() implies pred(#[trigger] first[i]) == (ids[0]
            == k) by {
            assert(first[i] == lists[0][i]);
        }
        lemma_filter_all_or_none(first, pred, ids[0] == k);
        assert(first.len() <= cap) by {
            assert(first == lists[0]);
        }
        if ids[0] == k {
            assert forall|g: int| 0 <= g < rest_ids.len() implies #[trigger] rest_ids[g] != k by {
                assert(rest_ids[g] == ids[g + 1]);
            }
        }
        if forall|g: int| 0 <= g < ids.len() ==> #[trigger] ids[g] != k {
            assert(ids[0] != k);
            assert forall|g: int| 0 <= g < rest_ids.len() implies #[trigger] rest_ids[g] != k by {
                assert(rest_ids[g] == ids[g + 1]);
            }
        }
        assert forall|g: int| 0 <= g < ids.len() && #[trigger] ids[g] == k implies market_count(
            lists.flatten(),
            m,
            k,
        ) == lists[g].len() by {
            if g > 0 {
                assert(ids[0] < ids[g]);
                assert(rest_ids[g - 1] == ids[g]);
                assert(rest[g - 1] == lists[g]);
            } else {
                assert forall|h: int| 0 <= h < rest_ids.len() implies #[trigger] rest_ids[h] != k by {
                    assert(rest_ids[h] == ids[h + 1]);
                }
            }
        }
    } else {
        reveal(Seq::filter);
    }
}

/// Picking positions of `s` in increasing order never counts more of a
/// market than `s` itself holds.
proof fn lemma_count_subsequence(s: Seq<int>, c: Seq<int>, pred: spec_fn(int) -> bool)
    requires
        forall|i: int| 0 <= i < c.len() ==> 0 <= #[trigger] c[i] < s.len(),
        forall|i: int, j: int| 0 <= i < j < c.len() ==> #[trigger] c[i] < #[trigger] c[j],
    ensures
        c.map_values(|i: int| s[i]).filter(pred).len() <= s.filter(pred).len(),
    decreases c.len(),
{
    reveal(Seq::filter);
    if c.len() > 0 {
        let l = c.last();
        let cp = c.drop_last();
        let t = s.take(l);
        assert forall|i: int| 0 <= i < cp.len() implies 0 <= #[trigger] cp[i] < t.len() by {
            assert(cp[i] == c[i]);
            assert(c[i] < c[c.len() - 1]);
        }
        assert forall|i: int, j: int| 0 <= i < j < cp.len() implies #[trigger] cp[i] < #[trigger] cp[j] by {
            assert(cp[i] == c[i] && cp[j] == c[j]);
        }
        lemma_count_subsequence(t, cp, pred);
        let picked = c.map_values(|i: int| s[i]);
        assert(picked.drop_last() =~= cp.map_values(|i: int| t[i]));
        assert(picked.last() == s[l]);
        assert(s =~= t.push(s[l]) + s.skip(l + 1));
        Seq::filter_distributes_over_add(t.push(s[l]), s.skip(l + 1), pred);
        assert(t.push(s[l]).drop_last() =~= t);
    }
}

/// With a per-market cap, a market-balanced selection holds at most
/// `max_per_market` samples of any one market.
pub proof fn market_balanced_caps_each_market(m: Seq<u32>, max_samples: nat, max_per_market: nat, k: u32)
    requires
        max_per_market > 0,
    ensures
        market_count(spec_market_balanced(m, max_samples, max_per_market), m, k) <= max_per_market,
{
    let r = spec_market_balanced(m, max_samples, max_per_market);
    if m.len() == 0 || max_samples == 0 {
        reveal(Seq::filter);
    } else {
        let groups = spec_market_groups(m);
        let ids = market_ids_from(m, 0);
        let cap = per_market_cap(groups.len(), max_samples, max_per_market);
        assert(cap <= max_per_market);
        let picks = groups.map_values(capped_picks_of(cap));
        lemma_ids_ascending(m, 0);
        assert forall|g: int, j: int| 0 <= g < picks.len() && 0 <= j < picks[g].len() implies 0
            <= #[trigger] picks[g][j] < m.len() && m[picks[g][j]] == ids[g] by {
            let ps = positions_of(m, ids[g]);
            lemma_group_members(m, ids[g]);
            assert(groups[g] == (ids[g], ps));
            let take = if ps.len() < cap { ps.len() } else { cap };
            evenly_sampled_positions_are_ordered(ps.len(), take);
            let chosen = evenly_sampled_positions(ps.len(), take);
            assert(picks[g] == chosen.map_values(|p: int| ps[p]));
            assert(picks[g][j] == ps[chosen[j]]);
        }
        assert forall|g: int| 0 <= g < picks.len() implies (#[trigger] picks[g]).len() <= cap by {
            let ps = positions_of(m, ids[g]);
            assert(groups[g] == (ids[g], ps));
            let take = if ps.len() < cap { ps.len() } else { cap };
            evenly_sampled_positions_are_ordered(ps.len(), take);
        }
        lemma_count_flatten(picks, ids, m, k, cap);
        let selected = per_market_selection(m, max_samples, max_per_market);
        assert(selected == picks.flatten());
        if selected.len() > max_samples {
            evenly_sampled_positions_are_ordered(selected.len(), max_samples);
            let chosen = evenly_sampled_positions(selected.len(), max_samples);
            lemma_count_subsequence(selected, chosen, in_market(m, k));
        }
    }
}

proof fn lemma_filter_split(s: Seq<int>, a: spec_fn(int) -> bool, b: spec_fn(int) -> bool, c: spec_fn(int) -> bool)
    requires
        forall|x: int| #[trigger] c(x) == (a(x) || b(x)),
        forall|x: int| !(#[trigger] a(x) && b(x)),
    ensures
        s.filter(c).len() == s.filter(a).len() + s.filter(b).len(),
    decreases s.len(),
{
    reveal(Seq::filter);
    if s.len() > 0 {
        lemma_filter_split(s.drop_last(), a, b, c);
    }
}

/// Positions whose market id is at least `lo`.
spec fn at_least(m: Seq<u32>, lo: int) -> spec_fn(int) -> bool {
    |p: int| m[p] >= lo
}

/// The groups of the markets from `lo` up hold as many positions as there
/// are samples of those markets.
proof fn lemma_groups_from_count(m: Seq<u32>, lo: int)
    requires
        lo >= 0,
    ensures
        market_ids_from(m, lo).map_values(|k: u32| positions_of(m, k)).flatten().len() == Seq::new(
            m.len(),
            |i: int| i,
        ).filter(at_least(m, lo)).len(),
    decreases 0x1_0000_0000 - lo,
{
    let all = Seq::new(m.len(), |i: int| i);
    let lists = market_ids_from(m, lo).map_values(|k: u32| positions_of(m, k));
    lemma_min_at_least(m, lo);
    if lo > u32::MAX || min_at_least(m, lo) is None {
        assert(lists =~= Seq::<Seq<int>>::empty());
        assert forall|i: int| 0 <= i < all.len() implies !at_least(m, lo)(#[trigger] all[i]) by {
            if lo <= u32::MAX {
                assert(m[i] < lo);
            }
        }
        all.lemma_all_neg_filter_empty(at_least(m, lo));
    } else {
        let k = min_at_least(m, lo)->0;
        lemma_groups_from_count(m, k + 1);
        let rest = market_ids_from(m, k + 1).map_values(|k: u32| positions_of(m, k));
        assert(lists =~= seq![positions_of(m, k)] + rest);
        vstd::seq_lib::lemma_flatten_concat(seq![positions_of(m, k)], rest);
        assert(seq![positions_of(m, k)].flatten() =~= positions_of(m, k)) by {
            seq![positions_of(m, k)].lemma_flatten_one_element();
        }
        let same = |p: int| m[p] == k;
        let above = at_least(m, k + 1);
        let from = at_least(m, lo);
        assert forall|i: int| 0 <= i < all.len() implies #[trigger] from(all[i]) == (same(all[i]) || above(
            all[i],
        )) by {
            if m[i] >= lo {
                assert(m[i] >= k);
            }
        }
        let from_in = |p: int| 0 <= p < m.len() && m[p] >= lo;
        let same_in = |p: int| 0 <= p < m.len() && m[p] == k;
        let above_in = |p: int| 0 <= p < m.len() && m[p] >= k + 1;
        assert forall|x: int| #[trigger] from_in(x) == (same_in(x) || above_in(x)) by {
            if from_in(x) {
                assert(m[x] >= k);
            }
        }
        lemma_filter_split(all, same_in, above_in, from_in);
        assert(all.filter(from_in) =~= all.filter(from)) by {
            lemma_filter_same_on(all, from_in, from);
        }
        assert(all.filter(same_in) =~= all.filter(has_id(m, k))) by {
            lemma_filter_same_on(all, same_in, has_id(m, k));
        }
        assert(all.filter(above_in) =~= all.filter(above)) by {
            lemma_filter_same_on(all, above_in, above);
        }
    }
}

/// Filtering the positions `0..n` by predicates that agree on them gives
/// the same result.
proof fn lemma_filter_same_on(all: Seq<int>, p: spec_fn(int) -> bool, q: spec_fn(int) -> bool)
    requires
        forall|i: int| 0 <= i < all.len() ==> all[i] == i,
        forall|i: int| 0 <= i < all.len() ==> #[trigger] p(all[i]) == q(all[i]),
    ensures
        all.filter(p) == all.filter(q),
    decreases all.len(),
{
    reveal(Seq::filter);
    if all.len() > 0 {
        let d = all.drop_last();
        assert forall|i: int| 0 <= i < d.len() implies #[trigger] p(d[i]) == q(d[i]) by {
            assert(d[i] == all[i]);
        }
        lemma_filter_same_on(d, p, q);
        assert(p(all[all.len() - 1]) == q(all[all.len() - 1]));
    }
}

/// Lists whose elements are tagged with distinct market ids, each list
/// without repeats, flatten to a list without repeats.
proof fn lemma_flatten_distinct(lists: Seq<Seq<int>>, ids: Seq<u32>, m: Seq<u32>)
    requires
        lists.len() == ids.len(),
        forall|a: int, b: int| 0 <= a < b < ids.len() ==> #[trigger] ids[a] < #[trigger] ids[b],
        forall|g: int, j: int|
            0 <= g < lists.len() && 0 <= j < lists[g].len() ==> 0 <= #[trigger] lists[g][j] < m.len()
                && m[lists[g][j]] == ids[g],
        forall|g: int, i: int, j: int|
            0 <= g < lists.len() && 0 <= i < j < lists[g].len() ==> #[trigger] lists[g][i] != #[trigger] lists[g][j],
    ensures
        forall|i: int, j: int|
            0 <= i < j < lists.flatten().len() ==> #[trigger] lists.flatten()[i] != #[trigger] lists.flatten()[j],
    decreases lists.len(),
{
    if lists.len() > 0 {
        let first = lists.first();
        let rest = lists.drop_first();
        let rest_ids = ids.drop_first();
        assert forall|a: int, b: int| 0 <= a < b < rest_ids.len() implies #[trigger] rest_ids[a]
            < #[trigger] rest_ids[b] by {
            assert(rest_ids[a] == ids[a + 1] && rest_ids[b] == ids[b + 1]);
        }
        assert forall|g: int, j: int| 0 <= g < rest.len() && 0 <= j < rest[g].len() implies 0
            <= #[trigger] rest[g][j] < m.len() && m[rest[g][j]] == rest_ids[g] by {
            assert(rest[g] == lists[g + 1] && rest_ids[g] == ids[g + 1]);
        }
        assert forall|g: int, i: int, j: int| 0 <= g < rest.len() && 0 <= i < j < rest[g].len()
            implies #[trigger] rest[g][i] != #[trigger] rest[g][j] by {
            assert(rest[g] == lists[g + 1]);
        }
        lemma_flatten_distinct(rest, rest_ids, m);
        let other = |p: int| 0 <= p < m.len() && m[p] != ids[0];
        assert forall|g: int, j: int| 0 <= g < rest.len() && 0 <= j < rest[g].len() implies other(
            #[trigger] rest[g][j],
        ) by {
            assert(rest[g] == lists[g + 1] && rest_ids[g] == ids[g + 1]);
            assert(ids[0] < ids[g + 1]);
        }
        lemma_flatten_all(rest, other);
        let f = lists.flatten();
        let rf = rest.flatten();
        assert(f == first + rf);
        assert forall|i: int, j: int| 0 <= i < j < f.len() implies #[trigger] f[i] != #[trigger] f[j] by {
            if j < first.len() {
                assert(f[i] == lists[0][i] && f[j] == lists[0][j]);
            } else if i < first.len() {
                assert(f[i] == lists[0][i]);
                assert(f[j] == rf[j - first.len()]);
                assert(other(rf[j - first.len()]));
            } else {
                assert(f[i] == rf[i - first.len()] && f[j] == rf[j - first.len()]);
            }
        }
    }
}

/// The chronological split puts every sample in exactly one part: the two
/// parts together hold `m.len()` positions, none of them twice.
pub proof fn split_by_market_partitions(m: Seq<u32>, fit_percent: nat)
    ensures
        ({
            let (fit, validation) = spec_split_by_market(m, fit_percent);
            let both = fit + validation;
            &&& both.len() == m.len()
            &&& forall|i: int, j: int| 0 <= i < j < both.len() ==> #[trigger] both[i] != #[trigger] both[j]
            &&& forall|i: int| 0 <= i < both.len() ==> 0 <= #[trigger] both[i] < m.len()
        }),
{
    let groups = spec_market_groups(m);
    let (fit, validation) = spec_split_by_market(m, fit_percent);
    let both = fit + validation;
    if groups.len() < 2 {
        assert(both =~= Seq::new(m.len(), |i: int| i));
    } else {
        let ids = market_ids_from(m, 0);
        let lists = group_position_lists(groups);
        let s = fit_market_count(groups.len(), fit_percent) as int;
        lemma_ids_ascending(m, 0);
        assert(lists =~= ids.map_values(|k: u32| positions_of(m, k)));
        vstd::seq_lib::lemma_flatten_concat(lists.take(s), lists.skip(s));
        assert(lists.take(s) + lists.skip(s) =~= lists);
        assert(both == lists.flatten());
        let all = Seq::new(m.len(), |i: int| i);
        lemma_groups_from_count(m, 0);
        assert forall|i: int| 0 <= i < all.len() implies at_least(m, 0)(#[trigger] all[i]) == true by {}
        lemma_filter_all_or_none(all, at_least(m, 0), true);
        assert forall|g: int, j: int| 0 <= g < lists.len() && 0 <= j < lists[g].len() implies 0
            <= #[trigger] lists[g][j] < m.len() && m[lists[g][j]] == ids[g] by {
            lemma_group_members(m, ids[g]);
        }
        assert forall|g: int, i: int, j: int| 0 <= g < lists.len() && 0 <= i < j < lists[g].len()
            implies #[trigger] lists[g][i] != #[trigger] lists[g][j] by {
            let ps = positions_of(m, ids[g]);
            let every = Seq::new(m.len(), |x: int| x);
            lemma_filter_increasing(every, has_id(m, ids[g]), 0, m.len() as int);
            assert(lists[g] == ps);
        }
        lemma_flatten_distinct(lists, ids, m);
        let valid = |p: int| 0 <= p < m.len();
        assert forall|g: int, j: int| 0 <= g < lists.len() && 0 <= j < lists[g].len() implies valid(
            #[trigger] lists[g][j],
        ) by {
            lemma_group_members(m, ids[g]);
        }
        lemma_flatten_all(lists, valid);
    }
}

/// A market-balanced selection never holds a sample twice.
pub proof fn market_balanced_has_no_repeats(m: Seq<u32>, max_samples: nat, max_per_market: nat)
    ensures
        ({
            let r = spec_market_balanced(m, max_samples, max_per_market);
            forall|i: int, j: int| 0 <= i < j < r.len() ==> #[trigger] r[i] != #[trigger] r[j]
        }),
{
    if m.len() == 0 || max_samples == 0 {
    } else if m.len() <= max_samples && max_per_market == 0 {
    } else {
        let groups = spec_market_groups(m);
        let ids = market_ids_from(m, 0);
        let cap = per_market_cap(groups.len(), max_samples, max_per_market);
        let picks = groups.map_values(capped_picks_of(cap));
        lemma_ids_ascending(m, 0);
        assert forall|g: int, j: int| 0 <= g < picks.len() && 0 <= j < picks[g].len() implies 0
            <= #[trigger] picks[g][j] < m.len() && m[picks[g][j]] == ids[g] by {
            let ps = positions_of(m, ids[g]);
            lemma_group_members(m, ids[g]);
            assert(groups[g] == (ids[g], ps));
            let take = if ps.len() < cap { ps.len() } else { cap };
            evenly_sampled_positions_are_ordered(ps.len(), take);
            let chosen = evenly_sampled_positions(ps.len(), take);
            assert(picks[g][j] == ps[chosen[j]]);
        }
        assert forall|g: int, a: int, b: int| 0 <= g < picks.len() && 0 <= a < b < picks[g].len()
            implies #[trigger] picks[g][a] != #[trigger] picks[g][b] by {
            let ps = positions_of(m, ids[g]);
            assert(groups[g] == (ids[g], ps));
            let take = if ps.len() < cap { ps.len() } else { cap };
            evenly_sampled_positions_are_ordered(ps.len(), take);
            let chosen = evenly_sampled_positions(ps.len(), take);
            let every = Seq::new(m.len(), |x: int| x);
            lemma_filter_increasing(every, has_id(m, ids[g]), 0, m.len() as int);
            assert(picks[g][a] == ps[chosen[a]] && picks[g][b] == ps[chosen[b]]);
            assert(chosen[a] < chosen[b]);
        }
        lemma_flatten_distinct(picks, ids, m);
        let selected = per_market_selection(m, max_samples, max_per_market);
        assert(selected == picks.flatten());
        if selected.len() > max_samples {
            evenly_sampled_positions_are_ordered(selected.len(), max_samples);
            let chosen = evenly_sampled_positions(selected.len(), max_samples);
            let r = spec_market_balanced(m, max_samples, max_per_market);
            assert forall|i: int, j: int| 0 <= i < j < r.len() implies #[trigger] r[i] != #[trigger] r[j] by {
                assert(r[i] == selected[chosen[i]] && r[j] == selected[chosen[j]]);
                assert(chosen[i] < chosen[j]);
            }
        }
    }
}

/// Every market id of `m` from `lo` up is among `market_ids_from(m, lo)`.
proof fn lemma_ids_complete(m: Seq<u32>, lo: int, k: u32)
    requires
        0 <= lo <= k,
        m.contains(k),
    ensures
        market_ids_from(m, lo).contains(k),
    decreases 0x1_0000_0000 - lo,
{
    lemma_min_at_least(m, lo);
    let i = choose|i: int| 0 <= i < m.len() && m[i] == k;
    assert(m[i] >= lo);
    let v = min_at_least(m, lo)->0;
    let ids = market_ids_from(m, lo);
    assert(ids == seq![v] + market_ids_from(m, v + 1));
    if v == k {
        assert(ids[0] == k);
    } else {
        lemma_ids_complete(m, v + 1, k);
        let rest = market_ids_from(m, v + 1);
        let j = choose|j: int| 0 <= j < rest.len() && #[trigger] rest[j] == k;
        assert(ids[j + 1] == k);
    }
}

/// With `max_samples` at least the number of markets, balancing keeps from
/// every market as many of its samples as it has, up to its limit: an even
/// share `max_samples / markets`, or `max_per_market` when that is smaller
/// and not zero (zero: no per-market cap). Without a per-market cap and
/// when every sample fits in `max_samples`, every sample is kept. So the
/// selection is never empty.
pub proof fn balancing_keeps_an_even_share_of_each_market(m: Seq<u32>, max_samples: nat, max_per_market: nat, k: u32)
    requires
        max_samples <= usize::MAX,
        market_ids_from(m, 0).len() <= max_samples,
        m.contains(k),
    ensures
        ({
            let r = spec_market_balanced(m, max_samples, max_per_market);
            let markets = market_ids_from(m, 0).len();
            let held = market_count(Seq::new(m.len(), |i: int| i), m, k);
            let share = max_samples / markets;
            let limit = if max_per_market == 0 || share < max_per_market {
                share
            } else {
                max_per_market
            };
            &&& r.len() > 0
            &&& market_count(r, m, k) == if m.len() <= max_samples && max_per_market == 0 {
                held
            } else if held < limit {
                held
            } else {
                limit
            }
        }),
{
    let r = spec_market_balanced(m, max_samples, max_per_market);
    let all = Seq::new(m.len(), |i: int| i);
    let ids = market_ids_from(m, 0);
    let g = ids.len();
    lemma_ids_complete(m, 0, k);
    let g0 = choose|j: int| 0 <= j < ids.len() && ids[j] == k;
    assert(g >= 1);
    lemma_group_members(m, k);
    let ps = positions_of(m, k);
    assert(all.filter(in_market(m, k)) == all.filter(has_id(m, k))) by {
        lemma_filter_same_on(all, in_market(m, k), has_id(m, k));
    }
    let held = market_count(all, m, k);
    assert(held == ps.len());
    if m.len() <= max_samples && max_per_market == 0 {
        assert(r == all);
    } else {
        let groups = spec_market_groups(m);
        let share = max_samples / g;
        assert(1 <= share <= max_samples) by (nonlinear_arith)
            requires
                1 <= g <= max_samples,
                share == max_samples / g,
        ;
        assert(g * share <= max_samples) by (nonlinear_arith)
            requires
                g >= 1,
                share == max_samples / g,
        ;
        let cap = per_market_cap(groups.len(), max_samples, max_per_market);
        let limit = if max_per_market == 0 || share < max_per_market { share } else { max_per_market };
        assert(cap == limit);
        assert(g * cap <= max_samples) by (nonlinear_arith)
            requires
                g >= 1,
                cap <= share,
                g * share <= max_samples,
        ;
        let picks = groups.map_values(capped_picks_of(cap));
        lemma_ids_ascending(m, 0);
        assert forall|h: int, j: int| 0 <= h < picks.len() && 0 <= j < picks[h].len() implies 0
            <= #[trigger] picks[h][j] < m.len() && m[picks[h][j]] == ids[h] by {
            let qs = positions_of(m, ids[h]);
            lemma_group_members(m, ids[h]);
            assert(groups[h] == (ids[h], qs));
            let take = if qs.len() < cap { qs.len() } else { cap };
            evenly_sampled_positions_are_ordered(qs.len(), take);
            let chosen = evenly_sampled_positions(qs.len(), take);
            assert(picks[h][j] == qs[chosen[j]]);
        }
        assert forall|h: int| 0 <= h < picks.len() implies (#[trigger] picks[h]).len() == if groups[h].1.len()
            < cap {
            groups[h].1.len()
        } else {
            cap
        } by {
            let qs = positions_of(m, ids[h]);
            assert(groups[h] == (ids[h], qs));
            let take = if qs.len() < cap { qs.len() } else { cap };
            evenly_sampled_positions_are_ordered(qs.len(), take);
        }
        assert forall|h: int| 0 <= h < picks.len() implies (#[trigger] picks[h]).len() <= cap by {}
        picks.lemma_flatten_length_le_mul(cap as int);
        picks.lemma_flatten_and_flatten_alt_are_equivalent();
        let selected = per_market_selection(m, max_samples, max_per_market);
        assert(selected == picks.flatten());
        assert(selected.len() <= g * cap);
        assert(r == selected);
        lemma_count_flatten(picks, ids, m, k, cap);
        assert(groups[g0] == (k, ps));
        assert(market_count(r, m, k) == picks[g0].len());
        r.filter(in_market(m, k)).lemma_filter_len(in_market(m, k));
        r.lemma_filter_len(in_market(m, k));
    }
}

} // verus!
