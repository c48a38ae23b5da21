//! Index selection used to thin data: evenly spaced picks, replay-tape
//! thinning by time bucket, and per-market balancing of training samples.
use vstd::prelude::*;

verus! {

broadcast use vstd::seq_lib::group_seq_properties;

/// Position of the `i`-th of `take` picks spread evenly over `len` items,
/// rounding to the nearest position (first and last items included).
pub open spec fn even_pick(len: nat, take: nat, i: nat) -> int {
    (i * (len - 1) + (take - 1) / 2) / ((take - 1) as int)
}

/// Positions of at most `take` items picked evenly from `len` items, in
/// increasing order: everything when `take >= len`, the middle item when
/// `take == 1`.
pub open spec fn evenly_sampled_positions(len: nat, take: nat) -> Seq<int> {
    if take == 0 || len == 0 {
        Seq::empty()
    } else if take >= len {
        Seq::new(len, |i: int| i)
    } else if take == 1 {
        seq![(len / 2) as int]
    } else {
        Seq::new(take, |i: int| even_pick(len, take, i as nat))
    }
}

proof fn lemma_even_pick_bounds(len: nat, take: nat, i: nat)
    requires
        2 <= take < len,
        i < take,
    ensures
        0 <= even_pick(len, take, i) < len,
        i + 1 < take ==> even_pick(len, take, i) < even_pick(len, take, i + 1),
        i == 0 ==> even_pick(len, take, i) == 0,
        i + 1 == take ==> even_pick(len, take, i) == len - 1,
{
    let l = len - 1;
    let d = take - 1;
    let h = d / 2;
    assert(0 <= h < d) by (nonlinear_arith)
        requires
            d >= 1,
            h == d / 2,
    ;
    assert(i * l + h <= d * l + h) by (nonlinear_arith)
        requires
            i <= d,
            l >= 0,
    ;
    assert((d * l + h) / d == l) by (nonlinear_arith)
        requires
            0 <= h < d,
            l >= 0,
    ;
    assert((i * l + h) / d <= (d * l + h) / d) by (nonlinear_arith)
        requires
            i * l + h <= d * l + h,
            d > 0,
            i * l + h >= 0,
    ;
    if i + 1 < take {
        assert((i + 1) * l + h == (i * l + h) + l) by (nonlinear_arith);
        assert((i * l + h) / d < ((i * l + h) + l) / d) by (nonlinear_arith)
            requires
                l > d,
                d > 0,
                i * l + h >= 0,
        ;
    }
    if i == 0 {
        assert(0 * l == 0) by (nonlinear_arith);
        assert(h / d == 0) by (nonlinear_arith)
            requires
                0 <= h < d,
        ;
    }
}

/// Evenly spaced picks are strictly increasing positions inside the input;
/// there are `min(take, len)` of them; with at least two picks from a longer
/// input the first and the last item are always picked.
pub proof fn evenly_sampled_positions_are_ordered(len: nat, take: nat)
    ensures
        ({
            let p = evenly_sampled_positions(len, take);
            &&& p.len() == if take < len {
                take
            } else {
                len
            }
            &&& forall|i: int| 0 <= i < p.len() ==> 0 <= #[trigger] p[i] < len
            &&& forall|i: int, j: int| 0 <= i < j < p.len() ==> #[trigger] p[i] < #[trigger] p[j]
            &&& 2 <= take < len ==> p[0] == 0 && p.last() == len - 1
        }),
{
    let p = evenly_sampled_positions(len, take);
    if 2 <= take < len {
        assert forall|i: int| 0 <= i < p.len() implies 0 <= #[trigger] p[i] < len by {
            lemma_even_pick_bounds(len, take, i as nat);
        }
        assert forall|i: int, j: int| 0 <= i < j < p.len() implies #[trigger] p[i] < #[trigger] p[j] by {
            lemma_even_picks_increase(len, take, i as nat, j as nat);
        }
        lemma_even_pick_bounds(len, take, 0);
        lemma_even_pick_bounds(len, take, (take - 1) as nat);
    } else if take == 1 && len > 1 {
        assert(len / 2 < len) by (nonlinear_arith)
            requires
                len > 1,
        ;
    }
}

proof fn lemma_even_picks_increase(len: nat, take: nat, i: nat, j: nat)
    requires
        2 <= take < len,
        i < j < take,
    ensures
        even_pick(len, take, i) < even_pick(len, take, j),
    decreases j - i,
{
    lemma_even_pick_bounds(len, take, (j - 1) as nat);
    if i + 1 < j {
        lemma_even_picks_increase(len, take, i, (j - 1) as nat);
    }
}

/// Appends to `out` at most `take` items of `items`, spread evenly (see
/// `evenly_sampled_positions`).
pub fn extend_evenly_sampled<T: Copy>(items: &[T], take: usize, out: &mut Vec<T>)
    ensures
        final(out)@ == old(out)@ + evenly_sampled_positions(items@.len(), take as nat).map_values(
            |i: int| items@[i],
        ),
{
    let ghost picks = evenly_sampled_positions(items@.len(), take as nat);
    if take == 0 || items.len() == 0 {
        assert(picks.map_values(|i: int| items@[i]) =~= Seq::<T>::empty());
        assert(old(out)@ + Seq::<T>::empty() =~= old(out)@);
        return;
    }
    if take >= items.len() {
        let mut k: usize = 0;
        while k < items.len()
            invariant
                k <= items@.len(),
                picks == Seq::new(items@.len(), |i: int| i),
                out@ =~= old(out)@ + picks.take(k as int).map_values(|i: int| items@[i]),
            decreases items@.len() - k,
        {
            out.push(items[k]);
            proof {
                assert(picks.take(k as int + 1).map_values(|i: int| items@[i]) =~= picks.take(
                    k as int,
                ).map_values(|i: int| items@[i]).push(items@[k as int]));
            }
            k = k + 1;
        }
        assert(picks.take(items@.len() as int) =~= picks);
        return;
    }
    if take == 1 {
        out.push(items[items.len() / 2]);
        assert(picks.map_values(|i: int| items@[i]) =~= seq![items@[(items@.len() / 2) as int]]);
        return;
    }
    let last = items.len() - 1;
    let denom = take - 1;
    let mut k: usize = 0;
    while k < take
        invariant
            2 <= take < items@.len(),
            last == items@.len() - 1,
            denom == take - 1,
            k <= take,
            picks == Seq::new(take as nat, |i: int| even_pick(items@.len(), take as nat, i as nat)),
            out@ =~= old(out)@ + picks.take(k as int).map_values(|i: int| items@[i]),
        decreases take - k,
    {
        proof {
            assert(k * last <= denom * last) by (nonlinear_arith)
                requires
                    k <= denom,
                    last >= 0,
            ;
            lemma_even_pick_bounds(items@.len(), take as nat, k as nat);
        }
        assert((k as int) * (last as int) + (denom as int) / 2 < 0x1_0000_0000_0000_0000_0000_0000_0000_0000)
            by (nonlinear_arith)
            requires
                k <= usize::MAX,
                last <= usize::MAX,
                denom <= usize::MAX,
                usize::MAX < 0x1_0000_0000_0000_0000,
        ;
        let wide: u128 = (k as u128) * (last as u128) + (denom as u128) / 2;
        let idx = (wide / (denom as u128)) as usize;
        assert(idx == even_pick(items@.len(), take as nat, k as nat));
        out.push(items[idx]);
        proof {
            assert(picks.take(k as int + 1).map_values(|i: int| items@[i]) =~= picks.take(
                k as int,
            ).map_values(|i: int| items@[i]).push(items@[idx as int]));
        }
        k = k + 1;
    }
    assert(picks.take(take as int) =~= picks);
}

/// `a / b` rounded toward zero, as Rust's integer division does.
pub open spec fn div_toward_zero(a: int, b: int) -> int {
    if a >= 0 {
        a / b
    } else {
        -((-a) / b)
    }
}

/// Clamps to the `i64` range.
pub open spec fn clamp_i64(x: int) -> int {
    if x > i64::MAX {
        i64::MAX as int
    } else if x < i64::MIN {
        i64::MIN as int
    } else {
        x
    }
}

/// Width in nanoseconds of a thinning bucket of `sample_ms` milliseconds (the
/// millisecond count read as an `i64`, the product saturated, at least 1).
pub open spec fn bucket_width_ns(sample_ms: u64) -> int {
    let w = clamp_i64((sample_ms as i64) * 1_000_000);
    if w < 1 {
        1
    } else {
        w
    }
}

/// Time bucket of an event relative to the first event of the tape.
pub open spec fn replay_bucket(ts_ns: Seq<i64>, i: int, width: int) -> int {
    div_toward_zero(clamp_i64(ts_ns[i] - ts_ns[0]), width)
}

/// Middle events (neither first nor last) that close a run of equal buckets,
/// prefixed by the first event.
pub open spec fn replay_run_ends(ts_ns: Seq<i64>, width: int) -> Seq<int> {
    seq![0int] + Seq::new((ts_ns.len() - 2) as nat, |k: int| k + 1).filter(
        |i: int| i + 1 < ts_ns.len() - 1 && replay_bucket(ts_ns, i, width) != replay_bucket(
            ts_ns,
            i + 1,
            width,
        ),
    )
}

/// Appends position `i` unless the last kept event has the same timestamp.
pub open spec fn push_if_new_ts(kept: Seq<int>, ts_ns: Seq<i64>, i: int) -> Seq<int> {
    if ts_ns[kept.last()] != ts_ns[i] {
        kept.push(i)
    } else {
        kept
    }
}

/// Positions of the events kept when thinning a replay tape to buckets of
/// `sample_ms` milliseconds: the first event, the last event of each bucket
/// run among the middle events, and the last event, where the final two are
/// dropped when they repeat the timestamp of the event kept before them.
/// With `sample_ms == 0` or at most two events every event is kept.
pub open spec fn spec_replay_sample(ts_ns: Seq<i64>, sample_ms: u64) -> Seq<int> {
    if sample_ms == 0 || ts_ns.len() <= 2 {
        Seq::new(ts_ns.len(), |i: int| i)
    } else {
        let width = bucket_width_ns(sample_ms);
        push_if_new_ts(
            push_if_new_ts(replay_run_ends(ts_ns, width), ts_ns, ts_ns.len() - 2),
            ts_ns,
            ts_ns.len() - 1,
        )
    }
}

/// Keeping only the elements that satisfy `pred` keeps them in increasing
/// order and within the bounds of the input.
pub proof fn lemma_filter_increasing(s: Seq<int>, pred: spec_fn(int) -> bool, lo: int, hi: int)
    requires
        forall|i: int, j: int| 0 <= i < j < s.len() ==> #[trigger] s[i] < #[trigger] s[j],
        forall|i: int| 0 <= i < s.len() ==> lo <= #[trigger] s[i] < hi,
    ensures
        forall|i: int, j: int| 0 <= i < j < s.filter(pred).len() ==> #[trigger] s.filter(pred)[i]
            < #[trigger] s.filter(pred)[j],
        forall|i: int| 0 <= i < s.filter(pred).len() ==> lo <= #[trigger] s.filter(pred)[i] < hi,
    decreases s.len(),
{
    reveal(Seq::filter);
    if s.len() > 0 {
        let p = s.drop_last();
        assert forall|i: int, j: int| 0 <= i < j < p.len() implies #[trigger] p[i] < #[trigger] p[j] by {
            assert(p[i] == s[i] && p[j] == s[j]);
        }
        assert forall|i: int| 0 <= i < p.len() implies lo <= #[trigger] p[i] < hi by {
            assert(p[i] == s[i]);
        }
        lemma_filter_increasing(p, pred, lo, hi);
        let f = p.filter(pred);
        assert forall|i: int| 0 <= i < f.len() implies #[trigger] f[i] < s.last() by {
            assert(f.contains(f[i]));
            p.lemma_filter_contains_rev(pred, f[i]);
            let k = choose|k: int| 0 <= k < p.len() && p[k] == f[i];
            assert(s[k] == p[k]);
            assert(s[s.len() - 1] == s.last());
        }
        assert(s[s.len() - 1] == s.last());
    }
}

/// Replay thinning keeps the first event and returns valid event positions
/// in strictly increasing order.
pub proof fn replay_sample_is_ordered(ts_ns: Seq<i64>, sample_ms: u64)
    ensures
        ({
            let r = spec_replay_sample(ts_ns, sample_ms);
            &&& ts_ns.len() > 0 ==> r.len() > 0 && r[0] == 0
            &&& forall|i: int| 0 <= i < r.len() ==> 0 <= #[trigger] r[i] < ts_ns.len()
            &&& forall|i: int, j: int| 0 <= i < j < r.len() ==> #[trigger] r[i] < #[trigger] r[j]
        }),
{
    let n = ts_ns.len();
    if sample_ms == 0 || n <= 2 {
    } else {
        let width = bucket_width_ns(sample_ms);
        let middle = Seq::new((n - 2) as nat, |k: int| k + 1);
        let pred = |i: int| i + 1 < n - 1 && replay_bucket(ts_ns, i, width) != replay_bucket(
            ts_ns,
            i + 1,
            width,
        );
        lemma_filter_increasing(middle, pred, 1, n - 1);
        let f = middle.filter(pred);
        let ends = replay_run_ends(ts_ns, width);
        assert(ends == seq![0int] + f);
        assert forall|i: int, j: int| 0 <= i < j < ends.len() implies #[trigger] ends[i] < #[trigger] ends[j] by {
            if i > 0 {
                assert(ends[i] == f[i - 1]);
            }
            assert(ends[j] == f[j - 1]);
        }
        assert forall|i: int| 0 <= i < ends.len() implies 0 <= #[trigger] ends[i] < n - 2 by {
            if i > 0 {
                assert(ends[i] == f[i - 1]);
                middle.lemma_filter_pred(pred, i - 1);
            }
        }
        let once = push_if_new_ts(ends, ts_ns, n - 2);
        assert forall|i: int| 0 <= i < once.len() implies 0 <= #[trigger] once[i] < n - 1 by {
            if i < ends.len() {
                assert(once[i] == ends[i]);
            }
        }
        assert forall|i: int, j: int| 0 <= i < j < once.len() implies #[trigger] once[i] < #[trigger] once[j] by {
            if j < ends.len() {
                assert(once[i] == ends[i] && once[j] == ends[j]);
            } else {
                assert(once[i] == ends[i]);
            }
        }
        let twice = push_if_new_ts(once, ts_ns, n - 1);
        assert forall|i: int, j: int| 0 <= i < j < twice.len() implies #[trigger] twice[i] < #[trigger] twice[j] by {
            if j < once.len() {
                assert(twice[i] == once[i] && twice[j] == once[j]);
            } else {
                assert(twice[i] == once[i]);
            }
        }
        assert forall|i: int| 0 <= i < twice.len() implies 0 <= #[trigger] twice[i] < n by {
            if i < once.len() {
                assert(twice[i] == once[i]);
            }
        }
        assert(twice[0] == 0) by {
            assert(ends[0] == 0);
            assert(once[0] == 0);
        }
    }
}

fn bucket_width(sample_ms: u64) -> (r: i128)
    ensures
        r == bucket_width_ns(sample_ms),
        r >= 1,
{
    let ms = sample_ms as i64;
    let prod: i128 = ms as i128 * 1_000_000;
    let w: i128 = if prod > i64::MAX as i128 {
        i64::MAX as i128
    } else if prod < i64::MIN as i128 {
        i64::MIN as i128
    } else {
        prod
    };
    if w < 1 {
        1
    } else {
        w
    }
}

fn bucket_of(ts: &[i64], i: usize, width: i128) -> (r: i128)
    requires
        0 < i < ts@.len(),
        width >= 1,
    ensures
        r == replay_bucket(ts@, i as int, width as int),
{
    let raw: i128 = ts[i] as i128 - ts[0] as i128;
    let diff: i128 = if raw > i64::MAX as i128 {
        i64::MAX as i128
    } else if raw < i64::MIN as i128 {
        i64::MIN as i128
    } else {
        raw
    };
    if diff >= 0 {
        diff / width
    } else {
        -((-diff) / width)
    }
}

/// Positions of the events kept by replay thinning (see `spec_replay_sample`).
pub fn sample_replay_positions(ts_ns: &[i64], sample_ms: u64) -> (r: Vec<usize>)
    ensures
        r@.map_values(|p: usize| p as int) == spec_replay_sample(ts_ns@, sample_ms),
{
    let n = ts_ns.len();
    let mut out: Vec<usize> = Vec::new();
    if sample_ms == 0 || n <= 2 {
        let mut k: usize = 0;
        while k < n
            invariant
                k <= n,
                n == ts_ns@.len(),
                out@.map_values(|p: usize| p as int) =~= Seq::new(k as nat, |i: int| i),
            decreases n - k,
        {
            let ghost before = out@;
            out.push(k);
            proof {
                assert(out@.map_values(|p: usize| p as int) =~= before.map_values(|p: usize| p as int).push(
                    k as int,
                ));
            }
            k = k + 1;
        }
        return out;
    }
    let width = bucket_width(sample_ms);
    let ghost mids = Seq::new((n - 2) as nat, |k: int| k + 1);
    let ghost closes = |i: int|
        i + 1 < ts_ns@.len() - 1 && replay_bucket(ts_ns@, i, width as int) != replay_bucket(
            ts_ns@,
            i + 1,
            width as int,
        );
    out.push(0);
    proof {
        reveal(Seq::filter);
        assert(mids.take(0) =~= Seq::<int>::empty());
        assert(out@.map_values(|p: usize| p as int) =~= seq![0int] + mids.take(0).filter(closes));
    }
    // Event `i` (1 <= i < n - 1) is pushed when the bucket changes at `i + 1`.
    let mut i: usize = 1;
    while i < n - 1
        invariant
            n == ts_ns@.len(),
            n > 2,
            width >= 1,
            width == bucket_width_ns(sample_ms),
            1 <= i <= n - 1,
            mids == Seq::new((n - 2) as nat, |k: int| k + 1),
            closes == (|i: int|
                i + 1 < ts_ns@.len() - 1 && replay_bucket(ts_ns@, i, width as int)
                    != replay_bucket(ts_ns@, i + 1, width as int)),
            out@.len() >= 1,
            forall|j: int| 0 <= j < out@.len() ==> #[trigger] out@[j] < n,
            out@.map_values(|p: usize| p as int) =~= seq![0int] + mids.take(i - 1).filter(closes),
        decreases n - 1 - i,
    {
        let ends_run = if i + 1 < n - 1 {
            bucket_of(ts_ns, i, width) != bucket_of(ts_ns, i + 1, width)
        } else {
            false
        };
        proof {
            assert(mids[i - 1] == i);
            assert(mids.take(i as int) =~= mids.take(i - 1).push(i as int));
            mids.take(i - 1).lemma_filter_push(i as int, closes);
            assert(closes(i as int) == ends_run);
        }
        let ghost before = out@;
        if ends_run {
            out.push(i);
            proof {
                assert(out@.map_values(|p: usize| p as int) =~= before.map_values(|p: usize| p as int).push(
                    i as int,
                ));
            }
        }
        i = i + 1;
    }
    proof {
        assert(mids.take(n - 2) =~= mids);
    }
    let ghost run_ends = replay_run_ends(ts_ns@, width as int);
    assert(out@.map_values(|p: usize| p as int) =~= run_ends);
    let prev = out[out.len() - 1];
    let pending = n - 2;
    let ghost before = out@;
    if ts_ns[prev] != ts_ns[pending] {
        out.push(pending);
        proof {
            assert(out@.map_values(|p: usize| p as int) =~= before.map_values(|p: usize| p as int).push(
                pending as int,
            ));
        }
    }
    let ghost after_pending = push_if_new_ts(run_ends, ts_ns@, n - 2);
    assert(out@.map_values(|p: usize| p as int) =~= after_pending);
    let prev = out[out.len() - 1];
    let ghost before = out@;
    if ts_ns[prev] != ts_ns[n - 1] {
        out.push(n - 1);
        proof {
            assert(out@.map_values(|p: usize| p as int) =~= before.map_values(|p: usize| p as int).push(
                (n - 1) as int,
            ));
        }
    }
    assert(out@.map_values(|p: usize| p as int) =~= push_if_new_ts(after_pending, ts_ns@, n - 1));
    out
}

} // verus!
