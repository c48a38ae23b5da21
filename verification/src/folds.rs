//! Walk-forward fold planning: chronological test windows over a sorted
//! market list, each trained on the markets before it (minus a purge gap).
use vstd::prelude::*;
use crate::text::{decimal_chars, decimal_text, push_chars};

verus! {

broadcast use vstd::seq_lib::group_seq_properties;

/// The integer part of the walk-forward configuration that shapes folds.
#[derive(Debug, Clone, Copy)]
pub struct FoldSettings {
    /// Split markets into this many chronological forward-chaining folds.
    pub walk_forward_folds: Option<usize>,
    /// Split markets into explicit fold windows of this size.
    pub fold_size: Option<usize>,
    /// Markets left out between each training range and its test window.
    pub purge_markets: usize,
    /// A test window is kept only when at least this many markets precede its
    /// training cut-off.
    pub min_train_markets: usize,
}

/// Why no fold plan could be built.
#[derive(Debug, Clone, Copy, PartialEq, Eq)]
pub enum FoldPlanError {
    /// Both `walk_forward_folds` and `fold_size` were set.
    BothFoldModes,
    /// `walk_forward_folds` was zero.
    ZeroFolds,
    /// More folds than markets were requested.
    TooManyFolds { folds: usize, total: usize },
    /// `fold_size` was zero.
    ZeroFoldSize,
    /// Every window was dropped by `min_train_markets`.
    NoFoldSatisfiesMinTrain { min_train_markets: usize, total: usize },
}

/// One fold: `(train_end_exclusive, test_start, test_end)`.
pub type FoldWindow = (usize, usize, usize);

/// `a - b`, floored at zero.
pub open spec fn sat_sub(a: int, b: int) -> int {
    if a >= b {
        a - b
    } else {
        0
    }
}

/// Start of the `k`-th of `folds` near-equal consecutive windows over
/// `total` markets: the first `total % folds` windows hold one extra market.
pub open spec fn even_window_start(total: nat, folds: nat, k: nat) -> nat {
    k * (total / folds) + if k < total % folds {
        k
    } else {
        total % folds
    }
}

/// The window spanning `[start, end)` trained on everything before
/// `start - purge`.
pub open spec fn window(start: int, end: int, purge: int) -> FoldWindow {
    (sat_sub(start, purge) as usize, start as usize, end as usize)
}

pub open spec fn even_candidates(total: nat, folds: nat, purge: nat) -> Seq<FoldWindow> {
    Seq::new(
        folds,
        |k: int|
            window(
                even_window_start(total, folds, k as nat) as int,
                even_window_start(total, folds, (k + 1) as nat) as int,
                purge as int,
            ),
    )
}

/// Number of `size`-market windows needed to cover `total` markets.
pub open spec fn sized_window_count(total: nat, size: nat) -> nat {
    ((total + size - 1) / size as int) as nat
}

pub open spec fn sized_candidates(total: nat, size: nat, purge: nat) -> Seq<FoldWindow> {
    Seq::new(
        sized_window_count(total, size),
        |k: int|
            window(
                k * size,
                if (k + 1) * size < total {
                    (k + 1) * size
                } else {
                    total as int
                },
                purge as int,
            ),
    )
}

/// Windows whose training cut-off reaches `min_train`.
pub open spec fn keep_trainable(candidates: Seq<FoldWindow>, min_train: nat) -> Seq<FoldWindow> {
    candidates.filter(trainable(min_train))
}

/// Whether a window's training cut-off reaches `min_train`.
pub open spec fn trainable(min_train: nat) -> spec_fn(FoldWindow) -> bool {
    |w: FoldWindow| w.0 >= min_train
}

pub open spec fn nonempty_or_min_train_error(
    plan: Seq<FoldWindow>,
    settings: FoldSettings,
    total: usize,
) -> Result<Seq<FoldWindow>, FoldPlanError> {
    if plan.len() == 0 {
        Err(
            FoldPlanError::NoFoldSatisfiesMinTrain {
                min_train_markets: settings.min_train_markets,
                total,
            },
        )
    } else {
        Ok(plan)
    }
}

/// The fold plan the walk-forward harness evaluates.
pub open spec fn spec_fold_plan(total: usize, settings: FoldSettings) -> Result<Seq<FoldWindow>, FoldPlanError> {
    if settings.walk_forward_folds is Some && settings.fold_size is Some {
        Err(FoldPlanError::BothFoldModes)
    } else if total == 0 {
        Ok(seq![(0usize, 0usize, 0usize)])
    } else if let Some(folds) = settings.walk_forward_folds {
        if folds == 0 {
            Err(FoldPlanError::ZeroFolds)
        } else if folds > total {
            Err(FoldPlanError::TooManyFolds { folds, total })
        } else {
            nonempty_or_min_train_error(
                keep_trainable(
                    even_candidates(total as nat, folds as nat, settings.purge_markets as nat),
                    settings.min_train_markets as nat,
                ),
                settings,
                total,
            )
        }
    } else if let Some(size) = settings.fold_size {
        if size == 0 {
            Err(FoldPlanError::ZeroFoldSize)
        } else {
            nonempty_or_min_train_error(
                keep_trainable(
                    sized_candidates(total as nat, size as nat, settings.purge_markets as nat),
                    settings.min_train_markets as nat,
                ),
                settings,
                total,
            )
        }
    } else {
        Ok(seq![(0usize, 0usize, total)])
    }
}

/// In fold-size mode (no fold count set), stepping `size` at a time from a
/// window start below `total` never exceeds the machine word.
pub open spec fn sized_steps_fit(total: usize, settings: FoldSettings) -> bool {
    match settings.fold_size {
        Some(size) => settings.walk_forward_folds is Some || size == 0 || total == 0 || ((total
            - 1) / (size as int)) * size + size <= usize::MAX,
        None => true,
    }
}

proof fn lemma_even_start_step(total: nat, folds: nat, k: nat)
    requires
        0 < folds <= total,
        k < folds,
    ensures
        even_window_start(total, folds, k + 1) == even_window_start(total, folds, k) + (total
            / folds) + (if k < total % folds {
            1int
        } else {
            0
        }),
        even_window_start(total, folds, k) < even_window_start(total, folds, k + 1),
        even_window_start(total, folds, k + 1) <= total,
        even_window_start(total, folds, 0) == 0,
{
    let b = total / folds;
    let r = total % folds;
    assert((k + 1) * b == k * b + b) by (nonlinear_arith);
    assert(b >= 1) by (nonlinear_arith)
        requires
            0 < folds <= total,
            b == total / folds,
    ;
    assert(folds * b + r == total) by (nonlinear_arith)
        requires
            b == total / folds,
            r == total % folds,
            folds > 0,
    ;
    assert((k + 1) * b <= folds * b) by (nonlinear_arith)
        requires
            k + 1 <= folds,
    ;
    assert(0 * b == 0) by (nonlinear_arith);
}

fn plan_or_error(out: Vec<FoldWindow>, settings: FoldSettings, total: usize) -> (r: Result<
    Vec<FoldWindow>,
    FoldPlanError,
>)
    ensures
        match (r, nonempty_or_min_train_error(out@, settings, total)) {
            (Ok(v), Ok(s)) => v@ == s,
            (Err(e), Err(f)) => e == f,
            _ => false,
        },
{
    if out.len() == 0 {
        Err(
            FoldPlanError::NoFoldSatisfiesMinTrain {
                min_train_markets: settings.min_train_markets,
                total,
            },
        )
    } else {
        Ok(out)
    }
}

/// Splits `total` chronologically sorted markets into test windows, each
/// paired with the end (exclusive) of its training range.
pub fn build_fold_plan(total: usize, settings: FoldSettings) -> (r: Result<
    Vec<FoldWindow>,
    FoldPlanError,
>)
    requires
        sized_steps_fit(total, settings),
    ensures
        match (r, spec_fold_plan(total, settings)) {
            (Ok(v), Ok(s)) => v@ == s,
            (Err(e), Err(f)) => e == f,
            _ => false,
        },
{
    if settings.walk_forward_folds.is_some() && settings.fold_size.is_some() {
        return Err(FoldPlanError::BothFoldModes);
    }
    if total == 0 {
        let mut v: Vec<FoldWindow> = Vec::new();
        v.push((0, 0, 0));
        assert(v@ =~= seq![(0usize, 0usize, 0usize)]);
        return Ok(v);
    }
    let purge = settings.purge_markets;
    let min_train = settings.min_train_markets;
    if let Some(folds) = settings.walk_forward_folds {
        if folds == 0 {
            return Err(FoldPlanError::ZeroFolds);
        }
        if folds > total {
            return Err(FoldPlanError::TooManyFolds { folds, total });
        }
        let base = total / folds;
        let remainder = total % folds;
        let ghost cands = even_candidates(total as nat, folds as nat, purge as nat);
        let ghost keep = trainable(min_train as nat);
        let mut test_start: usize = 0;
        let mut out: Vec<FoldWindow> = Vec::new();
        let mut fold_idx: usize = 0;
        proof {
            lemma_even_start_step(total as nat, folds as nat, 0);
            assert(cands.take(0) =~= Seq::<FoldWindow>::empty());
            reveal(Seq::filter);
        }
        while fold_idx < folds
            invariant
                0 < folds <= total,
                base == total / folds,
                remainder == total % folds,
                fold_idx <= folds,
                test_start == even_window_start(total as nat, folds as nat, fold_idx as nat),
                test_start <= total,
                cands == even_candidates(total as nat, folds as nat, purge as nat),
                keep == trainable(min_train as nat),
                out@ == cands.take(fold_idx as int).filter(keep),
            decreases folds - fold_idx,
        {
            proof {
                lemma_even_start_step(total as nat, folds as nat, fold_idx as nat);
            }
            let size = if fold_idx < remainder { base + 1 } else { base };
            let test_end = test_start + size;
            let train_end_exclusive = if test_start >= purge { test_start - purge } else { 0 };
            let w: FoldWindow = (train_end_exclusive, test_start, test_end);
            proof {
                assert(w == cands[fold_idx as int]);
                assert(cands.take(fold_idx as int + 1) =~= cands.take(fold_idx as int).push(w));
                cands.take(fold_idx as int).lemma_filter_push(w, keep);
            }
            if train_end_exclusive >= min_train {
                out.push(w);
            }
            test_start = test_end;
            fold_idx = fold_idx + 1;
        }
        proof {
            assert(cands.take(folds as int) =~= cands);
        }
        plan_or_error(out, settings, total)
    } else if let Some(fold_size) = settings.fold_size {
        if fold_size == 0 {
            return Err(FoldPlanError::ZeroFoldSize);
        }
        let ghost n = sized_window_count(total as nat, fold_size as nat);
        let ghost cands = sized_candidates(total as nat, fold_size as nat, purge as nat);
        let ghost keep = trainable(min_train as nat);
        let mut out: Vec<FoldWindow> = Vec::new();
        let mut test_start: usize = 0;
        let ghost mut k: int = 0;
        proof {
            assert(cands.take(0) =~= Seq::<FoldWindow>::empty());
            reveal(Seq::filter);
            assert(n >= 1) by (nonlinear_arith)
                requires
                    n == (total + fold_size - 1) / (fold_size as int),
                    total >= 1,
                    fold_size >= 1,
            ;
        }
        while test_start < total
            invariant
                0 < fold_size,
                0 < total,
                sized_steps_fit(total, settings),
                settings.walk_forward_folds is None,
                settings.fold_size == Some(fold_size),
                n == sized_window_count(total as nat, fold_size as nat),
                0 <= k <= n,
                k < n ==> k * fold_size < total && test_start == k * fold_size,
                k == n ==> test_start == total,
                cands == sized_candidates(total as nat, fold_size as nat, purge as nat),
                keep == trainable(min_train as nat),
                out@ == cands.take(k).filter(keep),
            decreases total - test_start,
        {
            proof {
                assert((total - 1) / (fold_size as int) >= k) by (nonlinear_arith)
                    requires
                        k * fold_size <= total - 1,
                        fold_size > 0,
                ;
                assert(((total - 1) / (fold_size as int)) * fold_size >= k * fold_size)
                    by (nonlinear_arith)
                    requires
                        (total - 1) / (fold_size as int) >= k,
                        fold_size > 0,
                ;
            }
            let test_end = if fold_size < total - test_start { test_start + fold_size } else { total };
            let train_end_exclusive = if test_start >= purge { test_start - purge } else { 0 };
            let w: FoldWindow = (train_end_exclusive, test_start, test_end);
            proof {
                assert((k + 1) * fold_size == k * fold_size + fold_size) by (nonlinear_arith);
                assert(w == cands[k]);
                assert(cands.take(k + 1) =~= cands.take(k).push(w));
                cands.take(k).lemma_filter_push(w, keep);
            }
            if train_end_exclusive >= min_train {
                out.push(w);
            }
            test_start = test_end;
            proof {
                k = k + 1;
                if k * fold_size < total {
                    assert(k < n) by (nonlinear_arith)
                        requires
                            k * fold_size < total,
                            n == (total + fold_size - 1) / (fold_size as int),
                            fold_size > 0,
                    ;
                } else {
                    assert(k == n) by (nonlinear_arith)
                        requires
                            (k - 1) * fold_size < total,
                            k * fold_size >= total,
                            n == (total + fold_size - 1) / (fold_size as int),
                            fold_size > 0,
                    ;
                }
            }
        }
        proof {
            assert(cands.take(n as int) =~= cands);
        }
        plan_or_error(out, settings, total)
    } else {
        let mut v: Vec<FoldWindow> = Vec::new();
        v.push((0, 0, total));
        assert(v@ =~= seq![(0usize, 0usize, total)]);
        Ok(v)
    }
}

/// Filtering by a predicate that, once it holds, keeps holding along the
/// sequence keeps exactly a suffix.
proof fn lemma_filter_upward_closed<A>(s: Seq<A>, p: spec_fn(A) -> bool) -> (j: int)
    requires
        forall|i: int, k: int| 0 <= i <= k < s.len() && #[trigger] p(s[i]) ==> #[trigger] p(s[k]),
    ensures
        0 <= j <= s.len(),
        s.filter(p) == s.subrange(j, s.len() as int),
        forall|i: int| 0 <= i < j ==> !p(#[trigger] s[i]),
        forall|i: int| j <= i < s.len() ==> p(#[trigger] s[i]),
    decreases s.len(),
{
    reveal(Seq::filter);
    if s.len() == 0 {
        assert(s.subrange(0, 0) =~= s);
        0
    } else {
        let prefix = s.drop_last();
        assert forall|i: int, k: int|
            0 <= i <= k < prefix.len() && #[trigger] p(prefix[i]) implies #[trigger] p(prefix[k]) by {
            assert(prefix[i] == s[i]);
            assert(prefix[k] == s[k]);
        }
        let j0 = lemma_filter_upward_closed(prefix, p);
        assert forall|i: int| 0 <= i < prefix.len() implies #[trigger] s[i] == prefix[i] by {}
        if p(s.last()) {
            assert(s.filter(p) =~= s.subrange(j0, s.len() as int));
            assert forall|i: int| 0 <= i < j0 implies !p(#[trigger] s[i]) by {
                assert(s[i] == prefix[i]);
            }
            assert forall|i: int| j0 <= i < s.len() implies p(#[trigger] s[i]) by {
                if i < prefix.len() {
                    assert(s[i] == prefix[i]);
                }
            }
            j0
        } else {
            assert forall|i: int| 0 <= i < s.len() implies !p(#[trigger] s[i]) by {
                if p(s[i]) {
                    assert(p(s[s.len() - 1]));
                }
            }
            assert(j0 == prefix.len()) by {
                if j0 < prefix.len() {
                    assert(p(prefix[j0]));
                }
            }
            assert(s.filter(p) =~= s.subrange(s.len() as int, s.len() as int));
            s.len() as int
        }
    }
}

/// Shape shared by both fold modes: windows `[start, end)` that tile
/// `[0, total)` in order, each trained up to `start - purge`.
pub open spec fn tiles_markets(c: Seq<FoldWindow>, total: nat, purge: nat) -> bool {
    &&& c.len() > 0
    &&& c[0].1 == 0
    &&& c.last().2 == total
    &&& forall|i: int| 0 <= i < c.len() ==> #[trigger] c[i].1 < c[i].2
    &&& forall|i: int| 0 <= i < c.len() ==> #[trigger] c[i].0 == sat_sub(c[i].1 as int, purge as int)
    &&& forall|i: int| 0 <= i < c.len() - 1 ==> #[trigger] c[i].2 == c[i + 1].1
}

proof fn lemma_even_candidates_tile(total: nat, folds: nat, purge: nat)
    requires
        0 < folds <= total,
        total <= usize::MAX,
    ensures
        tiles_markets(even_candidates(total, folds, purge), total, purge),
{
    let c = even_candidates(total, folds, purge);
    assert forall|k: int| 0 <= k < folds implies #[trigger] even_window_start(total, folds, k as nat)
        < even_window_start(total, folds, (k + 1) as nat) && even_window_start(
        total,
        folds,
        (k + 1) as nat,
    ) <= total by {
        lemma_even_start_step(total, folds, k as nat);
    }
    lemma_even_start_step(total, folds, 0);
    let b = total / folds;
    let r = total % folds;
    assert(folds * b + r == total) by (nonlinear_arith)
        requires
            b == total / folds,
            r == total % folds,
            folds > 0,
    ;
    assert(even_window_start(total, folds, folds) == total);
}

proof fn lemma_sized_candidates_tile(total: nat, size: nat, purge: nat)
    requires
        0 < size,
        0 < total <= usize::MAX,
    ensures
        tiles_markets(sized_candidates(total, size, purge), total, purge),
{
    let c = sized_candidates(total, size, purge);
    let n = sized_window_count(total, size);
    assert(n >= 1 && (n - 1) * size < total && n * size >= total) by (nonlinear_arith)
        requires
            n == (total + size - 1) / (size as int),
            total >= 1,
            size >= 1,
    ;
    assert forall|k: int| 0 <= k < n implies #[trigger] c[k].1 == k * size && k * size < total
        && c[k].1 < c[k].2 && (k + 1 < n ==> c[k].2 == (k + 1) * size) by {
        assert((k + 1) * size == k * size + size) by (nonlinear_arith);
        assert(k * size <= (n - 1) * size) by (nonlinear_arith)
            requires
                k <= n - 1,
                size >= 0,
        ;
        if k + 1 < n {
            assert((k + 1) * size <= (n - 1) * size) by (nonlinear_arith)
                requires
                    k + 1 <= n - 1,
                    size >= 0,
            ;
        }
    }
    assert forall|i: int| 0 <= i < c.len() - 1 implies #[trigger] c[i].2 == c[i + 1].1 by {
        assert(c[i + 1].1 == (i + 1) * size);
    }
    assert(0 * size == 0) by (nonlinear_arith);
}

/// What keeping the trainable windows of a tiling leaves.
pub open spec fn kept_tail_shape(plan: Seq<FoldWindow>, total: nat, purge: nat, min_train: nat) -> bool {
    &&& plan.last().2 == total
    &&& forall|i: int|
        0 <= i < plan.len() ==> #[trigger] plan[i].1 < plan[i].2 && plan[i].0 >= min_train
            && plan[i].0 == sat_sub(plan[i].1 as int, purge as int)
    &&& forall|i: int| 0 <= i < plan.len() - 1 ==> #[trigger] plan[i].2 == plan[i + 1].1
    &&& min_train == 0 ==> plan[0].1 == 0
}

proof fn lemma_kept_windows(c: Seq<FoldWindow>, total: nat, purge: nat, min_train: nat)
    requires
        tiles_markets(c, total, purge),
        keep_trainable(c, min_train).len() > 0,
    ensures
        kept_tail_shape(keep_trainable(c, min_train), total, purge, min_train),
{
    let keep = trainable(min_train);
    assert forall|i: int, k: int| 0 <= i <= k < c.len() && #[trigger] keep(c[i]) implies #[trigger] keep(
        c[k],
    ) by {
        assert forall|m: int| i <= m < k implies #[trigger] c[m].1 < c[m + 1].1 by {
            assert(c[m].2 == c[m + 1].1);
        }
        lemma_starts_increase(c, i, k);
    }
    let j = lemma_filter_upward_closed(c, keep);
    let plan = c.subrange(j, c.len() as int);
    assert(plan.last() == c.last());
    assert forall|i: int| 0 <= i < plan.len() - 1 implies #[trigger] plan[i].2 == plan[i + 1].1 by {
        assert(plan[i] == c[j + i]);
        assert(plan[i + 1] == c[j + i + 1]);
    }
    assert forall|i: int| 0 <= i < plan.len() implies #[trigger] plan[i].1 < plan[i].2 && plan[i].0
        >= min_train && plan[i].0 == sat_sub(plan[i].1 as int, purge as int) by {
        assert(plan[i] == c[j + i]);
        assert(keep(c[j + i]));
    }
    if min_train == 0 {
        assert(keep(c[0]));
    }
}

/// A successful fold plan over a non-empty market list is a run of
/// consecutive, non-empty test windows that ends with the last market;
/// every window trains on the markets before `test_start - purge_markets`,
/// at least `min_train_markets` of them in either fold mode; with no training
/// minimum the first window starts at the first market, so every market is
/// tested exactly once.
pub proof fn fold_plan_tiles_the_tail(total: usize, settings: FoldSettings)
    requires
        total > 0,
        spec_fold_plan(total, settings) is Ok,
    ensures
        spec_fold_plan(total, settings)->Ok_0.len() > 0,
        kept_tail_shape(
            spec_fold_plan(total, settings)->Ok_0,
            total as nat,
            settings.purge_markets as nat,
            if settings.walk_forward_folds is None && settings.fold_size is None {
                0
            } else {
                settings.min_train_markets as nat
            },
        ),
{
    let purge = settings.purge_markets as nat;
    let min_train = settings.min_train_markets as nat;
    if let Some(folds) = settings.walk_forward_folds {
        lemma_even_candidates_tile(total as nat, folds as nat, purge);
        lemma_kept_windows(even_candidates(total as nat, folds as nat, purge), total as nat, purge, min_train);
    } else if let Some(size) = settings.fold_size {
        lemma_sized_candidates_tile(total as nat, size as nat, purge);
        lemma_kept_windows(sized_candidates(total as nat, size as nat, purge), total as nat, purge, min_train);
    } else {
        let plan = spec_fold_plan(total, settings)->Ok_0;
        assert(plan =~= seq![(0usize, 0usize, total)]);
    }
}

proof fn lemma_starts_increase(c: Seq<FoldWindow>, i: int, k: int)
    requires
        0 <= i <= k < c.len(),
        forall|m: int| i <= m < k ==> #[trigger] c[m].1 < c[m + 1].1,
    ensures
        c[i].1 <= c[k].1,
        c[i].1 as int - c[k].1 as int <= 0,
    decreases k - i,
{
    if i < k {
        lemma_starts_increase(c, i, k - 1);
    }
}

impl FoldPlanError {
    /// The error as a sentence.
    pub fn message(&self) -> (r: String)
        ensures
            r@ == match *self {
                FoldPlanError::BothFoldModes => "cannot set both --walk-forward-folds and --fold-size"@,
                FoldPlanError::ZeroFolds => "walk-forward-folds must be >= 1"@,
                FoldPlanError::TooManyFolds { folds, total } => "walk-forward-folds ("@
                    + decimal_text(folds as nat) + ") cannot exceed number of markets ("@
                    + decimal_text(total as nat) + ")"@,
                FoldPlanError::ZeroFoldSize => "fold-size must be >= 1"@,
                FoldPlanError::NoFoldSatisfiesMinTrain { min_train_markets, total } =>
                    "no walk-forward folds satisfy min_train_markets="@ + decimal_text(
                    min_train_markets as nat,
                ) + " with total markets="@ + decimal_text(total as nat),
            },
    {
        match *self {
            FoldPlanError::BothFoldModes => String::from_str(
                "cannot set both --walk-forward-folds and --fold-size",
            ),
            FoldPlanError::ZeroFolds => String::from_str("walk-forward-folds must be >= 1"),
            FoldPlanError::TooManyFolds { folds, total } => {
                let mut out = String::from_str("walk-forward-folds (");
                push_chars(&mut out, decimal_chars(folds as u64).as_slice());
                out.append(") cannot exceed number of markets (");
                push_chars(&mut out, decimal_chars(total as u64).as_slice());
                out.append(")");
                out
            },
            FoldPlanError::ZeroFoldSize => String::from_str("fold-size must be >= 1"),
            FoldPlanError::NoFoldSatisfiesMinTrain { min_train_markets, total } => {
                let mut out = String::from_str("no walk-forward folds satisfy min_train_markets=");
                push_chars(&mut out, decimal_chars(min_train_markets as u64).as_slice());
                out.append(" with total markets=");
                push_chars(&mut out, decimal_chars(total as u64).as_slice());
                out
            },
        }
    }
}

impl Default for FoldSettings {
    /// No fold mode, no purge gap, no minimum training size.
    fn default() -> (r: Self)
        ensures
            r.walk_forward_folds is None,
            r.fold_size is None,
            r.purge_markets == 0,
            r.min_train_markets == 0,
    {
        FoldSettings { walk_forward_folds: None, fold_size: None, purge_markets: 0, min_train_markets: 0 }
    }
}

/// Settings with both a fold count and a fold size are refused with
/// `BothFoldModes`, whatever the number of markets; `build_fold_plan` accepts
/// every such input.
pub proof fn both_fold_modes_are_refused(total: usize, settings: FoldSettings)
    requires
        settings.walk_forward_folds is Some,
        settings.fold_size is Some,
    ensures
        sized_steps_fit(total, settings),
        spec_fold_plan(total, settings) == Err::<Seq<FoldWindow>, FoldPlanError>(
            FoldPlanError::BothFoldModes,
        ),
{
}

/// Why a portfolio-mode run was refused.
#[derive(Debug, Clone, Copy, PartialEq, Eq)]
pub enum PortfolioConfigError {
    /// Fold settings were given; portfolio mode evaluates one chronological run.
    FoldsInPortfolioMode,
    /// The training prefix would take every market.
    NoMarketsLeft { min_train_markets: usize },
}

impl PortfolioConfigError {
    /// The error as a sentence.
    pub fn message(&self) -> (r: String)
        ensures
            r@ == match *self {
                PortfolioConfigError::FoldsInPortfolioMode =>
                    "walk-forward fold configuration is not supported in portfolio mode"@,
                PortfolioConfigError::NoMarketsLeft { min_train_markets } => "min_train_markets="@
                    + decimal_text(min_train_markets as nat)
                    + " leaves no markets for portfolio evaluation"@,
            },
    {
        match *self {
            PortfolioConfigError::FoldsInPortfolioMode => String::from_str(
                "walk-forward fold configuration is not supported in portfolio mode",
            ),
            PortfolioConfigError::NoMarketsLeft { min_train_markets } => {
                let mut out = String::from_str("min_train_markets=");
                push_chars(&mut out, decimal_chars(min_train_markets as u64).as_slice());
                out.append(" leaves no markets for portfolio evaluation");
                out
            },
        }
    }
}

/// The refusals of a portfolio-mode run over `markets` markets: fold
/// settings are refused first, then a training prefix (`min_train_markets`
/// above zero) that leaves no market to evaluate. Runs that are not in
/// portfolio mode are not refused here.
pub open spec fn spec_portfolio_check(portfolio_mode: bool, settings: FoldSettings, markets: usize) -> Result<(), PortfolioConfigError> {
    if !portfolio_mode {
        Ok(())
    } else if settings.walk_forward_folds is Some || settings.fold_size is Some {
        Err(PortfolioConfigError::FoldsInPortfolioMode)
    } else if settings.min_train_markets > 0 && settings.min_train_markets >= markets {
        Err(PortfolioConfigError::NoMarketsLeft { min_train_markets: settings.min_train_markets })
    } else {
        Ok(())
    }
}

/// Checks a portfolio-mode configuration (see `spec_portfolio_check`).
pub fn check_portfolio_config(portfolio_mode: bool, settings: FoldSettings, markets: usize) -> (r: Result<(), PortfolioConfigError>)
    ensures
        r == spec_portfolio_check(portfolio_mode, settings, markets),
{
    if !portfolio_mode {
        return Ok(());
    }
    if settings.walk_forward_folds.is_some() || settings.fold_size.is_some() {
        return Err(PortfolioConfigError::FoldsInPortfolioMode);
    }
    if settings.min_train_markets > 0 && settings.min_train_markets >= markets {
        return Err(PortfolioConfigError::NoMarketsLeft { min_train_markets: settings.min_train_markets });
    }
    Ok(())
}

} // verus!
