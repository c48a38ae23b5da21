use polymarket_backtest::balance::{
    group_positions_by_market, market_balanced_positions, split_positions_by_market,
};
use polymarket_backtest::calendar::previous_date;
use polymarket_backtest::folds::{
    build_fold_plan, check_portfolio_config, FoldPlanError, FoldSettings, PortfolioConfigError,
};
use polymarket_backtest::sampling::{extend_evenly_sampled, sample_replay_positions};

#[test]
fn fold_plan_with_fold_size() {
    let cfg = FoldSettings { fold_size: Some(3), ..FoldSettings::default() };
    let plan = build_fold_plan(10, cfg).expect("plan");
    assert_eq!(plan, vec![(0, 0, 3), (3, 3, 6), (6, 6, 9), (9, 9, 10)]);
}

#[test]
fn fold_plan_skips_until_min_train_markets() {
    let cfg = FoldSettings { fold_size: Some(3), min_train_markets: 6, ..FoldSettings::default() };
    let plan = build_fold_plan(10, cfg).expect("plan");
    assert_eq!(plan, vec![(6, 6, 9), (9, 9, 10)]);
}

#[test]
fn fold_plan_errors_when_min_train_markets_impossible() {
    let cfg = FoldSettings { fold_size: Some(3), min_train_markets: 12, ..FoldSettings::default() };
    let err = build_fold_plan(10, cfg).expect_err("should reject impossible min train");
    assert!(err.message().contains("no walk-forward folds satisfy"), "{}", err.message());
}

#[test]
fn fold_plan_with_folds_and_purge() {
    let cfg = FoldSettings { walk_forward_folds: Some(2), purge_markets: 2, ..FoldSettings::default() };
    let plan = build_fold_plan(10, cfg).expect("plan");
    assert_eq!(plan, vec![(0, 0, 5), (3, 5, 10)]);
}

#[test]
fn no_fold_config_uses_single_window() {
    let cfg = FoldSettings::default();
    let plan = build_fold_plan(7, cfg).expect("plan");
    assert_eq!(plan, vec![(0, 0, 7)]);
}

#[test]
fn fold_plan_reports_each_configuration_error() {
    let both = FoldSettings { walk_forward_folds: Some(2), fold_size: Some(3), ..FoldSettings::default() };
    assert_eq!(build_fold_plan(10, both), Err(FoldPlanError::BothFoldModes));
    assert_eq!(
        FoldPlanError::BothFoldModes.message(),
        "cannot set both --walk-forward-folds and --fold-size"
    );
    let zero = FoldSettings { walk_forward_folds: Some(0), ..FoldSettings::default() };
    assert_eq!(build_fold_plan(10, zero), Err(FoldPlanError::ZeroFolds));
    let many = FoldSettings { walk_forward_folds: Some(11), ..FoldSettings::default() };
    let err = build_fold_plan(10, many).unwrap_err();
    assert_eq!(err, FoldPlanError::TooManyFolds { folds: 11, total: 10 });
    assert_eq!(
        err.message(),
        "walk-forward-folds (11) cannot exceed number of markets (10)"
    );
    let zero_size = FoldSettings { fold_size: Some(0), ..FoldSettings::default() };
    assert_eq!(build_fold_plan(10, zero_size), Err(FoldPlanError::ZeroFoldSize));
    let none = FoldSettings { fold_size: Some(3), min_train_markets: 12, ..FoldSettings::default() };
    assert_eq!(
        build_fold_plan(10, none).unwrap_err().message(),
        "no walk-forward folds satisfy min_train_markets=12 with total markets=10"
    );
}

#[test]
fn fold_plan_of_no_markets_is_one_empty_window() {
    let cfg = FoldSettings { fold_size: Some(3), ..FoldSettings::default() };
    assert_eq!(build_fold_plan(0, cfg).unwrap(), vec![(0, 0, 0)]);
}

#[test]
fn even_folds_give_earlier_folds_the_remainder() {
    let cfg = FoldSettings { walk_forward_folds: Some(3), ..FoldSettings::default() };
    assert_eq!(build_fold_plan(10, cfg).unwrap(), vec![(0, 0, 4), (4, 4, 7), (7, 7, 10)]);
}

#[test]
fn sample_replay_events_keeps_latest_tick_per_interval() {
    let ts_ms: [i64; 7] = [0, 100, 900, 1100, 1900, 2100, 3000];
    let mids = [0.50f32, 0.51, 0.52, 0.53, 0.54, 0.55, 0.56];
    let ts_ns: Vec<i64> = ts_ms.iter().map(|t| t * 1_000_000).collect();
    let sampled = sample_replay_positions(&ts_ns, 1000);
    let kept: Vec<f32> = sampled.iter().map(|&p| mids[p]).collect();
    assert_eq!(kept, vec![0.50, 0.52, 0.54, 0.55, 0.56]);
}

#[test]
fn replay_sampling_keeps_everything_without_an_interval() {
    let ts_ns = vec![5i64, 6, 7, 8];
    assert_eq!(sample_replay_positions(&ts_ns, 0), vec![0, 1, 2, 3]);
    assert_eq!(sample_replay_positions(&ts_ns[..2], 1000), vec![0, 1]);
}

#[test]
fn replay_sampling_drops_a_repeated_final_timestamp() {
    let ts_ns: Vec<i64> = [0i64, 100, 900, 900].iter().map(|t| t * 1_000_000).collect();
    assert_eq!(sample_replay_positions(&ts_ns, 1000), vec![0, 2]);
}

#[test]
fn market_balanced_meta_samples_caps_each_market_and_total() {
    let mut market_idx = Vec::new();
    for market in 0..5u32 {
        for _ in 0..10 {
            market_idx.push(market);
        }
    }
    let selected = market_balanced_positions(&market_idx, 12, 4);
    assert_eq!(selected.len(), 10);
    let mut distinct = selected.clone();
    distinct.sort();
    distinct.dedup();
    assert_eq!(distinct.len(), selected.len());
    for market in 0..5u32 {
        let count = selected.iter().filter(|&&p| market_idx[p] == market).count();
        assert_eq!(count, 2);
    }
}

#[test]
fn balancing_returns_everything_when_it_fits_uncapped() {
    let market_idx = vec![3u32, 1, 3, 2];
    assert_eq!(market_balanced_positions(&market_idx, 10, 0), vec![0, 1, 2, 3]);
    assert_eq!(market_balanced_positions(&market_idx, 0, 0), Vec::<usize>::new());
    assert_eq!(market_balanced_positions(&[], 5, 1), Vec::<usize>::new());
}

#[test]
fn balancing_thins_the_selection_to_the_total() {
    let market_idx = vec![0u32, 1, 2, 3, 4];
    // more markets than samples allowed: one per market, then thinned evenly
    assert_eq!(market_balanced_positions(&market_idx, 3, 1), vec![0, 2, 4]);
}

#[test]
fn split_meta_samples_by_market_uses_chronological_markets() {
    let mut market_idx = Vec::new();
    for market in 0..4u32 {
        for _ in 0..3 {
            market_idx.push(market);
        }
    }
    let (fit, validation) = split_positions_by_market(&market_idx, 50);
    assert_eq!(fit.len(), 6);
    assert_eq!(validation.len(), 6);
    assert!(fit.iter().all(|&p| market_idx[p] <= 1));
    assert!(validation.iter().all(|&p| market_idx[p] >= 2));
    let mut both: Vec<usize> = fit.iter().chain(validation.iter()).copied().collect();
    both.sort();
    assert_eq!(both, (0..12).collect::<Vec<usize>>());
}

#[test]
fn split_with_one_market_keeps_everything_for_fitting() {
    let market_idx = vec![7u32, 7, 7];
    let (fit, validation) = split_positions_by_market(&market_idx, 80);
    assert_eq!(fit, vec![0, 1, 2]);
    assert!(validation.is_empty());
}

#[test]
fn split_keeps_at_least_one_market_on_each_side() {
    let market_idx = vec![0u32, 1, 2, 3, 4];
    let (fit, validation) = split_positions_by_market(&market_idx, 100);
    assert_eq!(fit, vec![0, 1, 2, 3]);
    assert_eq!(validation, vec![4]);
    let (fit, validation) = split_positions_by_market(&market_idx, 0);
    assert_eq!(fit, vec![0]);
    assert_eq!(validation, vec![1, 2, 3, 4]);
    // 5 * 0.8 = 4 markets fit
    let (fit, _) = split_positions_by_market(&market_idx, 80);
    assert_eq!(fit.len(), 4);
}

#[test]
fn groups_come_in_ascending_market_order() {
    let market_idx = vec![5u32, 2, 5, 9, 2];
    let groups = group_positions_by_market(&market_idx);
    assert_eq!(groups, vec![(2, vec![1, 4]), (5, vec![0, 2]), (9, vec![3])]);
}

#[test]
fn evenly_sampled_picks_first_last_and_spread() {
    let items: Vec<u32> = (0..10).collect();
    let mut out = vec![99u32];
    extend_evenly_sampled(&items, 4, &mut out);
    assert_eq!(out, vec![99, 0, 3, 6, 9]);
    let mut three = Vec::new();
    extend_evenly_sampled(&items, 3, &mut three);
    assert_eq!(three, vec![0, 5, 9]);
    let mut none = vec![1u32];
    extend_evenly_sampled(&items, 0, &mut none);
    extend_evenly_sampled(&items[..0], 4, &mut none);
    assert_eq!(none, vec![1]);
    let mut one = Vec::new();
    extend_evenly_sampled(&items, 1, &mut one);
    assert_eq!(one, vec![5]);
    let mut all = Vec::new();
    extend_evenly_sampled(&items[..3], 7, &mut all);
    assert_eq!(all, vec![0, 1, 2]);
}

#[test]
fn previous_date_handles_month_boundary() {
    assert_eq!(previous_date("2026-03-01").unwrap(), Some("2026-02-28".to_string()));
}

#[test]
fn split_groups_interleaved_samples_by_market() {
    let market_idx = vec![1u32, 0, 1, 2, 0, 3];
    let (fit, validation) = split_positions_by_market(&market_idx, 50);
    assert_eq!(fit, vec![1, 4, 0, 2]);
    assert_eq!(validation, vec![3, 5]);
}

#[test]
fn both_fold_modes_are_refused_for_any_market_count() {
    let cfg = FoldSettings {
        walk_forward_folds: Some(2),
        fold_size: Some(usize::MAX - 1),
        ..FoldSettings::default()
    };
    assert_eq!(build_fold_plan(usize::MAX, cfg), Err(FoldPlanError::BothFoldModes));
}

#[test]
fn portfolio_mode_refuses_folds_and_an_empty_evaluation() {
    let folds = FoldSettings { fold_size: Some(3), ..FoldSettings::default() };
    assert_eq!(check_portfolio_config(false, folds, 10), Ok(()));
    let err = check_portfolio_config(true, folds, 10).unwrap_err();
    assert_eq!(err, PortfolioConfigError::FoldsInPortfolioMode);
    assert_eq!(err.message(), "walk-forward fold configuration is not supported in portfolio mode");
    let train = FoldSettings { min_train_markets: 10, ..FoldSettings::default() };
    let err = check_portfolio_config(true, train, 10).unwrap_err();
    assert_eq!(err.message(), "min_train_markets=10 leaves no markets for portfolio evaluation");
    assert_eq!(check_portfolio_config(true, train, 11), Ok(()));
    assert_eq!(check_portfolio_config(true, FoldSettings::default(), 0), Ok(()));
}
