use polymarket_backtest::catalog::{
    parse_strategies, MarketRunMode, StratId, StrategyListError, VolatilityBand,
};

const ALL: [StratId; 10] = [
    StratId::BuyYesAtOpen,
    StratId::ReactiveDirectional,
    StratId::PairedMm,
    StratId::SpotMomentumFollower,
    StratId::LateBigBet,
    StratId::BonereaperLite,
    StratId::BonereaperV2,
    StratId::DeltaNeutralMm,
    StratId::LateConfirmation,
    StratId::LateConvexTail,
];

#[test]
fn strategy_names() {
    assert_eq!(StratId::BuyYesAtOpen.name(), "buy_yes_at_open");
    assert_eq!(StratId::SpotMomentumFollower.name(), "spot_momentum_follower");
    assert_eq!(StratId::BonereaperV2.name(), "bonereaper_v2");
    assert_eq!(StratId::LateConvexTail.name(), "late_convex_tail");
}

#[test]
fn every_strategy_parses_back_from_its_name() {
    for id in ALL {
        assert_eq!(parse_strategies(id.name()).unwrap(), vec![id]);
    }
}

#[test]
fn strategy_list_is_trimmed_and_ordered() {
    let ids = parse_strategies(" paired_mm,late_big_bet ,\tbonereaper_lite\n,paired_mm").unwrap();
    assert_eq!(
        ids,
        vec![StratId::PairedMm, StratId::LateBigBet, StratId::BonereaperLite, StratId::PairedMm]
    );
}

#[test]
fn unknown_strategy_is_reported_trimmed() {
    let err = parse_strategies("paired_mm, nope ,late_big_bet").unwrap_err();
    assert_eq!(err, StrategyListError::Unknown("nope".to_string()));
    assert_eq!(err.message(), "unknown strategy: nope");
    assert_eq!(
        parse_strategies("").unwrap_err(),
        StrategyListError::Unknown(String::new())
    );
    assert_eq!(
        parse_strategies("paired_mm,").unwrap_err(),
        StrategyListError::Unknown(String::new())
    );
    assert_eq!(StrategyListError::Empty.message(), "no strategies specified");
    assert!(parse_strategies("Paired_MM").is_err());
}

#[test]
fn band_and_mode_labels() {
    assert_eq!(VolatilityBand::Low.as_str(), "low_vol");
    assert_eq!(VolatilityBand::High.as_str(), "high_vol");
    assert_eq!(MarketRunMode::Backtest.as_str(), "backtest");
    assert_eq!(MarketRunMode::Paper.as_str(), "paper");
    assert_eq!(MarketRunMode::Live.as_str(), "live");
}

#[test]
fn joined_names_parse_back_to_the_list() {
    let ids = vec![StratId::LateBigBet, StratId::PairedMm, StratId::LateBigBet, StratId::BonereaperV2];
    let csv: Vec<&str> = ids.iter().map(|id| id.name()).collect();
    assert_eq!(parse_strategies(&csv.join(",")).unwrap(), ids);
    let all: Vec<&str> = ALL.iter().map(|id| id.name()).collect();
    assert_eq!(parse_strategies(&all.join(",")).unwrap(), ALL.to_vec());
}
