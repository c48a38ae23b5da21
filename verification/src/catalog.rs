//! The strategies the harness can run, the volatility bands and run modes
//! results are reported under, and parsing of a comma-separated strategy
//! list.
use vstd::prelude::*;
use crate::text::{
    chars_match, chars_of, concat_text, is_white_space, lemma_split_append_piece,
    lemma_split_without_sep, lemma_trim_untouched,
    split_fields, split_on, text_of, trim_chars, trim_space,
};

verus! {

broadcast use vstd::seq_lib::group_seq_properties;

/// A strategy the harness can run.
#[derive(Debug, Clone, Copy, PartialEq, Eq, Hash, Structural)]
pub enum StratId {
    BuyYesAtOpen,
    ReactiveDirectional,
    PairedMm,
    SpotMomentumFollower,
    LateBigBet,
    BonereaperLite,
    BonereaperV2,
    DeltaNeutralMm,
    LateConfirmation,
    LateConvexTail,
}

/// The name a strategy is selected by and reported under.
pub open spec fn strat_name(id: StratId) -> Seq<char> {
    match id {
        StratId::BuyYesAtOpen => "buy_yes_at_open"@,
        StratId::ReactiveDirectional => "reactive_directional"@,
        StratId::PairedMm => "paired_mm"@,
        StratId::SpotMomentumFollower => "spot_momentum_follower"@,
        StratId::LateBigBet => "late_big_bet"@,
        StratId::BonereaperLite => "bonereaper_lite"@,
        StratId::BonereaperV2 => "bonereaper_v2"@,
        StratId::DeltaNeutralMm => "delta_neutral_mm"@,
        StratId::LateConfirmation => "late_confirmation"@,
        StratId::LateConvexTail => "late_convex_tail"@,
    }
}

impl StratId {
    /// The strategy's name (see `strat_name`).
    pub fn name(self) -> (r: &'static str)
        ensures
            r@ == strat_name(self),
    {
        match self {
            StratId::BuyYesAtOpen => "buy_yes_at_open",
            StratId::ReactiveDirectional => "reactive_directional",
            StratId::PairedMm => "paired_mm",
            StratId::SpotMomentumFollower => "spot_momentum_follower",
            StratId::LateBigBet => "late_big_bet",
            StratId::BonereaperLite => "bonereaper_lite",
            StratId::BonereaperV2 => "bonereaper_v2",
            StratId::DeltaNeutralMm => "delta_neutral_mm",
            StratId::LateConfirmation => "late_confirmation",
            StratId::LateConvexTail => "late_convex_tail",
        }
    }
}

/// Volatility regime a market is reported under.
#[derive(Debug, Clone, Copy, PartialEq, Eq, Hash, Structural)]
pub enum VolatilityBand {
    Low,
    High,
}

/// The label of a volatility band.
pub open spec fn band_label(band: VolatilityBand) -> Seq<char> {
    match band {
        VolatilityBand::Low => "low_vol"@,
        VolatilityBand::High => "high_vol"@,
    }
}

impl VolatilityBand {
    /// The band's label (see `band_label`).
    pub fn as_str(self) -> (r: &'static str)
        ensures
            r@ == band_label(self),
    {
        match self {
            VolatilityBand::Low => "low_vol",
            VolatilityBand::High => "high_vol",
        }
    }
}

/// How a market is run: replayed, paper-traded or traded live.
#[derive(Debug, Clone, Copy, PartialEq, Eq, Structural)]
pub enum MarketRunMode {
    Backtest,
    Paper,
    Live,
}

/// The label of a run mode.
pub open spec fn run_mode_label(mode: MarketRunMode) -> Seq<char> {
    match mode {
        MarketRunMode::Backtest => "backtest"@,
        MarketRunMode::Paper => "paper"@,
        MarketRunMode::Live => "live"@,
    }
}

impl MarketRunMode {
    /// The mode's label (see `run_mode_label`).
    pub fn as_str(self) -> (r: &'static str)
        ensures
            r@ == run_mode_label(self),
    {
        match self {
            MarketRunMode::Backtest => "backtest",
            MarketRunMode::Paper => "paper",
            MarketRunMode::Live => "live",
        }
    }
}

/// The strategy whose name is exactly `token`, if any.
pub open spec fn strat_named(token: Seq<char>) -> Option<StratId> {
    if token == strat_name(StratId::BuyYesAtOpen) {
        Some(StratId::BuyYesAtOpen)
    } else if token == strat_name(StratId::ReactiveDirectional) {
        Some(StratId::ReactiveDirectional)
    } else if token == strat_name(StratId::PairedMm) {
        Some(StratId::PairedMm)
    } else if token == strat_name(StratId::SpotMomentumFollower) {
        Some(StratId::SpotMomentumFollower)
    } else if token == strat_name(StratId::LateBigBet) {
        Some(StratId::LateBigBet)
    } else if token == strat_name(StratId::BonereaperLite) {
        Some(StratId::BonereaperLite)
    } else if token == strat_name(StratId::BonereaperV2) {
        Some(StratId::BonereaperV2)
    } else if token == strat_name(StratId::DeltaNeutralMm) {
        Some(StratId::DeltaNeutralMm)
    } else if token == strat_name(StratId::LateConfirmation) {
        Some(StratId::LateConfirmation)
    } else if token == strat_name(StratId::LateConvexTail) {
        Some(StratId::LateConvexTail)
    } else {
        None
    }
}

/// The strategy named by `token` (see `strat_named`).
pub fn strat_from_token(token: &[char]) -> (r: Option<StratId>)
    ensures
        r == strat_named(token@),
{
    if chars_match(token, StratId::BuyYesAtOpen.name()) {
        Some(StratId::BuyYesAtOpen)
    } else if chars_match(token, StratId::ReactiveDirectional.name()) {
        Some(StratId::ReactiveDirectional)
    } else if chars_match(token, StratId::PairedMm.name()) {
        Some(StratId::PairedMm)
    } else if chars_match(token, StratId::SpotMomentumFollower.name()) {
        Some(StratId::SpotMomentumFollower)
    } else if chars_match(token, StratId::LateBigBet.name()) {
        Some(StratId::LateBigBet)
    } else if chars_match(token, StratId::BonereaperLite.name()) {
        Some(StratId::BonereaperLite)
    } else if chars_match(token, StratId::BonereaperV2.name()) {
        Some(StratId::BonereaperV2)
    } else if chars_match(token, StratId::DeltaNeutralMm.name()) {
        Some(StratId::DeltaNeutralMm)
    } else if chars_match(token, StratId::LateConfirmation.name()) {
        Some(StratId::LateConfirmation)
    } else if chars_match(token, StratId::LateConvexTail.name()) {
        Some(StratId::LateConvexTail)
    } else {
        None
    }
}

/// Why a strategy list was refused.
#[derive(Debug, Clone, PartialEq, Eq)]
pub enum StrategyListError {
    /// A listed name is not a known strategy; it holds the trimmed name.
    Unknown(String),
    /// The list named no strategy.
    Empty,
}

impl StrategyListError {
    /// The error as a sentence.
    pub fn message(&self) -> (r: String)
        ensures
            match self {
                StrategyListError::Unknown(token) => r@ == "unknown strategy: "@ + token@,
                StrategyListError::Empty => r@ == "no strategies specified"@,
            },
    {
        match self {
            StrategyListError::Unknown(token) => concat_text("unknown strategy: ", token.as_str()),
            StrategyListError::Empty => String::from_str("no strategies specified"),
        }
    }
}

/// The trimmed comma-separated tokens of `csv`.
pub open spec fn strategy_tokens(csv: Seq<char>) -> Seq<Seq<char>> {
    split_fields(csv, ',').map_values(|f: Seq<char>| trim_space(f))
}

/// Whether every token names a strategy.
pub open spec fn all_known(tokens: Seq<Seq<char>>) -> bool {
    forall|i: int| 0 <= i < tokens.len() ==> #[trigger] strat_named(tokens[i]) is Some
}

/// Position of the first token that names no strategy.
pub open spec fn first_unknown(tokens: Seq<Seq<char>>) -> int
    decreases tokens.len(),
{
    if tokens.len() == 0 {
        0
    } else if strat_named(tokens[0]) is None {
        0
    } else {
        1 + first_unknown(tokens.drop_first())
    }
}

/// The strategies named by `csv`: its comma-separated entries, each with
/// surrounding white space removed, must all be strategy names; the first
/// entry that is not is reported (an empty list is one empty entry).
pub open spec fn spec_parse_strategies(csv: Seq<char>) -> Result<Seq<StratId>, Seq<char>> {
    let tokens = strategy_tokens(csv);
    if all_known(tokens) {
        Ok(tokens.map_values(|t: Seq<char>| strat_named(t)->0))
    } else {
        Err(tokens[first_unknown(tokens)])
    }
}

proof fn lemma_first_unknown(tokens: Seq<Seq<char>>, k: int)
    requires
        0 <= k < tokens.len(),
        strat_named(tokens[k]) is None,
        forall|i: int| 0 <= i < k ==> #[trigger] strat_named(tokens[i]) is Some,
    ensures
        first_unknown(tokens) == k,
    decreases k,
{
    if k > 0 {
        let rest = tokens.drop_first();
        assert forall|i: int| 0 <= i < k - 1 implies #[trigger] strat_named(rest[i]) is Some by {
            assert(rest[i] == tokens[i + 1]);
        }
        lemma_first_unknown(rest, k - 1);
    }
}

/// Parses a comma-separated strategy list (see `spec_parse_strategies`).
pub fn parse_strategies(csv: &str) -> (r: Result<Vec<StratId>, StrategyListError>)
    ensures
        match (r, spec_parse_strategies(csv@)) {
            (Ok(ids), Ok(spec_ids)) => ids@ == spec_ids && ids@.len() > 0,
            (Err(StrategyListError::Unknown(token)), Err(spec_token)) => token@ == spec_token,
            _ => false,
        },
{
    let chars = chars_of(csv);
    let fields = split_on(chars.as_slice(), ',');
    let ghost tokens = strategy_tokens(csv@);
    let ghost field_views = fields@.map_values(|f: Vec<char>| f@);
    assert(tokens.len() == fields@.len());
    let mut out: Vec<StratId> = Vec::new();
    let mut i: usize = 0;
    while i < fields.len()
        invariant
            i <= fields@.len(),
            field_views == fields@.map_values(|f: Vec<char>| f@),
            field_views == split_fields(csv@, ','),
            tokens == strategy_tokens(csv@),
            tokens.len() == fields@.len(),
            out@ == tokens.take(i as int).map_values(|t: Seq<char>| strat_named(t)->0),
            forall|j: int| 0 <= j < i ==> #[trigger] strat_named(tokens[j]) is Some,
        decreases fields@.len() - i,
    {
        let token = trim_chars(fields[i].as_slice());
        assert(token@ == tokens[i as int]) by {
            assert(field_views[i as int] == fields@[i as int]@);
        }
        match strat_from_token(token.as_slice()) {
            Some(id) => {
                out.push(id);
                assert(tokens.take(i + 1) =~= tokens.take(i as int).push(tokens[i as int]));
            },
            None => {
                proof {
                    lemma_first_unknown(tokens, i as int);
                }
                return Err(StrategyListError::Unknown(text_of(token.as_slice())));
            },
        }
        i = i + 1;
    }
    assert(tokens.take(tokens.len() as int) =~= tokens);
    assert(all_known(tokens));
    proof {
        crate::text::lemma_split_nonempty(csv@, ',');
    }
    if out.len() == 0 {
        return Err(StrategyListError::Empty);
    }
    Ok(out)
}

/// Every strategy is found again by its own name, so distinct strategies
/// have distinct names, and a list holding just that name parses to just
/// that strategy.
pub proof fn strategy_names_round_trip(id: StratId)
    ensures
        strat_named(strat_name(id)) == Some(id),
        spec_parse_strategies(strat_name(id)) == Ok::<Seq<StratId>, Seq<char>>(seq![id]),
{
    reveal_strlit("buy_yes_at_open");
    reveal_strlit("reactive_directional");
    reveal_strlit("paired_mm");
    reveal_strlit("spot_momentum_follower");
    reveal_strlit("late_big_bet");
    reveal_strlit("bonereaper_lite");
    reveal_strlit("bonereaper_v2");
    reveal_strlit("delta_neutral_mm");
    reveal_strlit("late_confirmation");
    reveal_strlit("late_convex_tail");
    let name = strat_name(id);
    assert(strat_named(name) == Some(id));
    assert forall|i: int| 0 <= i < name.len() implies name[i] != ',' by {}
    assert(!is_white_space(name[0]) && !is_white_space(name.last()));
    lemma_split_without_sep(name, ',');
    lemma_trim_untouched(name);
    let tokens = strategy_tokens(name);
    assert(tokens =~= seq![name]);
    assert(all_known(tokens));
    assert(tokens.map_values(|t: Seq<char>| strat_named(t)->0) =~= seq![id]);
}

/// The names of `ids` joined by commas.
pub open spec fn joined_names(ids: Seq<StratId>) -> Seq<char>
    decreases ids.len(),
{
    if ids.len() == 0 {
        Seq::empty()
    } else if ids.len() == 1 {
        strat_name(ids[0])
    } else {
        joined_names(ids.drop_last()) + ","@ + strat_name(ids.last())
    }
}

proof fn lemma_name_facts(id: StratId)
    ensures
        forall|i: int| 0 <= i < strat_name(id).len() ==> strat_name(id)[i] != ',',
        trim_space(strat_name(id)) == strat_name(id),
        strat_named(strat_name(id)) == Some(id),
{
    reveal_strlit("buy_yes_at_open");
    reveal_strlit("reactive_directional");
    reveal_strlit("paired_mm");
    reveal_strlit("spot_momentum_follower");
    reveal_strlit("late_big_bet");
    reveal_strlit("bonereaper_lite");
    reveal_strlit("bonereaper_v2");
    reveal_strlit("delta_neutral_mm");
    reveal_strlit("late_confirmation");
    reveal_strlit("late_convex_tail");
    let name = strat_name(id);
    assert(!is_white_space(name[0]) && !is_white_space(name.last()));
    lemma_trim_untouched(name);
}

proof fn lemma_joined_fields(ids: Seq<StratId>)
    requires
        ids.len() > 0,
    ensures
        split_fields(joined_names(ids), ',') == ids.map_values(|id: StratId| strat_name(id)),
    decreases ids.len(),
{
    let last = ids.last();
    lemma_name_facts(last);
    if ids.len() == 1 {
        lemma_split_without_sep(strat_name(ids[0]), ',');
        assert(ids.map_values(|id: StratId| strat_name(id)) =~= seq![strat_name(ids[0])]);
    } else {
        let p = ids.drop_last();
        lemma_joined_fields(p);
        reveal_strlit(",");
        assert(","@ =~= seq![',']);
        lemma_split_append_piece(joined_names(p), ',', strat_name(last));
        assert(ids.map_values(|id: StratId| strat_name(id)) =~= p.map_values(
            |id: StratId| strat_name(id),
        ).push(strat_name(last)));
    }
}

/// A non-empty list of strategies, written as their names joined by commas,
/// parses back to the same list, in order and with repeats kept.
pub proof fn joined_strategy_names_parse_back(ids: Seq<StratId>)
    requires
        ids.len() > 0,
    ensures
        spec_parse_strategies(joined_names(ids)) == Ok::<Seq<StratId>, Seq<char>>(ids),
{
    lemma_joined_fields(ids);
    let tokens = strategy_tokens(joined_names(ids));
    assert forall|i: int| 0 <= i < ids.len() implies tokens[i] == strat_name(ids[i]) && strat_named(
        tokens[i],
    ) == Some(ids[i]) by {
        lemma_name_facts(ids[i]);
    }
    assert(all_known(tokens));
    assert(tokens.map_values(|t: Seq<char>| strat_named(t)->0) =~= ids);
}

} // verus!
