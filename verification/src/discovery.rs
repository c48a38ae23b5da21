//! Markets and how they are found: the market handle, reading the close time
//! out of a slug, deciding which side of a binary market is "up", and
//! turning a row of a markets table into a handle.
use vstd::prelude::*;
use crate::calendar::{
    civil, day_before_or_same, format_ymd, utc_day, utc_day_of, ymd_text, CivilDay,
};
use crate::sampling::clamp_i64;
use crate::text::{
    chars_of, concat_text, find_segment_start, last_segment, parse_i64_from, spec_parse_i64,
    starts_with_chars,
};

verus! {

broadcast use vstd::seq_lib::group_seq_properties;

/// A binary market to replay: the asset traded, the market's slug, when it
/// resolves, how it resolved, and the date partition its data sits under.
#[derive(Debug, Clone)]
pub struct MarketHandle {
    pub asset_id: String,
    pub slug: String,
    /// Resolution timestamp (Unix seconds, UTC).
    pub close_ts: i64,
    /// Outcome label (e.g. "Up", "Down", "Yes", "No").
    pub outcome: String,
    /// Date partition (`YYYY-MM-DD`).
    pub date: String,
}

/// The contents of a market handle.
pub struct MarketHandleView {
    pub asset_id: Seq<char>,
    pub slug: Seq<char>,
    pub close_ts: i64,
    pub outcome: Seq<char>,
    pub date: Seq<char>,
}

impl View for MarketHandle {
    type V = MarketHandleView;

    open spec fn view(&self) -> MarketHandleView {
        MarketHandleView {
            asset_id: self.asset_id@,
            slug: self.slug@,
            close_ts: self.close_ts,
            outcome: self.outcome@,
            date: self.date@,
        }
    }
}

/// The close time in a slug such as `btc-updown-5m-1778587500`: its last
/// `-`-separated piece read as an `i64`.
pub open spec fn slug_close_ts(slug: Seq<char>) -> Option<i64> {
    spec_parse_i64(last_segment(slug, '-'))
}

/// Parses `btc-updown-5m-1778587500` -> 1778587500 (see `slug_close_ts`).
pub fn parse_close_ts(slug: &str) -> (r: Option<i64>)
    ensures
        r == slug_close_ts(slug@),
{
    let chars = chars_of(slug);
    let start = find_segment_start(chars.as_slice(), '-');
    proof {
        crate::text::lemma_segment_start(slug@, '-');
    }
    parse_i64_from(chars.as_slice(), start)
}

/// A slug whose close time could not be read.
#[derive(Debug, Clone, PartialEq, Eq)]
pub struct SlugTimestampError {
    pub slug: String,
}

impl SlugTimestampError {
    /// The error as a sentence.
    pub fn message(&self) -> (r: String)
        ensures
            r@ == "could not parse resolution timestamp from slug: "@ + self.slug@,
    {
        concat_text("could not parse resolution timestamp from slug: ", self.slug.as_str())
    }
}

/// The close time of a slug, or an error naming the slug when it holds none
/// (see `slug_close_ts`).
pub fn parse_close_ts_from_slug(slug: &str) -> (r: Result<i64, SlugTimestampError>)
    ensures
        match slug_close_ts(slug@) {
            Some(ts) => r == Ok::<i64, SlugTimestampError>(ts),
            None => match r {
                Err(e) => e.slug@ == slug@,
                Ok(_) => false,
            },
        },
{
    match parse_close_ts(slug) {
        Some(ts) => Ok(ts),
        None => Err(SlugTimestampError { slug: String::from_str(slug) }),
    }
}

/// When a market opens, in nanoseconds: the time in its slug, or five
/// minutes before its close time when the slug holds none (both saturating
/// at the `i64` range).
pub open spec fn spec_market_open_ns(slug: Seq<char>, close_ts: i64) -> int {
    let open_s = match slug_close_ts(slug) {
        Some(t) => t as int,
        None => clamp_i64(close_ts - 300),
    };
    clamp_i64(open_s * 1_000_000_000)
}

/// The market's opening time in nanoseconds (see `spec_market_open_ns`).
pub fn market_open_ns(m: &MarketHandle) -> (r: i64)
    ensures
        r == spec_market_open_ns(m.slug@, m.close_ts),
{
    let open_s: i64 = match parse_close_ts(m.slug.as_str()) {
        Some(t) => t,
        None => {
            let d: i128 = m.close_ts as i128 - 300;
            if d < i64::MIN as i128 {
                i64::MIN
            } else {
                d as i64
            }
        },
    };
    let p: i128 = open_s as i128 * 1_000_000_000;
    if p > i64::MAX as i128 {
        i64::MAX
    } else if p < i64::MIN as i128 {
        i64::MIN
    } else {
        p as i64
    }
}

/// Outcome labels that count as the "yes"/"up" side having won.
pub open spec fn is_yes_label(outcome: Seq<char>) -> bool {
    outcome == "Up"@ || outcome == "Yes"@ || outcome == "yes"@ || outcome == "UP"@
}

/// Whether a market's outcome label says the "yes"/"up" side won (see
/// `is_yes_label`).
pub fn outcome_label_is_yes(outcome: &str) -> (r: bool)
    ensures
        r == is_yes_label(outcome@),
{
    let c = chars_of(outcome);
    crate::text::chars_match(c.as_slice(), "Up") || crate::text::chars_match(c.as_slice(), "Yes")
        || crate::text::chars_match(c.as_slice(), "yes") || crate::text::chars_match(
        c.as_slice(),
        "UP",
    )
}

/// ASCII lower case of `c`; other characters are unchanged.
pub open spec fn ascii_lower(c: char) -> char {
    if 65 <= c as u32 <= 90 {
        ((c as u32) + 32) as char
    } else {
        c
    }
}

/// Equality up to ASCII case, as `str::eq_ignore_ascii_case` compares.
pub open spec fn eq_ascii_case_insensitive(a: Seq<char>, b: Seq<char>) -> bool {
    a.len() == b.len() && forall|i: int| 0 <= i < a.len() ==> ascii_lower(#[trigger] a[i]) == ascii_lower(b[i])
}

fn lower_char(c: char) -> (r: char)
    ensures
        r == ascii_lower(c),
{
    let u = c as u32;
    if 65 <= u && u <= 90 {
        let b: u8 = (u + 32) as u8;
        b as char
    } else {
        c
    }
}

/// Whether `a` and `b` are equal up to ASCII case.
pub fn eq_ignore_ascii_case(a: &str, b: &str) -> (r: bool)
    ensures
        r == eq_ascii_case_insensitive(a@, b@),
{
    let x = chars_of(a);
    let y = chars_of(b);
    if x.len() != y.len() {
        return false;
    }
    let mut i: usize = 0;
    while i < x.len()
        invariant
            x@ == a@,
            y@ == b@,
            x@.len() == y@.len(),
            i <= x@.len(),
            forall|j: int| 0 <= j < i ==> ascii_lower(#[trigger] x@[j]) == ascii_lower(y@[j]),
        decreases x@.len() - i,
    {
        if lower_char(x[i]) != lower_char(y[i]) {
            return false;
        }
        i = i + 1;
    }
    true
}

/// Whether an outcome names the "up" side: `up`, `yes` or `above`, in any
/// ASCII case.
pub open spec fn is_up_outcome(outcome: Option<Seq<char>>) -> bool {
    match outcome {
        Some(v) => eq_ascii_case_insensitive(v, "up"@) || eq_ascii_case_insensitive(v, "yes"@)
            || eq_ascii_case_insensitive(v, "above"@),
        None => false,
    }
}

/// Whether an outcome names the "up" side (see `is_up_outcome`).
pub fn outcome_is_up(outcome: Option<&str>) -> (r: bool)
    ensures
        r == is_up_outcome(
            match outcome {
                Some(v) => Some(v@),
                None => None,
            },
        ),
{
    match outcome {
        Some(value) => eq_ignore_ascii_case(value, "up") || eq_ignore_ascii_case(value, "yes")
            || eq_ignore_ascii_case(value, "above"),
        None => false,
    }
}

/// The slot (0 or 1) and asset of the "up" side of a binary market: slot 0
/// when its outcome names the up side, else slot 1 when its outcome does,
/// else none. A slot whose asset is missing gives none.
pub fn canonical_up_asset_for_row<'a>(
    outcome_0: Option<&str>,
    asset_id_0: Option<&'a str>,
    outcome_1: Option<&str>,
    asset_id_1: Option<&'a str>,
) -> (r: Option<(u8, &'a str)>)
    ensures
        ({
            let up0 = is_up_outcome(
                match outcome_0 {
                    Some(v) => Some(v@),
                    None => None,
                },
            );
            let up1 = is_up_outcome(
                match outcome_1 {
                    Some(v) => Some(v@),
                    None => None,
                },
            );
            if up0 {
                match asset_id_0 {
                    Some(a) => r == Some((0u8, a)),
                    None => r is None,
                }
            } else if up1 {
                match asset_id_1 {
                    Some(a) => r == Some((1u8, a)),
                    None => r is None,
                }
            } else {
                r is None
            }
        }),
{
    if outcome_is_up(outcome_0) {
        match asset_id_0 {
            Some(asset) => Some((0, asset)),
            None => None,
        }
    } else if outcome_is_up(outcome_1) {
        match asset_id_1 {
            Some(asset) => Some((1, asset)),
            None => None,
        }
    } else {
        None
    }
}

/// One row of a markets table, as plain values (a missing cell is `None`).
#[derive(Debug, Clone)]
pub struct MarketRow {
    pub slug: Option<String>,
    pub status: Option<String>,
    pub result_id: Option<String>,
    pub outcome_0: Option<String>,
    pub outcome_1: Option<String>,
    pub asset_id_0: Option<String>,
    pub asset_id_1: Option<String>,
    /// Resolution time in microseconds.
    pub end_date_us: Option<i64>,
}

/// The text of an optional string.
pub open spec fn opt_text(s: Option<String>) -> Option<Seq<char>> {
    match s {
        Some(t) => Some(t@),
        None => None,
    }
}

/// How a resolved market is labelled from the winning slot `result_id`
/// ("0" or "1") and the slot of its up side: `Up` when they agree, `Down`
/// when they differ, nothing for any other result.
pub open spec fn row_outcome(result_id: Option<Seq<char>>, up_slot: u8) -> Option<Seq<char>> {
    match result_id {
        Some(r) => if (r == "0"@ && up_slot == 0) || (r == "1"@ && up_slot == 1) {
            Some("Up"@)
        } else if r == "0"@ || r == "1"@ {
            Some("Down"@)
        } else {
            None
        },
        None => None,
    }
}

/// The close time of a row: its end time in whole seconds (rounded down),
/// or five minutes after the slug's time when the end time is missing
/// (saturating).
pub open spec fn row_close_ts(end_date_us: Option<i64>, start_ts: i64) -> int {
    match end_date_us {
        Some(us) => us / 1_000_000,
        None => clamp_i64(start_ts + 300),
    }
}

/// The up side of a row: slot and asset (see `canonical_up_asset_for_row`).
pub open spec fn row_up_side(row: MarketRow) -> Option<(u8, Seq<char>)> {
    if is_up_outcome(opt_text(row.outcome_0)) {
        match opt_text(row.asset_id_0) {
            Some(a) => Some((0u8, a)),
            None => None,
        }
    } else if is_up_outcome(opt_text(row.outcome_1)) {
        match opt_text(row.asset_id_1) {
            Some(a) => Some((1u8, a)),
            None => None,
        }
    } else {
        None
    }
}

/// What a row gives once its slug's start time `start_ts` has been placed on
/// the UTC day `day`: nothing unless `day` lies in `[start, end]`, the row
/// names a non-empty up-side asset and its result is slot 0 or 1; otherwise
/// the up-side asset, the outcome label and the close time.
pub open spec fn spec_row_fields(row: MarketRow, start_ts: i64, day: CivilDay, start: CivilDay, end: CivilDay) -> Option<(Seq<char>, Seq<char>, i64)> {
    if !day_before_or_same(start, day) || !day_before_or_same(day, end) {
        None
    } else {
        match row_up_side(row) {
            None => None,
            Some((slot, asset)) => if asset.len() == 0 {
                None
            } else {
                match row_outcome(opt_text(row.result_id), slot) {
                    None => None,
                    Some(outcome) => Some((asset, outcome, row_close_ts(row.end_date_us, start_ts) as i64)),
                }
            },
        }
    }
}

/// The market a row describes, if the row is kept: its slug starts with
/// `prefix`, it is resolved, its slug holds a start time whose UTC day lies
/// in `[start, end]`, it names a non-empty up-side asset, and its result is
/// slot 0 or 1 (see `spec_row_fields`). The handle's date is that day,
/// formatted.
pub open spec fn spec_row_market(row: MarketRow, prefix: Seq<char>, start: CivilDay, end: CivilDay) -> Option<MarketHandleView> {
    match opt_text(row.slug) {
        None => None,
        Some(slug) => if !prefix.is_prefix_of(slug) || opt_text(row.status) != Some("resolved"@) {
            None
        } else {
            match slug_close_ts(slug) {
                None => None,
                Some(start_ts) => match utc_day_of(start_ts) {
                    None => None,
                    Some(t) => match spec_row_fields(row, start_ts, civil(t), start, end) {
                        None => None,
                        Some((asset, outcome, close_ts)) => Some(
                            MarketHandleView {
                                asset_id: asset,
                                slug,
                                close_ts,
                                outcome,
                                date: ymd_text(civil(t)),
                            },
                        ),
                    },
                },
            }
        },
    }
}

fn opt_str(s: &Option<String>) -> (r: Option<&str>)
    ensures
        match r {
            Some(t) => opt_text(*s) == Some(t@),
            None => opt_text(*s) is None,
        },
{
    match s {
        Some(t) => Some(t.as_str()),
        None => None,
    }
}

fn text_is(s: &Option<String>, lit: &str) -> (r: bool)
    ensures
        r == (opt_text(*s) == Some(lit@)),
{
    match s {
        Some(t) => {
            let c = chars_of(t.as_str());
            crate::text::chars_match(c.as_slice(), lit)
        },
        None => false,
    }
}

fn seconds_of_micros(us: i64) -> (r: i64)
    ensures
        r == us / 1_000_000,
{
    let q = us / 1_000_000;
    let m = us % 1_000_000;
    if m < 0 {
        q - 1
    } else {
        q
    }
}

/// The market handle a row describes, if the row is kept (see
/// `spec_row_market`).
pub fn market_from_row(row: &MarketRow, slug_prefix: &str, start: CivilDay, end: CivilDay) -> (r: Option<MarketHandle>)
    ensures
        match (r, spec_row_market(*row, slug_prefix@, start, end)) {
            (Some(m), Some(v)) => m@ == v,
            (None, None) => true,
            _ => false,
        },
{
    let slug = match &row.slug {
        Some(s) => s,
        None => return None,
    };
    let slug_chars = chars_of(slug.as_str());
    let prefix_chars = chars_of(slug_prefix);
    if !starts_with_chars(slug_chars.as_slice(), prefix_chars.as_slice()) {
        return None;
    }
    if !text_is(&row.status, "resolved") {
        return None;
    }
    let start_ts = match parse_close_ts(slug.as_str()) {
        Some(t) => t,
        None => return None,
    };
    let day = match utc_day(start_ts) {
        Some(d) => d,
        None => return None,
    };
    assert(civil(utc_day_of(start_ts)->0) == day);
    let (asset, outcome, close_ts) = match row_market_fields(row, start_ts, day, start, end) {
        Some(f) => f,
        None => return None,
    };
    Some(
        MarketHandle {
            asset_id: asset,
            slug: slug.clone(),
            close_ts,
            outcome,
            date: format_ymd(day),
        },
    )
}

/// The up-side asset, outcome label and close time of a row whose slug's
/// start time `start_ts` falls on the UTC day `day`, if the row is kept (see
/// `spec_row_fields`).
pub fn row_market_fields(row: &MarketRow, start_ts: i64, day: CivilDay, start: CivilDay, end: CivilDay) -> (r: Option<(String, String, i64)>)
    ensures
        match (r, spec_row_fields(*row, start_ts, day, start, end)) {
            (Some((asset, outcome, close_ts)), Some((a, o, c))) => asset@ == a && outcome@ == o
                && close_ts == c,
            (None, None) => true,
            _ => false,
        },
{
    let after_start = start.year < day.year || (start.year == day.year && (start.month < day.month
        || (start.month == day.month && start.day <= day.day)));
    let before_end = day.year < end.year || (day.year == end.year && (day.month < end.month || (
    day.month == end.month && day.day <= end.day)));
    if !after_start || !before_end {
        return None;
    }
    let up = canonical_up_asset_for_row(
        opt_str(&row.outcome_0),
        opt_str(&row.asset_id_0),
        opt_str(&row.outcome_1),
        opt_str(&row.asset_id_1),
    );
    let (slot, asset) = match up {
        Some(p) => p,
        None => return None,
    };
    assert(row_up_side(*row) == Some((slot, asset@)));
    if asset.unicode_len() == 0 {
        return None;
    }
    let winner_0 = text_is(&row.result_id, "0");
    let winner_1 = text_is(&row.result_id, "1");
    let outcome = if (winner_0 && slot == 0) || (winner_1 && slot == 1) {
        "Up"
    } else if winner_0 || winner_1 {
        "Down"
    } else {
        return None;
    };
    proof {
        reveal_strlit("0");
        reveal_strlit("1");
        match opt_text(row.result_id) {
            Some(t) => {
                assert(winner_0 == (t == "0"@));
                assert(winner_1 == (t == "1"@));
            },
            None => {},
        }
    }
    let close_ts = match row.end_date_us {
        Some(us) => seconds_of_micros(us),
        None => {
            let c: i128 = start_ts as i128 + 300;
            if c > i64::MAX as i128 {
                i64::MAX
            } else {
                c as i64
            }
        },
    };
    Some((String::from_str(asset), String::from_str(outcome), close_ts))
}

/// What std's `str::to_uppercase` gives for `s`: its Unicode upper case.
pub uninterp spec fn upper_case_of(s: Seq<char>) -> Seq<char>;

/// std's `str::to_uppercase`; its result is named by `upper_case_of` (the
/// Unicode case tables are left to that name).
#[verifier::external_body]
fn upper_case(s: &str) -> (r: String)
    ensures
        r@ == upper_case_of(s@),
{
    s.to_uppercase()
}

/// The instrument symbol of a market: its slug in upper case.
pub fn slug_to_nautilus_symbol(slug: &str) -> (r: String)
    ensures
        r@ == upper_case_of(slug@),
{
    upper_case(slug)
}

/// A slug made of any text, a `-` and the decimal digits of a time in the
/// `i64` range reads back as that time.
pub proof fn slug_close_ts_reads_formatted_time(prefix: Seq<char>, ts: nat)
    requires
        ts <= i64::MAX,
    ensures
        slug_close_ts(prefix + "-"@ + crate::text::decimal_text(ts)) == Some(ts as i64),
{
    reveal_strlit("-");
    let digits = crate::text::decimal_text(ts);
    crate::text::lemma_decimal_text(ts);
    assert forall|i: int| 0 <= i < digits.len() implies digits[i] != '-' by {
        assert(crate::text::is_digit(digits[i]));
    }
    assert("-"@ =~= seq!['-']);
    crate::text::lemma_last_segment_after(prefix, '-', digits);
    assert(digits[0] != '-' && digits[0] != '+') by {
        assert(crate::text::is_digit(digits[0]));
    }
}

/// The slot (0 or 1) that a row names as its up side.
pub open spec fn up_slot_of(row: MarketRow) -> int {
    if is_up_outcome(opt_text(row.outcome_0)) {
        0
    } else {
        1
    }
}

/// The result text that names slot `slot` as the winner.
pub open spec fn winning_result_for(slot: int) -> Seq<char> {
    if slot == 0 {
        "0"@
    } else {
        "1"@
    }
}

/// A kept row is labelled by whether its up side won, not by where the up
/// side sits: its result names slot 0 or slot 1; the label is `Up` exactly
/// when the result names the slot holding the up-side asset, and `Down`
/// exactly when it names the other slot; the asset is that of the up slot.
pub proof fn kept_row_is_labelled_by_whether_up_won(
    row: MarketRow,
    start_ts: i64,
    day: CivilDay,
    start: CivilDay,
    end: CivilDay,
)
    requires
        spec_row_fields(row, start_ts, day, start, end) is Some,
    ensures
        ({
            let (asset, outcome, close_ts) = spec_row_fields(row, start_ts, day, start, end)->0;
            let slot = up_slot_of(row);
            let won = opt_text(row.result_id) == Some(winning_result_for(slot));
            let lost = opt_text(row.result_id) == Some(winning_result_for(1 - slot));
            &&& won || lost
            &&& won ==> outcome == "Up"@
            &&& lost ==> outcome == "Down"@
            &&& "Up"@ != "Down"@
            &&& (if slot == 0 { opt_text(row.asset_id_0) } else { opt_text(row.asset_id_1) }) == Some(asset)
        }),
{
    reveal_strlit("0");
    reveal_strlit("1");
    reveal_strlit("Up");
    reveal_strlit("Down");
    assert("0"@ != "1"@) by {
        assert("0"@[0] != "1"@[0]);
    }
    assert("Up"@.len() != "Down"@.len());
}

/// A row is kept exactly when its day lies in `[start, end]` (compared by
/// year, then month, then day), the slot it names as up (slot 0 when that
/// outcome reads as up, else slot 1 when that one does) has a non-empty
/// asset id, and its result names slot 0 or slot 1.
pub proof fn row_is_kept_exactly_when_complete(
    row: MarketRow,
    start_ts: i64,
    day: CivilDay,
    start: CivilDay,
    end: CivilDay,
)
    ensures
        ({
            let in_window = (start.year, start.month, start.day) == (day.year, day.month, day.day)
                || start.year < day.year || (start.year == day.year && start.month < day.month) || (
            start.year == day.year && start.month == day.month && start.day < day.day);
            let before_end = (day.year, day.month, day.day) == (end.year, end.month, end.day)
                || day.year < end.year || (day.year == end.year && day.month < end.month) || (day.year
                == end.year && day.month == end.month && day.day < end.day);
            let up0 = is_up_outcome(opt_text(row.outcome_0));
            let up1 = is_up_outcome(opt_text(row.outcome_1));
            let asset = if up0 {
                opt_text(row.asset_id_0)
            } else {
                opt_text(row.asset_id_1)
            };
            let has_up_asset = (up0 || up1) && asset is Some && asset->0.len() > 0;
            let names_a_slot = opt_text(row.result_id) == Some("0"@) || opt_text(row.result_id) == Some(
                "1"@,
            );
            (spec_row_fields(row, start_ts, day, start, end) is Some) == (in_window && before_end
                && has_up_asset && names_a_slot)
        }),
{
}

/// A kept row closes in the second that holds its end time (rounding down,
/// also before 1970), or, without an end time, five minutes after its
/// slug's start time, saturating at the largest `i64`.
pub proof fn kept_row_closes_in_its_end_second(
    row: MarketRow,
    start_ts: i64,
    day: CivilDay,
    start: CivilDay,
    end: CivilDay,
)
    requires
        spec_row_fields(row, start_ts, day, start, end) is Some,
    ensures
        ({
            let (asset, outcome, close_ts) = spec_row_fields(row, start_ts, day, start, end)->0;
            match row.end_date_us {
                Some(us) => close_ts * 1_000_000 <= us < close_ts * 1_000_000 + 1_000_000,
                None => close_ts == if start_ts + 300 > i64::MAX {
                    i64::MAX as int
                } else {
                    start_ts + 300
                },
            }
        }),
{
}

/// The market a row gives is labelled by whether its up side won (see
/// `kept_row_is_labelled_by_whether_up_won`): `Up` when the row's result
/// names the slot of the up-side asset, `Down` when it names the other slot,
/// and the handle's asset is the up-side asset.
pub proof fn row_market_is_labelled_by_whether_up_won(row: MarketRow, prefix: Seq<char>, start: CivilDay, end: CivilDay)
    requires
        spec_row_market(row, prefix, start, end) is Some,
    ensures
        ({
            let m = spec_row_market(row, prefix, start, end)->0;
            let slot = up_slot_of(row);
            let won = opt_text(row.result_id) == Some(winning_result_for(slot));
            let lost = opt_text(row.result_id) == Some(winning_result_for(1 - slot));
            &&& won || lost
            &&& won ==> m.outcome == "Up"@
            &&& lost ==> m.outcome == "Down"@
            &&& (if slot == 0 { opt_text(row.asset_id_0) } else { opt_text(row.asset_id_1) }) == Some(m.asset_id)
        }),
{
    let slug = opt_text(row.slug)->0;
    let start_ts = slug_close_ts(slug)->0;
    let t = utc_day_of(start_ts)->0;
    kept_row_is_labelled_by_whether_up_won(row, start_ts, civil(t), start, end);
}

} // verus!
