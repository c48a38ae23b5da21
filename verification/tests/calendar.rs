use polymarket_backtest::calendar::{
    close_day_key, format_day, is_valid_day, next_day_in_range, ordered_day_range, parse_date_range, previous_date, CivilDay, DateInputError,
};

fn day(year: i32, month: u32, day: u32) -> CivilDay {
    CivilDay { year, month, day }
}

#[test]
fn previous_date_crosses_years_and_leap_days() {
    assert_eq!(previous_date("2026-01-01").unwrap(), Some("2025-12-31".to_string()));
    assert_eq!(previous_date("2024-03-01").unwrap(), Some("2024-02-29".to_string()));
    assert_eq!(previous_date("2026-05-12").unwrap(), Some("2026-05-11".to_string()));
}

#[test]
fn previous_date_rejects_bad_dates() {
    let err = previous_date("2026-13-01").unwrap_err();
    assert_eq!(err, DateInputError::MarketDate("2026-13-01".to_string()));
    assert_eq!(err.message(), "parse market date 2026-13-01");
    assert!(previous_date("yesterday").is_err());
}

#[test]
fn close_day_key_uses_utc_date_or_day_number() {
    assert_eq!(close_day_key(Some(1_778_587_500), 0), "2026-05-12");
    assert_eq!(close_day_key(Some(0), 5), "1970-01-01");
    assert_eq!(close_day_key(Some(-1), 5), "1969-12-31");
    assert_eq!(close_day_key(Some(951_782_400), 0), "2000-02-29");
    assert_eq!(close_day_key(Some(-86_401), 0), "1969-12-30");
    assert_eq!(close_day_key(None, 0), "day_0001");
    assert_eq!(close_day_key(None, 287), "day_0001");
    assert_eq!(close_day_key(None, 288), "day_0002");
    assert_eq!(close_day_key(None, 288 * 10_000), "day_10001");
    assert_eq!(close_day_key(Some(i64::MAX), 576), "day_0003");
}

#[test]
fn date_range_must_be_ordered() {
    assert_eq!(
        parse_date_range("2026-05-01", "2026-05-03").unwrap(),
        (day(2026, 5, 1), day(2026, 5, 3))
    );
    assert_eq!(
        parse_date_range("2026-05-01", "2026-05-01").unwrap(),
        (day(2026, 5, 1), day(2026, 5, 1))
    );
    let err = parse_date_range("2026-05-03", "2026-05-01").unwrap_err();
    assert_eq!(err, DateInputError::EndBeforeStart);
    assert_eq!(err.message(), "--end-date must be >= --start-date");
    assert_eq!(
        parse_date_range("nope", "2026-05-01").unwrap_err().message(),
        "parse --start-date nope"
    );
    assert_eq!(
        parse_date_range("2026-05-01", "x").unwrap_err(),
        DateInputError::EndDate("x".to_string())
    );
}

#[test]
fn walking_a_range_visits_each_day_once() {
    let (start, end) = parse_date_range("2024-02-27", "2024-03-01").unwrap();
    let mut days = vec![start];
    let mut cur = start;
    while let Some(next) = next_day_in_range(cur, end).unwrap() {
        days.push(next);
        cur = next;
    }
    assert_eq!(
        days,
        vec![day(2024, 2, 27), day(2024, 2, 28), day(2024, 2, 29), day(2024, 3, 1)]
    );
}

#[test]
fn day_validity_and_formatting() {
    assert!(is_valid_day(day(2024, 2, 29)));
    assert!(!is_valid_day(day(2023, 2, 29)));
    assert!(!is_valid_day(day(1900, 2, 29)));
    assert!(is_valid_day(day(2000, 2, 29)));
    assert!(!is_valid_day(day(2026, 4, 31)));
    assert!(!is_valid_day(day(2026, 0, 1)));
    assert_eq!(format_day(day(2026, 5, 5)), "2026-05-05");
    assert_eq!(format_day(day(7, 1, 9)), "0007-01-09");
    assert_eq!(format_day(day(12345, 6, 7)), "+12345-06-07");
    assert_eq!(format_day(day(-5, 12, 31)), "-0005-12-31");
    assert_eq!(format_day(day(-262143, 1, 1)), "-262143-01-01");
}

#[test]
fn ordered_ranges() {
    assert_eq!(ordered_day_range(day(2026, 5, 1), day(2026, 6, 1)), Ok((day(2026, 5, 1), day(2026, 6, 1))));
    assert_eq!(ordered_day_range(day(2026, 5, 2), day(2026, 5, 1)), Err(DateInputError::EndBeforeStart));
    assert_eq!(ordered_day_range(day(2027, 1, 1), day(2026, 12, 31)), Err(DateInputError::EndBeforeStart));
}
