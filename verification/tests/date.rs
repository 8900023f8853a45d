use blog::date::Date;


#[test]
fn bad_dates_are_rejected_not_defaulted() {
    for bad in [
        "",
        "not-a-date",
        "2023",
        "2023-08",
        "2023-8x-13",
        "2023-13-01",
    ] {
        assert!(Date::parse(bad).is_err(), "{bad:?} should not parse");
    }
}

#[test]
fn impossible_dates_are_rejected() {
    for bad in [
        "2023-02-29",
        "2023-02-31",
        "1900-02-29",
        "2023-04-31",
        "2023-06-31",
        "2023-00-01",
        "2023-01-00",
    ] {
        assert!(Date::parse(bad).is_err(), "{bad:?} should not parse");
    }
}

#[test]
fn leap_days_that_exist_are_accepted() {
    for good in ["2024-02-29", "2000-02-29", "2023-02-28", "2023-12-31"] {
        assert!(Date::parse(good).is_ok(), "{good:?} should parse");
    }
}

#[test]
fn weekdays_match_the_gregorian_calendar() {
    for (date, weekday) in [
        ("2026-07-27", "Mon"),
        ("2026-06-24", "Wed"),
        ("2025-11-04", "Tue"),
        ("2024-11-03", "Sun"),
        ("2023-08-12", "Sat"),
        ("2024-02-29", "Thu"),
        ("2000-02-29", "Tue"),
        ("1900-03-01", "Thu"),
    ] {
        let got = Date::parse(date).unwrap().rfc822();
        assert!(
            got.starts_with(weekday),
            "{date} should be a {weekday}, got {got}"
        );
    }
}

#[test]
fn dates_order_by_year_then_month_then_day() {
    let d = |s| Date::parse(s).unwrap();
    assert!(d("2023-08-12") < d("2023-08-13"));
    assert!(d("2023-08-31") < d("2023-09-01"));
    assert!(d("2023-12-31") < d("2024-01-01"));
}

#[test]
fn every_day_falls_on_the_day_of_the_week_after_the_one_before() {
    let names = ["Sun", "Mon", "Tue", "Wed", "Thu", "Fri", "Sat"];
    // 1 January 1900 was a Monday.
    let mut want = 1;
    let mut days = 0;
    for y in 1900..=2100 {
        for m in 1..=12 {
            for d in 1..=31 {
                if let Ok(date) = Date::from_ymd(y, m, d) {
                    let got = date.rfc822();
                    assert!(got.starts_with(names[want]), "{y}-{m}-{d}: {got}");
                    want = (want + 1) % 7;
                    days += 1;
                }
            }
        }
    }
    assert_eq!(days, 73414);
}

#[test]
fn a_date_written_out_reads_back_as_itself() {
    for (y, m, d) in [(2024, 2, 29), (0, 1, 1), (1999, 12, 31), (12345, 6, 7), (7, 3, 9)] {
        let date = Date::from_ymd(y, m, d).unwrap();
        assert_eq!(Date::parse(&date.iso()), Ok(date), "{y}-{m}-{d}");
    }
    assert_eq!(Date::parse("2023-08-12T10:00:00Z"), Date::parse("2023-08-12"));
}

#[test]
fn years_outside_four_digits_are_written_with_a_sign() {
    let d = |y, m, dd| Date::from_ymd(y, m, dd).unwrap();
    assert_eq!(d(-5, 3, 1).dotted(), "-0005 · 03 · 01");
    assert_eq!(d(10000, 1, 2).dotted(), "+10000 · 01 · 02");
    assert_eq!(d(0, 1, 1).dotted(), "0000 · 01 · 01");
    assert_eq!(d(0, 1, 1).rfc822(), "Sat, 01 Jan 0000 00:00:00 GMT");
    assert_eq!(d(-1, 12, 31).rfc822(), "Fri, 31 Dec -0001 00:00:00 GMT");
    assert_eq!(d(10000, 1, 1).rfc822(), "Sat, 01 Jan +10000 00:00:00 GMT");
}

#[test]
fn weekdays_run_on_through_year_zero() {
    let names = ["Sun", "Mon", "Tue", "Wed", "Thu", "Fri", "Sat"];
    // 1 January of year -400 falls on the same day as 1 January 0000, a Saturday.
    let mut want = 6;
    let mut days = 0;
    for y in -400..=399 {
        for m in 1..=12 {
            for d in 1..=31 {
                if let Ok(date) = Date::from_ymd(y, m, d) {
                    let got = date.rfc822();
                    assert!(got.starts_with(names[want]), "{y}-{m}-{d}: {got}");
                    want = (want + 1) % 7;
                    days += 1;
                }
            }
        }
    }
    assert_eq!(days, 292194);
    assert_eq!(want, 6);
}

#[test]
fn every_written_out_date_reads_as_itself() {
    for s in ["0000-01-01", "2024-02-29", "9999-12-31", "0042-03-04", "1900-02-28"] {
        let date = Date::parse(s).unwrap();
        assert_eq!(date.iso(), s);
        assert_eq!(Date::parse(&format!("{s} 10:00")), Ok(date));
    }
}
