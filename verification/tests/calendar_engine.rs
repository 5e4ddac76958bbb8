use chrono::{DateTime, Datelike, NaiveDate, Utc};
use sla_engine::calendar::{add_working_minutes, calculate_working_minutes, parse_time, try_add_working_minutes};
use sla_engine::models::{Calendar, DocumentId, Holiday};
use sla_engine::time::{Moment, MAX_DAY, MIN_DAY, UNIX_EPOCH_DAY};

fn at(text: &str) -> Moment {
    let dt = DateTime::parse_from_rfc3339(text).unwrap().with_timezone(&Utc);
    Moment { secs: dt.timestamp(), nanos: dt.timestamp_subsec_nanos() }
}

fn rfc3339(m: Moment) -> String {
    DateTime::from_timestamp(m.secs, m.nanos).unwrap().to_rfc3339()
}

fn weekdays() -> Vec<String> {
    vec![
        "Monday".to_string(),
        "Tuesday".to_string(),
        "Wednesday".to_string(),
        "Thursday".to_string(),
        "Friday".to_string(),
    ]
}

fn standard_calendar(holidays: Vec<Holiday>) -> Calendar {
    Calendar {
        id: DocumentId { bytes: [0; 12] },
        name: "Standard 9-5".to_string(),
        timezone: "UTC".to_string(),
        working_days: weekdays(),
        start_time: "09:00".to_string(),
        end_time: "17:00".to_string(),
        holidays,
    }
}

#[test]
fn test_calculate_working_minutes() {
    let calendar = standard_calendar(vec![Holiday {
        name: "New Year".to_string(),
        date: at("2026-01-01T00:00:00Z"),
    }]);

    // Same day within working hours
    let start = at("2026-01-02T10:00:00Z");
    let end = at("2026-01-02T12:00:00Z");
    assert_eq!(calculate_working_minutes(start, end, &calendar), 120);

    // Same day partially outside working hours
    let start = at("2026-01-02T08:00:00Z");
    let end = at("2026-01-02T18:00:00Z");
    assert_eq!(calculate_working_minutes(start, end, &calendar), 480);

    // Over a weekend (Friday 16:00 to Monday 10:00)
    let start = at("2026-01-02T16:00:00Z");
    let end = at("2026-01-05T10:00:00Z");
    assert_eq!(calculate_working_minutes(start, end, &calendar), 120);

    // Over a holiday (Wednesday Dec 31 to Friday Jan 02) with Jan 01 as holiday
    let start = at("2025-12-31T16:00:00Z");
    let end = at("2026-01-02T10:00:00Z");
    assert_eq!(calculate_working_minutes(start, end, &calendar), 120);
}

#[test]
fn test_add_working_minutes() {
    let calendar = standard_calendar(vec![]);

    // Add 60 minutes during active day
    let start = at("2026-01-02T10:00:00Z");
    let result = add_working_minutes(start, 60, &calendar);
    assert_eq!(rfc3339(result), "2026-01-02T11:00:00+00:00");

    // Add 60 minutes at end of day, pushing to next working day morning
    let start = at("2026-01-02T16:30:00Z");
    let result = add_working_minutes(start, 60, &calendar);
    assert_eq!(rfc3339(result), "2026-01-05T09:30:00+00:00");
}

#[test]
fn day_range_matches_chrono() {
    assert_eq!(NaiveDate::MAX.num_days_from_ce(), MAX_DAY);
    assert_eq!(NaiveDate::MIN.num_days_from_ce(), MIN_DAY);
    assert_eq!(NaiveDate::from_ymd_opt(1970, 1, 1).unwrap().num_days_from_ce(), UNIX_EPOCH_DAY);
}

#[test]
fn parse_time_reads_hours_and_minutes() {
    assert_eq!(parse_time("09:00"), (9, 0));
    assert_eq!(parse_time("17:45"), (17, 45));
    assert_eq!(parse_time("+7:05"), (7, 5));
    assert_eq!(parse_time("25:61"), (25, 61));
}

#[test]
fn parse_time_falls_back_to_nine() {
    assert_eq!(parse_time("9"), (9, 0));
    assert_eq!(parse_time(""), (9, 0));
    assert_eq!(parse_time("10:30:00"), (9, 0));
    assert_eq!(parse_time("ab:15"), (9, 15));
    assert_eq!(parse_time("11:xy"), (11, 0));
    assert_eq!(parse_time("-1:-5"), (9, 0));
    assert_eq!(parse_time(":"), (9, 0));
}

#[test]
fn working_minutes_zero_when_end_not_after_start() {
    let calendar = standard_calendar(vec![]);
    let t = at("2026-01-02T10:00:00Z");
    assert_eq!(calculate_working_minutes(t, t, &calendar), 0);
    assert_eq!(calculate_working_minutes(at("2026-01-02T12:00:00Z"), t, &calendar), 0);
}

#[test]
fn working_minutes_count_whole_minutes_only() {
    let calendar = standard_calendar(vec![]);
    let mut start = at("2026-01-02T10:00:00Z");
    start.nanos = 500_000_000;
    let end = at("2026-01-02T10:02:00Z");
    // 1 minute 59.5 seconds of working time
    assert_eq!(calculate_working_minutes(start, end, &calendar), 1);
}

#[test]
fn working_minutes_over_full_week() {
    let calendar = standard_calendar(vec![]);
    let start = at("2026-01-05T00:00:00Z"); // Monday
    let end = at("2026-01-12T00:00:00Z"); // next Monday
    assert_eq!(calculate_working_minutes(start, end, &calendar), 5 * 480);
}

#[test]
fn working_minutes_with_unreadable_window_are_zero() {
    let mut calendar = standard_calendar(vec![]);
    calendar.end_time = "24:00".to_string();
    let start = at("2026-01-02T08:00:00Z");
    let end = at("2026-01-02T18:00:00Z");
    assert_eq!(calculate_working_minutes(start, end, &calendar), 0);
}

#[test]
fn working_minutes_ignore_unlisted_day_names() {
    let mut calendar = standard_calendar(vec![]);
    calendar.working_days = vec!["friday".to_string()];
    let start = at("2026-01-02T08:00:00Z");
    let end = at("2026-01-02T18:00:00Z");
    assert_eq!(calculate_working_minutes(start, end, &calendar), 0);
}

#[test]
fn add_nothing_returns_start() {
    let calendar = standard_calendar(vec![]);
    let start = at("2026-01-03T13:17:00Z");
    assert_eq!(add_working_minutes(start, 0, &calendar), start);
    assert_eq!(add_working_minutes(start, -5, &calendar), start);
}

#[test]
fn add_from_weekend_starts_monday_morning() {
    let calendar = standard_calendar(vec![]);
    let start = at("2026-01-03T13:00:00Z"); // Saturday
    assert_eq!(rfc3339(add_working_minutes(start, 15, &calendar)), "2026-01-05T09:15:00+00:00");
}

#[test]
fn add_skips_holiday() {
    let calendar = standard_calendar(vec![Holiday { name: "New Year".to_string(), date: at("2026-01-01T00:00:00Z") }]);
    let start = at("2025-12-31T16:00:00Z");
    assert_eq!(rfc3339(add_working_minutes(start, 120, &calendar)), "2026-01-02T10:00:00+00:00");
}

#[test]
fn add_exactly_a_full_window_ends_at_its_close() {
    let calendar = standard_calendar(vec![]);
    let start = at("2026-01-02T09:00:00Z");
    assert_eq!(rfc3339(add_working_minutes(start, 480, &calendar)), "2026-01-02T17:00:00+00:00");
    assert_eq!(rfc3339(add_working_minutes(start, 481, &calendar)), "2026-01-05T09:01:00+00:00");
}

#[test]
fn add_then_measure_gives_back_the_minutes() {
    let calendar = standard_calendar(vec![Holiday { name: "New Year".to_string(), date: at("2026-01-01T00:00:00Z") }]);
    let start = at("2025-12-30T11:20:30Z");
    for n in [1i64, 59, 60, 400, 480, 1000, 5000] {
        let r = add_working_minutes(start, n, &calendar);
        assert_eq!(calculate_working_minutes(start, r, &calendar), n);
    }
}

#[test]
fn add_reports_unformable_window() {
    let mut calendar = standard_calendar(vec![]);
    calendar.end_time = "25:00".to_string();
    let start = at("2026-01-02T10:00:00Z");
    assert_eq!(try_add_working_minutes(start, 60, &calendar), None);
    assert_eq!(try_add_working_minutes(start, 0, &calendar), Some(start));
}

#[test]
fn working_minutes_grow_with_the_end_and_stay_within_elapsed() {
    let calendar = standard_calendar(vec![]);
    let start = at("2026-01-01T07:13:00Z");
    let mut previous = 0;
    for hours in 0..120 {
        let end = Moment { secs: start.secs + hours * 3600 + 17, nanos: 0 };
        let w = calculate_working_minutes(start, end, &calendar);
        assert!(w >= previous);
        assert!(w <= (end.secs - start.secs) / 60);
        previous = w;
    }
}

#[test]
fn added_time_is_first_reached_at_the_result() {
    let calendar = standard_calendar(vec![]);
    let start = at("2026-01-02T16:30:00Z");
    let r = add_working_minutes(start, 90, &calendar);
    assert_eq!(calculate_working_minutes(start, r, &calendar), 90);
    let just_before = Moment { secs: r.secs - 1, nanos: r.nanos };
    assert!(calculate_working_minutes(start, just_before, &calendar) < 90);
}

#[test]
fn working_minutes_add_up_over_a_whole_minute_split() {
    let calendar = standard_calendar(vec![Holiday { name: "New Year".to_string(), date: at("2026-01-01T00:00:00Z") }]);
    let start = at("2025-12-30T07:41:00Z");
    let end = at("2026-01-06T13:07:25Z");
    let total = calculate_working_minutes(start, end, &calendar);
    let mut mid = start;
    while mid.secs <= end.secs {
        let left = calculate_working_minutes(start, mid, &calendar);
        let right = calculate_working_minutes(mid, end, &calendar);
        assert_eq!(left + right, total);
        mid = Moment { secs: mid.secs + 37 * 60, nanos: 0 };
    }
}

#[test]
fn split_off_a_whole_minute_can_lose_a_minute() {
    let calendar = standard_calendar(vec![]);
    let start = at("2026-01-02T10:00:30Z");
    let mid = at("2026-01-02T10:01:00Z");
    let end = at("2026-01-02T10:01:40Z");
    assert_eq!(calculate_working_minutes(start, end, &calendar), 1);
    assert_eq!(calculate_working_minutes(start, mid, &calendar), 0);
    assert_eq!(calculate_working_minutes(mid, end, &calendar), 0);
}

#[test]
fn earlier_start_never_lowers_working_minutes() {
    let calendar = standard_calendar(vec![]);
    let end = at("2026-01-07T15:20:00Z");
    let mut previous = 0;
    for hours in 0..150 {
        let start = Moment { secs: end.secs - hours * 3600 - 11, nanos: 0 };
        let w = calculate_working_minutes(start, end, &calendar);
        assert!(w >= previous);
        previous = w;
    }
    let narrow = calculate_working_minutes(at("2026-01-05T10:00:00Z"), at("2026-01-05T12:00:00Z"), &calendar);
    let wide = calculate_working_minutes(at("2026-01-02T08:00:00Z"), at("2026-01-06T18:00:00Z"), &calendar);
    assert_eq!(narrow, 120);
    assert_eq!(wide, 3 * 480);
}

#[test]
fn adding_in_two_steps_matches_adding_at_once() {
    let calendar = standard_calendar(vec![Holiday { name: "New Year".to_string(), date: at("2026-01-01T00:00:00Z") }]);
    let start = at("2025-12-30T16:10:00Z");
    for (a, b) in [(1i64, 1i64), (50, 10), (60, 420), (480, 480), (333, 777), (1000, 2500)] {
        let stepwise = add_working_minutes(add_working_minutes(start, a, &calendar), b, &calendar);
        let at_once = add_working_minutes(start, a + b, &calendar);
        assert_eq!(stepwise, at_once);
    }
    let two_steps = add_working_minutes(add_working_minutes(start, 50, &calendar), 30, &calendar);
    assert_eq!(rfc3339(two_steps), "2025-12-31T09:30:00+00:00");
}

#[test]
fn later_start_or_more_minutes_never_gives_an_earlier_deadline() {
    let calendar = standard_calendar(vec![]);
    let base = at("2026-01-02T08:00:00Z");
    let mut previous = add_working_minutes(base, 0, &calendar);
    for step in 0..200i64 {
        let start = Moment { secs: base.secs + step * 1800, nanos: 0 };
        let deadline = add_working_minutes(start, 240 + step, &calendar);
        assert!((deadline.secs, deadline.nanos) >= (previous.secs, previous.nanos));
        previous = deadline;
    }
}

#[test]
fn parse_time_reads_back_what_was_written() {
    for h in [0u32, 7, 9, 10, 23, 24, 99, 100, 4_294_967_295] {
        for m in [0u32, 5, 30, 59, 60, 4_294_967_295] {
            assert_eq!(parse_time(&format!("{}:{}", h, m)), (h, m));
            assert_eq!(parse_time(&format!("{:02}:{:02}", h, m)), (h, m));
        }
    }
}

fn last_day() -> NaiveDate {
    NaiveDate::from_num_days_from_ce_opt(MAX_DAY).unwrap()
}

fn on_day(d: NaiveDate, h: u32, m: u32) -> Moment {
    let t = d.and_hms_opt(h, m, 0).unwrap().and_utc();
    Moment { secs: t.timestamp(), nanos: 0 }
}

#[test]
fn adding_in_two_steps_matches_adding_at_once_up_to_the_last_day() {
    let calendar = standard_calendar(vec![]);
    let start = on_day(last_day() - chrono::Days::new(6), 11, 7);
    for (a, b) in [(100i64, 200i64), (2000, 3000), (1, 100_000), (4000, 1)] {
        let stepwise = add_working_minutes(add_working_minutes(start, a, &calendar), b, &calendar);
        let at_once = add_working_minutes(start, a + b, &calendar);
        assert_eq!(stepwise, at_once);
    }
}

#[test]
fn deadlines_lie_inside_a_working_window() {
    let calendar = standard_calendar(vec![Holiday { name: "New Year".to_string(), date: at("2026-01-01T00:00:00Z") }]);
    let start = at("2025-12-29T18:23:00Z");
    for n in [1i64, 7, 60, 479, 480, 481, 2000] {
        let r = add_working_minutes(start, n, &calendar);
        let t = DateTime::from_timestamp(r.secs, r.nanos).unwrap();
        let minute_of_day = (r.secs.rem_euclid(86_400)) / 60;
        assert!(minute_of_day > 9 * 60 && minute_of_day <= 17 * 60);
        assert!(t.weekday().num_days_from_monday() < 5);
        assert_ne!(t.date_naive(), NaiveDate::from_ymd_opt(2026, 1, 1).unwrap());
        assert!(r.secs > start.secs);
    }
}

#[test]
fn additions_that_run_out_of_days_stop_where_they_stand() {
    // The last representable day is made a day off.
    let last = last_day();
    let mut calendar = standard_calendar(vec![]);
    calendar.working_days.retain(|d| *d != last.format("%A").to_string());
    let before = on_day(last - chrono::Days::new(1), 18, 0);
    let on_last = on_day(last, 7, 0);
    // From the day before, the run stops at the last day's window opening;
    // from the last day itself, it stops where it started.
    assert_eq!(add_working_minutes(before, 60, &calendar), on_day(last, 9, 0));
    assert_eq!(add_working_minutes(on_last, 60, &calendar), on_last);
    // Two starts before the last day keep their order.
    let earlier = on_day(last - chrono::Days::new(3), 12, 0);
    assert!(add_working_minutes(earlier, 100_000, &calendar).secs <= add_working_minutes(before, 100_000, &calendar).secs);
}
