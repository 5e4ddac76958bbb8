//! Instants and calendar days, with the few `chrono` operations the engine needs.
//!
//! An instant is held as whole seconds since the Unix epoch plus a sub-second
//! nanosecond part, exactly what `chrono::DateTime<Utc>` exposes through
//! `timestamp()` and `timestamp_subsec_nanos()`. A calendar day is held as
//! chrono's day number counted from the Common Era (1 January of year 1 is day 1).
use chrono::Datelike;
use vstd::prelude::*;

verus! {

/// Day number (from the Common Era) of 1 January 1970.
pub const UNIX_EPOCH_DAY: i32 = 719163;

/// Day number of `chrono::NaiveDate::MIN` (1 January 262144 BCE).
pub const MIN_DAY: i32 = -95746129;

/// Day number of `chrono::NaiveDate::MAX` (31 December 262142 CE).
pub const MAX_DAY: i32 = 95745399;

/// A point in time, UTC.
#[derive(Clone, Copy, Debug, PartialEq, Eq)]
pub struct Moment {
    pub secs: i64,
    pub nanos: u32,
}

/// Day number of the day that holds the second `secs` after the epoch.
pub open spec fn day_of_secs(secs: int) -> int {
    secs / 86400 + UNIX_EPOCH_DAY
}

impl Moment {
    /// The moment lies within the range of `chrono::DateTime<Utc>`.
    pub open spec fn valid(self) -> bool {
        &&& self.nanos < 1_000_000_000
        &&& MIN_DAY <= day_of_secs(self.secs as int) <= MAX_DAY
    }

    /// Nanoseconds since the epoch.
    pub open spec fn ns(self) -> int {
        self.secs * 1_000_000_000 + self.nanos
    }

    pub open spec fn day(self) -> int {
        day_of_secs(self.secs as int)
    }
}

/// The moment falls on a whole minute: no seconds and no sub-second part.
pub open spec fn whole_minute(x: Moment) -> bool {
    x.nanos == 0 && x.secs % 60 == 0
}

/// Seconds since the epoch of `h:m:00` on day `d`.
pub open spec fn secs_at(d: int, h: int, m: int) -> int {
    (d - UNIX_EPOCH_DAY) * 86400 + h * 3600 + m * 60
}

/// What `NaiveDate::and_hms_opt(h, m, 0)` gives on day `d`.
pub open spec fn at_time_spec(d: int, h: u32, m: u32) -> Option<Moment> {
    if h < 24 && m < 60 {
        Some(Moment { secs: secs_at(d, h as int, m as int) as i64, nanos: 0 })
    } else {
        None
    }
}

/// Name of the weekday of day `d`, as chrono's `%A` writes it (day 1 is a Monday).
pub open spec fn weekday_name_spec(d: int) -> Seq<char> {
    let w = (d - 1) % 7;
    if w == 0 {
        "Monday"@
    } else if w == 1 {
        "Tuesday"@
    } else if w == 2 {
        "Wednesday"@
    } else if w == 3 {
        "Thursday"@
    } else if w == 4 {
        "Friday"@
    } else if w == 5 {
        "Saturday"@
    } else {
        "Sunday"@
    }
}

pub open spec fn moment_le(a: Moment, b: Moment) -> bool {
    a.ns() <= b.ns()
}

pub open spec fn moment_lt(a: Moment, b: Moment) -> bool {
    a.ns() < b.ns()
}

pub open spec fn moment_max(a: Moment, b: Moment) -> Moment {
    if moment_le(a, b) { b } else { a }
}

pub open spec fn moment_min(a: Moment, b: Moment) -> Moment {
    if moment_le(a, b) { a } else { b }
}

/// Whole minutes from `a` to `b`, for `a` no later than `b`.
pub open spec fn minutes_between_spec(a: Moment, b: Moment) -> int {
    (b.ns() - a.ns()) / 60_000_000_000
}

pub(crate) proof fn lemma_ns_order(a: Moment, b: Moment)
    requires
        a.nanos < 1_000_000_000,
        b.nanos < 1_000_000_000,
    ensures
        moment_le(a, b) <==> (a.secs < b.secs || (a.secs == b.secs && a.nanos <= b.nanos)),
        moment_lt(a, b) <==> (a.secs < b.secs || (a.secs == b.secs && a.nanos < b.nanos)),
        a.ns() == b.ns() <==> a == b,
{
    if a.secs < b.secs {
        assert(a.secs * 1_000_000_000 + 1_000_000_000 <= b.secs * 1_000_000_000) by (nonlinear_arith)
            requires a.secs < b.secs;
    } else if a.secs > b.secs {
        assert(b.secs * 1_000_000_000 + 1_000_000_000 <= a.secs * 1_000_000_000) by (nonlinear_arith)
            requires b.secs < a.secs;
    }
}

/// `a` is no later than `b`.
pub fn is_at_or_before(a: Moment, b: Moment) -> (r: bool)
    requires
        a.nanos < 1_000_000_000,
        b.nanos < 1_000_000_000,
    ensures
        r == moment_le(a, b),
{
    proof { lemma_ns_order(a, b); }
    a.secs < b.secs || (a.secs == b.secs && a.nanos <= b.nanos)
}

/// `a` is strictly earlier than `b`.
pub fn is_before(a: Moment, b: Moment) -> (r: bool)
    requires
        a.nanos < 1_000_000_000,
        b.nanos < 1_000_000_000,
    ensures
        r == moment_lt(a, b),
{
    proof { lemma_ns_order(a, b); }
    a.secs < b.secs || (a.secs == b.secs && a.nanos < b.nanos)
}

/// The later of two moments (the second one when they are equal).
pub fn later_of(a: Moment, b: Moment) -> (r: Moment)
    requires
        a.nanos < 1_000_000_000,
        b.nanos < 1_000_000_000,
    ensures
        r == moment_max(a, b),
{
    if is_at_or_before(a, b) { b } else { a }
}

/// The earlier of two moments (the first one when they are equal).
pub fn earlier_of(a: Moment, b: Moment) -> (r: Moment)
    requires
        a.nanos < 1_000_000_000,
        b.nanos < 1_000_000_000,
    ensures
        r == moment_min(a, b),
{
    if is_at_or_before(a, b) { a } else { b }
}

/// Calls `DateTime::<Utc>::date_naive` (the moment's calendar day); the
/// moment is built with `DateTime::from_timestamp` and the day is read back
/// with `num_days_from_ce`. Claimed: the day is `floor(secs / 86400)` days
/// after 1 January 1970.
#[verifier::external_body]
pub(crate) fn date_of(m: Moment) -> (d: i32)
    requires
        m.valid(),
    ensures
        d == m.day(),
{
    chrono::DateTime::from_timestamp(m.secs, m.nanos).unwrap().date_naive().num_days_from_ce()
}

/// Calls `NaiveDate::format("%A")` and renders it with `to_string`. Claimed:
/// the English name of the day's weekday, 1 January of year 1 being a Monday.
#[verifier::external_body]
pub(crate) fn weekday_name(d: i32) -> (name: String)
    requires
        MIN_DAY <= d <= MAX_DAY,
    ensures
        name@ == weekday_name_spec(d as int),
{
    chrono::NaiveDate::from_num_days_from_ce_opt(d).unwrap().format("%A").to_string()
}

/// Calls `NaiveDate::and_hms_opt(h, m, 0)`. Claimed: `None` unless `h < 24`
/// and `m < 60`, else the moment `h:m:00` of day `d`.
#[verifier::external_body]
pub(crate) fn at_time(d: i32, h: u32, m: u32) -> (r: Option<Moment>)
    requires
        MIN_DAY <= d <= MAX_DAY,
    ensures
        r == at_time_spec(d as int, h, m),
{
    match chrono::NaiveDate::from_num_days_from_ce_opt(d).unwrap().and_hms_opt(h, m, 0) {
        Some(t) => Some(Moment { secs: t.and_utc().timestamp(), nanos: t.and_utc().timestamp_subsec_nanos() }),
        None => None,
    }
}

/// Calls `NaiveDate::checked_add_days(Days::new(1))`. Claimed: the next day,
/// or `None` on chrono's last representable day.
#[verifier::external_body]
pub(crate) fn next_day(d: i32) -> (r: Option<i32>)
    requires
        MIN_DAY <= d <= MAX_DAY,
    ensures
        r == (if d < MAX_DAY { Some((d + 1) as i32) } else { None::<i32> }),
{
    match chrono::NaiveDate::from_num_days_from_ce_opt(d).unwrap().checked_add_days(chrono::Days::new(1)) {
        Some(n) => Some(n.num_days_from_ce()),
        None => None,
    }
}

/// Calls `TimeDelta::num_minutes` on the difference `b - a` of two
/// `NaiveDateTime`s. Claimed: for `a` no later than `b`, the number of whole
/// minutes from `a` to `b`.
#[verifier::external_body]
pub(crate) fn minutes_between(a: Moment, b: Moment) -> (r: i64)
    requires
        a.valid(),
        b.valid(),
        moment_le(a, b),
    ensures
        r == minutes_between_spec(a, b),
{
    (chrono::DateTime::from_timestamp(b.secs, b.nanos).unwrap().naive_utc()
        - chrono::DateTime::from_timestamp(a.secs, a.nanos).unwrap().naive_utc()).num_minutes()
}

/// Calls `NaiveDateTime + TimeDelta::minutes(n)`. Claimed: the moment `n`
/// minutes later, with the same sub-second part.
#[verifier::external_body]
pub(crate) fn add_minutes(a: Moment, n: i64) -> (r: Moment)
    requires
        a.valid(),
        0 <= n,
        (Moment { secs: (a.secs + 60 * n) as i64, nanos: a.nanos }).valid(),
        a.secs + 60 * n <= i64::MAX,
    ensures
        r == (Moment { secs: (a.secs + 60 * n) as i64, nanos: a.nanos }),
{
    let t = chrono::DateTime::from_timestamp(a.secs, a.nanos).unwrap().naive_utc() + chrono::Duration::minutes(n);
    Moment { secs: t.and_utc().timestamp(), nanos: t.and_utc().timestamp_subsec_nanos() }
}

} // verus!
