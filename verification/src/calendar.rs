//! Working-time arithmetic over a business calendar.
use crate::models::{Calendar, Holiday};
use crate::text::{
    all_digits, count_char, digits_value, first_index_of, is_digit, lemma_count_char_concat,
    lemma_count_char_digits, lemma_first_index_after, lemma_first_index_bounds, lemma_leading_zero,
    lemma_nat_decimal, nat_decimal, parse_u32, parse_u32_spec, two_digit_decimal,
};
use crate::time::{
    add_minutes, at_time, at_time_spec, date_of, earlier_of, is_at_or_before, is_before, later_of,
    lemma_ns_order, minutes_between, minutes_between_spec, moment_le, moment_lt, moment_max,
    moment_min, next_day, secs_at, weekday_name, weekday_name_spec, whole_minute, Moment, MAX_DAY,
    MIN_DAY, UNIX_EPOCH_DAY,
};
use vstd::prelude::*;

verus! {

/// The `(hour, minute)` that a calendar time text denotes: exactly one `:`
/// splitting two numbers; an unreadable hour counts as 9, an unreadable
/// minute as 0, and any other shape as 09:00.
pub open spec fn parse_time_spec(s: Seq<char>) -> (u32, u32) {
    if count_char(s, ':') == 1 {
        let p = first_index_of(s, ':');
        (
            match parse_u32_spec(s.take(p)) {
                Some(v) => v,
                None => 9u32,
            },
            match parse_u32_spec(s.skip(p + 1)) {
                Some(v) => v,
                None => 0u32,
            },
        )
    } else {
        (9u32, 0u32)
    }
}

/// Reads a calendar time such as `"09:00"` into `(hour, minute)`.
pub fn parse_time(time_str: &str) -> (r: (u32, u32))
    ensures
        r == parse_time_spec(time_str@),
{
    let n = time_str.unicode_len();
    let mut count: usize = 0;
    let mut pos: usize = 0;
    let mut i: usize = 0;
    while i < n
        invariant
            n == time_str@.len(),
            i <= n,
            count == count_char(time_str@.take(i as int), ':'),
            count <= i,
            count > 0 ==> pos == first_index_of(time_str@.take(i as int), ':') && pos < i,
            count == 0 ==> first_index_of(time_str@.take(i as int), ':') == i,
        decreases n - i,
    {
        let c = time_str.get_char(i);
        proof {
            let s = time_str@.take(i + 1);
            assert(s.drop_last() =~= time_str@.take(i as int));
            assert(s.last() == c);
        }
        if c == ':' {
            if count == 0 {
                pos = i;
            }
            count = count + 1;
        }
        i = i + 1;
    }
    proof {
        assert(time_str@.take(n as int) =~= time_str@);
    }
    if count == 1 {
        proof {
            lemma_first_index_bounds(time_str@, ':');
        }
        let h = match parse_u32(time_str.substring_char(0, pos)) {
            Some(v) => v,
            None => 9,
        };
        let m = match parse_u32(time_str.substring_char(pos + 1, n)) {
            Some(v) => v,
            None => 0,
        };
        proof {
            assert(time_str@.subrange(0, pos as int) =~= time_str@.take(pos as int));
            assert(time_str@.subrange(pos + 1, n as int) =~= time_str@.skip(pos + 1));
        }
        (h, m)
    } else {
        (9, 0)
    }
}

pub open spec fn start_hm(cal: Calendar) -> (u32, u32) {
    parse_time_spec(cal.start_time@)
}

pub open spec fn end_hm(cal: Calendar) -> (u32, u32) {
    parse_time_spec(cal.end_time@)
}

/// The calendar lists the weekday called `name` among its working days.
pub open spec fn lists_weekday(cal: Calendar, name: Seq<char>) -> bool {
    exists|i: int| 0 <= i < cal.working_days@.len() && (#[trigger] cal.working_days@[i])@ == name
}

/// Some holiday of the calendar falls on day `d`.
pub open spec fn is_holiday(cal: Calendar, d: int) -> bool {
    exists|i: int| 0 <= i < cal.holidays@.len() && (#[trigger] cal.holidays@[i]).date.day() == d
}

/// Day `d` is a working day: its weekday is listed and it is no holiday.
pub open spec fn is_business_day(cal: Calendar, d: int) -> bool {
    lists_weekday(cal, weekday_name_spec(d)) && !is_holiday(cal, d)
}

/// Start of the working window on day `d`, if the calendar's start time is a time of day.
pub open spec fn window_start(cal: Calendar, d: int) -> Option<Moment> {
    at_time_spec(d, start_hm(cal).0, start_hm(cal).1)
}

/// End of the working window on day `d`, if the calendar's end time is a time of day.
pub open spec fn window_end(cal: Calendar, d: int) -> Option<Moment> {
    at_time_spec(d, end_hm(cal).0, end_hm(cal).1)
}

/// Whole working minutes of day `d` that fall between `a` and `b`.
pub open spec fn day_credit(cal: Calendar, d: int, a: Moment, b: Moment) -> int {
    if is_business_day(cal, d) && window_start(cal, d) is Some && window_end(cal, d) is Some {
        let s = moment_max(a, window_start(cal, d)->0);
        let e = moment_min(b, window_end(cal, d)->0);
        if moment_lt(s, e) {
            minutes_between_spec(s, e)
        } else {
            0
        }
    } else {
        0
    }
}

/// Sum of `day_credit` over the days `lo .. hi`.
pub open spec fn credit_over(cal: Calendar, lo: int, hi: int, a: Moment, b: Moment) -> int
    decreases hi - lo,
{
    if hi <= lo {
        0
    } else {
        credit_over(cal, lo, hi - 1, a, b) + day_credit(cal, hi - 1, a, b)
    }
}

/// Working minutes between `a` and `b`: the whole working minutes of each day
/// from `a`'s day to `b`'s day, summed; nothing when `b` is not after `a`.
pub open spec fn working_minutes_spec(a: Moment, b: Moment, cal: Calendar) -> int {
    if moment_le(b, a) {
        0
    } else {
        credit_over(cal, a.day(), b.day() + 1, a, b)
    }
}

proof fn lemma_at_time_on_day(d: int, h: u32, m: u32)
    requires
        MIN_DAY <= d <= MAX_DAY,
        at_time_spec(d, h, m) is Some,
    ensures
        at_time_spec(d, h, m)->0.valid(),
        at_time_spec(d, h, m)->0.day() == d,
        (d - UNIX_EPOCH_DAY) * 86400 <= at_time_spec(d, h, m)->0.secs < (d - UNIX_EPOCH_DAY) * 86400 + 86400,
{
    let r = h * 3600 + m * 60;
    assert(0 <= r < 86400);
    let q = d - UNIX_EPOCH_DAY;
    assert((q * 86400 + r) / 86400 == q) by (nonlinear_arith)
        requires 0 <= r < 86400;
}

/// A moment's day bounds its seconds.
proof fn lemma_day_bounds(x: Moment)
    ensures
        (x.day() - UNIX_EPOCH_DAY) * 86400 <= x.secs < (x.day() - UNIX_EPOCH_DAY) * 86400 + 86400,
{
    let s = x.secs as int;
    assert(s / 86400 * 86400 <= s < s / 86400 * 86400 + 86400) by (nonlinear_arith);
}

/// Days are ordered as the moments in them.
proof fn lemma_day_monotone(x: Moment, y: Moment)
    requires
        x.nanos < 1_000_000_000,
        y.nanos < 1_000_000_000,
        moment_le(x, y),
    ensures
        x.day() <= y.day(),
{
    lemma_ns_order(x, y);
    let a = x.secs as int;
    let b = y.secs as int;
    assert(a / 86400 <= b / 86400) by (nonlinear_arith)
        requires a <= b;
}

/// No day gives more than a day's worth of minutes, nor a negative amount.
proof fn lemma_day_credit_bounds(cal: Calendar, d: int, a: Moment, b: Moment)
    requires
        MIN_DAY <= d <= MAX_DAY,
        a.nanos < 1_000_000_000,
        b.nanos < 1_000_000_000,
    ensures
        0 <= day_credit(cal, d, a, b) <= 1440,
{
    if is_business_day(cal, d) && window_start(cal, d) is Some && window_end(cal, d) is Some {
        let ws = window_start(cal, d)->0;
        let we = window_end(cal, d)->0;
        lemma_at_time_on_day(d, start_hm(cal).0, start_hm(cal).1);
        lemma_at_time_on_day(d, end_hm(cal).0, end_hm(cal).1);
        let s = moment_max(a, ws);
        let e = moment_min(b, we);
        if moment_lt(s, e) {
            let q = d - UNIX_EPOCH_DAY;
            assert(s.ns() >= ws.ns());
            assert(e.ns() <= we.ns());
            assert(ws.ns() >= q * 86400 * 1_000_000_000);
            assert(we.ns() < (q * 86400 + 86400) * 1_000_000_000);
            let diff = e.ns() - s.ns();
            assert(0 < diff < 86400 * 1_000_000_000);
            assert(diff / 60_000_000_000 <= 1440) by (nonlinear_arith)
                requires 0 < diff < 86400 * 1_000_000_000;
            assert(diff / 60_000_000_000 >= 0) by (nonlinear_arith)
                requires 0 < diff;
        }
    }
}

/// The calendar lists the weekday called `name` among its working days.
fn lists_weekday_exec(cal: &Calendar, name: &String) -> (r: bool)
    ensures
        r == lists_weekday(*cal, name@),
{
    let mut i: usize = 0;
    while i < cal.working_days.len()
        invariant
            i <= cal.working_days@.len(),
            forall|j: int| 0 <= j < i ==> (#[trigger] cal.working_days@[j])@ != name@,
        decreases cal.working_days@.len() - i,
    {
        if cal.working_days[i] == *name {
            return true;
        }
        i = i + 1;
    }
    false
}

/// Some holiday of the calendar falls on day `d`.
fn is_holiday_exec(cal: &Calendar, d: i32) -> (r: bool)
    requires
        cal.wf(),
    ensures
        r == is_holiday(*cal, d as int),
{
    let mut i: usize = 0;
    while i < cal.holidays.len()
        invariant
            cal.wf(),
            i <= cal.holidays@.len(),
            forall|j: int| 0 <= j < i ==> (#[trigger] cal.holidays@[j]).date.day() != d,
        decreases cal.holidays@.len() - i,
    {
        let h: &Holiday = &cal.holidays[i];
        proof {
            assert(cal.holidays@[i as int].date.valid());
        }
        if date_of(h.date) == d {
            return true;
        }
        i = i + 1;
    }
    false
}

/// Day `d` is a working day of the calendar.
fn is_business_day_exec(cal: &Calendar, d: i32) -> (r: bool)
    requires
        cal.wf(),
        MIN_DAY <= d <= MAX_DAY,
    ensures
        r == is_business_day(*cal, d as int),
{
    let name = weekday_name(d);
    let listed = lists_weekday_exec(cal, &name);
    let holiday = is_holiday_exec(cal, d);
    listed && !holiday
}

/// Counts the whole working minutes between `started_at` and `ended_at`,
/// day by day, inside the calendar's working window on its working days.
pub fn calculate_working_minutes(started_at: Moment, ended_at: Moment, calendar: &Calendar) -> (r: i64)
    requires
        started_at.valid(),
        ended_at.valid(),
        calendar.wf(),
    ensures
        r == working_minutes_spec(started_at, ended_at, *calendar),
        r >= 0,
        moment_le(ended_at, started_at) ==> r == 0,
{
    if is_at_or_before(ended_at, started_at) {
        return 0;
    }
    let (start_h, start_m) = parse_time(calendar.start_time.as_str());
    let (end_h, end_m) = parse_time(calendar.end_time.as_str());

    let mut total_minutes: i64 = 0;
    let start_day = date_of(started_at);
    let end_day = date_of(ended_at);
    proof {
        lemma_day_monotone(started_at, ended_at);
    }
    let mut current_day = start_day;
    while current_day <= end_day
        invariant_except_break
            start_day <= current_day <= end_day + 1,
            total_minutes == credit_over(*calendar, start_day as int, current_day as int, started_at, ended_at),
            0 <= total_minutes <= 1440 * (current_day - start_day),
        invariant
            started_at.valid(),
            ended_at.valid(),
            calendar.wf(),
            start_day == started_at.day(),
            end_day == ended_at.day(),
            start_day <= end_day,
            (start_h, start_m) == start_hm(*calendar),
            (end_h, end_m) == end_hm(*calendar),
            start_day <= current_day <= MAX_DAY,
        ensures
            total_minutes == credit_over(*calendar, start_day as int, end_day + 1, started_at, ended_at),
            total_minutes >= 0,
        decreases end_day + 1 - current_day,
    {
        proof {
            lemma_day_credit_bounds(*calendar, current_day as int, started_at, ended_at);
        }
        let working = is_business_day_exec(calendar, current_day);
        if working {
            let ws = at_time(current_day, start_h, start_m);
            let we = at_time(current_day, end_h, end_m);
            if let (Some(work_start), Some(work_end)) = (ws, we) {
                proof {
                    lemma_at_time_on_day(current_day as int, start_h, start_m);
                    lemma_at_time_on_day(current_day as int, end_h, end_m);
                }
                let intersect_start = later_of(started_at, work_start);
                let intersect_end = earlier_of(ended_at, work_end);
                if is_before(intersect_start, intersect_end) {
                    let m = minutes_between(intersect_start, intersect_end);
                    total_minutes = total_minutes + m;
                }
            }
        }
        match next_day(current_day) {
            Some(next) => {
                current_day = next;
            },
            None => {
                break;
            },
        }
    }
    total_minutes
}

/// Adding `rem` working minutes from `cur`, which lies on day `d`. The
/// result is `None` where a needed working window cannot be formed (a
/// calendar time that is no time of day).
pub open spec fn add_from_day(cal: Calendar, d: int, cur: Moment, rem: int) -> Option<Moment>
    decreases MAX_DAY - d,
{
    if rem <= 0 {
        Some(cur)
    } else {
        let business = is_business_day(cal, d);
        let ws = window_start(cal, d)->0;
        let we = window_end(cal, d)->0;
        let a = moment_max(cur, ws);
        let open = business && moment_lt(a, we);
        let avail = minutes_between_spec(a, we);
        if business && (window_start(cal, d) is None || window_end(cal, d) is None) {
            None
        } else if open && rem <= avail {
            Some(Moment { secs: (a.secs + 60 * rem) as i64, nanos: a.nanos })
        } else {
            let carried = if open { we } else { cur };
            let left = if open { rem - avail } else { rem };
            if d < MAX_DAY {
                match window_start(cal, d + 1) {
                    Some(next_start) => add_from_day(cal, d + 1, next_start, left),
                    None => None,
                }
            } else {
                Some(carried)
            }
        }
    }
}

/// The moment reached by adding `n` working minutes to `start`: it lies `n`
/// minutes into the working windows that follow `start`, the first window
/// counted from `start` itself. `None` where the calendar's times cannot form
/// a needed window.
pub open spec fn add_working_minutes_spec(start: Moment, n: int, cal: Calendar) -> Option<Moment> {
    if n <= 0 {
        Some(start)
    } else {
        add_from_day(cal, start.day(), start, n)
    }
}

proof fn lemma_fits_in_window(a: Moment, we: Moment, rem: int)
    requires
        a.valid(),
        we.valid(),
        moment_lt(a, we),
        0 < rem <= minutes_between_spec(a, we),
    ensures
        (Moment { secs: (a.secs + 60 * rem) as i64, nanos: a.nanos }).valid(),
        moment_le(Moment { secs: (a.secs + 60 * rem) as i64, nanos: a.nanos }, we),
        a.secs + 60 * rem <= i64::MAX,
{
    let diff = we.ns() - a.ns();
    assert(rem * 60_000_000_000 <= diff) by (nonlinear_arith)
        requires 0 < rem <= diff / 60_000_000_000, diff > 0;
    let r = Moment { secs: (a.secs + 60 * rem) as i64, nanos: a.nanos };
    lemma_ns_order(a, we);
    assert(a.secs + 60 * rem <= we.secs) by (nonlinear_arith)
        requires
            rem * 60_000_000_000 <= we.secs * 1_000_000_000 + we.nanos - (a.secs * 1_000_000_000 + a.nanos),
            a.nanos < 1_000_000_000,
            we.nanos < 1_000_000_000;
    assert(r.ns() == a.ns() + rem * 60_000_000_000);
    lemma_day_monotone(a, r);
    lemma_day_monotone(r, we);
}

/// Adds working minutes to a moment, or `None` where the calendar's times
/// cannot form a working window that the addition needs.
pub fn try_add_working_minutes(start_dt: Moment, minutes_to_add: i64, calendar: &Calendar) -> (r: Option<Moment>)
    requires
        start_dt.valid(),
        calendar.wf(),
    ensures
        r == add_working_minutes_spec(start_dt, minutes_to_add as int, *calendar),
{
    if minutes_to_add <= 0 {
        return Some(start_dt);
    }
    let (start_h, start_m) = parse_time(calendar.start_time.as_str());
    let (end_h, end_m) = parse_time(calendar.end_time.as_str());

    let mut current_dt = start_dt;
    let mut minutes_remaining = minutes_to_add;

    loop
        invariant
            calendar.wf(),
            current_dt.valid(),
            minutes_remaining > 0,
            (start_h, start_m) == start_hm(*calendar),
            (end_h, end_m) == end_hm(*calendar),
            add_working_minutes_spec(start_dt, minutes_to_add as int, *calendar)
                == add_from_day(*calendar, current_dt.day(), current_dt, minutes_remaining as int),
        decreases MAX_DAY - current_dt.day(),
    {
        let current_day = date_of(current_dt);
        let business = is_business_day_exec(calendar, current_day);
        let ghost rem0 = minutes_remaining as int;
        let ghost cur0 = current_dt;
        let mut open = false;
        if business {
            let ws_opt = at_time(current_day, start_h, start_m);
            let we_opt = at_time(current_day, end_h, end_m);
            match (ws_opt, we_opt) {
                (Some(work_start), Some(work_end)) => {
                    proof {
                        lemma_at_time_on_day(current_day as int, start_h, start_m);
                        lemma_at_time_on_day(current_day as int, end_h, end_m);
                    }
                    let active_start = later_of(current_dt, work_start);
                    if is_before(active_start, work_end) {
                        open = true;
                        let available_minutes = minutes_between(active_start, work_end);
                        if minutes_remaining <= available_minutes {
                            proof {
                                lemma_fits_in_window(active_start, work_end, minutes_remaining as int);
                            }
                            return Some(add_minutes(active_start, minutes_remaining));
                        } else {
                            minutes_remaining = minutes_remaining - available_minutes;
                            current_dt = work_end;
                        }
                    }
                },
                _ => {
                    return None;
                },
            }
        }
        proof {
            let cal = *calendar;
            let d = current_day as int;
            assert(add_from_day(cal, d, cur0, rem0) == if d < MAX_DAY {
                match window_start(cal, d + 1) {
                    Some(next_start) => add_from_day(cal, d + 1, next_start, minutes_remaining as int),
                    None => None,
                }
            } else {
                Some(current_dt)
            });
        }
        match next_day(current_day) {
            Some(next) => {
                match at_time(next, start_h, start_m) {
                    Some(next_work_start) => {
                        proof {
                            lemma_at_time_on_day(next as int, start_h, start_m);
                        }
                        current_dt = next_work_start;
                    },
                    None => {
                        return None;
                    },
                }
            },
            None => {
                return Some(current_dt);
            },
        }
    }
}

/// Adds `minutes_to_add` working minutes to `start_dt`: the time runs only
/// inside the calendar's working windows on its working days.
pub fn add_working_minutes(start_dt: Moment, minutes_to_add: i64, calendar: &Calendar) -> (r: Moment)
    requires
        start_dt.valid(),
        calendar.wf(),
        add_working_minutes_spec(start_dt, minutes_to_add as int, *calendar) is Some,
    ensures
        r == add_working_minutes_spec(start_dt, minutes_to_add as int, *calendar)->0,
        minutes_to_add <= 0 ==> r == start_dt,
        r.valid(),
        moment_le(start_dt, r),
        minutes_to_add > 0 ==> (working_minutes_spec(start_dt, r, *calendar) == minutes_to_add || (r.day()
            == MAX_DAY && working_minutes_spec(start_dt, r, *calendar) < minutes_to_add)),
        minutes_to_add > 0 ==> forall|t: Moment|
            t.valid() && moment_lt(t, r) ==> #[trigger] working_minutes_spec(start_dt, t, *calendar)
                < minutes_to_add,
{
    proof {
        if minutes_to_add > 0 {
            law_add_then_measure(start_dt, minutes_to_add as int, *calendar);
        }
    }
    match try_add_working_minutes(start_dt, minutes_to_add, calendar) {
        Some(r) => r,
        None => start_dt,
    }
}

/// Whole working minutes of day `d` from `a` onward.
pub open spec fn day_credit_after(cal: Calendar, d: int, a: Moment) -> int {
    if is_business_day(cal, d) && window_start(cal, d) is Some && window_end(cal, d) is Some {
        let s = moment_max(a, window_start(cal, d)->0);
        let e = window_end(cal, d)->0;
        if moment_lt(s, e) {
            minutes_between_spec(s, e)
        } else {
            0
        }
    } else {
        0
    }
}

/// Sum of `day_credit_after` over the days `lo .. hi`.
pub open spec fn credit_after_over(cal: Calendar, lo: int, hi: int, a: Moment) -> int
    decreases hi - lo,
{
    if hi <= lo {
        0
    } else {
        credit_after_over(cal, lo, hi - 1, a) + day_credit_after(cal, hi - 1, a)
    }
}

/// A moment on an earlier day is an earlier moment.
proof fn lemma_earlier_day(x: Moment, y: Moment)
    requires
        x.day() < y.day(),
        x.nanos < 1_000_000_000,
    ensures
        moment_lt(x, y),
        x.secs < y.secs,
{
    lemma_day_bounds(x);
    lemma_day_bounds(y);
    assert((x.day() - UNIX_EPOCH_DAY) * 86400 + 86400 <= (y.day() - UNIX_EPOCH_DAY) * 86400) by (nonlinear_arith)
        requires x.day() < y.day();
    assert(x.secs * 1_000_000_000 + 1_000_000_000 <= y.secs * 1_000_000_000) by (nonlinear_arith)
        requires x.secs < y.secs;
}

/// Days wholly before `b`'s day are counted in full when measuring up to `b`.
proof fn lemma_credit_before_end(cal: Calendar, lo: int, hi: int, a: Moment, b: Moment)
    requires
        MIN_DAY <= lo,
        hi <= b.day(),
        b.day() <= MAX_DAY + 1,
        a.nanos < 1_000_000_000,
        b.nanos < 1_000_000_000,
    ensures
        credit_over(cal, lo, hi, a, b) == credit_after_over(cal, lo, hi, a),
    decreases hi - lo,
{
    if hi > lo {
        lemma_credit_before_end(cal, lo, hi - 1, a, b);
        let d = hi - 1;
        if is_business_day(cal, d) && window_start(cal, d) is Some && window_end(cal, d) is Some {
            lemma_at_time_on_day(d, end_hm(cal).0, end_hm(cal).1);
            lemma_earlier_day(window_end(cal, d)->0, b);
        }
    }
}

proof fn lemma_minutes_of_whole_minutes(a: Moment, rem: int)
    requires
        a.secs + 60 * rem <= i64::MAX,
        i64::MIN <= a.secs + 60 * rem,
        rem >= 0,
    ensures
        minutes_between_spec(a, Moment { secs: (a.secs + 60 * rem) as i64, nanos: a.nanos }) == rem,
{
    let r = Moment { secs: (a.secs + 60 * rem) as i64, nanos: a.nanos };
    assert(r.ns() - a.ns() == rem * 60_000_000_000) by (nonlinear_arith)
        requires r.secs == a.secs + 60 * rem, r.nanos == a.nanos;
    assert((rem * 60_000_000_000) / 60_000_000_000 == rem) by (nonlinear_arith);
}

proof fn lemma_add_from_day(cal: Calendar, s: Moment, d: int, cur: Moment, rem: int, n: int)
    requires
        cal.wf(),
        s.valid(),
        cur.valid(),
        cur.day() == d,
        MIN_DAY <= s.day() <= d <= MAX_DAY,
        d == s.day() ==> cur == s,
        d > s.day() ==> window_start(cal, d) == Some(cur),
        rem > 0,
        credit_after_over(cal, s.day(), d, s) + rem == n,
        add_from_day(cal, d, cur, rem) is Some,
    ensures
        ({
            let r = add_from_day(cal, d, cur, rem)->0;
            &&& r.valid()
            &&& moment_le(s, r)
            &&& (working_minutes_spec(s, r, cal) == n || (r.day() == MAX_DAY
                && working_minutes_spec(s, r, cal) < n && (s.day() < MAX_DAY ==> r == last_day_stop(cal))))
        }),
    decreases MAX_DAY - d,
{
    let business = is_business_day(cal, d);
    let ws = window_start(cal, d)->0;
    let we = window_end(cal, d)->0;
    let a = moment_max(cur, ws);
    let open = business && moment_lt(a, we);
    let avail = minutes_between_spec(a, we);
    let lo = s.day();
    if d > lo {
        lemma_earlier_day(s, cur);
    }
    if business {
        lemma_at_time_on_day(d, start_hm(cal).0, start_hm(cal).1);
        lemma_at_time_on_day(d, end_hm(cal).0, end_hm(cal).1);
        // measured from `s`, day `d` starts where the addition starts
        assert(moment_max(s, ws) == a) by {
            lemma_ns_order(s, ws);
            lemma_ns_order(cur, ws);
        }
    }
    assert(day_credit_after(cal, d, s) == if open { avail } else { 0 });
    let r = add_from_day(cal, d, cur, rem)->0;
    if open && rem <= avail {
        lemma_fits_in_window(a, we, rem);
        lemma_minutes_of_whole_minutes(a, rem);
        assert(r == Moment { secs: (a.secs + 60 * rem) as i64, nanos: a.nanos });
        lemma_ns_order(a, r);
        lemma_day_monotone(a, r);
        lemma_day_monotone(r, we);
        assert(r.day() == d);
        lemma_credit_before_end(cal, lo, d, s, r);
        assert(moment_le(s, a)) by { lemma_ns_order(s, ws); lemma_ns_order(cur, ws); }
        assert(working_minutes_spec(s, r, cal) == credit_over(cal, lo, d + 1, s, r));
        assert(day_credit(cal, d, s, r) == rem);
    } else {
        let carried = if open { we } else { cur };
        let left = if open { rem - avail } else { rem };
        assert(credit_after_over(cal, lo, d + 1, s) + left == n);
        if d < MAX_DAY {
            let next_start = window_start(cal, d + 1)->0;
            lemma_at_time_on_day(d + 1, start_hm(cal).0, start_hm(cal).1);
            lemma_add_from_day(cal, s, d + 1, next_start, left, n);
        } else {
            assert(r == carried);
            assert(carried.day() == d);
            if open {
                lemma_credit_before_end(cal, lo, d, s, r);
                lemma_ns_order(s, we);
                assert(moment_lt(s, we));
                assert(working_minutes_spec(s, r, cal) == credit_over(cal, lo, d + 1, s, r));
                assert(day_credit(cal, d, s, r) == avail);
            } else if d > lo {
                lemma_credit_before_end(cal, lo, d, s, r);
                assert(working_minutes_spec(s, r, cal) == credit_over(cal, lo, d + 1, s, r));
                assert(day_credit(cal, d, s, r) == 0) by {
                    lemma_ns_order(s, ws);
                    lemma_ns_order(cur, ws);
                }
            } else {
                lemma_ns_order(s, r);
            }
        }
    }
}

/// Before the moment that an addition reaches, fewer working minutes than
/// were added have passed since the start.
proof fn lemma_add_from_day_earliest(cal: Calendar, s: Moment, d: int, cur: Moment, rem: int, n: int, t: Moment)
    requires
        cal.wf(),
        s.valid(),
        cur.valid(),
        cur.day() == d,
        MIN_DAY <= s.day() <= d <= MAX_DAY,
        d == s.day() ==> cur == s,
        d > s.day() ==> window_start(cal, d) == Some(cur),
        rem > 0,
        credit_after_over(cal, s.day(), d, s) + rem == n,
        add_from_day(cal, d, cur, rem) is Some,
        t.valid(),
        moment_lt(t, add_from_day(cal, d, cur, rem)->0),
    ensures
        working_minutes_spec(s, t, cal) < n,
    decreases MAX_DAY - d,
{
    let business = is_business_day(cal, d);
    let ws = window_start(cal, d)->0;
    let we = window_end(cal, d)->0;
    let a = moment_max(cur, ws);
    let open = business && moment_lt(a, we);
    let avail = minutes_between_spec(a, we);
    let lo = s.day();
    let r = add_from_day(cal, d, cur, rem)->0;
    lemma_add_from_day(cal, s, d, cur, rem, n);
    if d > lo {
        lemma_earlier_day(s, cur);
    }
    if business {
        lemma_at_time_on_day(d, start_hm(cal).0, start_hm(cal).1);
        lemma_at_time_on_day(d, end_hm(cal).0, end_hm(cal).1);
        assert(moment_max(s, ws) == a) by {
            lemma_ns_order(s, ws);
            lemma_ns_order(cur, ws);
        }
    }
    assert(day_credit_after(cal, d, s) == if open { avail } else { 0 });
    if open && rem <= avail {
        lemma_fits_in_window(a, we, rem);
        assert(r == Moment { secs: (a.secs + 60 * rem) as i64, nanos: a.nanos });
        assert(a.valid());
        assert(moment_le(s, a)) by {
            lemma_ns_order(s, ws);
            lemma_ns_order(cur, ws);
        }
        assert(a.day() == d) by {
            lemma_ns_order(cur, ws);
        }
        // Up to `a`, only the days before `d` count.
        assert(working_minutes_spec(s, a, cal) < n) by {
            if !moment_le(a, s) {
                lemma_credit_before_end(cal, lo, d, s, a);
                assert(working_minutes_spec(s, a, cal) == credit_over(cal, lo, d + 1, s, a));
                assert(day_credit(cal, d, s, a) == 0);
            }
        }
        if moment_le(t, a) {
            law_working_minutes_monotone(s, t, a, cal);
        } else {
            lemma_day_monotone(a, t);
            lemma_day_monotone(t, r);
            lemma_day_monotone(r, we);
            lemma_day_monotone(a, r);
            assert(t.day() == d);
            lemma_ns_order(s, t);
            lemma_credit_before_end(cal, lo, d, s, t);
            assert(working_minutes_spec(s, t, cal) == credit_over(cal, lo, d + 1, s, t));
            let e = moment_min(t, we);
            assert(r.ns() == a.ns() + rem * 60_000_000_000) by (nonlinear_arith)
                requires r.secs == a.secs + 60 * rem, r.nanos == a.nanos;
            let x = e.ns() - a.ns();
            assert(x < rem * 60_000_000_000);
            assert(x / 60_000_000_000 < rem) by (nonlinear_arith)
                requires x < rem * 60_000_000_000, rem > 0;
            assert(day_credit(cal, d, s, t) < rem);
        }
    } else {
        let left = if open { rem - avail } else { rem };
        assert(credit_after_over(cal, lo, d + 1, s) + left == n);
        if d < MAX_DAY {
            let next_start = window_start(cal, d + 1)->0;
            lemma_at_time_on_day(d + 1, start_hm(cal).0, start_hm(cal).1);
            lemma_add_from_day_earliest(cal, s, d + 1, next_start, left, n, t);
        } else {
            let carried = if open { we } else { cur };
            assert(r == carried);
            if open {
                lemma_credit_before_end(cal, lo, d, s, r);
                lemma_ns_order(s, we);
                assert(working_minutes_spec(s, r, cal) == credit_over(cal, lo, d + 1, s, r));
                assert(day_credit(cal, d, s, r) == avail);
            } else if d > lo {
                lemma_credit_before_end(cal, lo, d, s, r);
                assert(working_minutes_spec(s, r, cal) == credit_over(cal, lo, d + 1, s, r));
                assert(day_credit(cal, d, s, r) == 0) by {
                    lemma_ns_order(s, ws);
                    lemma_ns_order(cur, ws);
                }
            } else {
                lemma_ns_order(s, r);
            }
            assert(working_minutes_spec(s, r, cal) < n);
            law_working_minutes_monotone(s, t, r, cal);
        }
    }
}

/// Where an addition that runs out of days stops, from a start before
/// chrono's last day: the close of that day's working window when the day is
/// a working day with an open window, else the window's opening.
pub open spec fn last_day_stop(cal: Calendar) -> Moment {
    let ws = window_start(cal, MAX_DAY as int)->0;
    let we = window_end(cal, MAX_DAY as int)->0;
    if is_business_day(cal, MAX_DAY as int) && moment_lt(ws, we) {
        we
    } else {
        ws
    }
}

/// Law: measuring back from the start the working time that
/// `add_working_minutes` added gives back exactly the minutes added, unless
/// the addition ran out of representable days, in which case it stops on
/// chrono's last day having added less (at `last_day_stop` when it started
/// before that day). The result never lies before the
/// start, and before the result fewer minutes than were added have passed:
/// it is the first moment at which they all have.
pub proof fn law_add_then_measure(start: Moment, n: int, cal: Calendar)
    requires
        start.valid(),
        cal.wf(),
        n > 0,
        add_working_minutes_spec(start, n, cal) is Some,
    ensures
        ({
            let r = add_working_minutes_spec(start, n, cal)->0;
            &&& r.valid()
            &&& moment_le(start, r)
            &&& (working_minutes_spec(start, r, cal) == n || (r.day() == MAX_DAY
                && working_minutes_spec(start, r, cal) < n && (start.day() < MAX_DAY ==> r
                == last_day_stop(cal))))
            &&& forall|t: Moment|
                t.valid() && moment_lt(t, r) ==> #[trigger] working_minutes_spec(start, t, cal) < n
        }),
{
    lemma_add_from_day(cal, start, start.day(), start, n, n);
    let r = add_working_minutes_spec(start, n, cal)->0;
    assert forall|t: Moment| t.valid() && moment_lt(t, r) implies #[trigger] working_minutes_spec(start, t, cal) < n by {
        lemma_add_from_day_earliest(cal, start, start.day(), start, n, n, t);
    }
}

proof fn lemma_credit_over_grows(cal: Calendar, lo: int, hi1: int, hi2: int, a: Moment, b: Moment)
    requires
        MIN_DAY <= lo,
        hi1 <= hi2 <= MAX_DAY + 1,
        a.nanos < 1_000_000_000,
        b.nanos < 1_000_000_000,
    ensures
        credit_over(cal, lo, hi1, a, b) <= credit_over(cal, lo, hi2, a, b),
        credit_over(cal, lo, hi2, a, b) >= 0,
    decreases hi2 - lo,
{
    if hi2 > lo {
        lemma_day_credit_bounds(cal, hi2 - 1, a, b);
        if hi1 < hi2 {
            lemma_credit_over_grows(cal, lo, hi1, hi2 - 1, a, b);
        } else {
            lemma_credit_over_grows(cal, lo, hi1 - 1, hi2 - 1, a, b);
        }
    }
}

proof fn lemma_day_credit_grows(cal: Calendar, d: int, a: Moment, b: Moment, c: Moment)
    requires
        moment_le(b, c),
    ensures
        day_credit(cal, d, a, b) <= day_credit(cal, d, a, c),
{
    if is_business_day(cal, d) && window_start(cal, d) is Some && window_end(cal, d) is Some {
        let s = moment_max(a, window_start(cal, d)->0);
        let eb = moment_min(b, window_end(cal, d)->0);
        let ec = moment_min(c, window_end(cal, d)->0);
        if moment_lt(s, eb) {
            let x = eb.ns() - s.ns();
            let y = ec.ns() - s.ns();
            assert(x / 60_000_000_000 <= y / 60_000_000_000) by (nonlinear_arith)
                requires 0 < x <= y;
        }
    }
}

/// Law: working time only grows as the end moves later.
pub proof fn law_working_minutes_monotone(a: Moment, b: Moment, c: Moment, cal: Calendar)
    requires
        a.valid(),
        b.valid(),
        c.valid(),
        moment_le(b, c),
    ensures
        0 <= working_minutes_spec(a, b, cal) <= working_minutes_spec(a, c, cal),
{
    let lo = a.day();
    lemma_day_monotone(b, c);
    if !moment_le(c, a) {
        lemma_day_monotone(a, c);
        lemma_credit_over_grows(cal, lo, lo, c.day() + 1, a, c);
    }
    if !moment_le(b, a) {
        lemma_day_monotone(a, b);
        let db = b.day();
        lemma_credit_before_end(cal, lo, db, a, b);
        lemma_credit_before_end(cal, lo, db, a, c);
        lemma_day_credit_grows(cal, db, a, b, c);
        lemma_day_credit_bounds(cal, db, a, b);
        lemma_credit_over_grows(cal, lo, db, db, a, b);
        lemma_credit_over_grows(cal, lo, db + 1, c.day() + 1, a, c);
    }
}

/// Nanoseconds since the epoch at which day `d` begins.
spec fn day_start_ns(d: int) -> int {
    (d - UNIX_EPOCH_DAY) * 86400 * 1_000_000_000
}

proof fn lemma_credit_within(cal: Calendar, hi: int, a: Moment, b: Moment)
    requires
        a.valid(),
        b.valid(),
        moment_lt(a, b),
        a.day() <= hi <= b.day() + 1,
    ensures
        credit_over(cal, a.day(), hi, a, b) * 60_000_000_000 <= if b.ns() <= day_start_ns(hi) {
            b.ns() - a.ns()
        } else if day_start_ns(hi) <= a.ns() {
            0
        } else {
            day_start_ns(hi) - a.ns()
        },
    decreases hi - a.day(),
{
    let lo = a.day();
    lemma_day_bounds(a);
    lemma_day_bounds(b);
    assert(day_start_ns(lo) <= a.ns()) by (nonlinear_arith)
        requires (lo - UNIX_EPOCH_DAY) * 86400 <= a.secs, a.ns() == a.secs * 1_000_000_000 + a.nanos, a.nanos >= 0,
            day_start_ns(lo) == (lo - UNIX_EPOCH_DAY) * 86400 * 1_000_000_000;
    assert(b.ns() < day_start_ns(b.day() + 1)) by (nonlinear_arith)
        requires b.secs < (b.day() - UNIX_EPOCH_DAY) * 86400 + 86400, b.ns() == b.secs * 1_000_000_000 + b.nanos,
            b.nanos < 1_000_000_000,
            day_start_ns(b.day() + 1) == (b.day() + 1 - UNIX_EPOCH_DAY) * 86400 * 1_000_000_000;
    if hi > lo {
        let d = hi - 1;
        lemma_credit_within(cal, d, a, b);
        assert(day_start_ns(d) + 86400 * 1_000_000_000 == day_start_ns(hi)) by (nonlinear_arith)
            requires day_start_ns(d) == (d - UNIX_EPOCH_DAY) * 86400 * 1_000_000_000,
                day_start_ns(hi) == (hi - UNIX_EPOCH_DAY) * 86400 * 1_000_000_000, hi == d + 1;
        if d < b.day() {
            assert(day_start_ns(d + 1) <= day_start_ns(b.day())) by (nonlinear_arith)
                requires d + 1 <= b.day(),
                    day_start_ns(d + 1) == (d + 1 - UNIX_EPOCH_DAY) * 86400 * 1_000_000_000,
                    day_start_ns(b.day()) == (b.day() - UNIX_EPOCH_DAY) * 86400 * 1_000_000_000;
            assert(day_start_ns(b.day()) <= b.ns()) by (nonlinear_arith)
                requires (b.day() - UNIX_EPOCH_DAY) * 86400 <= b.secs, b.ns() == b.secs * 1_000_000_000 + b.nanos,
                    b.nanos >= 0, day_start_ns(b.day()) == (b.day() - UNIX_EPOCH_DAY) * 86400 * 1_000_000_000;
        }
        let c = day_credit(cal, d, a, b);
        if c > 0 {
            let ws = window_start(cal, d)->0;
            let we = window_end(cal, d)->0;
            lemma_at_time_on_day(d, start_hm(cal).0, start_hm(cal).1);
            lemma_at_time_on_day(d, end_hm(cal).0, end_hm(cal).1);
            let st = moment_max(a, ws);
            let en = moment_min(b, we);
            assert(day_start_ns(d) <= ws.ns()) by (nonlinear_arith)
                requires (d - UNIX_EPOCH_DAY) * 86400 <= ws.secs, ws.ns() == ws.secs * 1_000_000_000 + ws.nanos,
                    ws.nanos >= 0, day_start_ns(d) == (d - UNIX_EPOCH_DAY) * 86400 * 1_000_000_000;
            assert(we.ns() < day_start_ns(hi)) by (nonlinear_arith)
                requires we.secs < (d - UNIX_EPOCH_DAY) * 86400 + 86400, we.ns() == we.secs * 1_000_000_000 + we.nanos,
                    we.nanos == 0, day_start_ns(hi) == (d + 1 - UNIX_EPOCH_DAY) * 86400 * 1_000_000_000;
            let x = en.ns() - st.ns();
            assert(c * 60_000_000_000 <= x) by (nonlinear_arith)
                requires c == x / 60_000_000_000, x > 0;
        }
    }
}

/// Law: working time never exceeds the whole minutes that passed.
pub proof fn law_working_minutes_within_elapsed(a: Moment, b: Moment, cal: Calendar)
    requires
        a.valid(),
        b.valid(),
        moment_le(a, b),
    ensures
        working_minutes_spec(a, b, cal) <= minutes_between_spec(a, b),
{
    if moment_lt(a, b) {
        lemma_day_monotone(a, b);
        lemma_credit_within(cal, b.day() + 1, a, b);
        let w = working_minutes_spec(a, b, cal);
        let x = b.ns() - a.ns();
        assert(w <= x / 60_000_000_000) by (nonlinear_arith)
            requires w * 60_000_000_000 <= x;
    }
}

proof fn lemma_whole_minute_ns(x: Moment)
    requires
        whole_minute(x),
    ensures
        x.ns() == (x.secs / 60) * 60_000_000_000,
{
    let s = x.secs as int;
    assert(s * 1_000_000_000 == (s / 60) * 60_000_000_000) by (nonlinear_arith)
        requires s % 60 == 0;
}

/// A working window opens and closes on whole minutes.
proof fn lemma_window_whole_minute(d: int, h: u32, m: u32)
    requires
        MIN_DAY <= d <= MAX_DAY,
        at_time_spec(d, h, m) is Some,
    ensures
        whole_minute(at_time_spec(d, h, m)->0),
{
    lemma_at_time_on_day(d, h, m);
    let t = secs_at(d, h as int, m as int);
    let k = (d - UNIX_EPOCH_DAY) * 1440 + h * 60 + m;
    assert(t == k * 60);
    vstd::arithmetic::div_mod::lemma_mod_multiples_basic(k, 60);
}

/// `(j * K + y) / K == j + y / K` for the minute length `K` in nanoseconds.
proof fn lemma_minutes_shift(j: int, y: int)
    ensures
        (y + j * 60_000_000_000) / 60_000_000_000 == y / 60_000_000_000 + j,
{
    vstd::arithmetic::div_mod::lemma_hoist_over_denominator(y, j, 60_000_000_000);
}

/// Split at a whole minute `m`, one day's credit from `s` to `e` is the
/// credit from `s` to `m` plus the credit from `m` to `e`.
proof fn lemma_day_credit_split(cal: Calendar, d: int, s: Moment, m: Moment, e: Moment)
    requires
        MIN_DAY <= d <= MAX_DAY,
        whole_minute(s),
        whole_minute(m),
        e.nanos < 1_000_000_000,
        moment_le(s, m),
        moment_le(m, e),
    ensures
        day_credit(cal, d, s, e) == day_credit(cal, d, s, m) + day_credit(cal, d, m, e),
{
    if is_business_day(cal, d) && window_start(cal, d) is Some && window_end(cal, d) is Some {
        let ws = window_start(cal, d)->0;
        let we = window_end(cal, d)->0;
        lemma_window_whole_minute(d, start_hm(cal).0, start_hm(cal).1);
        lemma_window_whole_minute(d, end_hm(cal).0, end_hm(cal).1);
        lemma_whole_minute_ns(s);
        lemma_whole_minute_ns(m);
        lemma_whole_minute_ns(ws);
        let st = moment_max(s, ws);
        let en = moment_min(e, we);
        if moment_lt(st, m) && moment_lt(m, en) {
            let j = m.secs / 60 - st.secs / 60;
            assert(m.ns() - st.ns() == j * 60_000_000_000) by (nonlinear_arith)
                requires
                    m.ns() == (m.secs / 60) * 60_000_000_000,
                    st.ns() == (st.secs / 60) * 60_000_000_000,
                    j == m.secs / 60 - st.secs / 60;
            lemma_minutes_shift(j, en.ns() - m.ns());
            lemma_minutes_shift(j, 0);
            assert(en.ns() - st.ns() == (en.ns() - m.ns()) + j * 60_000_000_000);
        }
    }
}

/// Outside the days from `a` to `b`, and when `b` is not after `a`, a day gives nothing.
proof fn lemma_day_credit_outside(cal: Calendar, d: int, a: Moment, b: Moment)
    requires
        MIN_DAY <= d <= MAX_DAY,
        a.valid(),
        b.valid(),
        d < a.day() || d > b.day() || moment_le(b, a),
    ensures
        day_credit(cal, d, a, b) == 0,
{
    if is_business_day(cal, d) && window_start(cal, d) is Some && window_end(cal, d) is Some {
        let ws = window_start(cal, d)->0;
        let we = window_end(cal, d)->0;
        lemma_at_time_on_day(d, start_hm(cal).0, start_hm(cal).1);
        lemma_at_time_on_day(d, end_hm(cal).0, end_hm(cal).1);
        if d < a.day() {
            lemma_earlier_day(we, a);
        }
        if d > b.day() {
            lemma_earlier_day(b, ws);
        }
    }
}

proof fn lemma_credit_over_split(cal: Calendar, lo: int, mid: int, hi: int, a: Moment, b: Moment)
    requires
        lo <= mid <= hi,
    ensures
        credit_over(cal, lo, hi, a, b) == credit_over(cal, lo, mid, a, b) + credit_over(cal, mid, hi, a, b),
    decreases hi - mid,
{
    if hi > mid {
        lemma_credit_over_split(cal, lo, mid, hi - 1, a, b);
    }
}

proof fn lemma_credit_over_zero(cal: Calendar, lo: int, hi: int, a: Moment, b: Moment)
    requires
        forall|d: int| lo <= d < hi ==> #[trigger] day_credit(cal, d, a, b) == 0,
    ensures
        credit_over(cal, lo, hi, a, b) == 0,
    decreases hi - lo,
{
    if hi > lo {
        lemma_credit_over_zero(cal, lo, hi - 1, a, b);
    }
}

/// Summed over any run of days that covers both ends, the credit is the
/// working time from `a` to `b`.
proof fn lemma_working_minutes_over(cal: Calendar, lo: int, hi: int, a: Moment, b: Moment)
    requires
        a.valid(),
        b.valid(),
        MIN_DAY <= lo <= a.day(),
        b.day() < hi <= MAX_DAY + 1,
    ensures
        working_minutes_spec(a, b, cal) == credit_over(cal, lo, hi, a, b),
{
    if moment_le(b, a) {
        assert forall|d: int| lo <= d < hi implies #[trigger] day_credit(cal, d, a, b) == 0 by {
            lemma_day_credit_outside(cal, d, a, b);
        }
        lemma_credit_over_zero(cal, lo, hi, a, b);
    } else {
        lemma_day_monotone(a, b);
        let la = a.day();
        let hb = b.day() + 1;
        lemma_credit_over_split(cal, lo, la, hi, a, b);
        lemma_credit_over_split(cal, la, hb, hi, a, b);
        assert forall|d: int| lo <= d < la implies #[trigger] day_credit(cal, d, a, b) == 0 by {
            lemma_day_credit_outside(cal, d, a, b);
        }
        assert forall|d: int| hb <= d < hi implies #[trigger] day_credit(cal, d, a, b) == 0 by {
            lemma_day_credit_outside(cal, d, a, b);
        }
        lemma_credit_over_zero(cal, lo, la, a, b);
        lemma_credit_over_zero(cal, hb, hi, a, b);
    }
}

proof fn lemma_credit_over_sum(cal: Calendar, lo: int, hi: int, s: Moment, m: Moment, e: Moment)
    requires
        MIN_DAY <= lo,
        hi <= MAX_DAY + 1,
        whole_minute(s),
        whole_minute(m),
        e.nanos < 1_000_000_000,
        moment_le(s, m),
        moment_le(m, e),
    ensures
        credit_over(cal, lo, hi, s, e) == credit_over(cal, lo, hi, s, m) + credit_over(cal, lo, hi, m, e),
    decreases hi - lo,
{
    if hi > lo {
        lemma_credit_over_sum(cal, lo, hi - 1, s, m, e);
        lemma_day_credit_split(cal, hi - 1, s, m, e);
    }
}

/// Law: working time adds up over a span split at a whole minute: from `s`
/// to `e` is from `s` to `m` plus from `m` to `e`, for `s` and `m` on whole
/// minutes.
pub proof fn law_working_minutes_additive(s: Moment, m: Moment, e: Moment, cal: Calendar)
    requires
        s.valid(),
        m.valid(),
        e.valid(),
        whole_minute(s),
        whole_minute(m),
        moment_le(s, m),
        moment_le(m, e),
    ensures
        working_minutes_spec(s, e, cal) == working_minutes_spec(s, m, cal) + working_minutes_spec(m, e, cal),
{
    lemma_day_monotone(s, m);
    lemma_day_monotone(m, e);
    let lo = s.day();
    let hi = e.day() + 1;
    lemma_working_minutes_over(cal, lo, hi, s, e);
    lemma_working_minutes_over(cal, lo, hi, s, m);
    lemma_working_minutes_over(cal, lo, hi, m, e);
    lemma_credit_over_sum(cal, lo, hi, s, m, e);
}

proof fn lemma_day_credit_start(cal: Calendar, d: int, s1: Moment, s2: Moment, e: Moment)
    requires
        moment_le(s2, s1),
    ensures
        day_credit(cal, d, s1, e) <= day_credit(cal, d, s2, e),
{
    if is_business_day(cal, d) && window_start(cal, d) is Some && window_end(cal, d) is Some {
        let ws = window_start(cal, d)->0;
        let en = moment_min(e, window_end(cal, d)->0);
        let a1 = moment_max(s1, ws);
        let a2 = moment_max(s2, ws);
        if moment_lt(a1, en) {
            let x = en.ns() - a1.ns();
            let y = en.ns() - a2.ns();
            assert(x / 60_000_000_000 <= y / 60_000_000_000) by (nonlinear_arith)
                requires 0 < x <= y;
        } else if moment_lt(a2, en) {
            let y = en.ns() - a2.ns();
            assert(y / 60_000_000_000 >= 0) by (nonlinear_arith)
                requires 0 < y;
        }
    }
}

proof fn lemma_credit_over_start(cal: Calendar, lo: int, hi: int, s1: Moment, s2: Moment, e: Moment)
    requires
        moment_le(s2, s1),
    ensures
        credit_over(cal, lo, hi, s1, e) <= credit_over(cal, lo, hi, s2, e),
    decreases hi - lo,
{
    if hi > lo {
        lemma_credit_over_start(cal, lo, hi - 1, s1, s2, e);
        lemma_day_credit_start(cal, hi - 1, s1, s2, e);
    }
}

/// Law: working time never falls as the start moves earlier.
pub proof fn law_working_minutes_start_monotone(s1: Moment, s2: Moment, e: Moment, cal: Calendar)
    requires
        s1.valid(),
        s2.valid(),
        e.valid(),
        moment_le(s2, s1),
    ensures
        working_minutes_spec(s1, e, cal) <= working_minutes_spec(s2, e, cal),
{
    lemma_day_monotone(s2, s1);
    let lo = s2.day();
    let hi = e.day() + 1;
    lemma_working_minutes_over(cal, lo, hi, s1, e);
    lemma_working_minutes_over(cal, lo, hi, s2, e);
    lemma_credit_over_start(cal, lo, hi, s1, s2, e);
}

/// Law: widening a span, by an earlier start or a later end, never lowers
/// its working time.
pub proof fn law_working_minutes_widen(s1: Moment, e1: Moment, s2: Moment, e2: Moment, cal: Calendar)
    requires
        s1.valid(),
        e1.valid(),
        s2.valid(),
        e2.valid(),
        moment_le(s2, s1),
        moment_le(e1, e2),
    ensures
        working_minutes_spec(s1, e1, cal) <= working_minutes_spec(s2, e2, cal),
{
    law_working_minutes_monotone(s1, e1, e2, cal);
    law_working_minutes_start_monotone(s1, s2, e2, cal);
}

/// The calendar's start and end times both read as times of day.
pub open spec fn times_valid(cal: Calendar) -> bool {
    &&& start_hm(cal).0 < 24
    &&& start_hm(cal).1 < 60
    &&& end_hm(cal).0 < 24
    &&& end_hm(cal).1 < 60
}

/// With times of day for its window, an addition always reaches a moment.
proof fn lemma_add_some(cal: Calendar, d: int, cur: Moment, rem: int)
    requires
        times_valid(cal),
    ensures
        add_from_day(cal, d, cur, rem) is Some,
    decreases MAX_DAY - d,
{
    if rem > 0 && d < MAX_DAY {
        let ws = window_start(cal, d)->0;
        let we = window_end(cal, d)->0;
        let a = moment_max(cur, ws);
        let open = is_business_day(cal, d) && moment_lt(a, we);
        let avail = minutes_between_spec(a, we);
        let left = if open { rem - avail } else { rem };
        lemma_add_some(cal, d + 1, window_start(cal, d + 1)->0, left);
    }
}

/// Adding `a` and then `b` working minutes from `cur` on day `d` reaches what
/// adding `a + b` does, followed day by day.
proof fn lemma_add_composes_from(cal: Calendar, d: int, cur: Moment, a: int, b: int)
    requires
        times_valid(cal),
        cur.valid(),
        cur.day() == d,
        MIN_DAY <= d <= MAX_DAY,
        a > 0,
        b > 0,
    ensures
        add_from_day(cal, d, cur, a) is Some,
        add_from_day(cal, d, cur, a + b) == add_working_minutes_spec(add_from_day(cal, d, cur, a)->0, b, cal),
    decreases MAX_DAY - d,
{
    lemma_add_some(cal, d, cur, a);
    let business = is_business_day(cal, d);
    let ws = window_start(cal, d)->0;
    let we = window_end(cal, d)->0;
    let x = moment_max(cur, ws);
    let open = business && moment_lt(x, we);
    let avail = minutes_between_spec(x, we);
    lemma_at_time_on_day(d, start_hm(cal).0, start_hm(cal).1);
    lemma_at_time_on_day(d, end_hm(cal).0, end_hm(cal).1);
    lemma_ns_order(cur, ws);
    if open && a <= avail {
        lemma_fits_in_window(x, we, a);
        let r1 = Moment { secs: (x.secs + 60 * a) as i64, nanos: x.nanos };
        assert(r1.ns() == x.ns() + a * 60_000_000_000) by (nonlinear_arith)
            requires r1.secs == x.secs + 60 * a, r1.nanos == x.nanos;
        lemma_day_monotone(x, r1);
        lemma_day_monotone(r1, we);
        assert(r1.day() == d);
        assert(moment_max(r1, ws) == r1);
        let y = we.ns() - x.ns();
        lemma_minutes_shift(-a, y);
        assert(minutes_between_spec(r1, we) == avail - a);
        if a + b <= avail {
            assert(avail * 60_000_000_000 <= y) by (nonlinear_arith)
                requires avail == y / 60_000_000_000, y > 0;
            assert(b * 60_000_000_000 <= y - a * 60_000_000_000) by (nonlinear_arith)
                requires a + b <= avail, avail * 60_000_000_000 <= y;
            assert(moment_lt(r1, we));
        } else if !moment_lt(r1, we) {
            lemma_ns_order(r1, we);
            assert(r1 == we);
            assert(y == a * 60_000_000_000);
            lemma_minutes_shift(a, 0);
            assert(avail == a);
        }
    } else if d < MAX_DAY {
        let left = if open { a - avail } else { a };
        let nx = window_start(cal, d + 1)->0;
        lemma_at_time_on_day(d + 1, start_hm(cal).0, start_hm(cal).1);
        lemma_add_composes_from(cal, d + 1, nx, left, b);
        assert(left + b == if open { a + b - avail } else { a + b });
    } else {
        let carried = if open { we } else { cur };
        if open {
            lemma_ns_order(we, ws);
            assert(moment_max(we, ws) == we);
        }
        assert(carried.day() == d);
    }
}

/// Law: adding `a` working minutes and then `b` more reaches the moment that
/// adding `a + b` at once reaches, where the calendar's times are times of
/// day.
pub proof fn law_add_composes(s: Moment, a: int, b: int, cal: Calendar)
    requires
        s.valid(),
        times_valid(cal),
        a > 0,
        b > 0,
    ensures
        add_working_minutes_spec(s, a, cal) is Some,
        add_working_minutes_spec(add_working_minutes_spec(s, a, cal)->0, b, cal)
            == add_working_minutes_spec(s, a + b, cal),
{
    lemma_add_composes_from(cal, s.day(), s, a, b);
}

/// After `last_day_stop` no working time is left: measured from a start
/// before chrono's last day, any later moment has the working time that
/// `last_day_stop` has.
proof fn lemma_after_last_stop(cal: Calendar, s: Moment, t: Moment)
    requires
        times_valid(cal),
        s.valid(),
        t.valid(),
        s.day() < MAX_DAY,
        moment_le(last_day_stop(cal), t),
    ensures
        working_minutes_spec(s, t, cal) == working_minutes_spec(s, last_day_stop(cal), cal),
{
    let d = MAX_DAY as int;
    let l = last_day_stop(cal);
    let ws = window_start(cal, d)->0;
    let we = window_end(cal, d)->0;
    lemma_at_time_on_day(d, start_hm(cal).0, start_hm(cal).1);
    lemma_at_time_on_day(d, end_hm(cal).0, end_hm(cal).1);
    lemma_day_monotone(l, t);
    lemma_earlier_day(s, l);
    lemma_earlier_day(s, ws);
    let lo = s.day();
    lemma_credit_before_end(cal, lo, d, s, t);
    lemma_credit_before_end(cal, lo, d, s, l);
    assert(working_minutes_spec(s, t, cal) == credit_over(cal, lo, d, s, t) + day_credit(cal, d, s, t));
    assert(working_minutes_spec(s, l, cal) == credit_over(cal, lo, d, s, l) + day_credit(cal, d, s, l));
    assert(moment_max(s, ws) == ws);
}

/// Law: a later start, or more minutes, never gives an earlier deadline,
/// where the calendar's times are times of day and the later start lies
/// before chrono's last day.
pub proof fn law_add_monotone(s1: Moment, m1: int, s2: Moment, m2: int, cal: Calendar)
    requires
        s1.valid(),
        s2.valid(),
        cal.wf(),
        times_valid(cal),
        moment_le(s1, s2),
        m1 <= m2,
        s2.day() < MAX_DAY,
    ensures
        add_working_minutes_spec(s1, m1, cal) is Some,
        add_working_minutes_spec(s2, m2, cal) is Some,
        moment_le(add_working_minutes_spec(s1, m1, cal)->0, add_working_minutes_spec(s2, m2, cal)->0),
{
    lemma_add_some(cal, s1.day(), s1, m1);
    lemma_add_some(cal, s2.day(), s2, m2);
    let q1 = add_working_minutes_spec(s1, m1, cal)->0;
    let q2 = add_working_minutes_spec(s2, m2, cal)->0;
    lemma_day_monotone(s1, s2);
    if m2 > 0 {
        law_add_then_measure(s2, m2, cal);
    }
    if m1 > 0 {
        law_add_then_measure(s1, m1, cal);
        if moment_lt(q2, q1) {
            // `q1` is the first moment with `m1` minutes since `s1`
            assert(working_minutes_spec(s1, q2, cal) < m1);
            if working_minutes_spec(s2, q2, cal) == m2 {
                law_working_minutes_start_monotone(s2, s1, q2, cal);
            } else {
                // `q2` is where every addition from before the last day stops;
                // nothing works after it
                assert(q2 == last_day_stop(cal));
                lemma_after_last_stop(cal, s1, q1);
            }
        }
    }
}

/// Where an addition lands: on chrono's last day, or inside the working
/// window of a working day, strictly after where it started.
proof fn lemma_add_in_window(cal: Calendar, d: int, cur: Moment, rem: int)
    requires
        cur.valid(),
        cur.day() == d,
        MIN_DAY <= d <= MAX_DAY,
        rem > 0,
        add_from_day(cal, d, cur, rem) is Some,
    ensures
        ({
            let r = add_from_day(cal, d, cur, rem)->0;
            let e = r.day();
            ||| e == MAX_DAY
            ||| {
                &&& is_business_day(cal, e)
                &&& window_start(cal, e) is Some
                &&& window_end(cal, e) is Some
                &&& moment_lt(window_start(cal, e)->0, r)
                &&& moment_le(r, window_end(cal, e)->0)
                &&& moment_lt(cur, r)
            }
        }),
    decreases MAX_DAY - d,
{
    let business = is_business_day(cal, d);
    let ws = window_start(cal, d)->0;
    let we = window_end(cal, d)->0;
    let x = moment_max(cur, ws);
    let open = business && moment_lt(x, we);
    let avail = minutes_between_spec(x, we);
    if business {
        lemma_at_time_on_day(d, start_hm(cal).0, start_hm(cal).1);
        lemma_at_time_on_day(d, end_hm(cal).0, end_hm(cal).1);
        lemma_ns_order(cur, ws);
    }
    if open && rem <= avail {
        lemma_fits_in_window(x, we, rem);
        let r = Moment { secs: (x.secs + 60 * rem) as i64, nanos: x.nanos };
        assert(r.ns() == x.ns() + rem * 60_000_000_000) by (nonlinear_arith)
            requires r.secs == x.secs + 60 * rem, r.nanos == x.nanos;
        lemma_day_monotone(x, r);
        lemma_day_monotone(r, we);
    } else if d < MAX_DAY {
        let left = if open { rem - avail } else { rem };
        let nx = window_start(cal, d + 1)->0;
        lemma_at_time_on_day(d + 1, start_hm(cal).0, start_hm(cal).1);
        lemma_add_in_window(cal, d + 1, nx, left);
        lemma_earlier_day(cur, nx);
    } else if open {
        assert(we.day() == d);
    }
}

/// Law: a deadline before chrono's last day lies inside the working window
/// of a working day: after the window opens and no later than it closes,
/// and strictly after the start.
pub proof fn law_deadline_in_window(start: Moment, n: int, cal: Calendar)
    requires
        start.valid(),
        n > 0,
        add_working_minutes_spec(start, n, cal) is Some,
        add_working_minutes_spec(start, n, cal)->0.day() < MAX_DAY,
    ensures
        ({
            let r = add_working_minutes_spec(start, n, cal)->0;
            let e = r.day();
            &&& is_business_day(cal, e)
            &&& window_start(cal, e) is Some
            &&& window_end(cal, e) is Some
            &&& moment_lt(window_start(cal, e)->0, r)
            &&& moment_le(r, window_end(cal, e)->0)
            &&& moment_lt(start, r)
        }),
{
    lemma_add_in_window(cal, start.day(), start, n);
}

/// A run of digits whose value fits reads as that value.
proof fn lemma_reads_u32(t: Seq<char>, v: u32)
    requires
        t.len() >= 1,
        all_digits(t),
        digits_value(t) == v,
    ensures
        parse_u32_spec(t) == Some(v),
{
    assert(t[0] != '+');
}

proof fn lemma_two_digit_decimal(n: nat)
    ensures
        two_digit_decimal(n).len() >= 1,
        all_digits(two_digit_decimal(n)),
        digits_value(two_digit_decimal(n)) == n,
{
    lemma_nat_decimal(n);
    if n < 10 {
        lemma_leading_zero(nat_decimal(n));
        let t = seq!['0'] + nat_decimal(n);
        assert forall|i: int| 0 <= i < t.len() implies is_digit(#[trigger] t[i]) by {
            if i > 0 {
                assert(t[i] == nat_decimal(n)[i - 1]);
            }
        }
    }
}

/// Two runs of digits around one `:` read as the hour and minute they spell.
proof fn lemma_time_text(a: Seq<char>, b: Seq<char>, h: u32, m: u32)
    requires
        a.len() >= 1,
        b.len() >= 1,
        all_digits(a),
        all_digits(b),
        digits_value(a) == h,
        digits_value(b) == m,
    ensures
        parse_time_spec(a + seq![':'] + b) == (h, m),
{
    let colon = seq![':'];
    let s = a + colon + b;
    lemma_count_char_digits(a, ':');
    lemma_count_char_digits(b, ':');
    lemma_count_char_concat(a, colon, ':');
    lemma_count_char_concat(a + colon, b, ':');
    assert(colon.drop_last() =~= Seq::<char>::empty());
    assert(count_char(Seq::<char>::empty(), ':') == 0);
    assert(colon.last() == ':');
    assert(count_char(colon, ':') == 1);
    lemma_first_index_after(a, b, ':');
    assert(s.take(a.len() as int) =~= a);
    assert(s.skip(a.len() as int + 1) =~= b);
    lemma_reads_u32(a, h);
    lemma_reads_u32(b, m);
}

/// Law: `parse_time` reads back the hour and the minute of any text written
/// as `"{h}:{m}"` or as `"{h:02}:{m:02}"`.
pub proof fn law_parse_time_reads_back(h: u32, m: u32)
    ensures
        parse_time_spec(nat_decimal(h as nat) + seq![':'] + nat_decimal(m as nat)) == (h, m),
        parse_time_spec(two_digit_decimal(h as nat) + seq![':'] + two_digit_decimal(m as nat)) == (h, m),
{
    lemma_nat_decimal(h as nat);
    lemma_nat_decimal(m as nat);
    lemma_time_text(nat_decimal(h as nat), nat_decimal(m as nat), h, m);
    lemma_two_digit_decimal(h as nat);
    lemma_two_digit_decimal(m as nat);
    lemma_time_text(two_digit_decimal(h as nat), two_digit_decimal(m as nat), h, m);
}

/// Within one day, the working time is that day's credit.
proof fn lemma_within_one_day(cal: Calendar, a: Moment, b: Moment)
    requires
        a.day() == b.day(),
    ensures
        working_minutes_spec(a, b, cal) == if moment_le(b, a) { 0 } else { day_credit(cal, a.day(), a, b) },
{
    let d = a.day();
    assert(credit_over(cal, d, d, a, b) == 0);
    assert(credit_over(cal, d, d + 1, a, b) == credit_over(cal, d, d, a, b) + day_credit(cal, d, a, b));
}

/// Law: no working time passes on a day on which a holiday of the calendar
/// falls, whatever the holiday's place in the list.
pub proof fn law_holiday_gives_nothing(cal: Calendar, i: int, a: Moment, b: Moment)
    requires
        0 <= i < cal.holidays@.len(),
        a.day() == cal.holidays@[i].date.day(),
        b.day() == a.day(),
    ensures
        working_minutes_spec(a, b, cal) == 0,
{
    lemma_within_one_day(cal, a, b);
    assert(is_holiday(cal, a.day())) by {
        assert(cal.holidays@[i].date.day() == a.day());
    }
}

/// Law: no working time passes on a day whose weekday's full name is not
/// among the calendar's working days.
pub proof fn law_unlisted_weekday_gives_nothing(cal: Calendar, a: Moment, b: Moment)
    requires
        b.day() == a.day(),
        forall|j: int| 0 <= j < cal.working_days@.len() ==> (#[trigger] cal.working_days@[j])@ != weekday_name_spec(a.day()),
    ensures
        working_minutes_spec(a, b, cal) == 0,
{
    lemma_within_one_day(cal, a, b);
}

/// Law: on a day whose weekday's full name is listed among the working days
/// and on which no holiday falls, the whole working window counts: from its
/// opening to its close pass exactly the minutes between the calendar's
/// start and end times (none when the end is not after the start).
pub proof fn law_working_day_counts_window(cal: Calendar, d: int, j: int)
    requires
        MIN_DAY <= d <= MAX_DAY,
        times_valid(cal),
        0 <= j < cal.working_days@.len(),
        cal.working_days@[j]@ == weekday_name_spec(d),
        forall|i: int| 0 <= i < cal.holidays@.len() ==> (#[trigger] cal.holidays@[i]).date.day() != d,
    ensures
        ({
            let (sh, sm) = start_hm(cal);
            let (eh, em) = end_hm(cal);
            let open_at = at_time_spec(d, sh, sm)->0;
            let close_at = at_time_spec(d, eh, em)->0;
            let len = (eh * 60 + em) - (sh * 60 + sm);
            working_minutes_spec(open_at, close_at, cal) == if len > 0 { len } else { 0 }
        }),
{
    let (sh, sm) = start_hm(cal);
    let (eh, em) = end_hm(cal);
    let ws = at_time_spec(d, sh, sm)->0;
    let we = at_time_spec(d, eh, em)->0;
    lemma_at_time_on_day(d, sh, sm);
    lemma_at_time_on_day(d, eh, em);
    lemma_within_one_day(cal, ws, we);
    assert(lists_weekday(cal, weekday_name_spec(d))) by {
        assert(cal.working_days@[j]@ == weekday_name_spec(d));
    }
    assert(!is_holiday(cal, d));
    let len = (eh * 60 + em) - (sh * 60 + sm);
    assert(we.ns() - ws.ns() == len * 60_000_000_000);
    lemma_minutes_shift(len, 0);
}

} // verus!
