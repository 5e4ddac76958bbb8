//! Evaluating an SLA definition against the status history of an issue.
use crate::calendar::{
    add_working_minutes_spec, calculate_working_minutes, try_add_working_minutes,
    working_minutes_spec,
};
use crate::models::{Calendar, SlaDefinition, SlaLevel, SpentStatusTime, StatusInterval as SpentInterval};
use crate::text::{lowercased, to_lowercase};
use crate::time::{is_at_or_before, moment_le, Moment};
use crate::transitions::StatusInterval;
use std::collections::HashMap;
use vstd::std_specs::hash::spec_keys_iter;
use vstd::std_specs::iter::IteratorSpec;
use vstd::prelude::*;
use vstd::string::StringExecFns;

verus! {

/// The SLA targets and the time spent of one issue.
pub struct CalculationResult {
    pub level_name: String,
    pub response_deadline: Option<Moment>,
    pub resolution_deadline: Option<Moment>,
    pub response_met: bool,
    pub resolution_met: bool,
    /// `"Breached"`, `"Completed"` or `"Active"`.
    pub status: String,
    pub spent_minutes_by_status: Vec<SpentStatusTime>,
}

/// Why an evaluation cannot be carried out.
#[derive(Clone, Copy, Debug, PartialEq, Eq)]
pub enum CalculationFailure {
    /// A deadline needs a working window that the calendar's times cannot form.
    DeadlineUnavailable,
    /// The working minutes spent in one status overflow an `i32`.
    SpentOverflow,
}

/// The SLA timer runs while the issue is in status `id`.
pub open spec fn is_active(def: SlaDefinition, id: i32) -> bool {
    def.active_statuses@.contains(id)
}

/// All moments of the intervals, and `now`, are representable instants.
pub open spec fn intervals_valid(ivs: Seq<StatusInterval>) -> bool {
    forall|i: int| 0 <= i < ivs.len() ==> {
        &&& (#[trigger] ivs[i]).started_at.valid()
        &&& ivs[i].ended_at matches Some(e) ==> e.valid()
    }
}

/// Where an interval ends for measuring: its end, or `now` while it is open.
pub open spec fn measured_end(iv: StatusInterval, now: Moment) -> Moment {
    match iv.ended_at {
        Some(e) => e,
        None => now,
    }
}

/// Working minutes that an interval adds to its status: its working minutes
/// (cut to an `i32`) when the status is active, else nothing.
pub open spec fn interval_minutes(def: SlaDefinition, cal: Calendar, iv: StatusInterval, now: Moment) -> int {
    if is_active(def, iv.status_id) {
        (working_minutes_spec(iv.started_at, measured_end(iv, now), cal) as i32) as int
    } else {
        0
    }
}

pub open spec fn has_status(s: Seq<StatusInterval>, id: i32) -> bool {
    exists|i: int| 0 <= i < s.len() && (#[trigger] s[i]).status_id == id
}

/// The statuses of the intervals, each once, in order of first appearance.
pub open spec fn status_ids(s: Seq<StatusInterval>) -> Seq<i32>
    decreases s.len(),
{
    if s.len() == 0 {
        Seq::empty()
    } else {
        let p = status_ids(s.drop_last());
        if p.contains(s.last().status_id) {
            p
        } else {
            p.push(s.last().status_id)
        }
    }
}

/// Name of the first interval in status `id`.
pub open spec fn first_status_name(s: Seq<StatusInterval>, id: i32) -> String
    decreases s.len(),
{
    if s.len() == 0 {
        arbitrary()
    } else if has_status(s.drop_last(), id) {
        first_status_name(s.drop_last(), id)
    } else {
        s.last().status_name
    }
}

/// Total working minutes spent in status `id`.
pub open spec fn spent_total(def: SlaDefinition, cal: Calendar, s: Seq<StatusInterval>, id: i32, now: Moment) -> int
    decreases s.len(),
{
    if s.len() == 0 {
        0
    } else {
        spent_total(def, cal, s.drop_last(), id, now) + if s.last().status_id == id {
            interval_minutes(def, cal, s.last(), now)
        } else {
            0
        }
    }
}

/// The intervals spent in status `id`, in order.
pub open spec fn spent_intervals(s: Seq<StatusInterval>, id: i32) -> Seq<SpentInterval>
    decreases s.len(),
{
    if s.len() == 0 {
        Seq::empty()
    } else {
        let p = spent_intervals(s.drop_last(), id);
        if s.last().status_id == id {
            p.push(SpentInterval { started_at: s.last().started_at, ended_at: s.last().ended_at })
        } else {
            p
        }
    }
}

/// Adding up the spent minutes interval by interval never leaves `i32`.
pub open spec fn spent_fits(def: SlaDefinition, cal: Calendar, s: Seq<StatusInterval>, now: Moment) -> bool {
    forall|k: int| 1 <= k <= s.len() ==> {
        let t = #[trigger] spent_total(def, cal, s.take(k), s[k - 1].status_id, now);
        i32::MIN <= t <= i32::MAX
    }
}

/// `e` holds the time spent in its status over the intervals `s`.
pub open spec fn spent_entry_matches(
    e: SpentStatusTime,
    def: SlaDefinition,
    cal: Calendar,
    s: Seq<StatusInterval>,
    now: Moment,
) -> bool {
    &&& has_status(s, e.status_id)
    &&& e.status_name == first_status_name(s, e.status_id)
    &&& e.time_spent == spent_total(def, cal, s, e.status_id, now)
    &&& e.intervals@ == spent_intervals(s, e.status_id)
}

/// The time spent, grouped by status: one entry for each status of the
/// intervals, in no particular order (the order in which a hash map of the
/// statuses is walked).
pub open spec fn spent_matches(
    r: Seq<SpentStatusTime>,
    def: SlaDefinition,
    cal: Calendar,
    s: Seq<StatusInterval>,
    now: Moment,
) -> bool {
    &&& r.len() == status_ids(s).len()
    &&& forall|k: int| 0 <= k < r.len() ==> spent_entry_matches(#[trigger] r[k], def, cal, s, now)
    &&& forall|k: int, j: int| 0 <= k < j < r.len() ==> (#[trigger] r[k]).status_id != (#[trigger] r[j]).status_id
}

/// The deadline that a target of `minutes` working minutes gives from `start`.
pub open spec fn deadline_spec(start: Moment, minutes: i32, cal: Calendar) -> Option<Moment> {
    if minutes > 0 {
        Some(add_working_minutes_spec(start, minutes as int, cal)->0)
    } else {
        None
    }
}

pub open spec fn deadline_available(start: Moment, minutes: i32, cal: Calendar) -> bool {
    minutes > 0 ==> add_working_minutes_spec(start, minutes as int, cal) is Some
}

/// A target is met when the moment that answers it (or `now`, while none
/// does) is no later than its deadline; a target without deadline is met.
pub open spec fn target_met(deadline: Option<Moment>, answered: Option<Moment>, now: Moment) -> bool {
    match (deadline, answered) {
        (Some(d), Some(a)) => moment_le(a, d),
        (Some(d), None) => moment_le(now, d),
        _ => true,
    }
}

/// Start of the first interval in a status where the timer is stopped.
pub open spec fn first_inactive_start(def: SlaDefinition, s: Seq<StatusInterval>) -> Option<Moment>
    decreases s.len(),
{
    if s.len() == 0 {
        None
    } else if !is_active(def, s[0].status_id) {
        Some(s[0].started_at)
    } else {
        first_inactive_start(def, s.drop_first())
    }
}

pub open spec fn status_text(response_met: bool, resolution_met: bool, resolved: bool) -> Seq<char> {
    if !response_met || !resolution_met {
        "Breached"@
    } else if resolved {
        "Completed"@
    } else {
        "Active"@
    }
}

/// The evaluation of `level` can be carried out: its deadlines exist and the
/// spent minutes fit.
pub open spec fn evaluation_ok(
    def: SlaDefinition,
    cal: Calendar,
    s: Seq<StatusInterval>,
    level: SlaLevel,
    now: Moment,
) -> bool {
    &&& deadline_available(s[0].started_at, level.response_time, cal)
    &&& deadline_available(s[0].started_at, level.resolution_time, cal)
    &&& spent_fits(def, cal, s, now)
}

/// `r` is the evaluation of `level` over the intervals `s` at `now`.
pub open spec fn evaluation_matches(
    r: CalculationResult,
    def: SlaDefinition,
    cal: Calendar,
    s: Seq<StatusInterval>,
    level: SlaLevel,
    now: Moment,
) -> bool {
    let created = s[0].started_at;
    let resolved = first_inactive_start(def, s);
    &&& r.level_name == level.name
    &&& r.response_deadline == deadline_spec(created, level.response_time, cal)
    &&& r.resolution_deadline == deadline_spec(created, level.resolution_time, cal)
    &&& r.response_met == target_met(r.response_deadline, s[0].ended_at, now)
    &&& r.resolution_met == target_met(r.resolution_deadline, resolved, now)
    &&& r.status@ == status_text(r.response_met, r.resolution_met, resolved is Some)
    &&& spent_matches(r.spent_minutes_by_status@, def, cal, s, now)
}

/// Index of the first level whose priority equals `priority`, both lowercased.
pub open spec fn matching_level(levels: Seq<SlaLevel>, priority: Seq<char>) -> Option<int>
    decreases levels.len(),
{
    if levels.len() == 0 {
        None
    } else {
        match matching_level(levels.drop_last(), priority) {
            Some(i) => Some(i),
            None => if lowercased(levels.last().priority@) == lowercased(priority) {
                Some(levels.len() - 1)
            } else {
                None
            },
        }
    }
}

pub open spec fn inputs_valid(cal: Calendar, s: Seq<StatusInterval>, now: Moment) -> bool {
    &&& cal.wf()
    &&& intervals_valid(s)
    &&& now.valid()
}

fn is_active_exec(def: &SlaDefinition, id: i32) -> (r: bool)
    ensures
        r == is_active(*def, id),
{
    let mut i: usize = 0;
    while i < def.active_statuses.len()
        invariant
            i <= def.active_statuses@.len(),
            forall|j: int| 0 <= j < i ==> def.active_statuses@[j] != id,
        decreases def.active_statuses@.len() - i,
    {
        if def.active_statuses[i] == id {
            return true;
        }
        i = i + 1;
    }
    false
}

proof fn lemma_status_ids(s: Seq<StatusInterval>, id: i32)
    ensures
        status_ids(s).contains(id) <==> has_status(s, id),
        status_ids(s).no_duplicates(),
        !has_status(s, id) ==> spent_intervals(s, id) == Seq::<SpentInterval>::empty(),
    decreases s.len(),
{
    if s.len() > 0 {
        let q = s.drop_last();
        lemma_status_ids(q, id);
        lemma_status_ids(q, s.last().status_id);
        let p = status_ids(q);
        let x = s.last().status_id;
        assert(s[s.len() - 1] == s.last());
        if has_status(s, id) {
            let i = choose|i: int| 0 <= i < s.len() && (#[trigger] s[i]).status_id == id;
            if i < s.len() - 1 {
                assert(q[i] == s[i]);
                assert(p.contains(id));
                if !p.contains(x) {
                    let j = choose|j: int| 0 <= j < p.len() && p[j] == id;
                    assert(p.push(x)[j] == id);
                }
            } else {
                if !p.contains(x) {
                    assert(p.push(x)[p.len() as int] == id);
                }
            }
        }
        if status_ids(s).contains(id) {
            if p.contains(id) {
                let i = choose|i: int| 0 <= i < q.len() && (#[trigger] q[i]).status_id == id;
                assert(s[i] == q[i]);
            } else {
                let j = choose|j: int| 0 <= j < status_ids(s).len() && status_ids(s)[j] == id;
                assert(!p.contains(x) && j == p.len());
            }
        }
        if !p.contains(s.last().status_id) {
            assert(p.push(s.last().status_id).no_duplicates()) by {
                assert forall|a: int, b: int|
                    0 <= a < b < p.len() + 1 implies #[trigger] p.push(s.last().status_id)[a] != #[trigger] p.push(
                    s.last().status_id)[b] by {
                    if b == p.len() {
                        assert(p.contains(p[a]));
                    }
                }
            }
        }
    }
}

proof fn lemma_spent_total_absent(def: SlaDefinition, cal: Calendar, s: Seq<StatusInterval>, id: i32, now: Moment)
    requires
        !has_status(s, id),
    ensures
        spent_total(def, cal, s, id, now) == 0,
    decreases s.len(),
{
    if s.len() > 0 {
        assert(!has_status(s.drop_last(), id)) by {
            if has_status(s.drop_last(), id) {
                let i = choose|i: int| 0 <= i < s.drop_last().len() && (#[trigger] s.drop_last()[i]).status_id == id;
                assert(s[i] == s.drop_last()[i]);
            }
        }
        assert(s.last().status_id != id) by {
            assert(s[s.len() - 1] == s.last());
        }
        lemma_spent_total_absent(def, cal, s.drop_last(), id, now);
    }
}

/// Working minutes the interval adds to its status.
fn interval_minutes_exec(def: &SlaDefinition, cal: &Calendar, iv: &StatusInterval, now: Moment) -> (r: i32)
    requires
        cal.wf(),
        iv.started_at.valid(),
        iv.ended_at matches Some(e) ==> e.valid(),
        now.valid(),
    ensures
        r == interval_minutes(*def, *cal, *iv, now),
{
    let active = is_active_exec(def, iv.status_id);
    let end_time = match iv.ended_at {
        Some(e) => e,
        None => now,
    };
    if active {
        let m = calculate_working_minutes(iv.started_at, end_time, cal);
        #[verifier::truncate]
        (m as i32)
    } else {
        0
    }
}

/// Groups the working minutes spent by status, or `None` when a running
/// total leaves `i32`.
fn spent_by_status(def: &SlaDefinition, cal: &Calendar, intervals: &[StatusInterval], now: Moment) -> (r: Option<
    Vec<SpentStatusTime>,
>)
    requires
        inputs_valid(*cal, intervals@, now),
    ensures
        r is Some <==> spent_fits(*def, *cal, intervals@, now),
        r matches Some(v) ==> spent_matches(v@, *def, *cal, intervals@, now),
{
    broadcast use vstd::std_specs::hash::group_hash_axioms;

    let mut groups: HashMap<i32, SpentStatusTime> = HashMap::new();
    let mut i: usize = 0;
    while i < intervals.len()
        invariant
            i <= intervals@.len(),
            inputs_valid(*cal, intervals@, now),
            forall|id: i32| #[trigger] groups@.contains_key(id) <==> has_status(intervals@.take(i as int), id),
            forall|id: i32|
                #[trigger] groups@.contains_key(id) ==> groups@[id].status_id == id && spent_entry_matches(
                    groups@[id],
                    *def,
                    *cal,
                    intervals@.take(i as int),
                    now,
                ),
            forall|k: int|
                1 <= k <= i ==> {
                    let t = #[trigger] spent_total(*def, *cal, intervals@.take(k), intervals@[k - 1].status_id, now);
                    i32::MIN <= t <= i32::MAX
                },
        decreases intervals@.len() - i,
    {
        let iv = &intervals[i];
        let ghost p = intervals@.take(i as int);
        let ghost p2 = intervals@.take(i + 1);
        let ghost old_groups = groups@;
        proof {
            assert(p2.drop_last() =~= p);
            assert(p2.last() == intervals@[i as int]);
            assert(intervals@[i as int].started_at.valid());
            lemma_status_ids(p, iv.status_id);
            assert forall|x: i32| #[trigger] has_status(p2, x) <==> (has_status(p, x) || x == iv.status_id) by {
                if has_status(p, x) {
                    let j = choose|j: int| 0 <= j < p.len() && (#[trigger] p[j]).status_id == x;
                    assert(p2[j] == p[j]);
                }
                if has_status(p2, x) && x != iv.status_id {
                    let j = choose|j: int| 0 <= j < p2.len() && (#[trigger] p2[j]).status_id == x;
                    assert(p2[j] == p[j]);
                }
                if x == iv.status_id {
                    assert(p2[i as int].status_id == x);
                }
            }
        }
        let time_spent = interval_minutes_exec(def, cal, iv, now);
        match groups.remove(&iv.status_id) {
            Some(mut entry) => {
                let new_total: i64 = entry.time_spent as i64 + time_spent as i64;
                if new_total < i32::MIN as i64 || new_total > i32::MAX as i64 {
                    proof {
                        assert(spent_total(*def, *cal, p2, intervals@[i as int].status_id, now) == new_total);
                        assert(!spent_fits(*def, *cal, intervals@, now)) by {
                            assert(intervals@.take(i + 1) == p2);
                        }
                    }
                    return None;
                }
                entry.time_spent = new_total as i32;
                entry.intervals.push(SpentInterval { started_at: iv.started_at, ended_at: iv.ended_at });
                groups.insert(iv.status_id, entry);
            },
            None => {
                proof {
                    lemma_spent_total_absent(*def, *cal, p, iv.status_id, now);
                }
                let mut ivs: Vec<SpentInterval> = Vec::new();
                ivs.push(SpentInterval { started_at: iv.started_at, ended_at: iv.ended_at });
                proof {
                    assert(ivs@ =~= Seq::<SpentInterval>::empty().push(
                        SpentInterval { started_at: iv.started_at, ended_at: iv.ended_at },
                    ));
                }
                groups.insert(
                    iv.status_id,
                    SpentStatusTime {
                        status_id: iv.status_id,
                        status_name: iv.status_name.clone(),
                        time_spent: time_spent,
                        intervals: ivs,
                    },
                );
            },
        }
        proof {
            assert forall|id: i32| #[trigger] groups@.contains_key(id) implies groups@[id].status_id == id
                && spent_entry_matches(groups@[id], *def, *cal, p2, now) by {
                if id != iv.status_id {
                    assert(groups@[id] == old_groups[id]);
                    lemma_status_ids(p, id);
                }
            }
            assert forall|kk: int| 1 <= kk <= i + 1 implies {
                let t = #[trigger] spent_total(*def, *cal, intervals@.take(kk), intervals@[kk - 1].status_id, now);
                i32::MIN <= t <= i32::MAX
            } by {
                if kk == i + 1 {
                    assert(intervals@.take(kk) == p2);
                }
            }
        }
        i = i + 1;
    }
    proof {
        assert(intervals@.take(intervals@.len() as int) =~= intervals@);
    }
    let mut keys: Vec<i32> = Vec::new();
    for k in it: groups.keys()
        invariant
            it.seq() == spec_keys_iter(&groups).remaining(),
            keys@.len() == it.index(),
            forall|j: int| 0 <= j < keys@.len() ==> keys@[j] == *it.seq()[j],
    {
        keys.push(*k);
    }
    let ghost ids = status_ids(intervals@);
    proof {
        assert(keys@ =~= spec_keys_iter(&groups).remaining().unref());
        assert(keys@.to_set() == groups@.dom());
        assert(keys@.no_duplicates());
        // as many statuses as keys: both are the statuses of the intervals, each once
        assert forall|id: i32| #[trigger] ids.to_set().contains(id) <==> keys@.to_set().contains(id) by {
            lemma_status_ids(intervals@, id);
        }
        assert(ids.to_set() =~= keys@.to_set());
        lemma_status_ids(intervals@, 0);
        ids.unique_seq_to_set();
        keys@.unique_seq_to_set();
    }
    // Walks the statuses in the order in which the map hands out its keys.
    let ghost g0 = groups@;
    let mut result: Vec<SpentStatusTime> = Vec::new();
    let mut j: usize = 0;
    while j < keys.len()
        invariant
            j <= keys@.len(),
            keys@.no_duplicates(),
            forall|t: int|
                j <= t < keys@.len() ==> #[trigger] groups@.contains_key(keys@[t]) && groups@[keys@[t]]
                    == g0[keys@[t]],
            result@.len() == j,
            forall|t: int| 0 <= t < j ==> #[trigger] result@[t] == g0[keys@[t]],
        decreases keys@.len() - j,
    {
        let key = keys[j];
        let ghost before = groups@;
        match groups.remove(&key) {
            Some(entry) => {
                result.push(entry);
            },
            None => {},
        }
        proof {
            assert forall|t: int| j + 1 <= t < keys@.len() implies #[trigger] groups@.contains_key(keys@[t])
                && groups@[keys@[t]] == g0[keys@[t]] by {
                assert(keys@[t] != keys@[j as int]);
                assert(before.contains_key(keys@[t]));
            }
        }
        j = j + 1;
    }
    proof {
        assert forall|k: int| 0 <= k < result@.len() implies spent_entry_matches(
            #[trigger] result@[k],
            *def,
            *cal,
            intervals@,
            now,
        ) by {
            assert(keys@.to_set().contains(keys@[k]));
        }
        assert forall|k: int, t: int| 0 <= k < t < result@.len() implies (#[trigger] result@[k]).status_id
            != (#[trigger] result@[t]).status_id by {
            assert(keys@.to_set().contains(keys@[k]));
            assert(keys@.to_set().contains(keys@[t]));
        }
    }
    Some(result)
}

/// What an evaluation of `level` fails on, if anything: a missing deadline
/// first, then an overflowing total.
pub open spec fn evaluation_failure(
    def: SlaDefinition,
    cal: Calendar,
    s: Seq<StatusInterval>,
    level: SlaLevel,
    now: Moment,
) -> Option<CalculationFailure> {
    if !deadline_available(s[0].started_at, level.response_time, cal) || !deadline_available(
        s[0].started_at,
        level.resolution_time,
        cal,
    ) {
        Some(CalculationFailure::DeadlineUnavailable)
    } else if !spent_fits(def, cal, s, now) {
        Some(CalculationFailure::SpentOverflow)
    } else {
        None
    }
}

fn deadline_for(start: Moment, minutes: i32, calendar: &Calendar) -> (r: Option<Option<Moment>>)
    requires
        start.valid(),
        calendar.wf(),
    ensures
        r is Some <==> deadline_available(start, minutes, *calendar),
        r matches Some(d) ==> d == deadline_spec(start, minutes, *calendar),
        r matches Some(Some(d)) ==> d.valid(),
{
    if minutes > 0 {
        proof {
            if add_working_minutes_spec(start, minutes as int, *calendar) is Some {
                crate::calendar::law_add_then_measure(start, minutes as int, *calendar);
            }
        }
        match try_add_working_minutes(start, minutes as i64, calendar) {
            Some(d) => Some(Some(d)),
            None => None,
        }
    } else {
        Some(None)
    }
}

fn first_inactive_start_exec(def: &SlaDefinition, intervals: &[StatusInterval]) -> (r: Option<Moment>)
    ensures
        r == first_inactive_start(*def, intervals@),
{
    let mut i: usize = 0;
    proof {
        assert(intervals@.skip(0) =~= intervals@);
    }
    while i < intervals.len()
        invariant
            i <= intervals@.len(),
            first_inactive_start(*def, intervals@) == first_inactive_start(*def, intervals@.skip(i as int)),
        decreases intervals@.len() - i,
    {
        proof {
            assert(intervals@.skip(i as int)[0] == intervals@[i as int]);
            assert(intervals@.skip(i as int).drop_first() =~= intervals@.skip(i + 1));
        }
        if !is_active_exec(def, intervals[i].status_id) {
            return Some(intervals[i].started_at);
        }
        i = i + 1;
    }
    None
}

fn target_met_exec(deadline: Option<Moment>, answered: Option<Moment>, now: Moment) -> (r: bool)
    requires
        deadline matches Some(d) ==> d.valid(),
        answered matches Some(a) ==> a.valid(),
        now.valid(),
    ensures
        r == target_met(deadline, answered, now),
{
    match (deadline, answered) {
        (Some(deadline), Some(ended)) => is_at_or_before(ended, deadline),
        (Some(deadline), None) => is_at_or_before(now, deadline),
        _ => true,
    }
}

/// Evaluates one SLA level over the status intervals of an issue at
/// `current_time`: its deadlines from the start of the first interval,
/// whether each target is met, the overall status, and the working minutes
/// spent per status. Fails where the deadlines or the totals cannot be
/// formed.
pub fn evaluate_sla_level(
    sla_def: &SlaDefinition,
    calendar: &Calendar,
    intervals: &[StatusInterval],
    level: &SlaLevel,
    current_time: Moment,
) -> (r: Result<CalculationResult, CalculationFailure>)
    requires
        intervals@.len() > 0,
        inputs_valid(*calendar, intervals@, current_time),
    ensures
        match r {
            Ok(v) => evaluation_failure(*sla_def, *calendar, intervals@, *level, current_time) is None
                && evaluation_matches(v, *sla_def, *calendar, intervals@, *level, current_time),
            Err(e) => evaluation_failure(*sla_def, *calendar, intervals@, *level, current_time) == Some(e),
        },
{
    let created_at = intervals[0].started_at;
    proof {
        assert(intervals@[0].started_at.valid());
    }
    let response_deadline = match deadline_for(created_at, level.response_time, calendar) {
        Some(d) => d,
        None => {
            return Err(CalculationFailure::DeadlineUnavailable);
        },
    };
    let resolution_deadline = match deadline_for(created_at, level.resolution_time, calendar) {
        Some(d) => d,
        None => {
            return Err(CalculationFailure::DeadlineUnavailable);
        },
    };
    let spent = match spent_by_status(sla_def, calendar, intervals, current_time) {
        Some(v) => v,
        None => {
            return Err(CalculationFailure::SpentOverflow);
        },
    };
    let first_status_ended_at = intervals[0].ended_at;
    let response_met = target_met_exec(response_deadline, first_status_ended_at, current_time);
    let resolved_at = first_inactive_start_exec(sla_def, intervals);
    proof {
        if resolved_at is Some {
            lemma_first_inactive_in(*sla_def, intervals@);
        }
    }
    let resolution_met = target_met_exec(resolution_deadline, resolved_at, current_time);
    let status = if !response_met || !resolution_met {
        String::from_str("Breached")
    } else if resolved_at.is_some() {
        String::from_str("Completed")
    } else {
        String::from_str("Active")
    };
    Ok(
        CalculationResult {
            level_name: level.name.clone(),
            response_deadline,
            resolution_deadline,
            response_met,
            resolution_met,
            status,
            spent_minutes_by_status: spent,
        },
    )
}

proof fn lemma_first_inactive_in(def: SlaDefinition, s: Seq<StatusInterval>)
    requires
        intervals_valid(s),
        first_inactive_start(def, s) is Some,
    ensures
        first_inactive_start(def, s)->0.valid(),
    decreases s.len(),
{
    assert(s[0].started_at.valid());
    if is_active(def, s[0].status_id) {
        assert(intervals_valid(s.drop_first())) by {
            assert forall|i: int| 0 <= i < s.drop_first().len() implies {
                &&& (#[trigger] s.drop_first()[i]).started_at.valid()
                &&& s.drop_first()[i].ended_at matches Some(e) ==> e.valid()
            } by {
                assert(s.drop_first()[i] == s[i + 1]);
            }
        }
        lemma_first_inactive_in(def, s.drop_first());
    }
}

/// Index of the first level whose lowercased priority is the lowercased `priority`.
fn find_level(levels: &Vec<SlaLevel>, priority: &str) -> (r: Option<usize>)
    ensures
        match r {
            Some(i) => i < levels@.len() && matching_level(levels@, priority@) == Some(i as int),
            None => matching_level(levels@, priority@) is None,
        },
{
    let wanted = to_lowercase(priority);
    let mut i: usize = 0;
    while i < levels.len()
        invariant
            i <= levels@.len(),
            wanted@ == lowercased(priority@),
            matching_level(levels@.take(i as int), priority@) is None,
        decreases levels@.len() - i,
    {
        let candidate = to_lowercase(levels[i].priority.as_str());
        proof {
            assert(levels@.take(i + 1).drop_last() =~= levels@.take(i as int));
            assert(levels@.take(i + 1).last() == levels@[i as int]);
        }
        if candidate == wanted {
            proof {
                lemma_matching_level_prefix(levels@, priority@, i as int + 1);
            }
            return Some(i);
        }
        i = i + 1;
    }
    proof {
        assert(levels@.take(levels@.len() as int) =~= levels@);
    }
    None
}

/// A match found in a prefix is the match of the whole list.
proof fn lemma_matching_level_prefix(levels: Seq<SlaLevel>, priority: Seq<char>, k: int)
    requires
        0 <= k <= levels.len(),
        matching_level(levels.take(k), priority) is Some,
    ensures
        matching_level(levels, priority) == matching_level(levels.take(k), priority),
    decreases levels.len() - k,
{
    if k < levels.len() {
        assert(levels.take(k + 1).drop_last() =~= levels.take(k));
        lemma_matching_level_prefix(levels, priority, k + 1);
    } else {
        assert(levels.take(k) =~= levels);
    }
}

/// What computing the SLA of an issue fails on, if anything.
pub open spec fn calculation_failure(
    def: SlaDefinition,
    cal: Calendar,
    s: Seq<StatusInterval>,
    priority: Seq<char>,
    now: Moment,
) -> Option<CalculationFailure> {
    if s.len() == 0 {
        None
    } else {
        match matching_level(def.levels@, priority) {
            Some(i) => evaluation_failure(def, cal, s, def.levels@[i], now),
            None => None,
        }
    }
}

/// The SLA of an issue: `None` without intervals or without a level for the
/// priority; else the evaluation of the first level whose priority matches
/// (case-insensitively).
pub open spec fn calculation_matches(
    r: Option<CalculationResult>,
    def: SlaDefinition,
    cal: Calendar,
    s: Seq<StatusInterval>,
    priority: Seq<char>,
    now: Moment,
) -> bool {
    match r {
        None => s.len() == 0 || matching_level(def.levels@, priority) is None,
        Some(v) => s.len() > 0 && matching_level(def.levels@, priority) is Some && evaluation_matches(
            v,
            def,
            cal,
            s,
            def.levels@[matching_level(def.levels@, priority)->0],
            now,
        ),
    }
}

/// Priorities that lowercase alike match the same level.
proof fn lemma_matching_level_case(levels: Seq<SlaLevel>, p1: Seq<char>, p2: Seq<char>)
    requires
        lowercased(p1) == lowercased(p2),
    ensures
        matching_level(levels, p1) == matching_level(levels, p2),
    decreases levels.len(),
{
    if levels.len() > 0 {
        lemma_matching_level_case(levels.drop_last(), p1, p2);
    }
}

/// Law: two priorities with the same lowercase form give the same SLA: the
/// same level, the same failure if any, and the same results.
pub proof fn law_priority_case_insensitive(
    def: SlaDefinition,
    cal: Calendar,
    s: Seq<StatusInterval>,
    p1: Seq<char>,
    p2: Seq<char>,
    now: Moment,
)
    requires
        lowercased(p1) == lowercased(p2),
    ensures
        matching_level(def.levels@, p1) == matching_level(def.levels@, p2),
        calculation_failure(def, cal, s, p1, now) == calculation_failure(def, cal, s, p2, now),
        forall|r: Option<CalculationResult>|
            #![trigger calculation_matches(r, def, cal, s, p1, now)]
            #![trigger calculation_matches(r, def, cal, s, p2, now)]
            calculation_matches(r, def, cal, s, p1, now) <==> calculation_matches(r, def, cal, s, p2, now),
{
    lemma_matching_level_case(def.levels@, p1, p2);
}

/// Where the resolution timer stops: the start of the first interval, by
/// position, whose status is not active.
proof fn lemma_first_inactive_at(def: SlaDefinition, s: Seq<StatusInterval>, i: int)
    requires
        0 <= i < s.len(),
        !def.active_statuses@.contains(s[i].status_id),
        forall|j: int| 0 <= j < i ==> def.active_statuses@.contains(#[trigger] s[j].status_id),
    ensures
        first_inactive_start(def, s) == Some(s[i].started_at),
    decreases i,
{
    if i > 0 {
        let t = s.drop_first();
        assert(def.active_statuses@.contains(s[0].status_id));
        assert forall|j: int| 0 <= j < i - 1 implies def.active_statuses@.contains(#[trigger] t[j].status_id) by {
            assert(t[j] == s[j + 1]);
        }
        assert(t[i - 1] == s[i]);
        lemma_first_inactive_at(def, t, i - 1);
    }
}

proof fn lemma_all_active(def: SlaDefinition, s: Seq<StatusInterval>)
    requires
        forall|j: int| 0 <= j < s.len() ==> def.active_statuses@.contains(#[trigger] s[j].status_id),
    ensures
        first_inactive_start(def, s) is None,
    decreases s.len(),
{
    if s.len() > 0 {
        let t = s.drop_first();
        assert(def.active_statuses@.contains(s[0].status_id));
        assert forall|j: int| 0 <= j < t.len() implies def.active_statuses@.contains(#[trigger] t[j].status_id) by {
            assert(t[j] == s[j + 1]);
        }
        lemma_all_active(def, t);
    }
}

/// Law: the resolution target is judged at the start of the first interval,
/// by position, whose status is not active: it is met when that start is no
/// later than the resolution deadline (or there is no deadline), and the
/// status is then "Completed" when both targets are met, else "Breached".
pub proof fn law_resolution_stops_at_first_inactive(
    v: CalculationResult,
    def: SlaDefinition,
    cal: Calendar,
    s: Seq<StatusInterval>,
    priority: Seq<char>,
    now: Moment,
    i: int,
)
    requires
        calculation_matches(Some(v), def, cal, s, priority, now),
        0 <= i < s.len(),
        !def.active_statuses@.contains(s[i].status_id),
        forall|j: int| 0 <= j < i ==> def.active_statuses@.contains(#[trigger] s[j].status_id),
    ensures
        v.resolution_met == match v.resolution_deadline {
            Some(d) => moment_le(s[i].started_at, d),
            None => true,
        },
        v.status@ == if v.response_met && v.resolution_met { "Completed"@ } else { "Breached"@ },
{
    lemma_first_inactive_at(def, s, i);
}

/// Law: while every interval is in an active status, the resolution target
/// is judged at `now`, and the status is "Active" when both targets are met,
/// else "Breached".
pub proof fn law_resolution_open_while_active(
    v: CalculationResult,
    def: SlaDefinition,
    cal: Calendar,
    s: Seq<StatusInterval>,
    priority: Seq<char>,
    now: Moment,
)
    requires
        calculation_matches(Some(v), def, cal, s, priority, now),
        forall|j: int| 0 <= j < s.len() ==> def.active_statuses@.contains(#[trigger] s[j].status_id),
    ensures
        v.resolution_met == match v.resolution_deadline {
            Some(d) => moment_le(now, d),
            None => true,
        },
        v.status@ == if v.response_met && v.resolution_met { "Active"@ } else { "Breached"@ },
{
    lemma_all_active(def, s);
}

/// Law: the response target is judged at the end of the first interval (at
/// `now` while that interval is still open): it is met when that moment is
/// no later than the response deadline, or when there is no deadline.
pub proof fn law_response_judged_at_first_end(
    v: CalculationResult,
    def: SlaDefinition,
    cal: Calendar,
    s: Seq<StatusInterval>,
    priority: Seq<char>,
    now: Moment,
)
    requires
        calculation_matches(Some(v), def, cal, s, priority, now),
    ensures
        v.response_met == match v.response_deadline {
            Some(d) => match s[0].ended_at {
                Some(e) => moment_le(e, d),
                None => moment_le(now, d),
            },
            None => true,
        },
{
}

/// The matching level is the first, by position, whose lowercased priority
/// is the lowercased `priority`.
proof fn lemma_matching_level_first(levels: Seq<SlaLevel>, priority: Seq<char>)
    ensures
        match matching_level(levels, priority) {
            Some(i) => {
                &&& 0 <= i < levels.len()
                &&& lowercased(levels[i].priority@) == lowercased(priority)
                &&& forall|j: int| 0 <= j < i ==> lowercased((#[trigger] levels[j]).priority@) != lowercased(priority)
            },
            None => forall|j: int| 0 <= j < levels.len() ==> lowercased((#[trigger] levels[j]).priority@) != lowercased(priority),
        },
    decreases levels.len(),
{
    if levels.len() > 0 {
        let t = levels.drop_last();
        lemma_matching_level_first(t, priority);
        assert(levels.last() == levels[levels.len() - 1]);
        match matching_level(t, priority) {
            Some(i) => {
                assert(t[i] == levels[i]);
                assert forall|j: int| 0 <= j < i implies lowercased((#[trigger] levels[j]).priority@) != lowercased(
                    priority,
                ) by {
                    assert(t[j] == levels[j]);
                }
            },
            None => {
                assert forall|j: int| 0 <= j < levels.len() - 1 implies lowercased(
                    (#[trigger] levels[j]).priority@,
                ) != lowercased(priority) by {
                    assert(t[j] == levels[j]);
                }
            },
        }
    }
}

/// Law: the SLA is evaluated for the first level, by position, whose
/// lowercased priority equals the lowercased requested priority: its name is
/// reported and its response and resolution times give the deadlines. With
/// intervals and no such level, there is no result.
pub proof fn law_level_is_first_exact_match(
    r: Option<CalculationResult>,
    def: SlaDefinition,
    cal: Calendar,
    s: Seq<StatusInterval>,
    priority: Seq<char>,
    now: Moment,
)
    requires
        calculation_matches(r, def, cal, s, priority, now),
    ensures
        match r {
            Some(v) => exists|i: int|
                0 <= i < def.levels@.len() && #[trigger] def.levels@[i].name == v.level_name
                    && lowercased(def.levels@[i].priority@) == lowercased(priority)
                    && (forall|j: int| 0 <= j < i ==> lowercased((#[trigger] def.levels@[j]).priority@) != lowercased(priority))
                    && v.response_deadline == deadline_spec(s[0].started_at, def.levels@[i].response_time, cal)
                    && v.resolution_deadline == deadline_spec(s[0].started_at, def.levels@[i].resolution_time, cal),
            None => s.len() == 0 || forall|j: int|
                0 <= j < def.levels@.len() ==> lowercased((#[trigger] def.levels@[j]).priority@) != lowercased(priority),
        },
{
    lemma_matching_level_first(def.levels@, priority);
    if let Some(v) = r {
        let i = matching_level(def.levels@, priority)->0;
        assert(def.levels@[i].name == v.level_name);
    }
}

/// Computes the SLA targets, their status and the time spent of an issue
/// from its status intervals, for the level matching `priority`.
pub fn calculate_sla(
    sla_def: &SlaDefinition,
    calendar: &Calendar,
    intervals: &[StatusInterval],
    priority: &str,
    current_time: Moment,
) -> (r: Option<CalculationResult>)
    requires
        inputs_valid(*calendar, intervals@, current_time),
        calculation_failure(*sla_def, *calendar, intervals@, priority@, current_time) is None,
    ensures
        calculation_matches(r, *sla_def, *calendar, intervals@, priority@, current_time),
{
    if intervals.len() == 0 {
        return None;
    }
    let index = match find_level(&sla_def.levels, priority) {
        Some(i) => i,
        None => {
            return None;
        },
    };
    match evaluate_sla_level(sla_def, calendar, intervals, &sla_def.levels[index], current_time) {
        Ok(v) => Some(v),
        Err(_) => None,
    }
}

/// Like `calculate_sla`, but reports the inputs on which the SLA cannot be
/// computed (a deadline whose working window cannot be formed, or a total
/// that overflows) instead of requiring that there are none.
pub fn try_calculate_sla(
    sla_def: &SlaDefinition,
    calendar: &Calendar,
    intervals: &[StatusInterval],
    priority: &str,
    current_time: Moment,
) -> (r: Result<Option<CalculationResult>, CalculationFailure>)
    requires
        inputs_valid(*calendar, intervals@, current_time),
    ensures
        match r {
            Ok(v) => calculation_failure(*sla_def, *calendar, intervals@, priority@, current_time) is None
                && calculation_matches(v, *sla_def, *calendar, intervals@, priority@, current_time),
            Err(e) => calculation_failure(*sla_def, *calendar, intervals@, priority@, current_time) == Some(e),
        },
{
    if intervals.len() == 0 {
        // Nothing to evaluate, so nothing can fail.
        return Ok(calculate_sla(sla_def, calendar, intervals, priority, current_time));
    }
    match find_level(&sla_def.levels, priority) {
        Some(index) => match evaluate_sla_level(sla_def, calendar, intervals, &sla_def.levels[index], current_time) {
            Ok(v) => Ok(Some(v)),
            Err(e) => Err(e),
        },
        None => Ok(None),
    }
}

proof fn lemma_inactive_total_zero(def: SlaDefinition, cal: Calendar, s: Seq<StatusInterval>, id: i32, now: Moment)
    requires
        !is_active(def, id),
    ensures
        spent_total(def, cal, s, id, now) == 0,
    decreases s.len(),
{
    if s.len() > 0 {
        lemma_inactive_total_zero(def, cal, s.drop_last(), id, now);
    }
}

/// Law: the time spent lists every status of the intervals exactly once,
/// and a status in which the timer is stopped accumulates no time.
pub proof fn law_spent_grouping(def: SlaDefinition, cal: Calendar, s: Seq<StatusInterval>, id: i32, now: Moment)
    ensures
        status_ids(s).no_duplicates(),
        status_ids(s).contains(id) <==> has_status(s, id),
        !is_active(def, id) ==> spent_total(def, cal, s, id, now) == 0,
{
    lemma_status_ids(s, id);
    if !is_active(def, id) {
        lemma_inactive_total_zero(def, cal, s, id, now);
    }
}

/// Working minutes of all intervals together.
pub open spec fn interval_minutes_total(def: SlaDefinition, cal: Calendar, s: Seq<StatusInterval>, now: Moment) -> int
    decreases s.len(),
{
    if s.len() == 0 {
        0
    } else {
        interval_minutes_total(def, cal, s.drop_last(), now) + interval_minutes(def, cal, s.last(), now)
    }
}

/// Sum of the time spent in the statuses `ids`.
pub open spec fn spent_sum(def: SlaDefinition, cal: Calendar, s: Seq<StatusInterval>, ids: Seq<i32>, now: Moment) -> int
    decreases ids.len(),
{
    if ids.len() == 0 {
        0
    } else {
        spent_sum(def, cal, s, ids.drop_last(), now) + spent_total(def, cal, s, ids.last(), now)
    }
}

proof fn lemma_spent_sum_extend(def: SlaDefinition, cal: Calendar, s: Seq<StatusInterval>, ids: Seq<i32>, now: Moment)
    requires
        s.len() > 0,
        ids.no_duplicates(),
    ensures
        spent_sum(def, cal, s, ids, now) == spent_sum(def, cal, s.drop_last(), ids, now) + if ids.contains(
            s.last().status_id,
        ) {
            interval_minutes(def, cal, s.last(), now)
        } else {
            0
        },
    decreases ids.len(),
{
    if ids.len() > 0 {
        let front = ids.drop_last();
        assert(front.no_duplicates()) by {
            assert forall|a: int, b: int| 0 <= a < b < front.len() implies front[a] != front[b] by {
                assert(front[a] == ids[a] && front[b] == ids[b]);
            }
        }
        lemma_spent_sum_extend(def, cal, s, front, now);
        let x = s.last().status_id;
        if front.contains(x) {
            let j = choose|j: int| 0 <= j < front.len() && front[j] == x;
            assert(ids[j] == x);
            assert(ids.last() != x) by {
                assert(ids[ids.len() - 1] == ids.last());
            }
            assert(ids.contains(x));
        } else if ids.last() == x {
            assert(ids[ids.len() - 1] == x);
            assert(ids.contains(x));
        } else {
            assert(!ids.contains(x)) by {
                if ids.contains(x) {
                    let j = choose|j: int| 0 <= j < ids.len() && ids[j] == x;
                    if j < ids.len() - 1 {
                        assert(front[j] == x);
                    }
                }
            }
        }
    }
}

/// Law: grouping by status loses and duplicates no working minute: the time
/// spent in all statuses adds up to the working minutes of all intervals.
pub proof fn law_spent_adds_up(def: SlaDefinition, cal: Calendar, s: Seq<StatusInterval>, now: Moment)
    ensures
        spent_sum(def, cal, s, status_ids(s), now) == interval_minutes_total(def, cal, s, now),
    decreases s.len(),
{
    if s.len() > 0 {
        let q = s.drop_last();
        let x = s.last();
        law_spent_adds_up(def, cal, q, now);
        lemma_status_ids(q, x.status_id);
        lemma_status_ids(s, x.status_id);
        let ids = status_ids(q);
        if ids.contains(x.status_id) {
            lemma_spent_sum_extend(def, cal, s, ids, now);
        } else {
            lemma_spent_sum_extend(def, cal, s, ids, now);
            assert(status_ids(s).drop_last() =~= ids);
            lemma_spent_total_absent(def, cal, q, x.status_id, now);
        }
    }
}

} // verus!
