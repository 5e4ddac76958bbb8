use chrono::{DateTime, Utc};
use sla_engine::calculation::{calculate_sla, try_calculate_sla, CalculationFailure};
use sla_engine::models::{Calendar, DocumentId, Holiday, SlaDefinition, SlaLevel};
use sla_engine::time::Moment;
use sla_engine::transitions::{reconstruct_intervals, StatusInterval, Transition};

fn at(text: &str) -> Moment {
    let dt = DateTime::parse_from_rfc3339(text).unwrap().with_timezone(&Utc);
    Moment { secs: dt.timestamp(), nanos: dt.timestamp_subsec_nanos() }
}

fn plus_minutes(m: Moment, minutes: i64) -> Moment {
    Moment { secs: m.secs + 60 * minutes, nanos: m.nanos }
}

fn transition(id: i32, name: &str, when: Moment) -> Transition {
    Transition { status_id: id, status_name: name.to_string(), transitioned_at: when }
}

fn interval(id: i32, name: &str, start: Moment, end: Option<Moment>) -> StatusInterval {
    StatusInterval { status_id: id, status_name: name.to_string(), started_at: start, ended_at: end }
}

fn calendar(holidays: Vec<Holiday>) -> Calendar {
    Calendar {
        id: DocumentId { bytes: [7; 12] },
        name: "Standard 9-5".to_string(),
        timezone: "UTC".to_string(),
        working_days: vec![
            "Monday".to_string(),
            "Tuesday".to_string(),
            "Wednesday".to_string(),
            "Thursday".to_string(),
            "Friday".to_string(),
        ],
        start_time: "09:00".to_string(),
        end_time: "17:00".to_string(),
        holidays,
    }
}

fn definition(levels: Vec<SlaLevel>, active: Vec<i32>) -> SlaDefinition {
    SlaDefinition {
        id: DocumentId { bytes: [1; 12] },
        name: "Silver SLA".to_string(),
        description: None,
        sla_type: "Response & Resolution".to_string(),
        levels,
        active_statuses: active,
        project_tracker_mappings: vec![],
        calendar_id: DocumentId { bytes: [7; 12] },
        created_at: at("2026-01-01T00:00:00Z"),
        updated_at: at("2026-01-01T00:00:00Z"),
    }
}

fn high_level() -> SlaLevel {
    SlaLevel {
        name: "High Priority Level".to_string(),
        response_time: 60,
        resolution_time: 480,
        priority: "High".to_string(),
    }
}

#[test]
fn test_reconstruct_intervals() {
    let created_at = at("2026-01-01T10:00:00Z");
    let t1_time = at("2026-01-01T12:00:00Z");
    let t2_time = at("2026-01-01T15:00:00Z");
    let current_time = at("2026-01-01T18:00:00Z");

    let transitions = vec![transition(2, "In Progress", t1_time), transition(3, "Resolved", t2_time)];

    let intervals = reconstruct_intervals(created_at, 1, "New".to_string(), transitions, current_time);

    assert_eq!(intervals.len(), 3);

    assert_eq!(intervals[0].status_name, "New");
    assert_eq!(intervals[0].started_at, created_at);
    assert_eq!(intervals[0].ended_at, Some(t1_time));

    assert_eq!(intervals[1].status_name, "In Progress");
    assert_eq!(intervals[1].started_at, t1_time);
    assert_eq!(intervals[1].ended_at, Some(t2_time));

    assert_eq!(intervals[2].status_name, "Resolved");
    assert_eq!(intervals[2].started_at, t2_time);
    assert_eq!(intervals[2].ended_at, None);
}

#[test]
fn reconstruct_sorts_and_skips_stale_transitions() {
    let created_at = at("2026-01-01T10:00:00Z");
    let transitions = vec![
        transition(3, "Resolved", at("2026-01-01T15:00:00Z")),
        transition(9, "Before creation", at("2026-01-01T09:00:00Z")),
        transition(2, "In Progress", at("2026-01-01T12:00:00Z")),
        transition(4, "Same moment, later in list", at("2026-01-01T12:00:00Z")),
        transition(5, "At creation", at("2026-01-01T10:00:00Z")),
    ];
    let intervals = reconstruct_intervals(created_at, 1, "New".to_string(), transitions, created_at);
    let names: Vec<&str> = intervals.iter().map(|i| i.status_name.as_str()).collect();
    assert_eq!(names, vec!["New", "In Progress", "Resolved"]);
    assert_eq!(intervals[0].ended_at, Some(at("2026-01-01T12:00:00Z")));
    assert_eq!(intervals[1].status_id, 2);
    assert_eq!(intervals[2].ended_at, None);
}

#[test]
fn reconstruct_without_transitions_is_one_open_interval() {
    let created_at = at("2026-01-01T10:00:00Z");
    let intervals = reconstruct_intervals(created_at, 1, "New".to_string(), vec![], created_at);
    assert_eq!(intervals.len(), 1);
    assert_eq!(intervals[0].status_id, 1);
    assert_eq!(intervals[0].started_at, created_at);
    assert_eq!(intervals[0].ended_at, None);
}

#[test]
fn test_calculate_sla() {
    let cal = calendar(vec![]);
    let sla_def = definition(vec![high_level()], vec![1, 2]);

    let created_at = at("2026-01-02T09:00:00Z"); // Friday 9 AM
    let resolved_at = at("2026-01-02T15:00:00Z"); // Friday 3 PM

    let intervals = vec![
        interval(1, "New", created_at, Some(plus_minutes(created_at, 30))),
        interval(2, "In Progress", plus_minutes(created_at, 30), Some(resolved_at)),
        interval(3, "Resolved", resolved_at, None),
    ];

    let result = calculate_sla(&sla_def, &cal, &intervals, "High", resolved_at).unwrap();

    assert_eq!(result.level_name, "High Priority Level");
    assert!(result.response_met);
    assert!(result.resolution_met);
    assert_eq!(result.status, "Completed");

    let new_spent = result.spent_minutes_by_status.iter().find(|s| s.status_id == 1).unwrap().time_spent;
    let ip_spent = result.spent_minutes_by_status.iter().find(|s| s.status_id == 2).unwrap().time_spent;
    assert_eq!(new_spent + ip_spent, 360);
}

#[test]
fn calculate_sla_deadlines_and_grouping() {
    let cal = calendar(vec![]);
    let sla_def = definition(vec![high_level()], vec![1, 2]);
    let created_at = at("2026-01-02T09:00:00Z");
    let intervals = vec![
        interval(1, "New", created_at, Some(at("2026-01-02T10:00:00Z"))),
        interval(2, "In Progress", at("2026-01-02T10:00:00Z"), Some(at("2026-01-02T11:00:00Z"))),
        interval(1, "New again", at("2026-01-02T11:00:00Z"), Some(at("2026-01-02T11:30:00Z"))),
        interval(3, "Resolved", at("2026-01-02T11:30:00Z"), None),
    ];
    let result = calculate_sla(&sla_def, &cal, &intervals, "HIGH", at("2026-01-02T12:00:00Z")).unwrap();
    assert_eq!(result.response_deadline, Some(at("2026-01-02T10:00:00Z")));
    assert_eq!(result.resolution_deadline, Some(at("2026-01-02T17:00:00Z")));
    assert!(result.response_met);
    assert!(result.resolution_met);
    assert_eq!(result.status, "Completed");
    let spent = &result.spent_minutes_by_status;
    assert_eq!(spent.len(), 3);
    let new = spent.iter().find(|s| s.status_id == 1).unwrap();
    assert_eq!(new.status_name, "New");
    assert_eq!(new.time_spent, 90);
    assert_eq!(new.intervals.len(), 2);
    assert_eq!(new.intervals[1].started_at, at("2026-01-02T11:00:00Z"));
    let in_progress = spent.iter().find(|s| s.status_id == 2).unwrap();
    assert_eq!(in_progress.time_spent, 60);
    let resolved = spent.iter().find(|s| s.status_id == 3).unwrap();
    assert_eq!(resolved.time_spent, 0);
    assert_eq!(resolved.intervals[0].ended_at, None);
}

#[test]
fn calculate_sla_breached_and_active() {
    let cal = calendar(vec![]);
    let sla_def = definition(vec![high_level()], vec![1, 2]);
    let created_at = at("2026-01-02T09:00:00Z");
    // Still open after two hours: response deadline (10:00) missed.
    let intervals = vec![interval(1, "New", created_at, None)];
    let result = calculate_sla(&sla_def, &cal, &intervals, "high", at("2026-01-02T11:00:00Z")).unwrap();
    assert!(!result.response_met);
    assert!(result.resolution_met);
    assert_eq!(result.status, "Breached");
    assert_eq!(result.spent_minutes_by_status[0].time_spent, 120);

    // Within both targets and not resolved yet.
    let result = calculate_sla(&sla_def, &cal, &intervals, "High", at("2026-01-02T09:30:00Z")).unwrap();
    assert!(result.response_met);
    assert_eq!(result.status, "Active");
}

#[test]
fn calculate_sla_without_targets_meets_them() {
    let cal = calendar(vec![]);
    let level = SlaLevel { name: "No targets".to_string(), response_time: 0, resolution_time: -5, priority: "Low".to_string() };
    let sla_def = definition(vec![level], vec![1]);
    let intervals = vec![interval(1, "New", at("2026-01-02T09:00:00Z"), None)];
    let result = calculate_sla(&sla_def, &cal, &intervals, "low", at("2030-01-01T00:00:00Z")).unwrap();
    assert_eq!(result.response_deadline, None);
    assert_eq!(result.resolution_deadline, None);
    assert!(result.response_met && result.resolution_met);
    assert_eq!(result.status, "Active");
}

#[test]
fn calculate_sla_none_without_intervals_or_level() {
    let cal = calendar(vec![]);
    let sla_def = definition(vec![high_level()], vec![1]);
    assert!(calculate_sla(&sla_def, &cal, &[], "High", at("2026-01-02T09:00:00Z")).is_none());
    let intervals = vec![interval(1, "New", at("2026-01-02T09:00:00Z"), None)];
    assert!(calculate_sla(&sla_def, &cal, &intervals, "Medium", at("2026-01-02T09:00:00Z")).is_none());
}

#[test]
fn calculate_sla_first_matching_level_wins() {
    let cal = calendar(vec![]);
    let first = SlaLevel { name: "first".to_string(), response_time: 10, resolution_time: 20, priority: "urgent".to_string() };
    let second = SlaLevel { name: "second".to_string(), response_time: 10, resolution_time: 20, priority: "URGENT".to_string() };
    let sla_def = definition(vec![high_level(), first, second], vec![1]);
    let intervals = vec![interval(1, "New", at("2026-01-02T09:00:00Z"), None)];
    let result = calculate_sla(&sla_def, &cal, &intervals, "Urgent", at("2026-01-02T09:05:00Z")).unwrap();
    assert_eq!(result.level_name, "first");
}

#[test]
fn try_calculate_sla_reports_missing_window() {
    let mut cal = calendar(vec![]);
    cal.start_time = "99:00".to_string();
    let sla_def = definition(vec![high_level()], vec![1]);
    let intervals = vec![interval(1, "New", at("2026-01-02T09:00:00Z"), None)];
    let outcome = try_calculate_sla(&sla_def, &cal, &intervals, "High", at("2026-01-02T09:05:00Z"));
    assert!(matches!(outcome, Err(CalculationFailure::DeadlineUnavailable)));
    // Without a matching level nothing is evaluated.
    let outcome = try_calculate_sla(&sla_def, &cal, &intervals, "Other", at("2026-01-02T09:05:00Z"));
    assert!(matches!(outcome, Ok(None)));
}

#[test]
fn try_calculate_sla_reports_overflowing_totals() {
    let mut cal = calendar(vec![]);
    cal.working_days = vec![
        "Monday".to_string(),
        "Tuesday".to_string(),
        "Wednesday".to_string(),
        "Thursday".to_string(),
        "Friday".to_string(),
        "Saturday".to_string(),
        "Sunday".to_string(),
    ];
    cal.start_time = "00:00".to_string();
    cal.end_time = "23:59".to_string();
    let level = SlaLevel { name: "No targets".to_string(), response_time: 0, resolution_time: 0, priority: "Low".to_string() };
    let sla_def = definition(vec![level], vec![1]);
    // Each interval holds about 1.1 billion working minutes; together they exceed i32.
    let start = Moment { secs: 0, nanos: 0 };
    let days: i64 = 770_000;
    let end = Moment { secs: days * 86_400, nanos: 0 };
    let intervals = vec![interval(1, "New", start, Some(end)), interval(1, "New", start, Some(end))];
    let outcome = try_calculate_sla(&sla_def, &cal, &intervals, "Low", end);
    assert!(matches!(outcome, Err(CalculationFailure::SpentOverflow)));
    let one = vec![interval(1, "New", start, Some(end))];
    let result = try_calculate_sla(&sla_def, &cal, &one, "Low", end).unwrap().unwrap();
    assert_eq!(result.spent_minutes_by_status[0].time_spent as i64, 1439 * days);
}

#[test]
fn spent_minutes_add_up_over_statuses() {
    let cal = calendar(vec![]);
    let sla_def = definition(vec![high_level()], vec![1, 2]);
    let intervals = vec![
        interval(1, "New", at("2026-01-02T08:00:00Z"), Some(at("2026-01-02T09:45:00Z"))),
        interval(2, "In Progress", at("2026-01-02T09:45:00Z"), Some(at("2026-01-05T10:00:00Z"))),
        interval(3, "Waiting", at("2026-01-05T10:00:00Z"), Some(at("2026-01-05T12:00:00Z"))),
        interval(2, "In Progress", at("2026-01-05T12:00:00Z"), None),
    ];
    let now = at("2026-01-05T13:00:00Z");
    let result = calculate_sla(&sla_def, &cal, &intervals, "High", now).unwrap();
    let total: i32 = result.spent_minutes_by_status.iter().map(|s| s.time_spent).sum();
    // 45 (New) + 435 + 60 (In Progress, Friday and Monday) + 60 (In Progress again)
    assert_eq!(total, 45 + 435 + 60 + 60);
    let waiting = result.spent_minutes_by_status.iter().find(|s| s.status_id == 3).unwrap();
    assert_eq!(waiting.time_spent, 0);
    assert_eq!(result.spent_minutes_by_status.len(), 3);
    // 480 working minutes after Friday 08:00 is the close of Friday's window;
    // the timer first stopped on Monday 10:00, too late.
    assert_eq!(result.resolution_deadline, Some(at("2026-01-02T17:00:00Z")));
    assert!(result.response_met);
    assert!(!result.resolution_met);
    assert_eq!(result.status, "Breached");
}

fn timeline(intervals: &[StatusInterval]) -> Vec<(i32, String, Moment, Option<Moment>)> {
    intervals.iter().map(|i| (i.status_id, i.status_name.clone(), i.started_at, i.ended_at)).collect()
}

fn history() -> Vec<Transition> {
    vec![
        transition(3, "Resolved", at("2026-01-01T15:00:00Z")),
        transition(9, "Before creation", at("2026-01-01T09:00:00Z")),
        transition(2, "In Progress", at("2026-01-01T12:00:00Z")),
        transition(5, "At creation", at("2026-01-01T10:00:00Z")),
        transition(6, "Reopened", at("2026-01-02T08:30:00Z")),
    ]
}

#[test]
fn reconstruct_ignores_transitions_up_to_creation() {
    let created_at = at("2026-01-01T10:00:00Z");
    let all = reconstruct_intervals(created_at, 1, "New".to_string(), history(), created_at);
    let later: Vec<Transition> = history().into_iter().filter(|t| t.transitioned_at.secs > created_at.secs).collect();
    assert_eq!(later.len(), 3);
    let only_later = reconstruct_intervals(created_at, 1, "New".to_string(), later, created_at);
    assert_eq!(timeline(&all), timeline(&only_later));
    assert_eq!(all.len(), 4);
}

#[test]
fn reconstruct_does_not_depend_on_the_order_given() {
    let created_at = at("2026-01-01T10:00:00Z");
    let expected = timeline(&reconstruct_intervals(created_at, 1, "New".to_string(), history(), created_at));
    let orders: [[usize; 5]; 4] = [[0, 1, 2, 3, 4], [4, 3, 2, 1, 0], [2, 0, 4, 1, 3], [1, 4, 0, 3, 2]];
    for order in orders {
        let source = history();
        let reordered: Vec<Transition> = order
            .iter()
            .map(|&k| transition(source[k].status_id, &source[k].status_name, source[k].transitioned_at))
            .collect();
        let got = reconstruct_intervals(created_at, 1, "New".to_string(), reordered, created_at);
        assert_eq!(timeline(&got), expected);
    }
}

#[test]
fn calculate_sla_matches_priority_in_any_ascii_case() {
    let cal = calendar(vec![]);
    let sla_def = definition(vec![high_level()], vec![1]);
    let intervals = vec![interval(1, "New", at("2026-01-02T09:00:00Z"), None)];
    for wanted in ["high", "HIGH", "High", "hIgH"] {
        let result = calculate_sla(&sla_def, &cal, &intervals, wanted, at("2026-01-02T09:05:00Z")).unwrap();
        assert_eq!(result.level_name, "High Priority Level");
    }
    assert!(calculate_sla(&sla_def, &cal, &intervals, "higher", at("2026-01-02T09:05:00Z")).is_none());
}

#[test]
fn priorities_that_lowercase_alike_give_the_same_result() {
    let cal = calendar(vec![]);
    let sla_def = definition(vec![high_level()], vec![1, 2]);
    let intervals = vec![
        interval(1, "New", at("2026-01-02T09:00:00Z"), Some(at("2026-01-02T10:30:00Z"))),
        interval(2, "In Progress", at("2026-01-02T10:30:00Z"), None),
    ];
    let now = at("2026-01-02T12:00:00Z");
    let a = calculate_sla(&sla_def, &cal, &intervals, "high", now).unwrap();
    let b = calculate_sla(&sla_def, &cal, &intervals, "HiGh", now).unwrap();
    assert_eq!(a.level_name, b.level_name);
    assert_eq!(a.response_deadline, b.response_deadline);
    assert_eq!(a.resolution_deadline, b.resolution_deadline);
    assert_eq!((a.response_met, a.resolution_met), (b.response_met, b.resolution_met));
    assert_eq!(a.status, b.status);
    let mut sa: Vec<(i32, i32)> = a.spent_minutes_by_status.iter().map(|s| (s.status_id, s.time_spent)).collect();
    let mut sb: Vec<(i32, i32)> = b.spent_minutes_by_status.iter().map(|s| (s.status_id, s.time_spent)).collect();
    sa.sort();
    sb.sort();
    assert_eq!(sa, sb);
}
