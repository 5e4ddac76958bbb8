use sla_engine::api::{internal_failure, issue_sla_or_not_found, parse_issue_id, recalculate_task, RecalculateRequest};
use sla_engine::calculation::CalculationResult;
use sla_engine::dispatcher::{
    audit_description, cache_from_calculation, cache_write, calendar_or_not_found, definition_or_not_found,
    event_log_entry, recalculation_intervals, CacheWrite,
};
use sla_engine::errors::SlaError;
use sla_engine::models::DocumentId;
use sla_engine::routes::{
    bad_request, delete_outcome, found_or_not_found, new_sla, new_sla_cache, new_sla_level, new_sla_schedule,
    not_found, parse_path_id, CreateSlaCacheInput, CreateSlaInput, CreateSlaLevelInput, CreateSlaScheduleInput,
};
use sla_engine::time::Moment;
use sla_engine::transitions::Transition;

fn moment(secs: i64) -> Moment {
    Moment { secs, nanos: 0 }
}

#[test]
fn sla_error_texts() {
    assert_eq!(SlaError::DatabaseError("down".to_string()).to_string(), "Database error: down");
    assert_eq!(SlaError::ValidationError("bad".to_string()).to_string(), "Validation error: bad");
    assert_eq!(SlaError::NotFound("x".to_string()).to_string(), "Not found: x");
    assert_eq!(SlaError::InternalError("".to_string()).to_string(), "Internal error: ");
}

#[test]
fn issue_id_parsing() {
    assert_eq!(parse_issue_id("42").ok(), Some(42));
    assert_eq!(parse_issue_id("-7").ok(), Some(-7));
    assert_eq!(parse_issue_id("+8").ok(), Some(8));
    assert_eq!(parse_issue_id("-2147483648").ok(), Some(i32::MIN));
    for bad in ["", "abc", "2147483648", " 1", "1.0", "-", "+"] {
        let e = parse_issue_id(bad).unwrap_err();
        assert_eq!(e.status, 400);
        assert_eq!(e.message, "Invalid issue_id format");
    }
}

#[test]
fn recalculate_request_becomes_task() {
    let input = RecalculateRequest {
        project_id: 3,
        tracker_id: 4,
        priority: "High".to_string(),
        initial_status_id: 1,
        initial_status_name: "New".to_string(),
        transitions: vec![Transition { status_id: 2, status_name: "In Progress".to_string(), transitioned_at: moment(100) }],
    };
    let task = recalculate_task("17", input).ok().unwrap();
    assert_eq!(task.issue_id, 17);
    assert_eq!(task.project_id, 3);
    assert_eq!(task.tracker_id, 4);
    assert_eq!(task.priority, "High");
    assert_eq!(task.transitions.len(), 1);
    let input = RecalculateRequest {
        project_id: 3,
        tracker_id: 4,
        priority: "High".to_string(),
        initial_status_id: 1,
        initial_status_name: "New".to_string(),
        transitions: vec![],
    };
    assert_eq!(recalculate_task("x17", input).err().unwrap().status, 400);
}

#[test]
fn refusals_of_issue_endpoints() {
    let e = internal_failure(&SlaError::InternalError("boom".to_string()));
    assert_eq!(e.status, 500);
    assert_eq!(e.message, "Internal error: boom");
    let e = issue_sla_or_not_found(None).err().unwrap();
    assert_eq!(e.status, 404);
    assert_eq!(e.message, "SLA Cache not found for this issue");
}

#[test]
fn missing_records_are_named() {
    match definition_or_not_found(None, 5, -6) {
        Err(SlaError::NotFound(m)) => assert_eq!(m, "No SLA Definition found for project_id 5 and tracker_id -6"),
        _ => panic!("expected a not-found error"),
    }
    let id = DocumentId { bytes: [0x50, 0x7f, 0x1f, 0x77, 0xbc, 0xf8, 0x6c, 0xd7, 0x99, 0x43, 0x90, 0x11] };
    match calendar_or_not_found(None, id) {
        Err(SlaError::NotFound(m)) => assert_eq!(m, "Calendar with ID 507f1f77bcf86cd799439011 not found"),
        _ => panic!("expected a not-found error"),
    }
}

#[test]
fn recalculation_starts_at_first_given_transition() {
    let transitions = vec![
        Transition { status_id: 3, status_name: "Resolved".to_string(), transitioned_at: moment(5000) },
        Transition { status_id: 2, status_name: "In Progress".to_string(), transitioned_at: moment(4000) },
    ];
    // The first transition as given (5000) is taken as the start, so the
    // earlier one is ignored.
    let intervals = recalculation_intervals(1, "New".to_string(), transitions, moment(9000));
    assert_eq!(intervals.len(), 1);
    assert_eq!(intervals[0].started_at, moment(5000));
    assert_eq!(intervals[0].status_id, 1);
    let intervals = recalculation_intervals(1, "New".to_string(), vec![], moment(9000));
    assert_eq!(intervals[0].started_at, moment(9000));
}

#[test]
fn cache_record_and_audit() {
    let id = DocumentId { bytes: [9; 12] };
    let def_id = DocumentId { bytes: [1; 12] };
    match cache_from_calculation(1, 2, 3, def_id, None, id, moment(0)) {
        Err(SlaError::InternalError(m)) => assert_eq!(m, "Failed to calculate SLA targets"),
        _ => panic!("expected an internal error"),
    }
    let calc = CalculationResult {
        level_name: "High".to_string(),
        response_deadline: Some(moment(60)),
        resolution_deadline: None,
        response_met: true,
        resolution_met: false,
        status: "Breached".to_string(),
        spent_minutes_by_status: vec![],
    };
    let cache = cache_from_calculation(-12, 2, 3, def_id, Some(calc), id, moment(77)).ok().unwrap();
    assert_eq!(cache.issue_id, -12);
    assert_eq!(cache.sla_definition_id, def_id);
    assert_eq!(cache.created_at, moment(77));
    assert_eq!(cache.status, "Breached");
    assert_eq!(
        audit_description(&cache),
        "Recalculated SLA for issue -12. Status: Breached. Response Met: true. Resolution Met: false."
    );
    assert_eq!(cache_write(true), CacheWrite::Replace);
    assert_eq!(cache_write(false), CacheWrite::Insert);
}

#[test]
fn path_ids() {
    let id = parse_path_id("507f1f77BCF86cd799439011").ok().unwrap();
    assert_eq!(id.bytes, [0x50, 0x7f, 0x1f, 0x77, 0xbc, 0xf8, 0x6c, 0xd7, 0x99, 0x43, 0x90, 0x11]);
    for bad in ["", "507f1f77bcf86cd79943901", "507f1f77bcf86cd7994390111", "507f1f77bcf86cd79943901g"] {
        let e = parse_path_id(bad).err().unwrap();
        assert_eq!(e.status, 400);
        assert_eq!(e.message, "Invalid ObjectId format");
    }
}

#[test]
fn generic_refusals() {
    let e = bad_request("nope");
    assert_eq!((e.status, e.message.as_str()), (400, "nope"));
    let e = not_found();
    assert_eq!((e.status, e.message.as_str()), (404, "Document not found"));
    assert_eq!(found_or_not_found(Some(3)).ok(), Some(3));
    assert_eq!(found_or_not_found::<u8>(None).err().unwrap().status, 404);
    assert_eq!(delete_outcome(1).ok(), Some(204));
    assert_eq!(delete_outcome(0).err().unwrap().status, 404);
    assert_eq!(delete_outcome(2).err().unwrap().status, 404);
}

#[test]
fn new_records_from_requests() {
    let id = DocumentId { bytes: [4; 12] };
    let sla = new_sla(CreateSlaInput { name: "Gold".to_string(), description: None }, id, moment(10));
    assert_eq!(sla.name, "Gold");
    assert_eq!(sla.updated_at, moment(10));

    let level = new_sla_level(
        CreateSlaLevelInput {
            sla_id: "000000000000000000000001".to_string(),
            name: "P1".to_string(),
            response_time: 30,
            resolution_time: 240,
            priority: 1,
        },
        id,
    )
    .ok()
    .unwrap();
    assert_eq!(level.sla_id.bytes[11], 1);
    assert_eq!(level.resolution_time, 240);
    let e = new_sla_level(
        CreateSlaLevelInput { sla_id: "zz".to_string(), name: "P1".to_string(), response_time: 30, resolution_time: 240, priority: 1 },
        id,
    )
    .err()
    .unwrap();
    assert_eq!(e.message, "Invalid sla_id ObjectId format");

    let schedule = new_sla_schedule(
        CreateSlaScheduleInput {
            name: "Office".to_string(),
            timezone: "UTC".to_string(),
            working_days: vec!["Monday".to_string()],
            start_time: "08:00".to_string(),
            end_time: "16:00".to_string(),
        },
        id,
    );
    assert_eq!(schedule.working_days.len(), 1);

    let input = |level: &str, schedule: &str| CreateSlaCacheInput {
        issue_id: 1,
        project_id: 2,
        sla_level_id: level.to_string(),
        schedule_id: schedule.to_string(),
        response_deadline: None,
        resolution_deadline: Some(moment(5)),
        response_met: true,
        resolution_met: true,
        status: "Active".to_string(),
    };
    let good = "00000000000000000000000a";
    let cache = new_sla_cache(input(good, good), id, moment(3)).ok().unwrap();
    assert_eq!(cache.schedule_id.bytes[11], 10);
    assert_eq!(cache.resolution_deadline, Some(moment(5)));
    assert_eq!(new_sla_cache(input("bad", "bad"), id, moment(3)).err().unwrap().message, "Invalid sla_level_id ObjectId format");
    assert_eq!(new_sla_cache(input(good, "bad"), id, moment(3)).err().unwrap().message, "Invalid schedule_id ObjectId format");
}

#[test]
fn audit_entries_carry_their_event() {
    let id = DocumentId { bytes: [2; 12] };
    let entry = event_log_entry(id, 8, "Recalculated", "done", moment(123));
    assert_eq!(entry.id, id);
    assert_eq!(entry.issue_id, 8);
    assert_eq!(entry.event_type, "Recalculated");
    assert_eq!(entry.description, "done");
    assert_eq!(entry.timestamp, moment(123));
}
