//! Decisions of the issue endpoints: reading the issue number of the path,
//! turning a request into a recalculation task, and the refusals.
use crate::dispatcher::RecalculateTask;
use crate::errors::{ApiError, SlaError};
use crate::models::SlaCache;
use crate::text::{parse_i32, parse_i32_spec};
use crate::transitions::Transition;
use vstd::prelude::*;
use vstd::string::StringExecFns;

verus! {

/// Body of a recalculation request.
pub struct RecalculateRequest {
    pub project_id: i32,
    pub tracker_id: i32,
    pub priority: String,
    pub initial_status_id: i32,
    pub initial_status_name: String,
    pub transitions: Vec<Transition>,
}

/// The issue number of a request path; 400 when it is no `i32`.
pub fn parse_issue_id(issue_id_str: &str) -> (r: Result<i32, ApiError>)
    ensures
        match parse_i32_spec(issue_id_str@) {
            Some(v) => r matches Ok(x) && x == v,
            None => r matches Err(e) && e.status == 400 && e.message@ == "Invalid issue_id format"@,
        },
{
    match parse_i32(issue_id_str) {
        Some(v) => Ok(v),
        None => Err(ApiError { status: 400, message: String::from_str("Invalid issue_id format") }),
    }
}

/// The recalculation task that a request asks for, or the refusal of an
/// unreadable issue number.
pub fn recalculate_task(issue_id_str: &str, input: RecalculateRequest) -> (r: Result<RecalculateTask, ApiError>)
    ensures
        match parse_i32_spec(issue_id_str@) {
            Some(v) => r matches Ok(task) && task == (RecalculateTask {
                issue_id: v,
                project_id: input.project_id,
                tracker_id: input.tracker_id,
                priority: input.priority,
                initial_status_id: input.initial_status_id,
                initial_status_name: input.initial_status_name,
                transitions: input.transitions,
            }),
            None => r matches Err(e) && e.status == 400 && e.message@ == "Invalid issue_id format"@,
        },
{
    let issue_id = match parse_issue_id(issue_id_str) {
        Ok(v) => v,
        Err(e) => {
            return Err(e);
        },
    };
    Ok(
        RecalculateTask {
            issue_id,
            project_id: input.project_id,
            tracker_id: input.tracker_id,
            priority: input.priority,
            initial_status_id: input.initial_status_id,
            initial_status_name: input.initial_status_name,
            transitions: input.transitions,
        },
    )
}

/// A service error answered as a 500 carrying the error's text.
pub fn internal_failure(e: &SlaError) -> (r: ApiError)
    ensures
        r.status == 500,
        r.message@ == e.text(),
{
    ApiError { status: 500, message: e.to_string() }
}

/// The stored SLA state of an issue, or 404 when there is none.
pub fn issue_sla_or_not_found(found: Option<SlaCache>) -> (r: Result<SlaCache, ApiError>)
    ensures
        match found {
            Some(c) => r matches Ok(x) && x == c,
            None => r matches Err(e) && e.status == 404 && e.message@ == "SLA Cache not found for this issue"@,
        },
{
    match found {
        Some(c) => Ok(c),
        None => Err(ApiError { status: 404, message: String::from_str("SLA Cache not found for this issue") }),
    }
}

} // verus!
