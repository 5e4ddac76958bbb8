//! The decisions of a background SLA recalculation: which records it needs,
//! how it rebuilds the status history, what it stores and what it logs.
use crate::calculation::CalculationResult;
use crate::errors::SlaError;
use crate::ids::{document_id_hex, document_id_text};
use crate::models::{Calendar, DocumentId, SlaCache, SlaDefinition, SlaEventLog};
use crate::text::{bool_text, i32_decimal, i32_text};
use crate::time::Moment;
use crate::transitions::{
    all_valid, law_reconstruct_timeline, lemma_first_status, reconstruct_intervals, reconstruct_spec, StatusInterval,
    Transition,
};
use vstd::prelude::*;
use vstd::string::StringExecFns;

verus! {

/// A request to recompute the SLA state of one issue.
pub struct RecalculateTask {
    pub issue_id: i32,
    pub project_id: i32,
    pub tracker_id: i32,
    pub priority: String,
    pub initial_status_id: i32,
    pub initial_status_name: String,
    pub transitions: Vec<Transition>,
}

/// How a computed SLA state is written: over the stored one, or as a new one.
#[derive(Clone, Copy, Debug, PartialEq, Eq)]
pub enum CacheWrite {
    Replace,
    Insert,
}

/// "No SLA Definition found for project_id P and tracker_id T", with both
/// numbers in decimal.
fn missing_definition_text(project_id: i32, tracker_id: i32) -> (r: String)
    ensures
        r@ == "No SLA Definition found for project_id "@ + i32_decimal(project_id) + " and tracker_id "@
            + i32_decimal(tracker_id),
{
    let mut r = String::from_str("No SLA Definition found for project_id ");
    let project = i32_text(project_id);
    r.append(project.as_str());
    r.append(" and tracker_id ");
    let tracker = i32_text(tracker_id);
    r.append(tracker.as_str());
    r
}

/// "Calendar with ID H not found", `H` being the identifier's 24 lowercase
/// hexadecimal digits.
fn missing_calendar_text(calendar_id: DocumentId) -> (r: String)
    ensures
        r@ == "Calendar with ID "@ + document_id_hex(calendar_id.bytes@) + " not found"@,
{
    let mut r = String::from_str("Calendar with ID ");
    let hex = document_id_text(calendar_id);
    r.append(hex.as_str());
    r.append(" not found");
    r
}

/// `true` or `false`, as a `bool` displays.
fn bool_str(b: bool) -> (r: &'static str)
    ensures
        r@ == bool_text(b),
{
    if b {
        "true"
    } else {
        "false"
    }
}

/// "Recalculated SLA for issue I. Status: S. Response Met: R. Resolution
/// Met: Q.", the number in decimal and the verdicts as `true` or `false`.
fn recalculated_text(issue_id: i32, status: &str, response_met: bool, resolution_met: bool) -> (r: String)
    ensures
        r@ == "Recalculated SLA for issue "@ + i32_decimal(issue_id) + ". Status: "@ + status@
            + ". Response Met: "@ + bool_text(response_met) + ". Resolution Met: "@ + bool_text(
            resolution_met,
        ) + "."@,
{
    let mut r = String::from_str("Recalculated SLA for issue ");
    let issue = i32_text(issue_id);
    r.append(issue.as_str());
    r.append(". Status: ");
    r.append(status);
    r.append(". Response Met: ");
    r.append(bool_str(response_met));
    r.append(". Resolution Met: ");
    r.append(bool_str(resolution_met));
    r.append(".");
    r
}

/// The SLA definition that a lookup found, or the error for a project and
/// tracker that no definition covers.
pub fn definition_or_not_found(found: Option<SlaDefinition>, project_id: i32, tracker_id: i32) -> (r: Result<
    SlaDefinition,
    SlaError,
>)
    ensures
        match found {
            Some(d) => r == Ok::<SlaDefinition, SlaError>(d),
            None => r matches Err(SlaError::NotFound(m)) && m@ == "No SLA Definition found for project_id "@
                + i32_decimal(project_id) + " and tracker_id "@ + i32_decimal(tracker_id),
        },
{
    match found {
        Some(d) => Ok(d),
        None => Err(SlaError::NotFound(missing_definition_text(project_id, tracker_id))),
    }
}

/// The calendar that a lookup found, or the error for a missing calendar.
pub fn calendar_or_not_found(found: Option<Calendar>, calendar_id: DocumentId) -> (r: Result<Calendar, SlaError>)
    ensures
        match found {
            Some(c) => r == Ok::<Calendar, SlaError>(c),
            None => r matches Err(SlaError::NotFound(m)) && m@ == "Calendar with ID "@ + document_id_hex(
                calendar_id.bytes@,
            ) + " not found"@,
        },
{
    match found {
        Some(c) => Ok(c),
        None => Err(SlaError::NotFound(missing_calendar_text(calendar_id))),
    }
}

/// Where a recalculated history starts: at the first transition as given,
/// or at `now` when there is none.
pub open spec fn history_start(transitions: Seq<Transition>, now: Moment) -> Moment {
    if transitions.len() > 0 {
        transitions[0].transitioned_at
    } else {
        now
    }
}

/// Law: a recalculated history starts, in the initial status, at the
/// instant of the first transition in the order given, or at `now` when
/// there is none.
pub proof fn law_recalculated_history_start(
    initial_status_id: i32,
    initial_status_name: String,
    transitions: Seq<Transition>,
    now: Moment,
)
    requires
        all_valid(transitions),
        now.valid(),
    ensures
        ({
            let v = reconstruct_spec(history_start(transitions, now), initial_status_id, initial_status_name, transitions);
            &&& v.len() >= 1
            &&& v[0].status_id == initial_status_id
            &&& v[0].started_at == if transitions.len() > 0 {
                transitions[0].transitioned_at
            } else {
                now
            }
        }),
{
    let start = history_start(transitions, now);
    if transitions.len() > 0 {
        assert(transitions[0].transitioned_at.valid());
    }
    law_reconstruct_timeline(start, initial_status_id, initial_status_name, transitions);
    lemma_first_status(start, initial_status_id, initial_status_name, transitions);
}

/// The status intervals of a recalculation, rebuilt from `history_start`.
pub fn recalculation_intervals(
    initial_status_id: i32,
    initial_status_name: String,
    transitions: Vec<Transition>,
    now: Moment,
) -> (r: Vec<StatusInterval>)
    requires
        all_valid(transitions@),
        now.valid(),
    ensures
        r@ == reconstruct_spec(history_start(transitions@, now), initial_status_id, initial_status_name, transitions@),
        r@.len() >= 1,
        r@[0].status_id == initial_status_id,
        r@[0].started_at == if transitions@.len() > 0 {
            transitions@[0].transitioned_at
        } else {
            now
        },
{
    proof {
        law_recalculated_history_start(initial_status_id, initial_status_name, transitions@, now);
    }
    let created_at = if transitions.len() > 0 {
        transitions[0].transitioned_at
    } else {
        now
    };
    proof {
        if transitions@.len() > 0 {
            assert(transitions@[0].transitioned_at.valid());
        }
    }
    reconstruct_intervals(created_at, initial_status_id, initial_status_name, transitions, now)
}

/// The stored SLA state of an issue, from the outcome of its calculation;
/// the error when there was none.
pub fn cache_from_calculation(
    issue_id: i32,
    project_id: i32,
    tracker_id: i32,
    sla_definition_id: DocumentId,
    calculation: Option<CalculationResult>,
    id: DocumentId,
    now: Moment,
) -> (r: Result<SlaCache, SlaError>)
    ensures
        match calculation {
            None => r matches Err(SlaError::InternalError(m)) && m@ == "Failed to calculate SLA targets"@,
            Some(c) => r matches Ok(cache) && cache == (SlaCache {
                id,
                issue_id,
                project_id,
                tracker_id,
                sla_definition_id,
                level_name: c.level_name,
                response_deadline: c.response_deadline,
                resolution_deadline: c.resolution_deadline,
                response_met: c.response_met,
                resolution_met: c.resolution_met,
                status: c.status,
                spent_minutes_by_status: c.spent_minutes_by_status,
                created_at: now,
                updated_at: now,
            }),
        },
{
    match calculation {
        None => Err(SlaError::InternalError(String::from_str("Failed to calculate SLA targets"))),
        Some(c) => Ok(
            SlaCache {
                id,
                issue_id,
                project_id,
                tracker_id,
                sla_definition_id,
                level_name: c.level_name,
                response_deadline: c.response_deadline,
                resolution_deadline: c.resolution_deadline,
                response_met: c.response_met,
                resolution_met: c.resolution_met,
                status: c.status,
                spent_minutes_by_status: c.spent_minutes_by_status,
                created_at: now,
                updated_at: now,
            },
        ),
    }
}

/// The audit description of a recalculated SLA state.
pub fn audit_description(cache: &SlaCache) -> (r: String)
    ensures
        r@ == "Recalculated SLA for issue "@ + i32_decimal(cache.issue_id) + ". Status: "@ + cache.status@
            + ". Response Met: "@ + bool_text(cache.response_met) + ". Resolution Met: "@ + bool_text(
            cache.resolution_met,
        ) + "."@,
{
    recalculated_text(cache.issue_id, cache.status.as_str(), cache.response_met, cache.resolution_met)
}

/// A state already stored for the issue is replaced; otherwise a new one is inserted.
pub fn cache_write(existing_found: bool) -> (r: CacheWrite)
    ensures
        r == (if existing_found { CacheWrite::Replace } else { CacheWrite::Insert }),
{
    if existing_found {
        CacheWrite::Replace
    } else {
        CacheWrite::Insert
    }
}

/// The audit entry recording an event of an issue.
pub fn event_log_entry(id: DocumentId, issue_id: i32, event_type: &str, description: &str, now: Moment) -> (r:
    SlaEventLog)
    ensures
        r.id == id,
        r.issue_id == issue_id,
        r.event_type@ == event_type@,
        r.description@ == description@,
        r.timestamp == now,
{
    SlaEventLog {
        id,
        issue_id,
        event_type: String::from_str(event_type),
        description: String::from_str(description),
        timestamp: now,
    }
}

} // verus!
