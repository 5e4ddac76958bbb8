//! Decisions of the SLA administration endpoints: reading identifiers,
//! building new records from request bodies, and the refusals.
use crate::errors::ApiError;
use crate::ids::{parse_document_id, parse_document_id_spec};
use crate::models::DocumentId;
use crate::records::{Sla, SlaCache, SlaLevel, SlaSchedule};
use crate::time::Moment;
use vstd::prelude::*;
use vstd::string::StringExecFns;

verus! {

pub struct CreateSlaInput {
    pub name: String,
    pub description: Option<String>,
}

pub struct CreateSlaLevelInput {
    pub sla_id: String,
    pub name: String,
    pub response_time: i32,
    pub resolution_time: i32,
    pub priority: i32,
}

pub struct CreateSlaScheduleInput {
    pub name: String,
    pub timezone: String,
    pub working_days: Vec<String>,
    pub start_time: String,
    pub end_time: String,
}

pub struct CreateSlaCacheInput {
    pub issue_id: i32,
    pub project_id: i32,
    pub sla_level_id: String,
    pub schedule_id: String,
    pub response_deadline: Option<Moment>,
    pub resolution_deadline: Option<Moment>,
    pub response_met: bool,
    pub resolution_met: bool,
    pub status: String,
}

/// A 400 refusal with the given text.
pub fn bad_request(msg: &str) -> (r: ApiError)
    ensures
        r.status == 400,
        r.message@ == msg@,
{
    ApiError { status: 400, message: String::from_str(msg) }
}

/// The 404 refusal of a missing document.
pub fn not_found() -> (r: ApiError)
    ensures
        r.status == 404,
        r.message@ == "Document not found"@,
{
    ApiError { status: 404, message: String::from_str("Document not found") }
}

/// The identifier a text spells, or a 400 refusal with `msg`.
fn document_id_or(text: &str, msg: &str) -> (r: Result<DocumentId, ApiError>)
    ensures
        match parse_document_id_spec(text@) {
            Some(b) => r matches Ok(id) && id.bytes@ == b,
            None => r matches Err(e) && e.status == 400 && e.message@ == msg@,
        },
{
    match parse_document_id(text) {
        Some(id) => Ok(id),
        None => Err(bad_request(msg)),
    }
}

/// The identifier of a request path; 400 when it is no identifier.
pub fn parse_path_id(id: &str) -> (r: Result<DocumentId, ApiError>)
    ensures
        match parse_document_id_spec(id@) {
            Some(b) => r matches Ok(x) && x.bytes@ == b,
            None => r matches Err(e) && e.status == 400 && e.message@ == "Invalid ObjectId format"@,
        },
{
    document_id_or(id, "Invalid ObjectId format")
}

/// The document a lookup found, or 404.
pub fn found_or_not_found<T>(found: Option<T>) -> (r: Result<T, ApiError>)
    ensures
        match found {
            Some(x) => r matches Ok(y) && y == x,
            None => r matches Err(e) && e.status == 404 && e.message@ == "Document not found"@,
        },
{
    match found {
        Some(x) => Ok(x),
        None => Err(not_found()),
    }
}

/// Answer to a deletion: 204 when exactly one document went, else 404.
pub fn delete_outcome(deleted_count: u64) -> (r: Result<u16, ApiError>)
    ensures
        deleted_count == 1 ==> r == Ok::<u16, ApiError>(204),
        deleted_count != 1 ==> (r matches Err(e) && e.status == 404 && e.message@ == "Document not found"@),
{
    if deleted_count == 1 {
        Ok(204)
    } else {
        Err(not_found())
    }
}

/// The new SLA of a creation request.
pub fn new_sla(input: CreateSlaInput, id: DocumentId, now: Moment) -> (r: Sla)
    ensures
        r == (Sla { id, name: input.name, description: input.description, created_at: now, updated_at: now }),
{
    Sla { id, name: input.name, description: input.description, created_at: now, updated_at: now }
}

/// The new SLA level of a creation request; 400 when its SLA identifier is unreadable.
pub fn new_sla_level(input: CreateSlaLevelInput, id: DocumentId) -> (r: Result<SlaLevel, ApiError>)
    ensures
        match parse_document_id_spec(input.sla_id@) {
            Some(b) => r matches Ok(level) && level.sla_id.bytes@ == b && level.id == id && level.name
                == input.name && level.response_time == input.response_time && level.resolution_time
                == input.resolution_time && level.priority == input.priority,
            None => r matches Err(e) && e.status == 400 && e.message@ == "Invalid sla_id ObjectId format"@,
        },
{
    let sla_id = match document_id_or(input.sla_id.as_str(), "Invalid sla_id ObjectId format") {
        Ok(v) => v,
        Err(e) => {
            return Err(e);
        },
    };
    Ok(
        SlaLevel {
            id,
            sla_id,
            name: input.name,
            response_time: input.response_time,
            resolution_time: input.resolution_time,
            priority: input.priority,
        },
    )
}

/// The new schedule of a creation request.
pub fn new_sla_schedule(input: CreateSlaScheduleInput, id: DocumentId) -> (r: SlaSchedule)
    ensures
        r == (SlaSchedule {
            id,
            name: input.name,
            timezone: input.timezone,
            working_days: input.working_days,
            start_time: input.start_time,
            end_time: input.end_time,
        }),
{
    SlaSchedule {
        id,
        name: input.name,
        timezone: input.timezone,
        working_days: input.working_days,
        start_time: input.start_time,
        end_time: input.end_time,
    }
}

/// The new SLA state of a creation request; 400 when the level identifier,
/// then the schedule identifier, is unreadable.
pub fn new_sla_cache(input: CreateSlaCacheInput, id: DocumentId, now: Moment) -> (r: Result<SlaCache, ApiError>)
    ensures
        match (parse_document_id_spec(input.sla_level_id@), parse_document_id_spec(input.schedule_id@)) {
            (Some(level), Some(schedule)) => r matches Ok(c) && c.sla_level_id.bytes@ == level
                && c.schedule_id.bytes@ == schedule && c.id == id && c.issue_id == input.issue_id
                && c.project_id == input.project_id && c.response_deadline == input.response_deadline
                && c.resolution_deadline == input.resolution_deadline && c.response_met == input.response_met
                && c.resolution_met == input.resolution_met && c.status == input.status && c.created_at == now
                && c.updated_at == now,
            (None, _) => r matches Err(e) && e.status == 400 && e.message@ == "Invalid sla_level_id ObjectId format"@,
            (Some(_), None) => r matches Err(e) && e.status == 400 && e.message@
                == "Invalid schedule_id ObjectId format"@,
        },
{
    let sla_level_id = match document_id_or(input.sla_level_id.as_str(), "Invalid sla_level_id ObjectId format") {
        Ok(v) => v,
        Err(e) => {
            return Err(e);
        },
    };
    let schedule_id = match document_id_or(input.schedule_id.as_str(), "Invalid schedule_id ObjectId format") {
        Ok(v) => v,
        Err(e) => {
            return Err(e);
        },
    };
    Ok(
        SlaCache {
            id,
            issue_id: input.issue_id,
            project_id: input.project_id,
            sla_level_id,
            schedule_id,
            response_deadline: input.response_deadline,
            resolution_deadline: input.resolution_deadline,
            response_met: input.response_met,
            resolution_met: input.resolution_met,
            status: input.status,
            created_at: now,
            updated_at: now,
        },
    )
}

} // verus!
