//! The records of the SLA administration endpoints, held as plain values.
use crate::models::DocumentId;
use crate::time::Moment;
use vstd::prelude::*;

verus! {

/// An SLA.
pub struct Sla {
    pub id: DocumentId,
    pub name: String,
    pub description: Option<String>,
    pub created_at: Moment,
    pub updated_at: Moment,
}

/// The SLA state of an issue under a level and schedule.
pub struct SlaCache {
    pub id: DocumentId,
    pub issue_id: i32,
    pub project_id: i32,
    pub sla_level_id: DocumentId,
    pub schedule_id: DocumentId,
    pub response_deadline: Option<Moment>,
    pub resolution_deadline: Option<Moment>,
    pub response_met: bool,
    pub resolution_met: bool,
    pub status: String,
    pub created_at: Moment,
    pub updated_at: Moment,
}

/// Time an issue spent in one status.
pub struct SlaCacheSpent {
    pub id: DocumentId,
    pub cache_id: DocumentId,
    pub issue_id: i32,
    pub status_id: i32,
    pub status_name: String,
    pub time_spent: i32,
    pub started_at: Moment,
    pub ended_at: Option<Moment>,
}

/// A holiday attached to a schedule.
pub struct SlaCalendarHoliday {
    pub id: DocumentId,
    pub schedule_id: DocumentId,
    pub holiday_id: DocumentId,
}

pub struct SlaHoliday {
    pub id: DocumentId,
    pub name: String,
    pub date: Moment,
}

pub struct SlaLevel {
    pub id: DocumentId,
    pub sla_id: DocumentId,
    pub name: String,
    pub response_time: i32,
    pub resolution_time: i32,
    pub priority: i32,
}

/// Which SLA and schedule a project's tracker follows.
pub struct SlaProjectTracker {
    pub id: DocumentId,
    pub project_id: i32,
    pub tracker_id: i32,
    pub sla_id: DocumentId,
    pub schedule_id: DocumentId,
}

pub struct SlaSchedule {
    pub id: DocumentId,
    pub name: String,
    pub timezone: String,
    pub working_days: Vec<String>,
    pub start_time: String,
    pub end_time: String,
}

/// Whether the SLA timer runs in a status.
pub struct SlaStatus {
    pub id: DocumentId,
    pub sla_id: DocumentId,
    pub status_id: i32,
    pub status_name: String,
    pub is_active: bool,
}

} // verus!
