//! The stored records of the SLA service, held as plain values.
use crate::time::Moment;
use vstd::prelude::*;

verus! {

/// The twelve bytes of a document identifier.
#[derive(Clone, Copy, Debug, PartialEq, Eq)]
pub struct DocumentId {
    pub bytes: [u8; 12],
}

/// A business calendar: the weekdays it works, its daily working window
/// (`"HH:MM"` texts, read in UTC) and its holidays.
pub struct Calendar {
    pub id: DocumentId,
    pub name: String,
    pub timezone: String,
    pub working_days: Vec<String>,
    pub start_time: String,
    pub end_time: String,
    pub holidays: Vec<Holiday>,
}

pub struct Holiday {
    pub name: String,
    pub date: Moment,
}

impl Calendar {
    /// Every holiday date is a representable instant.
    pub open spec fn wf(self) -> bool {
        forall|i: int| 0 <= i < self.holidays@.len() ==> (#[trigger] self.holidays@[i]).date.valid()
    }
}

pub struct SlaDefinition {
    pub id: DocumentId,
    pub name: String,
    pub description: Option<String>,
    pub sla_type: String,
    pub levels: Vec<SlaLevel>,
    /// Statuses during which the SLA timer runs.
    pub active_statuses: Vec<i32>,
    pub project_tracker_mappings: Vec<ProjectTrackerMapping>,
    pub calendar_id: DocumentId,
    pub created_at: Moment,
    pub updated_at: Moment,
}

pub struct SlaLevel {
    pub name: String,
    /// Minutes of working time allowed until the first response.
    pub response_time: i32,
    /// Minutes of working time allowed until resolution.
    pub resolution_time: i32,
    pub priority: String,
}

#[derive(Clone, Copy, Debug, PartialEq, Eq)]
pub struct ProjectTrackerMapping {
    pub project_id: i32,
    pub tracker_id: i32,
}

/// The computed SLA state of one issue.
pub struct SlaCache {
    pub id: DocumentId,
    pub issue_id: i32,
    pub project_id: i32,
    pub tracker_id: i32,
    pub sla_definition_id: DocumentId,
    pub level_name: String,
    pub response_deadline: Option<Moment>,
    pub resolution_deadline: Option<Moment>,
    pub response_met: bool,
    pub resolution_met: bool,
    pub status: String,
    pub spent_minutes_by_status: Vec<SpentStatusTime>,
    pub created_at: Moment,
    pub updated_at: Moment,
}

/// Working time spent in one status, with the intervals spent in it.
pub struct SpentStatusTime {
    pub status_id: i32,
    pub status_name: String,
    pub time_spent: i32,
    pub intervals: Vec<StatusInterval>,
}

#[derive(Clone, Copy, Debug, PartialEq, Eq)]
pub struct StatusInterval {
    pub started_at: Moment,
    pub ended_at: Option<Moment>,
}

/// One entry of the audit stream.
pub struct SlaEventLog {
    pub id: DocumentId,
    pub issue_id: i32,
    pub event_type: String,
    pub description: String,
    pub timestamp: Moment,
}

} // verus!
