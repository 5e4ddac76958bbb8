//! Service-level-agreement engine: working-time arithmetic over business
//! calendars, status-interval reconstruction, SLA target evaluation and the
//! request/recalculation decisions of the SLA service.

pub mod api;
pub mod calculation;
pub mod calendar;
pub mod dispatcher;
pub mod errors;
pub mod ids;
pub mod models;
pub mod text;
pub mod records;
pub mod routes;
pub mod time;
pub mod transitions;
