//! Scheduled tasks: their cadence, their store, what an unattended run may do
//! and which runs are due.
pub mod approver;
pub mod cron;
pub mod firing;
pub mod store;
pub mod task;
