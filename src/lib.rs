//! Finds "as of <Month> <Year>" freshness notes in documents, keeps those
//! that have gone stale against a reference month, and renders a checklist.
pub mod date;
pub mod extract;
pub mod report;
pub mod text;
pub mod triage;
