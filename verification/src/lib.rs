//! Validation-report builder for FHIR `OperationOutcome` documents.
//!
//! The library decodes nothing itself: it receives the outcome of a
//! validation request as plain values (a status code and a structured
//! outcome, or `None` where the body could not be decoded), classifies
//! each reported issue, aggregates the issues into a report, and renders
//! the report as a stable, deterministically ordered string. A small
//! second feature tallies the error and warning lines of a plain-text
//! log. All I/O — reading files, posting the validation request — stays
//! with the caller.

pub mod classify;
pub mod render;
pub mod report;
pub mod scan;
pub mod text;
pub mod types;
