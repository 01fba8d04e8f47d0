//! The sync loop: what it observes, how it decides, and how it reports.

pub mod batch;
pub mod engine;
pub mod laws;
pub mod observe;
pub mod status;
