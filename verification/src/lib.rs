//! Two-sided matching of applicants to programs by deferred acceptance, with
//! programs of any capacity and applicants that may apply as couples.

pub mod atomicity;
pub mod conservation;
pub mod laws;
pub mod matcher;
pub mod models;
pub mod notes;
pub mod order;
pub mod parameters;
pub mod placement;
pub mod preference;
pub mod ranker;
pub mod report;
