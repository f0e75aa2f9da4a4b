//! Reconciliation of sweep-tester reports: device normalisation, state
//! resolution, measurement classification, marker extraction and the merge of
//! distance-to-fault and return-loss measurements into one record per cable.

pub mod text;
pub mod numbers;
pub mod timestamp;
pub mod raw_ipa_report;
pub mod ipa_report;
pub mod reconcile_model;
pub mod guarantees;

pub use text::remove_non_ascii;
