//! Audit of a machine's autostart surface: registry run keys, startup
//! folders, scheduled tasks and services are normalized into one entry
//! model, enriched from point-in-time snapshots, reconciled against the
//! approval store, and sorted into a single deterministic view.
//!
//! Everything here is pure: the operating-system readers live outside the
//! crate and hand in plain values.

pub mod models;
pub mod text;
pub mod sort;
pub mod status;
pub mod snapshots;
pub mod collector;
pub mod handoff;
pub mod format;
