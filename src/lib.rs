//! Keeps an "in sync hold" label on issues in step with a per-distribution
//! status table.
pub mod labels;
pub mod source;
pub mod status;

pub use labels::{contains_label, reconcile_labels, ReconcileError, SYNC_HOLD_LABEL};
pub use source::sync_status_url;
pub use status::{sync_statuses_to_hashmap, DistroToSyncStatus, SyncStatus};
