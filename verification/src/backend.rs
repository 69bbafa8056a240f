//! The backend module defines the trait that a backend must implement in
//! order to be forwarded stats.

use vstd::prelude::*;

verus! {

/// Backend defines a generic backend that can be forwarded metrics: once per
/// flush tick it is handed the rendered aggregates of one closed window.
/// The hand-off is fire-and-forget — a delivery failure is the backend's to
/// report, and the window's data is gone either way — and it happens after
/// the cache's critical section, so a slow backend never stalls ingestion.
pub trait Backend {
    /// Deliver the rendered aggregates of one flush window.
    fn purge_metrics(&self, snapshot: &[u8]);
}

} // verus!
