//! Local backend engine of a personal time tracker: hierarchical tasks with a
//! running/paused/stopped lifecycle, an append-only time-event log, replay-based
//! focus-time aggregation over windows, and a scored rest-break advisor.
use vstd::prelude::*;

pub mod advisor;
pub mod aggregate;
pub mod domain;
pub mod forest;
pub mod service;
pub mod sorting;
pub mod store;
pub mod textutil;
pub mod timesource;
pub mod window;

verus! {

/// Maps a storage-layer failure description to the engine's error value.
pub fn to_error(_detail: &str) -> (r: crate::domain::AppError)
    ensures
        r == crate::domain::AppError::Storage,
{
    crate::domain::AppError::Storage
}

} // verus!
