//! Season-standings recomputation for a racing-championship database.
//!
//! The library owns the domain row types and the batch engine that turns raw
//! race results into ranked driver standings: it scans for finished seasons
//! whose standings are stale, aggregates points per driver and per team,
//! assigns contiguous ranks with a deterministic tie-break, and produces the
//! full replacement row set for each processed season together with the list
//! of season identifiers whose dirty flag may then be cleared. All storage
//! round trips live outside the library; every function here is a pure
//! transformation on plain row values.

pub mod aggregate;
pub mod engine;
pub mod grouping;
pub mod laws;
pub mod ranking;
pub mod records;
