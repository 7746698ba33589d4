//! Verified core of the SchemWeave edge router: work budgets, lane
//! bookkeeping, crossing counters and gap-lane ordering.
pub mod budget;
pub mod fenwick;
pub mod graph;
pub mod lanes;
pub mod lane_moves;
pub mod ordered;
pub mod outer;
pub mod plan;
pub mod gap_order;
pub mod global_order;
pub mod hot_insertion;
pub mod gap_work;
pub mod pitched_tracks;
pub mod pitched_close;
pub mod gap_candidates;
pub mod crossing_sweep;
pub mod outer_repair;
