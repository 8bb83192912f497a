//! Verified solvers for three puzzles.
//!
//! `tilecut` cuts the greatest number of three-tile pieces from a grid by
//! reducing the grid to a flow network (`network`) and computing its maximum
//! flow; `cutting` proves that the maximum flow is that number. `flow`,
//! `augmenting`, `matrix`, `sums` and `flat` hold the mathematics that the
//! contracts are stated in. `bonesbattery` finds the least battery range by
//! shortest distances and a binary search, and `randomwalk` the longest sum
//! of a run of vectors.

pub mod sums;
pub mod flat;
pub mod matrix;
pub mod flow;
pub mod augmenting;
pub mod network;
pub mod tilecut;
pub mod cutting;
pub mod randomwalk;
pub mod bonesbattery;
