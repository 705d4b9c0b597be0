//! Discrete core of a sailing router: maneuver penalties and sails, land
//! tiles, wind grids and forecast timing, race progress, and the isochrone
//! frontier with its step schedule, merging and pruning.

pub mod ancestry;
pub mod config;
pub mod frontier;
pub mod land;
pub mod position;
pub mod prune;
pub mod race;
pub mod router;
pub mod slices;
pub mod wind;
