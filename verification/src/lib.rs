//! Placement of electric poles on a tile grid: the entity model with its tile
//! index, the pole graphs built from it, the set-cover formulation, the
//! choice of the wires to draw, and the course of an optimisation from a
//! blueprint and back.

pub mod position;
pub mod prototype_data;
pub mod rcid;
pub mod better_bp;
pub mod records;
pub mod bp_model;
pub mod tables;
pub mod sorting;
pub mod pole_windows;
pub mod topology;
pub mod graph;
pub mod pole_graph;
pub mod pole_solver;
pub mod optimize;
