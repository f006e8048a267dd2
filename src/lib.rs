//! Grid primitives and flow-field pathfinding for crowds of units.
//!
//! The library keeps a dense occupancy grid of occupant identifiers, a
//! per-cell traversal cost overlay, and solves flow fields: for a goal cell,
//! an integration (distance) field and a per-cell direction of steepest
//! descent toward the goal.
pub mod coord;
pub mod field;
pub mod grid;
pub mod cost;
pub mod flow;
pub mod flowfield;
pub mod integration;
pub mod paint;
pub mod state;

pub use coord::Coord;
pub use field::{Field, FieldSize, FieldValue};
pub use grid::{cell_bundles, CellBundle, Grid, OccupancyError};
pub use cost::{cell_costs, Cost};
pub use flowfield::{ComputeFlowField, FlowField, FlowFieldError};
pub use paint::{PaintData, PaintStep, PointerButtons};
pub use state::{AppState, SystemLabels};
