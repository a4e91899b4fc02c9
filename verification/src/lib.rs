//! Verified core of an interactive whiteboard: freehand stroke processing,
//! a canvas object model with hit-testing and transforms, per-pointer
//! in-progress stroke tracking, and a memory-bounded undo/redo history.
//!
//! All geometry is carried in fixed-point canvas coordinates: one canvas
//! unit is `UNIT` (1000) integer steps, so a coordinate of 2500 lies two
//! and a half units from the origin. The rendering layer converts between
//! these integers and whatever floating-point space it draws in.

pub mod geom;
pub mod state;
pub mod utils;
pub mod history;
pub mod pipeline;
pub mod tracker;
pub mod app_state;
pub mod codec;

pub use geom::Point;
pub use geom::UNIT;
