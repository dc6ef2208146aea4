//! Core of a terminal escape-time fractal visualizer.
//!
//! The library owns the pane tree (recursive splits of independently
//! navigable viewports), the session state machine that routes keyboard and
//! mouse input, the palette tables, and the sample-binning part of the
//! compute engine.  Floating-point view parameters are carried as IEEE-754
//! bit patterns so that every structural operation on them is verified; the
//! front end decodes the bits, performs the floating-point transforms and
//! the actual drawing, and hands plain values back.

pub mod color;
pub mod engine;
pub mod geom;
pub mod input;
pub mod pane;
pub mod session;
pub mod tree;
