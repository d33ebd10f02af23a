//! A retained-mode widget scene graph with mouse focus, dragging and
//! click-to-front, plus a constraint-based grid layout engine.

pub mod gui;
pub mod layout;
pub mod solver;
