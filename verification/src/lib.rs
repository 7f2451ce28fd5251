//! A deterministic 2D box-layout solver.
//!
//! Given a tree of nodes, each carrying style constraints (fixed size,
//! percentage, weighted stretch, grid placement), the solver computes an
//! absolute rectangle for every node in two coordinated tree walks: a
//! bottom-up measurement pass and a top-down placement pass.  All lengths
//! are integers in an arbitrary sub-pixel unit chosen by the caller; every
//! computed quantity saturates at `units::MAX_LEN` so that the arithmetic
//! is total and exact.

pub mod cache;
pub mod geom;
pub mod laws;
pub mod solver;
pub mod style;
pub mod tree;
pub mod units;
