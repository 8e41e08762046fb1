//! Constraint propagation for nonogram puzzles: every placement of a line's
//! blocks is enumerated as a bit mask, and the masks are intersected with the
//! board until nothing more can be deduced.

pub mod bits;
pub mod hint;
pub mod board;
pub mod propagate;
