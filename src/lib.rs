//! Wirelength-driven placement of pins on a rectangular grid.
//!
//! The library holds the problem model, the placement state with its
//! incrementally maintained half-perimeter cost, and the decision logic of
//! the simulated-annealing and genetic optimisation drivers.

pub mod annealing;
pub mod blif;
pub mod bound_box;
pub mod cost;
pub mod crossover;
pub mod genetic;
pub mod layout;
pub mod placement;
pub mod problem;
mod random;
pub mod typing;
pub mod util;

pub use blif::BLIFInfo;
pub use bound_box::BoundBox;
pub use placement::Placement;
pub use problem::{make_coors, Problem, ProblemError};
pub use typing::{Coor, Net, Pin, PinID};
