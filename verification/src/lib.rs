//! Plans sequences of bar loadings for a weight-lifting session.
//!
//! Given an inventory of plates and bars, the library enumerates every
//! symmetric loading of each bar, assembles the loadings into gym states,
//! measures how many plate changes separate any two states, and picks for a
//! list of requested weights the sequence of states that needs the fewest
//! plate changes.

pub mod bar;
pub mod bar_kind;
pub mod combinatorics;
pub mod distances;
pub mod dumbbell;
pub mod enumerate;
pub mod graph;
pub mod gym;
pub mod gym_error;
pub mod gym_state;
pub mod inventory;
pub mod planner;
pub mod plate;
pub mod requirement;
pub mod solver;
pub mod states;
pub mod weights;
pub mod workout;

pub use bar::Bar;
pub use bar_kind::BarKind;
pub use dumbbell::Dumbbell;
pub use gym_state::{GymState, GymStateId};
pub use gym::Gym;
pub use gym_error::GymError;
pub use plate::Plate;
pub use requirement::Requirement;
pub use weights::Weights;
pub use workout::Workout;
