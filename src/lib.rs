//! Pairs a set of people into rooms of two, guided by who prefers and who
//! does not want to share with whom, by running many randomized greedy
//! trials and keeping the best.

pub mod classify;
pub mod model;
pub mod random;
pub mod ranking;
pub mod solver;

pub use classify::{get_accepted_people, get_preferred_people};
pub use model::{MatchError, Preferences, Solution, Tier};
pub use ranking::{optimal_indices, select_best};
pub use solver::{choose_person, find_index, generate_solutions, solve};
