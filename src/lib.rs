//! Permutation flow-shop scheduling: timing schedules, constructive
//! heuristics, exhaustive search and a branch-and-bound solver, each with a
//! machine-checked contract.

pub mod matrix;
pub mod timing;
pub mod common;
pub mod properties;
pub mod sorting;
pub mod johnson_gen;
pub mod priority_rule;
pub mod petrov_sokolicyn;
pub mod brute_force;
pub mod bounds;
pub mod branch_and_bound;
pub mod johnsons;
pub mod johnson_classic;
pub mod report;
pub mod algorithm;
pub mod table;
pub mod two_machine;

pub use algorithm::Algorithm;
pub use common::{AlgResult, build_schedule, create_result};
pub use matrix::ScheduleError;
