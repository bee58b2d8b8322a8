//! A schedule solver for templates of interdependent work steps.
//!
//! Given a template of steps with durations, typed precedence relations,
//! optional timing policies and shared resources, the library validates the
//! template, runs a critical-path pass over the dependency graph, and then
//! allocates resources greedily, shifting steps within their float windows.
//! All times are integer minutes from the schedule start.

pub mod allocator;
pub mod cpm;
pub mod graph;
pub mod model;
pub mod solver;
pub mod strutil;
pub mod timefmt;
pub mod validator;

pub use model::{
    build_inventory, AssignedResource, DependencyType, Resource, ResourceInventory,
    ResourceInventoryItem,
    ResourceKind, ResourceNeed, ScheduleSummary, ScheduleTemplate, SolvedSchedule, SolvedStep,
    Step, StepDependency, TimeConstraint, TimingPolicy, Track,
};
pub use allocator::{allocate_resources, Reservation, ResourceTimeline};
pub use cpm::{cpm, CpmResult};
pub use solver::{solve, SolveError};
pub use validator::{validate, ValidationResult};
