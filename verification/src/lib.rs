//! Ordering and execution planning for workspace code generation.
//!
//! Some packages in a workspace declare that their source is produced by
//! running another package's binary. This library builds the dependency
//! graph over those declarations, rejects cyclic configurations, computes
//! an execution order for the generation steps, narrows the order to the
//! packages relevant to one invocation, and drives a sequential executor
//! over the resulting plan. Workspace metadata, configuration parsing and
//! process spawning are collaborators outside this crate: callers hand in
//! plain data and carry out the commands this library hands back.

pub mod builder;
pub mod command;
pub mod config;
pub mod env_vars;
pub mod graph;
pub mod errors;
pub mod exec_plan;
pub mod filter;
pub mod shell;
pub mod targets;
pub mod unit;
pub mod workspace;
