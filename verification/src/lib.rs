//! A task runner's core: the task graph and its validation, the order in
//! which a task and its dependencies run, the classification of output
//! lines, and the decisions of the process supervisor and the scheduler.

pub mod names;
pub mod name_map;
pub mod graph;
pub mod order;
pub mod config;
pub mod resolver;
pub mod classifier;
pub mod supervisor;
pub mod launch;
pub mod scheduler;
pub mod commands;
pub mod cli;
pub mod locate;
pub mod runner;
