//! Declarative deployment of a tree of units to a Kubernetes cluster: shell commands,
//! manifests, Helm releases, and groups of them, run in the order that their
//! dependencies ask for.
//!
//! The library holds the decisions: the checks that a configuration passes before
//! anything runs, the selection of units from selector tokens, their running order, and
//! the command line of each unit. Starting processes and reading files is left to the
//! caller.

pub mod checks;
pub mod command_up;
pub mod cycles;
pub mod error;
pub mod file_format;
pub mod graph;
pub mod helm_repositories;
pub mod laws;
pub mod paths;
pub mod resources;
pub mod runner;
pub mod schedule;
pub mod text;
pub mod units;
pub mod utils;
