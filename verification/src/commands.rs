//! What the subcommands compute.

pub mod add;
