//! The command line, once its arguments are read.

use vstd::prelude::*;
use crate::commands::add::AddArgs;

verus! {

/// A parsed command line.
#[derive(Debug, Clone)]
pub struct Cli {
    pub command: Commands,
}

/// The subcommands.
#[derive(Debug, Clone)]
pub enum Commands {
    /// Add a new task.
    Add(AddArgs),
    /// Run the named task after everything it depends on.
    Run { name: String },
    /// Print a summary of the configuration.
    Summary,
}

impl Commands {
    /// The task that the command is to run, if it runs one.
    pub fn target(&self) -> (r: Option<&String>)
        ensures
            match (*self, r) {
                (Commands::Run { name }, Some(n)) => *n == name,
                (Commands::Run { name }, None) => false,
                (_, Some(n)) => false,
                (_, None) => true,
            },
    {
        match self {
            Commands::Run { name } => Some(name),
            _ => None,
        }
    }
}

} // verus!
