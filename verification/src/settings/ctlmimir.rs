//! Settings and command line of the index administration tool.
use vstd::prelude::*;

verus! {

/// Where the tool writes its logs.
#[derive(Debug, Clone)]
pub struct Logging {
    pub path: String,
}

/// What the command line gives.
#[derive(Debug, Clone)]
pub struct Opts {
    pub config_dir: String,
    pub run_mode: Option<String>,
    pub settings: Vec<String>,
    pub cmd: Command,
}

/// What to do.
#[derive(Debug, Clone, Copy, PartialEq, Eq, Structural)]
pub enum Command {
    /// Run the tool.
    Run,
    /// Print the configuration.
    Config,
}

} // verus!
