//! Settings and command line of the bragi search service.
use vstd::prelude::*;

verus! {

/// Where the service listens, and the largest request body it accepts.
#[derive(Debug, Clone)]
pub struct Service {
    pub host: String,
    pub port: u16,
    pub content_length_limit: u64,
}

/// What the command line gives.
#[derive(Debug, Clone)]
pub struct Opts {
    pub config_dir: String,
    pub run_mode: Option<String>,
    pub settings: Vec<String>,
    pub cmd: Command,
}

/// What to do.
#[derive(Debug, Clone, Copy, PartialEq, Eq, Structural)]
pub enum Command {
    /// Serve requests.
    Run,
    /// Print the configuration.
    Config,
}

} // verus!
