//! The modes a run can take, as plain data.
//!
//! Argument parsing lives with the caller; the pipeline only consumes
//! the finished selection: which job to run, on which paths, and how
//! quiet to be.
use vstd::prelude::*;

verus! {

/// The three jobs: statistics only, a console preview, or an in-place
/// fix; each over an optional explicit path list.
#[derive(Debug, Clone)]
pub enum Commands {
    Report { path: Option<Vec<String>> },
    Preview { path: Option<Vec<String>> },
    Fix { path: Option<Vec<String>> },
}

/// The finished command-line selection.
#[derive(Debug, Clone)]
pub struct Cli {
    /// Minimum console output.
    pub quiet: bool,
    /// Verbose logging.
    pub debug: bool,
    /// The job to run.
    pub command: Commands,
}

impl Default for Cli {
    /// A quietless, logless report over the default paths.
    fn default() -> (r: Cli)
        ensures
            r.quiet == false,
            r.debug == false,
            r.command == (Commands::Report { path: None::<Vec<String>> }),
    {
        Cli { quiet: false, debug: false, command: Commands::Report { path: None } }
    }
}

} // verus!
