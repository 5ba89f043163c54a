//! The logging options of a run.

use vstd::prelude::*;

verus! {

/// Logging levels and the directory of rotated log files.
#[derive(Debug, Clone)]
pub struct LoggingArgs {
    /// The level of terminal logging (`info`, `debug`, ...).
    pub log_level: Option<String>,
    /// The directory for rotated log files.
    pub log_dir: Option<String>,
    /// The level of file logging.
    pub log_dir_level: Option<String>,
}

} // verus!
