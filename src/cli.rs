//! The command line's shape: the commands an operator can give.

use vstd::prelude::*;

verus! {

/// A parsed command line.
#[derive(Debug, Clone)]
pub struct Cli {
    /// Path to the database file.
    pub db: Option<String>,
    pub command: Option<Commands>,
}

/// Top-level commands.
#[derive(Debug, Clone)]
pub enum Commands {
    /// Write an example configuration.
    Init { path: Option<String> },
    /// Run the scheduler.
    Daemon,
    /// Open the terminal display.
    Tui,
    /// Probe one target once.
    Check { target: Option<String> },
    /// Manage monitors.
    Monitor { sub: MonitorCmd },
}

/// Monitor management commands.
#[derive(Debug, Clone)]
pub enum MonitorCmd {
    /// Add or update a monitor.
    Add { id: String, name: String, target: String, recipients: Option<String> },
    /// List monitors.
    List,
    /// Remove a monitor.
    Remove { id: String },
    /// Replace a monitor's recipients (comma-separated).
    SetRecipients { id: String, recipients: String },
    /// Show a monitor's recent results, at most `limit` of them.
    Results { id: String, limit: usize },
}

} // verus!
