//! The parsed command line, as plain data. The binary around this library
//! maps its argument parser's output into these types; the library and its
//! tests construct them directly.

use vstd::prelude::*;

verus! {

/// A whole invocation.
pub struct Cli {
    pub command: Commands,
}

/// The two subcommands.
pub enum Commands {
    /// Calculate saved time using a multiplier over a given duration.
    Trim {
        /// The duration of the content (e.g. `1h30m` or `1h+30m`).
        duration: String,
        /// The speed multiplier (e.g. `1.5x`).
        multiplier: String,
        /// Only show the new duration.
        duration_only: bool,
        /// Only show the saved time.
        time_saved_only: bool,
        /// Use seconds as the time unit.
        seconds: bool,
        /// Show emojis in the output.
        emoji: bool,
    },
    /// Manage or view the time bank.
    Bank { bank_command: Option<BankCommands> },
}

/// Operations on the time bank.
pub enum BankCommands {
    /// Show the current time bank details.
    Show,
    /// Reset (clear) the time bank.
    Reset,
    /// Print the path of the bank file.
    Path,
}

} // verus!
