//! Verified core of `trimsec`, a utility that estimates how much time is
//! saved by consuming media at a playback-speed multiplier and accumulates
//! those savings into a per-day time bank.
//!
//! All times are whole numbers of seconds; fractional numbers written by the
//! user (as in `1.5h`) are converted exactly where possible and truncated to
//! whole seconds otherwise. The binary around this library does only I/O:
//! it reads the clock and the bank file and hands plain values in.

pub mod args;
pub mod bank_json;
pub mod config;
pub mod decimal;
pub mod duration;
pub mod errors;
pub mod multiplier;
pub mod remaining;
pub mod time_bank;
pub mod timefmt;

pub use args::BankCommands;
pub use args::Cli;
pub use args::Commands;
pub use config::trim;
pub use config::Config;
pub use duration::parse_duration;
pub use errors::TrimsecError;
pub use multiplier::parse_multiplier;
pub use multiplier::Multiplier;
pub use remaining::calculate_remaining;
pub use time_bank::BankEntry;
pub use time_bank::TimeBank;
pub use timefmt::parse_time;
