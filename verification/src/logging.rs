//! How much the command line tool logs.

use vstd::prelude::*;

verus! {

/// The most detailed kind of message that is logged, or none.
#[derive(Debug, Copy, Clone, PartialEq, Eq, Structural)]
pub enum LevelFilter {
    Off,
    Warn,
    Info,
    Debug,
    Trace,
}

/// The level for the `quiet` flag and the number of `-v` flags given.
pub open spec fn level_for(quiet: bool, verbosity: u8) -> LevelFilter {
    if quiet {
        LevelFilter::Off
    } else if verbosity == 0 {
        LevelFilter::Warn
    } else if verbosity == 1 {
        LevelFilter::Info
    } else if verbosity == 2 {
        LevelFilter::Debug
    } else {
        LevelFilter::Trace
    }
}

/// Chooses the logging level: nothing when quiet, else warnings and more
/// detail with each `-v`, up to three.
pub fn log_level(quiet: bool, verbosity: u8) -> (r: LevelFilter)
    requires
        quiet || verbosity <= 3,
    ensures
        r == level_for(quiet, verbosity),
{
    if quiet {
        LevelFilter::Off
    } else {
        match verbosity {
            0 => LevelFilter::Warn,
            1 => LevelFilter::Info,
            2 => LevelFilter::Debug,
            _ => LevelFilter::Trace,
        }
    }
}

} // verus!
