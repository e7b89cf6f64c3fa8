//! The verbosity selection of the graphical front end: a plain choice of
//! level rather than a set of switches.

use vstd::prelude::*;

use crate::verbosity::LevelFilter;

verus! {

/// A verbosity level selected as a value.
#[derive(Clone, Copy, PartialEq, Eq, Debug, Structural)]
pub enum Verbosity {
    Quiet,
    Verbose,
    Debug,
    Trace,
}

impl Verbosity {
    /// The log level this verbosity stands for.
    pub open spec fn spec_level(self) -> LevelFilter {
        match self {
            Verbosity::Quiet => LevelFilter::Off,
            Verbosity::Verbose => LevelFilter::Info,
            Verbosity::Debug => LevelFilter::Debug,
            Verbosity::Trace => LevelFilter::Trace,
        }
    }

    /// Returns the log filter level corresponding to this verbosity.
    pub fn log_level_filter(&self) -> (r: LevelFilter)
        ensures
            r == self.spec_level(),
    {
        match self {
            Verbosity::Quiet => LevelFilter::Off,
            Verbosity::Verbose => LevelFilter::Info,
            Verbosity::Debug => LevelFilter::Debug,
            Verbosity::Trace => LevelFilter::Trace,
        }
    }
}

} // verus!
