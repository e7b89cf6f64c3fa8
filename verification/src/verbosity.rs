//! Verbosity flags for command-line tools, and the log level each
//! verbosity stands for.

use vstd::prelude::*;

verus! {

/// A logging threshold, from silence to full tracing.
#[derive(Clone, Copy, PartialEq, Eq, Debug, Structural)]
pub enum LevelFilter {
    Off,
    Info,
    Debug,
    Trace,
}

/// The verbosity switches of a command line: at most one of them is meant
/// to be set; the quiet switch wins, then the more talkative ones in
/// decreasing order, and the default is verbose.
#[derive(Clone, Copy, Debug)]
pub struct VerbosityFlag {
    quiet: bool,
    verbose: bool,
    debug: bool,
    trace: bool,
}

/// A verbosity level.
#[derive(Clone, Copy, PartialEq, Eq, Debug, Structural)]
pub enum Verbosity {
    Quiet,
    Verbose,
    Debug,
    Trace,
}

/// The verbosity that a combination of switches selects.
pub open spec fn spec_verbosity_of(quiet: bool, verbose: bool, debug: bool, trace: bool) -> Verbosity {
    if quiet {
        Verbosity::Quiet
    } else if trace {
        Verbosity::Trace
    } else if debug {
        Verbosity::Debug
    } else {
        Verbosity::Verbose
    }
}

impl VerbosityFlag {
    /// Whether the quiet switch is set.
    pub closed spec fn spec_quiet(self) -> bool {
        self.quiet
    }

    /// Whether the verbose switch is set.
    pub closed spec fn spec_verbose(self) -> bool {
        self.verbose
    }

    /// Whether the debug switch is set.
    pub closed spec fn spec_debug(self) -> bool {
        self.debug
    }

    /// Whether the trace switch is set.
    pub closed spec fn spec_trace(self) -> bool {
        self.trace
    }

    /// Collects the four verbosity switches.
    pub fn new(quiet: bool, verbose: bool, debug: bool, trace: bool) -> (r: Self)
        ensures
            r.spec_quiet() == quiet,
            r.spec_verbose() == verbose,
            r.spec_debug() == debug,
            r.spec_trace() == trace,
    {
        VerbosityFlag { quiet, verbose, debug, trace }
    }

    /// Returns the log level filter corresponding to the given verbosity
    /// flags.
    pub fn log_level_filter(&self) -> (r: LevelFilter)
        ensures
            r == spec_verbosity_of(
                self.spec_quiet(),
                self.spec_verbose(),
                self.spec_debug(),
                self.spec_trace(),
            ).spec_level(),
    {
        self.verbosity().log_level_filter()
    }

    /// Returns the verbosity level corresponding to the given verbosity
    /// flags.
    pub fn verbosity(&self) -> (r: Verbosity)
        ensures
            r == spec_verbosity_of(
                self.spec_quiet(),
                self.spec_verbose(),
                self.spec_debug(),
                self.spec_trace(),
            ),
    {
        if self.quiet {
            Verbosity::Quiet
        } else if self.trace {
            Verbosity::Trace
        } else if self.debug {
            Verbosity::Debug
        } else {
            Verbosity::Verbose
        }
    }
}

impl Verbosity {
    /// The log level this verbosity stands for.
    pub open spec fn spec_level(self) -> LevelFilter {
        match self {
            Verbosity::Quiet => LevelFilter::Off,
            Verbosity::Verbose => LevelFilter::Info,
            Verbosity::Debug => LevelFilter::Debug,
            Verbosity::Trace => LevelFilter::Trace,
        }
    }

    /// Returns the log filter level corresponding to this verbosity.
    pub fn log_level_filter(&self) -> (r: LevelFilter)
        ensures
            r == self.spec_level(),
    {
        match self {
            Verbosity::Quiet => LevelFilter::Off,
            Verbosity::Verbose => LevelFilter::Info,
            Verbosity::Debug => LevelFilter::Debug,
            Verbosity::Trace => LevelFilter::Trace,
        }
    }
}

/// Translates a verbosity into the numeric reporting level of the external
/// logging backend: silence is 0, and the talkative levels count up from 5.
pub fn verbosity_to_log_level_t(verbosity: Verbosity) -> (r: usize)
    ensures
        r == match verbosity {
            Verbosity::Quiet => 0int,
            Verbosity::Verbose => 5int,
            Verbosity::Debug => 6int,
            Verbosity::Trace => 7int,
        },
{
    match verbosity {
        Verbosity::Quiet => 0,
        Verbosity::Verbose => 5,
        Verbosity::Debug => 6,
        Verbosity::Trace => 7,
    }
}

} // verus!
