//! Verbosity of the command-line tools and the log level it selects.
use vstd::prelude::*;

verus! {

/// The log level asked for on the command line (each `-v` one step more
/// detailed, from `Error`).
#[derive(Debug, Clone, Copy, PartialEq, Eq, Structural)]
pub enum VerboseLevel {
    Error,
    Warn,
    Info,
    Debug,
    Trace,
}

/// The most detailed log level to print.
#[derive(Debug, Clone, Copy, PartialEq, Eq, Structural)]
pub enum TraceLevel {
    Error,
    Warn,
    Info,
    Debug,
    Trace,
}

/// The log level for a verbosity: one step more detailed than asked, and
/// errors only when no flag is given.
pub fn verbose_level_to_trace(level: Option<VerboseLevel>) -> (r: TraceLevel)
    ensures
        r == (match level {
            Some(VerboseLevel::Error) => TraceLevel::Warn,
            Some(VerboseLevel::Warn) => TraceLevel::Info,
            Some(VerboseLevel::Info) => TraceLevel::Debug,
            Some(VerboseLevel::Debug) => TraceLevel::Trace,
            Some(VerboseLevel::Trace) => TraceLevel::Trace,
            None => TraceLevel::Error,
        }),
{
    match level {
        Some(VerboseLevel::Error) => TraceLevel::Warn,
        Some(VerboseLevel::Warn) => TraceLevel::Info,
        Some(VerboseLevel::Info) => TraceLevel::Debug,
        Some(VerboseLevel::Debug) => TraceLevel::Trace,
        Some(VerboseLevel::Trace) => TraceLevel::Trace,
        None => TraceLevel::Error,
    }
}

} // verus!
