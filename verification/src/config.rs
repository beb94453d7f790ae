//! The base configuration of the server.

use vstd::prelude::*;

verus! {

/// The most detailed level of log events that is recorded.
#[derive(Debug, Clone, Copy, PartialEq, Eq)]
pub enum TracingLevel {
    Off,
    Error,
    Warn,
    Info,
    Debug,
    Trace,
}

/// The name a level is written as in the configuration.
pub open spec fn level_text(level: TracingLevel) -> Seq<char> {
    match level {
        TracingLevel::Off => "off"@,
        TracingLevel::Error => "error"@,
        TracingLevel::Warn => "warn"@,
        TracingLevel::Info => "info"@,
        TracingLevel::Debug => "debug"@,
        TracingLevel::Trace => "trace"@,
    }
}

impl TracingLevel {
    /// The name the level is written as in the configuration.
    pub fn name(self) -> (r: &'static str)
        ensures
            r@ == level_text(self),
    {
        match self {
            TracingLevel::Off => "off",
            TracingLevel::Error => "error",
            TracingLevel::Warn => "warn",
            TracingLevel::Info => "info",
            TracingLevel::Debug => "debug",
            TracingLevel::Trace => "trace",
        }
    }
}

/// The base configuration: the log level, and the configuration `inner` of
/// the layer built on this one.
#[derive(Debug, PartialEq)]
pub struct FalconConfig<T> {
    pub tracing_level: TracingLevel,
    pub inner: T,
}

impl<T: Default> Default for FalconConfig<T> {
    /// The log level is [`Info`](TracingLevel::Info) by default.
    fn default() -> (r: Self)
        ensures
            r.tracing_level == TracingLevel::Info,
    {
        FalconConfig { tracing_level: TracingLevel::Info, inner: T::default() }
    }
}

} // verus!
