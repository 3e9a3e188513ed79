//! Severity-gated logging over a host-supplied sink.

use vstd::prelude::*;

verus! {

/// Message severity, from most verbose to most severe.
#[derive(Clone, Copy, PartialEq, Eq, Structural, Debug)]
pub enum LogLevel {
    Debug,
    Info,
    Warn,
    Error,
}

/// The rank of a severity: a logger configured at some level emits the
/// messages whose severity ranks at or above it.
pub open spec fn severity(level: LogLevel) -> int {
    match level {
        LogLevel::Debug => 0,
        LogLevel::Info => 1,
        LogLevel::Warn => 2,
        LogLevel::Error => 3,
    }
}

/// The sink a logger writes through: the hosting application implements
/// this (a console, a file, a collector) and seeds the logger with it.
pub trait LoggingProvider {
    /// Emit a debug message.
    fn debug(&self, message: String);

    /// Emit an informational message.
    fn info(&self, message: String);

    /// Emit a warning.
    fn warn(&self, message: String);

    /// Emit an error message.
    fn error(&self, message: String);
}

/// A sink together with a configured level: a message is handed to the
/// sink exactly when the configured level ranks at or below the message's
/// severity.
pub struct Logger<P: LoggingProvider> {
    logging_provider: P,
    log_level: LogLevel,
}

impl<P: LoggingProvider> Logger<P> {
    /// The configured level.
    pub closed spec fn spec_level(&self) -> LogLevel {
        self.log_level
    }

    /// The sink every emitted message goes to.
    pub closed spec fn spec_provider(&self) -> P {
        self.logging_provider
    }

    /// A logger over `logging_provider` configured at `log_level`: the
    /// very sink handed in is the one stored and written through.
    pub fn new(logging_provider: P, log_level: LogLevel) -> (l: Self)
        ensures
            l.spec_level() == log_level,
            l.spec_provider() == logging_provider,
    {
        Logger { logging_provider, log_level }
    }

    /// Whether a message of severity `at` passes the configured level.
    pub fn enabled(&self, at: LogLevel) -> (b: bool)
        ensures
            b == (severity(self.spec_level()) <= severity(at)),
    {
        let own: u8 = match self.log_level {
            LogLevel::Debug => 0,
            LogLevel::Info => 1,
            LogLevel::Warn => 2,
            LogLevel::Error => 3,
        };
        let msg: u8 = match at {
            LogLevel::Debug => 0,
            LogLevel::Info => 1,
            LogLevel::Warn => 2,
            LogLevel::Error => 3,
        };
        own <= msg
    }

    /// Passes a debug message to the sink, when the level allows it.
    pub fn debug(&self, message: String) {
        if self.enabled(LogLevel::Debug) {
            self.logging_provider.debug(message);
        }
    }

    /// Passes an informational message to the sink, when the level allows
    /// it.
    pub fn info(&self, message: String) {
        if self.enabled(LogLevel::Info) {
            self.logging_provider.info(message);
        }
    }

    /// Passes a warning to the sink, when the level allows it.
    pub fn warn(&self, message: String) {
        if self.enabled(LogLevel::Warn) {
            self.logging_provider.warn(message);
        }
    }

    /// Passes an error message to the sink, when the level allows it.
    pub fn error(&self, message: String) {
        if self.enabled(LogLevel::Error) {
            self.logging_provider.error(message);
        }
    }
}

} // verus!
