//! Defines the logging level for scanner functions.

use vstd::prelude::*;

verus! {

/// How much a logger reports.
#[derive(Clone, Copy, Debug, PartialEq, Eq, Structural)]
pub enum LogLevel {
    Verbose,
    Normal,
    Quiet,
}

/// Trait for logging progress and results.
///
/// Each kind of message has a relation that says what a logger becomes when
/// it is handed a message of that kind. An implementation that does not
/// define it promises nothing about what it does with the message.
pub trait Logger<const B: usize> {
    /// Whether `self` is what `before` becomes once it has been handed the
    /// informational message `msg`.
    open spec fn info_logged(&self, before: &Self, msg: Seq<char>) -> bool {
        true
    }

    /// Whether `self` is what `before` becomes once it has been handed the
    /// warning `msg`.
    open spec fn warning_logged(&self, before: &Self, msg: Seq<char>) -> bool {
        true
    }

    /// Whether `self` is what `before` becomes once it has been handed the
    /// error message `msg`.
    open spec fn error_logged(&self, before: &Self, msg: Seq<char>) -> bool {
        true
    }

    fn log_info(&mut self, msg: &str)
        ensures
            final(self).info_logged(old(self), msg@),
    ;

    fn log_warning(&mut self, msg: &str)
        ensures
            final(self).warning_logged(old(self), msg@),
    ;

    fn log_error(&mut self, msg: &str)
        ensures
            final(self).error_logged(old(self), msg@),
    ;
}

/// A logger for platforms without console output: it drops every message.
pub struct NullLogger;

impl<const B: usize> Logger<B> for NullLogger {
    open spec fn info_logged(&self, before: &Self, msg: Seq<char>) -> bool {
        *self == *before
    }

    open spec fn warning_logged(&self, before: &Self, msg: Seq<char>) -> bool {
        *self == *before
    }

    open spec fn error_logged(&self, before: &Self, msg: Seq<char>) -> bool {
        *self == *before
    }

    fn log_info(&mut self, _msg: &str) {
    }

    fn log_warning(&mut self, _msg: &str) {
    }

    fn log_error(&mut self, _msg: &str) {
    }
}

} // verus!
