//! Defines the logging level for scanner functions.

use vstd::prelude::*;

verus! {

/// How much a logger reports.
#[derive(Clone, Copy, Debug, PartialEq, Eq, Structural)]
pub enum LogLevel {
    Verbose,
    Normal,
    Quiet,
}

/// A logger that drops every message.
pub struct NullLogger;

} // verus!
