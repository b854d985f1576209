//! Severity levels for log records.

use vstd::prelude::*;

verus! {

/// Severity of a log record. The variants are ordered from most severe
/// (`Error`) to least severe (`Trace`).
#[derive(Clone, Copy, PartialEq, Eq, Structural, Debug)]
pub enum Level {
    Error,
    Warn,
    Info,
    Debug,
    Trace,
}

impl Level {
    /// Position of the level in the severity order: `Error` is 0 and
    /// `Trace` is 4. A smaller rank means a more severe level.
    pub open spec fn rank(self) -> int {
        match self {
            Level::Error => 0,
            Level::Warn => 1,
            Level::Info => 2,
            Level::Debug => 3,
            Level::Trace => 4,
        }
    }

    /// The rank as a machine integer.
    pub fn severity(self) -> (r: u8)
        ensures
            r as int == self.rank(),
    {
        match self {
            Level::Error => 0,
            Level::Warn => 1,
            Level::Info => 2,
            Level::Debug => 3,
            Level::Trace => 4,
        }
    }

    /// True when `self` is at least as severe as `other`.
    pub fn at_least_as_severe(self, other: Level) -> (r: bool)
        ensures
            r == (self.rank() <= other.rank()),
    {
        self.severity() <= other.severity()
    }
}

} // verus!
