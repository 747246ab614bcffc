//! Per-library switches that decide, for each level, whether that library's
//! log calls reach the logger at all.

use vstd::prelude::*;
use crate::record::Level;

verus! {

/// A library's logging switches: `all` opens every level, each level's own
/// switch opens that level, and `none` closes them all whatever else is set.
#[derive(Clone, Copy, Debug, PartialEq, Eq, Structural)]
pub struct Gate {
    pub all: bool,
    pub none: bool,
    pub error: bool,
    pub warn: bool,
    pub info: bool,
    pub debug: bool,
    pub trace: bool,
}

impl Gate {
    /// Whether calls at `level` pass.
    pub open spec fn opens(self, level: Level) -> bool {
        let own = match level {
            Level::Error => self.error,
            Level::Warn => self.warn,
            Level::Info => self.info,
            Level::Debug => self.debug,
            Level::Trace => self.trace,
        };
        (self.all || own) && !self.none
    }

    /// Whether calls at `level` pass.
    pub fn lets_through(&self, level: Level) -> (r: bool)
        ensures
            r == self.opens(level),
    {
        let own = match level {
            Level::Error => self.error,
            Level::Warn => self.warn,
            Level::Info => self.info,
            Level::Debug => self.debug,
            Level::Trace => self.trace,
        };
        (self.all || own) && !self.none
    }
}

} // verus!
