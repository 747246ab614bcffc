//! Log records as the logger sees them: a level, a target, an optional
//! source location and the message text.

use vstd::prelude::*;

verus! {

/// Verbosity level of a record, from the most to the least severe.
#[derive(Clone, Copy, Debug, PartialEq, Eq, Structural)]
pub enum Level {
    Error,
    Warn,
    Info,
    Debug,
    Trace,
}

impl Level {
    /// Severity rank: 1 for `Error` up to 5 for `Trace`.
    pub open spec fn rank(self) -> nat {
        match self {
            Level::Error => 1,
            Level::Warn => 2,
            Level::Info => 3,
            Level::Debug => 4,
            Level::Trace => 5,
        }
    }

    /// Upper-case name of the level.
    pub open spec fn name(self) -> Seq<char> {
        match self {
            Level::Error => seq!['E', 'R', 'R', 'O', 'R'],
            Level::Warn => seq!['W', 'A', 'R', 'N'],
            Level::Info => seq!['I', 'N', 'F', 'O'],
            Level::Debug => seq!['D', 'E', 'B', 'U', 'G'],
            Level::Trace => seq!['T', 'R', 'A', 'C', 'E'],
        }
    }

    /// The level's name.
    pub fn as_str(&self) -> (r: &'static str)
        ensures
            r@ == self.name(),
    {
        match self {
            Level::Error => {
                proof {
                    reveal_strlit("ERROR");
                }
                "ERROR"
            },
            Level::Warn => {
                proof {
                    reveal_strlit("WARN");
                }
                "WARN"
            },
            Level::Info => {
                proof {
                    reveal_strlit("INFO");
                }
                "INFO"
            },
            Level::Debug => {
                proof {
                    reveal_strlit("DEBUG");
                }
                "DEBUG"
            },
            Level::Trace => {
                proof {
                    reveal_strlit("TRACE");
                }
                "TRACE"
            },
        }
    }

    /// The level's rank.
    pub fn to_rank(&self) -> (r: usize)
        ensures
            r == self.rank(),
    {
        match self {
            Level::Error => 1,
            Level::Warn => 2,
            Level::Info => 3,
            Level::Debug => 4,
            Level::Trace => 5,
        }
    }
}

/// The most verbose level a logger lets through, or `Off` for none.
#[derive(Clone, Copy, Debug, PartialEq, Eq, Structural)]
pub enum LevelFilter {
    Off,
    Error,
    Warn,
    Info,
    Debug,
    Trace,
}

impl LevelFilter {
    /// Rank of the filter: 0 for `Off` up to 5 for `Trace`.
    pub open spec fn rank(self) -> nat {
        match self {
            LevelFilter::Off => 0,
            LevelFilter::Error => 1,
            LevelFilter::Warn => 2,
            LevelFilter::Info => 3,
            LevelFilter::Debug => 4,
            LevelFilter::Trace => 5,
        }
    }

    /// Whether a record of `level` passes this filter.
    pub open spec fn admits(self, level: Level) -> bool {
        level.rank() <= self.rank()
    }

    /// Whether a record of `level` passes this filter.
    pub fn lets_through(&self, level: Level) -> (r: bool)
        ensures
            r == self.admits(level),
    {
        let rank: usize = match self {
            LevelFilter::Off => 0,
            LevelFilter::Error => 1,
            LevelFilter::Warn => 2,
            LevelFilter::Info => 3,
            LevelFilter::Debug => 4,
            LevelFilter::Trace => 5,
        };
        level.to_rank() <= rank
    }
}

/// One log record: ephemeral, consumed by a single log call.
pub struct Record {
    pub level: Level,
    pub target: String,
    pub file: Option<String>,
    pub line: Option<u32>,
    pub message: String,
}

/// The target that marks a record as urgent: it bypasses the ring.
pub open spec fn immediate_target() -> Seq<char> {
    seq!['!']
}

impl Record {
    /// Whether the record is urgent, that is, its target is exactly `"!"`.
    pub fn is_immediate(&self) -> (r: bool)
        ensures
            r == (self.target@ == immediate_target()),
    {
        let t = self.target.as_str();
        if !t.is_ascii() || t.len() != 1 {
            proof {
                if t@ == immediate_target() {
                    assert(vstd::utf8::is_ascii_chars(t@));
                    vstd::utf8::is_ascii_chars_encode_utf8(t@);
                }
            }
            return false;
        }
        let b = t.as_bytes()[0];
        proof {
            vstd::string::is_ascii_spec_bytes(t);
            vstd::utf8::is_ascii_chars_encode_utf8(t@);
            assert(t@.len() == 1);
            if b == 33u8 {
                assert(t@[0] as u8 == 33u8);
                assert(t@ =~= immediate_target());
            }
        }
        b == 33u8
    }
}

} // verus!
