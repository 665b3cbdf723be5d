//! Log severity levels and level filters, ordered as the `log` facade orders them.

use vstd::prelude::*;

verus! {

/// Severity of a log record, from most to least severe.
#[derive(Clone, Copy, Debug, PartialEq, Eq, Structural, Hash)]
pub enum Level {
    Error,
    Warn,
    Info,
    Debug,
    Trace,
}

/// Maximum verbosity that a target lets through; `Off` lets nothing through.
#[derive(Clone, Copy, Debug, PartialEq, Eq, Structural, Hash)]
pub enum LevelFilter {
    Off,
    Error,
    Warn,
    Info,
    Debug,
    Trace,
}

/// Rank of a level: Error is 1, Trace is 5.
pub open spec fn level_rank(l: Level) -> nat {
    match l {
        Level::Error => 1,
        Level::Warn => 2,
        Level::Info => 3,
        Level::Debug => 4,
        Level::Trace => 5,
    }
}

/// Rank of a filter: Off is 0, Trace is 5.
pub open spec fn filter_rank(f: LevelFilter) -> nat {
    match f {
        LevelFilter::Off => 0,
        LevelFilter::Error => 1,
        LevelFilter::Warn => 2,
        LevelFilter::Info => 3,
        LevelFilter::Debug => 4,
        LevelFilter::Trace => 5,
    }
}

/// The larger of two filters.
pub open spec fn filter_max(a: LevelFilter, b: LevelFilter) -> LevelFilter {
    if filter_rank(a) >= filter_rank(b) {
        a
    } else {
        b
    }
}

impl Level {
    /// The filter that lets exactly this level and the more severe ones through.
    pub fn to_level_filter(self) -> (f: LevelFilter)
        ensures
            filter_rank(f) == level_rank(self),
    {
        match self {
            Level::Error => LevelFilter::Error,
            Level::Warn => LevelFilter::Warn,
            Level::Info => LevelFilter::Info,
            Level::Debug => LevelFilter::Debug,
            Level::Trace => LevelFilter::Trace,
        }
    }

    /// Numeric rank of the level (Error is 1, Trace is 5).
    pub fn rank(self) -> (r: u8)
        ensures
            r == level_rank(self),
    {
        match self {
            Level::Error => 1,
            Level::Warn => 2,
            Level::Info => 3,
            Level::Debug => 4,
            Level::Trace => 5,
        }
    }
}

impl LevelFilter {
    /// Numeric rank of the filter (Off is 0, Trace is 5).
    pub fn rank(self) -> (r: u8)
        ensures
            r == filter_rank(self),
    {
        match self {
            LevelFilter::Off => 0,
            LevelFilter::Error => 1,
            LevelFilter::Warn => 2,
            LevelFilter::Info => 3,
            LevelFilter::Debug => 4,
            LevelFilter::Trace => 5,
        }
    }

    /// True when a record of `level` passes this filter.
    pub fn admits(self, level: Level) -> (b: bool)
        ensures
            b == (level_rank(level) <= filter_rank(self)),
    {
        level.rank() <= self.rank()
    }
}

} // verus!
