//! Entry points of the engine logger: the filter that the platform sink
//! starts with, and the filter and global maximum level that a new filter
//! spec installs. The application installs the sink and hands it these.

use vstd::prelude::*;
use crate::filter::{self, Filter};
use crate::level::LevelFilter;

verus! {

/// The filter that `init` gives the platform sink: every target at `Info`.
/// Initializing again gives the same filter, so `init` is idempotent.
pub fn init() -> (f: Filter)
    ensures
        f.default_level() == LevelFilter::Info,
        f.overrides() == Seq::<(Seq<char>, LevelFilter)>::empty(),
        f.wf(),
{
    Filter::default()
}

/// What replacing the active filter with `spec` installs: the filter that
/// `spec` denotes, and the global maximum level that lets through every
/// record the filter can pass.
pub fn set_filter(spec: &str) -> (r: (Filter, LevelFilter))
    ensures
        r.0.default_level() == filter::parsed(spec@).0,
        r.0.overrides() == filter::sort_by_len_desc(filter::parsed(spec@).1),
        r.0.wf(),
        r.1 == filter::max_filter(r.0.overrides(), r.0.default_level()),
{
    let f = Filter::parse(spec);
    let max = f.max_level();
    (f, max)
}

} // verus!
