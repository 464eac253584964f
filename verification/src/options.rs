//! Run configuration and the visibility filter it induces.

use vstd::prelude::*;

verus! {

/// Configuration of one run. It is fixed before the walk starts and only read
/// afterwards.
#[derive(Clone, Copy, Debug, PartialEq, Eq)]
pub struct Options {
    /// Deepest level that is still reported; the root of a walk is level 0.
    /// A negative value hides everything.
    pub max_depth: i32,
    /// An entry is reported only if its size is strictly greater than this.
    pub threshold: u64,
    /// Selects the short form with a unit letter instead of the plain byte count.
    pub human_readable: bool,
}

impl Options {
    /// Whether an entry of the given size, `depth` levels below the root, is
    /// reported: it must not lie deeper than `max_depth`, and its size must
    /// exceed the threshold.
    pub open spec fn shows(self, depth: int, size: u64) -> bool {
        depth <= self.max_depth && size > self.threshold
    }

    /// The options used when no flag is given: three levels, no threshold,
    /// plain byte counts.
    pub open spec fn standard() -> Options {
        Options { max_depth: 3, threshold: 0, human_readable: false }
    }
}

/// Decides whether an entry of `size` bytes at `depth` is reported under `options`.
pub fn is_reportable(size: u64, depth: i32, options: &Options) -> (shown: bool)
    ensures
        shown == options.shows(depth as int, size),
{
    depth <= options.max_depth && size > options.threshold
}

} // verus!
