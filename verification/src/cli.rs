//! The command-line settings.

use vstd::prelude::*;

verus! {

/// How the subtitle lines are turned into segments.
#[derive(Debug, Clone, Copy, PartialEq, Eq)]
pub struct Args {
    /// Padding around each subtitle line, in milliseconds.
    pub pad_ms: u32,
    /// Segments separated by less than this many milliseconds are merged.
    pub gap_ms: u32,
}

impl Default for Args {
    /// 500 ms of padding and a 200 ms merge gap.
    fn default() -> (r: Self)
        ensures
            r.pad_ms == 500,
            r.gap_ms == 200,
    {
        Args { pad_ms: 500, gap_ms: 200 }
    }
}

} // verus!
