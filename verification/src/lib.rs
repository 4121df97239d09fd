//! Core engine of a terminal text editor: unicode-aware line storage,
//! buffer editing with exact inverses, cursor addressing across byte,
//! grapheme and display-column coordinates, undo/redo, and selection.
use vstd::prelude::*;

pub mod grapheme;
pub mod buffer;
pub mod cursor;
pub mod line;
pub mod screen;

verus! {

/// Session options: which files to open and how.
pub struct Config {
    pub paths: Vec<String>,
    pub readonly: bool,
    pub truncate: bool,
}

/// Whether two closed-ended ranges touch or overlap.
pub fn intersects(lhs: &core::ops::Range<usize>, rhs: &core::ops::Range<usize>) -> (r: bool)
    ensures
        r == !(lhs.end < rhs.start || rhs.end < lhs.start),
{
    !(lhs.end < rhs.start || rhs.end < lhs.start)
}

/// The overlap of two ranges, when they intersect.
pub fn intersection(lhs: &core::ops::Range<usize>, rhs: &core::ops::Range<usize>) -> (r: Option<
    core::ops::Range<usize>,
>)
    ensures
        (lhs.end < rhs.start || rhs.end < lhs.start) ==> r is None,
        !(lhs.end < rhs.start || rhs.end < lhs.start) ==> r is Some && r->0.start == (if lhs.start
            >= rhs.start {
            lhs.start
        } else {
            rhs.start
        }) && r->0.end == (if lhs.end <= rhs.end {
            lhs.end
        } else {
            rhs.end
        }),
{
    if !intersects(lhs, rhs) {
        None
    } else {
        let start = if lhs.start >= rhs.start {
            lhs.start
        } else {
            rhs.start
        };
        let end = if lhs.end <= rhs.end {
            lhs.end
        } else {
            rhs.end
        };
        Some(start..end)
    }
}

} // verus!
