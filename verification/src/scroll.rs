//! Viewport scroll arithmetic for a line-oriented reader.

use vstd::prelude::*;

verus! {

/// The greatest line index a viewport of `height` lines may start at over
/// `total` lines: the difference, saturating at zero.
pub fn max_scroll(total: usize, height: usize) -> (r: usize)
    ensures
        r == if total >= height {
            total - height
        } else {
            0
        },
{
    if total >= height {
        total - height
    } else {
        0
    }
}

/// Clamp a scroll position to the valid range for the viewport: positions
/// past the greatest start come back to it, valid positions are unchanged.
pub fn clamp_scroll(scroll: usize, total: usize, height: usize) -> (r: usize)
    ensures
        ({
            let m = if total >= height {
                total - height
            } else {
                0
            };
            r == if scroll > m {
                m
            } else {
                scroll as int
            }
        }),
{
    let m = max_scroll(total, height);
    if scroll > m {
        m
    } else {
        scroll
    }
}

} // verus!
