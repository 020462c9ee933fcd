//! Layout arithmetic for the suggestions popup: which slice of the
//! suggestion list is shown so that the selected item stays visible,
//! roughly centered. The rendering itself lives outside the library; it
//! feeds these numbers to the widget toolkit.
use vstd::prelude::*;

verus! {

/// Renders the autocomplete suggestions popup; the library side computes
/// the scroll window, the drawing side styles and paints it.
pub struct SuggestionsRenderer;

impl SuggestionsRenderer {
    /// The first visible index of the suggestion list: 0 near the top, the
    /// last full page near the bottom, otherwise the selected item sits in
    /// the middle of the window.
    pub fn scroll_start(selected: Option<usize>, visible_count: usize, total: usize) -> (r: usize)
        ensures
            r == match selected {
                None => 0int,
                Some(sel) => {
                    if sel < visible_count / 2 {
                        0int
                    } else if sel >= total - visible_count / 2 {
                        vstd::math::max(total - visible_count, 0)
                    } else {
                        vstd::math::max(sel - visible_count / 2, 0)
                    }
                },
            },
    {
        match selected {
            None => 0,
            Some(sel) => {
                let half = visible_count / 2;
                if sel < half {
                    0
                } else if total < half || sel >= total - half {
                    if total > visible_count {
                        total - visible_count
                    } else {
                        0
                    }
                } else {
                    if sel > half {
                        sel - half
                    } else {
                        0
                    }
                }
            },
        }
    }

    /// The one-past-the-end visible index for a window starting at `start`.
    pub fn scroll_end(start: usize, visible_count: usize, total: usize) -> (r: usize)
        ensures
            r == vstd::math::min(start + visible_count, total as int),
    {
        if start > total || visible_count > total - start {
            total
        } else {
            start + visible_count
        }
    }
}

} // verus!
