//! Multi-cursor placement: adding a cursor at the next occurrence of the
//! selected text, or on the line above or below at the same column.
use crate::buffer::{lossy_utf8, Buffer};
use crate::text::{has_match_in, is_first_match_in, line_end_of, line_start_of, nl};
use crate::tree::read_spec;
use vstd::prelude::*;

verus! {

use vstd::string::StringSliceAdditionalSpecFns;

/// An editing cursor: a byte position, and an optional selection anchor.
#[derive(Debug, Clone, Copy)]
pub struct Cursor {
    pub position: usize,
    pub anchor: Option<usize>,
}

impl Cursor {
    pub fn new(position: usize) -> (r: Cursor)
        ensures
            r.position == position,
            r.anchor is None,
    {
        Cursor { position, anchor: None }
    }

    /// A cursor sitting at `end` with the range `[start, end)` selected.
    pub fn with_selection(start: usize, end: usize) -> (r: Cursor)
        ensures
            r.position == end,
            r.anchor == Some(start),
    {
        Cursor { position: end, anchor: Some(start) }
    }

    /// The selected range in ascending order, if a selection is active.
    pub fn selection_range(&self) -> (r: Option<(usize, usize)>)
        ensures
            match r {
                None => self.anchor is None,
                Some(p) => self.anchor matches Some(a) && p.0
                    == vstd::math::min(a as int, self.position as int) && p.1 == vstd::math::max(
                    a as int,
                    self.position as int,
                ),
            },
    {
        match self.anchor {
            None => None,
            Some(a) => {
                if a <= self.position {
                    Some((a, self.position))
                } else {
                    Some((self.position, a))
                }
            },
        }
    }
}

/// The outcome of trying to add a cursor.
pub enum AddCursorResult {
    /// The cursor that was added, and the resulting cursor count.
    Success { cursor: Cursor, total_cursors: usize },
    /// Nothing was added; the message says why.
    Failed { message: String },
}

/// The length of a line's content without its trailing newline.
pub open spec fn line_core_len(s: Seq<u8>, ls: int) -> int {
    let le = line_end_of(s, ls);
    if le > ls && s[le - 1] == nl() {
        le - ls - 1
    } else {
        le - ls
    }
}

/// The selected text, decoded leniently and re-encoded: the byte pattern
/// the next-match search runs on.
pub open spec fn selection_pattern(s: Seq<u8>, a: int, b: int) -> Seq<u8> {
    vstd::utf8::encode_utf8(lossy_utf8(read_spec(s, a, vstd::math::max(b - a, 0))))
}

/// Adds a cursor selecting the next occurrence (in cyclic order) of the
/// primary cursor's selected text; fails when nothing is selected or the
/// text occurs nowhere else.
pub fn add_cursor_at_next_match(buffer: &Buffer, primary: &Cursor, cursor_count: usize) -> (r:
    AddCursorResult)
    requires
        buffer.wf(),
        cursor_count < usize::MAX,
    ensures
        primary.anchor is None ==> (r matches AddCursorResult::Failed { message } && message@
            == "No selection to match"@),
        ({
            let s = buffer@;
            let n = s.len() as int;
            let a = vstd::math::min(
                match primary.anchor {
                    Some(anc) => anc as int,
                    None => 0int,
                },
                primary.position as int,
            );
            let b = vstd::math::max(
                match primary.anchor {
                    Some(anc) => anc as int,
                    None => 0int,
                },
                primary.position as int,
            );
            let pb = selection_pattern(s, a, b);
            let sp = vstd::math::min(b, n);
            &&& (r matches AddCursorResult::Success { cursor, total_cursors } ==> {
                &&& total_cursors == cursor_count + 1
                &&& cursor.anchor matches Some(k) && cursor.position == k + pb.len()
                    && if has_match_in(s, pb, sp, n) {
                    is_first_match_in(s, pb, sp, n, k as int)
                } else {
                    is_first_match_in(s, pb, 0, sp, k as int)
                }
            })
            &&& (primary.anchor is Some ==> match r {
                AddCursorResult::Failed { message } => message@ == "No more matches"@ && (pb.len()
                    == 0 || (!has_match_in(s, pb, sp, n) && !has_match_in(s, pb, 0, sp))),
                AddCursorResult::Success { .. } => true,
            })
        }),
{
    let range = match primary.selection_range() {
        Some(range) => range,
        None => {
            return AddCursorResult::Failed { message: failed_text_no_selection() };
        },
    };
    let pattern = buffer.slice(range.0..range.1);
    let search_start = range.1;
    let match_pos = match buffer.find_next(pattern.as_str(), search_start) {
        Some(pos) => pos,
        None => {
            return AddCursorResult::Failed { message: failed_text_no_more_matches() };
        },
    };
    let plen = pattern.as_str().as_bytes().len();
    let buffer_len = buffer.len();
    proof {
        assert(match_pos + plen <= buffer_len);
    }
    let new_cursor = Cursor::with_selection(match_pos, match_pos + plen);
    AddCursorResult::Success { cursor: new_cursor, total_cursors: cursor_count + 1 }
}

fn failed_text_no_selection() -> (r: String)
    ensures
        r@ == "No selection to match"@,
{
    let s = "No selection to match";
    s.to_owned()
}

fn failed_text_no_more_matches() -> (r: String)
    ensures
        r@ == "No more matches"@,
{
    let s = "No more matches";
    s.to_owned()
}

fn failed_text_no_current_line() -> (r: String)
    ensures
        r@ == "Unable to find current line"@,
{
    let s = "Unable to find current line";
    s.to_owned()
}

fn failed_text_first_line() -> (r: String)
    ensures
        r@ == "Already at first line"@,
{
    let s = "Already at first line";
    s.to_owned()
}

fn failed_text_last_line() -> (r: String)
    ensures
        r@ == "Already at last line"@,
{
    let s = "Already at last line";
    s.to_owned()
}

/// Adds a cursor on the previous line at the primary cursor's column,
/// capped at that line's content length (its newline excluded). A cursor
/// sitting on a newline counts as being at the start of the next line.
pub fn add_cursor_above(buffer: &Buffer, primary: &Cursor, cursor_count: usize) -> (r:
    AddCursorResult)
    requires
        buffer.wf(),
        cursor_count < usize::MAX,
    ensures
        ({
            let s = buffer@;
            let adj = if primary.position < s.len() && s[primary.position as int] == nl() {
                primary.position + 1
            } else {
                primary.position as int
            };
            let ls = line_start_of(s, vstd::math::min(adj, s.len() as int));
            match r {
                AddCursorResult::Failed { message } => (ls >= s.len() && message@
                    == "Unable to find current line"@) || (ls < s.len() && ls == 0 && message@
                    == "Already at first line"@),
                AddCursorResult::Success { cursor, total_cursors } => {
                    let pls = line_start_of(s, ls - 1);
                    &&& ls < s.len() && ls > 0
                    &&& total_cursors == cursor_count + 1
                    &&& cursor.anchor is None
                    &&& cursor.position == pls + vstd::math::min(
                        adj - ls,
                        line_core_len(s, pls),
                    )
                },
            }
        }),
{
    let len = buffer.len();
    let adjusted = if primary.position < len {
        let b = buffer.slice_bytes(primary.position..primary.position + 1);
        if b[0] == 10 {
            primary.position + 1
        } else {
            primary.position
        }
    } else {
        primary.position
    };
    let li = buffer.line_iterator(adjusted);
    let line_start = li.current_position();
    proof {
        crate::text::lemma_line_start_bounds(buffer@, vstd::math::min(
            adjusted as int,
            buffer@.len() as int,
        ));
    }
    if line_start >= len {
        return AddCursorResult::Failed { message: failed_text_no_current_line() };
    }
    if line_start == 0 {
        return AddCursorResult::Failed { message: failed_text_first_line() };
    }
    let col_offset = adjusted - line_start;
    let pli = buffer.line_iterator(line_start - 1);
    let prev_line_start = pli.current_position();
    proof {
        crate::text::lemma_line_start_bounds(buffer@, line_start - 1);
    }
    let prev_line_end = buffer.scan_line_end(prev_line_start);
    let core_len = if prev_line_end > prev_line_start {
        let b = buffer.slice_bytes(prev_line_end - 1..prev_line_end);
        if b[0] == 10 {
            prev_line_end - prev_line_start - 1
        } else {
            prev_line_end - prev_line_start
        }
    } else {
        0
    };
    let capped = if col_offset > core_len {
        core_len
    } else {
        col_offset
    };
    let new_pos = prev_line_start + capped;
    AddCursorResult::Success {
        cursor: Cursor::new(new_pos),
        total_cursors: cursor_count + 1,
    }
}

/// Adds a cursor on the next line at the primary cursor's column, capped at
/// that line's content length (its newline excluded).
pub fn add_cursor_below(buffer: &Buffer, primary: &Cursor, cursor_count: usize) -> (r:
    AddCursorResult)
    requires
        buffer.wf(),
        cursor_count < usize::MAX,
    ensures
        ({
            let s = buffer@;
            let ls = line_start_of(s, vstd::math::min(primary.position as int, s.len() as int));
            let nls = line_end_of(s, ls);
            match r {
                AddCursorResult::Failed { message } => (ls >= s.len() && message@
                    == "Unable to find current line"@) || (ls < s.len() && nls >= s.len()
                    && message@ == "Already at last line"@),
                AddCursorResult::Success { cursor, total_cursors } => {
                    &&& ls < s.len() && nls < s.len()
                    &&& total_cursors == cursor_count + 1
                    &&& cursor.anchor is None
                    &&& cursor.position == nls + vstd::math::min(
                        primary.position - ls,
                        line_core_len(s, nls),
                    )
                },
            }
        }),
{
    let len = buffer.len();
    let li = buffer.line_iterator(primary.position);
    let line_start = li.current_position();
    proof {
        crate::text::lemma_line_start_bounds(buffer@, vstd::math::min(
            primary.position as int,
            buffer@.len() as int,
        ));
    }
    if line_start >= len {
        return AddCursorResult::Failed { message: failed_text_no_current_line() };
    }
    let next_line_start = buffer.scan_line_end(line_start);
    if next_line_start >= len {
        return AddCursorResult::Failed { message: failed_text_last_line() };
    }
    let col_offset = primary.position - line_start;
    let next_line_end = buffer.scan_line_end(next_line_start);
    let core_len = if next_line_end > next_line_start {
        let b = buffer.slice_bytes(next_line_end - 1..next_line_end);
        if b[0] == 10 {
            next_line_end - next_line_start - 1
        } else {
            next_line_end - next_line_start
        }
    } else {
        0
    };
    let capped = if col_offset > core_len {
        core_len
    } else {
        col_offset
    };
    let new_pos = next_line_start + capped;
    AddCursorResult::Success {
        cursor: Cursor::new(new_pos),
        total_cursors: cursor_count + 1,
    }
}

} // verus!
