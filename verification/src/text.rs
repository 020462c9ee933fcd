//! Specification vocabulary for byte-level text: pattern matches, line
//! structure, UTF-8 boundary classes, and UTF-16 code-unit walks. These spec
//! functions are the language the buffer's contracts are written in.
use vstd::prelude::*;

verus! {

/// `p` occurs in `s` starting at `i`.
pub open spec fn match_at(s: Seq<u8>, p: Seq<u8>, i: int) -> bool {
    0 <= i && i + p.len() <= s.len() && s.subrange(i, i + p.len()) == p
}

/// Some occurrence of `p` starts at or after `lo` and ends at or before `hi`.
pub open spec fn has_match_in(s: Seq<u8>, p: Seq<u8>, lo: int, hi: int) -> bool {
    exists|i: int| lo <= i && i + p.len() <= hi && match_at(s, p, i)
}

/// `k` is the first occurrence of `p` that starts at or after `lo` and ends
/// at or before `hi`.
pub open spec fn is_first_match_in(s: Seq<u8>, p: Seq<u8>, lo: int, hi: int, k: int) -> bool {
    &&& lo <= k
    &&& k + p.len() <= hi
    &&& match_at(s, p, k)
    &&& forall|i: int| lo <= i < k ==> !(i + p.len() <= hi && match_at(s, p, i))
}

/// The newline byte.
pub open spec fn nl() -> u8 {
    10u8
}

/// How many newline bytes lie in `s[lo..hi)`.
pub open spec fn count_newlines(s: Seq<u8>, lo: int, hi: int) -> int
    decreases hi - lo,
{
    if lo >= hi {
        0
    } else {
        count_newlines(s, lo, hi - 1) + if s[hi - 1] == nl() {
            1int
        } else {
            0int
        }
    }
}

/// The start of the line containing `p`: the greatest line start at or
/// before `p`.
pub open spec fn line_start_of(s: Seq<u8>, p: int) -> int
    decreases p,
{
    if p <= 0 {
        0
    } else if s[p - 1] == nl() {
        p
    } else {
        line_start_of(s, p - 1)
    }
}

/// One past the end of the line containing `p`: just after the next newline
/// at or after `p`, or the end of the content.
pub open spec fn line_end_of(s: Seq<u8>, p: int) -> int
    decreases s.len() - p,
{
    if p < 0 || p >= s.len() {
        s.len() as int
    } else if s[p] == nl() {
        p + 1
    } else {
        line_end_of(s, p + 1)
    }
}

/// The end of a line never precedes the position it was asked from, and
/// never passes the end of the content.
pub proof fn lemma_line_end_bounds(s: Seq<u8>, p: int)
    requires
        0 <= p <= s.len(),
    ensures
        p <= line_end_of(s, p) <= s.len(),
    decreases s.len() - p,
{
    if p < s.len() && s[p] != nl() {
        lemma_line_end_bounds(s, p + 1);
    }
}

/// The start of a line lies between 0 and the position it was asked from.
pub proof fn lemma_line_start_bounds(s: Seq<u8>, p: int)
    requires
        0 <= p,
    ensures
        0 <= line_start_of(s, p) <= p,
    decreases p,
{
    if p > 0 && s[p - 1] != nl() {
        lemma_line_start_bounds(s, p - 1);
    }
}

/// The 0-indexed line number of position `p`; a position sitting just after
/// a newline at the very end of its line still counts as that line.
pub open spec fn pos_line(s: Seq<u8>, p: int) -> int {
    if 0 < p <= s.len() && s[p - 1] == nl() {
        count_newlines(s, 0, p) - 1
    } else {
        count_newlines(s, 0, p)
    }
}

/// The start of the line that `pos_line` assigns to `p`.
pub open spec fn pos_line_start(s: Seq<u8>, p: int) -> int {
    if 0 < p <= s.len() && s[p - 1] == nl() {
        line_start_of(s, p - 1)
    } else {
        line_start_of(s, p)
    }
}

/// The column of `p` in bytes within its line.
pub open spec fn pos_col(s: Seq<u8>, p: int) -> int {
    p - pos_line_start(s, p)
}

/// The byte offset where line `k` starts; chasing line ends from the top.
/// Once past the last line this stays at the end of the content.
pub open spec fn start_of_line(s: Seq<u8>, k: int) -> int
    decreases k,
{
    if k <= 0 {
        0
    } else {
        line_end_of(s, start_of_line(s, k - 1))
    }
}

pub proof fn lemma_start_of_line_bounds(s: Seq<u8>, k: int)
    ensures
        0 <= start_of_line(s, k) <= s.len(),
    decreases k,
{
    if k <= 0 {
    } else {
        lemma_start_of_line_bounds(s, k - 1);
        lemma_line_end_bounds(s, start_of_line(s, k - 1));
    }
}

/// Once the start-of-line chase reaches the end of the content, every later
/// line starts there too.
pub proof fn lemma_start_of_line_fixpoint(s: Seq<u8>, k: int, m: int)
    requires
        0 <= k <= m,
        start_of_line(s, k) == s.len(),
    ensures
        start_of_line(s, m) == s.len(),
    decreases m - k,
{
    if k < m {
        assert(line_end_of(s, s.len() as int) == s.len());
        lemma_start_of_line_fixpoint(s, k + 1, m);
    }
}

pub proof fn lemma_count_newlines_bounds(s: Seq<u8>, lo: int, hi: int)
    ensures
        0 <= count_newlines(s, lo, hi) <= vstd::math::max(hi - lo, 0),
    decreases hi - lo,
{
    if lo < hi {
        lemma_count_newlines_bounds(s, lo, hi - 1);
    }
}

/// The start of the `j`-th line at or after the line start `p0`: chasing
/// line ends `j` times. Stays at the end of the content once past it.
pub open spec fn nth_line_start(s: Seq<u8>, p0: int, j: int) -> int
    decreases j,
{
    if j <= 0 {
        p0
    } else {
        line_end_of(s, nth_line_start(s, p0, j - 1))
    }
}

pub proof fn lemma_nth_line_start_bounds(s: Seq<u8>, p0: int, j: int)
    requires
        0 <= p0 <= s.len(),
    ensures
        p0 <= nth_line_start(s, p0, j) <= s.len(),
    decreases j,
{
    if j > 0 {
        lemma_nth_line_start_bounds(s, p0, j - 1);
        lemma_line_end_bounds(s, nth_line_start(s, p0, j - 1));
    }
}

/// Once the line-start chase reaches the end of the content, every later
/// line start stays there.
pub proof fn lemma_nth_line_start_fixpoint(s: Seq<u8>, p0: int, j0: int, j: int)
    requires
        0 <= j0 <= j,
        nth_line_start(s, p0, j0) == s.len(),
    ensures
        nth_line_start(s, p0, j) == s.len(),
    decreases j - j0,
{
    if j0 < j {
        assert(line_end_of(s, s.len() as int) == s.len());
        lemma_nth_line_start_fixpoint(s, p0, j0 + 1, j);
    }
}

/// A UTF-8 continuation byte (high bits `10`).
pub open spec fn is_cont_byte(b: u8) -> bool {
    128 <= b < 192
}

/// How many bytes the UTF-8 sequence led by `b` spans; continuation or
/// stray bytes count as one.
pub open spec fn char_len_of(b: u8) -> int {
    if b < 192 {
        1
    } else if b < 224 {
        2
    } else if b < 240 {
        3
    } else {
        4
    }
}

/// How many UTF-16 code units the character led by `b` takes: two for
/// four-byte sequences (outside the basic plane), one otherwise.
pub open spec fn utf16_units_of(b: u8) -> int {
    if b >= 240 {
        2
    } else {
        1
    }
}

/// Total UTF-16 code units of a greedy character walk over `s[lo..hi)`.
pub open spec fn utf16_len(s: Seq<u8>, lo: int, hi: int) -> int
    decreases hi - lo,
{
    if lo >= hi {
        0
    } else {
        let step = if lo + char_len_of(s[lo]) > hi {
            hi
        } else {
            lo + char_len_of(s[lo])
        };
        utf16_units_of(s[lo]) + utf16_len(s, step, hi)
    }
}

/// The byte position reached by walking characters from `lo` until `units`
/// UTF-16 code units have been consumed (or the range ends).
pub open spec fn utf16_to_byte(s: Seq<u8>, lo: int, hi: int, units: int) -> int
    decreases hi - lo,
{
    if lo >= hi || units <= 0 {
        lo
    } else {
        let step = if lo + char_len_of(s[lo]) > hi {
            hi
        } else {
            lo + char_len_of(s[lo])
        };
        utf16_to_byte(s, step, hi, units - utf16_units_of(s[lo]))
    }
}

/// A UTF-16 walk yields at most one code unit more than it consumes bytes
/// (the slack covers a final character cut off by the range end).
pub proof fn lemma_utf16_len_bounds(s: Seq<u8>, lo: int, hi: int)
    ensures
        0 <= utf16_len(s, lo, hi) <= vstd::math::max(hi - lo, 0) + 1,
    decreases hi - lo,
{
    if lo < hi {
        let step = if lo + char_len_of(s[lo]) > hi {
            hi
        } else {
            lo + char_len_of(s[lo])
        };
        lemma_utf16_len_bounds(s, step, hi);
    }
}

/// A UTF-16 walk never leaves the range it was started on.
pub proof fn lemma_utf16_to_byte_bounds(s: Seq<u8>, lo: int, hi: int, units: int)
    requires
        lo <= hi,
    ensures
        lo <= utf16_to_byte(s, lo, hi, units) <= hi,
    decreases hi - lo,
{
    if lo < hi && units > 0 {
        let step = if lo + char_len_of(s[lo]) > hi {
            hi
        } else {
            lo + char_len_of(s[lo])
        };
        lemma_utf16_to_byte_bounds(s, step, hi, units - utf16_units_of(s[lo]));
    }
}

/// No newline lies between a position's line start and the position.
pub proof fn lemma_no_newline_before(s: Seq<u8>, p: int)
    requires
        0 <= p <= s.len(),
    ensures
        forall|q: int| line_start_of(s, p) <= q < p ==> s[q] != nl(),
    decreases p,
{
    if p > 0 && s[p - 1] != nl() {
        lemma_no_newline_before(s, p - 1);
    }
}

/// Two positions on the same newline-free run see the same line end.
pub proof fn lemma_line_end_stable(s: Seq<u8>, a: int, p: int)
    requires
        0 <= a <= p <= s.len(),
        forall|q: int| a <= q < p ==> s[q] != nl(),
    ensures
        line_end_of(s, a) == line_end_of(s, p),
    decreases p - a,
{
    if a < p {
        lemma_line_end_stable(s, a + 1, p);
    }
}

/// Two positions on the same newline-free run see the same line start.
pub proof fn lemma_line_start_stable(s: Seq<u8>, a: int, b: int)
    requires
        0 <= a <= b,
        forall|q: int| a <= q < b ==> s[q] != nl(),
    ensures
        line_start_of(s, b) == line_start_of(s, a),
    decreases b - a,
{
    if a < b {
        lemma_line_start_stable(s, a, b - 1);
    }
}

/// Every byte of a line except possibly its last is not a newline.
pub proof fn lemma_no_newline_inside_line(s: Seq<u8>, p: int)
    requires
        0 <= p <= s.len(),
    ensures
        forall|q: int| p <= q < line_end_of(s, p) - 1 ==> s[q] != nl(),
    decreases s.len() - p,
{
    if p < s.len() && s[p] != nl() {
        lemma_no_newline_inside_line(s, p + 1);
        lemma_line_end_bounds(s, p + 1);
    }
}

/// Chasing line starts by line number agrees with scanning backwards from a
/// position: line `count_newlines(s, 0, p)` starts at `line_start_of(s, p)`.
pub proof fn lemma_line_numbering(s: Seq<u8>, p: int)
    requires
        0 <= p <= s.len(),
    ensures
        start_of_line(s, count_newlines(s, 0, p)) == line_start_of(s, p),
    decreases p,
{
    if p == 0 {
    } else {
        lemma_line_numbering(s, p - 1);
        assert(count_newlines(s, 0, p) == count_newlines(s, 0, p - 1) + if s[p - 1] == nl() {
            1int
        } else {
            0int
        });
        if s[p - 1] == nl() {
            lemma_no_newline_before(s, p - 1);
            lemma_line_start_bounds(s, p - 1);
            lemma_count_newlines_bounds(s, 0, p - 1);
            lemma_line_end_stable(s, line_start_of(s, p - 1), p - 1);
            assert(line_end_of(s, p - 1) == p);
            assert(start_of_line(s, count_newlines(s, 0, p)) == line_end_of(
                s,
                line_start_of(s, p - 1),
            ));
        } else {
            assert(line_start_of(s, p) == line_start_of(s, p - 1));
        }
    }
}

/// `p` is reachable by the greedy character walk from `lo` (clamped to
/// `hi`): every UTF-8 character boundary of well-formed content is.
pub open spec fn walk_hits(s: Seq<u8>, lo: int, hi: int, p: int) -> bool
    decreases hi - lo,
{
    if lo >= p {
        lo == p
    } else if lo >= hi {
        false
    } else {
        let step = if lo + char_len_of(s[lo]) > hi {
            hi
        } else {
            lo + char_len_of(s[lo])
        };
        if step <= lo {
            false
        } else {
            walk_hits(s, step, hi, p)
        }
    }
}

/// Counting the UTF-16 code units of the walk up to `p` and then walking
/// that many units forward again lands exactly on `p`.
pub proof fn lemma_utf16_round_trip(s: Seq<u8>, lo: int, hi: int, p: int)
    requires
        lo <= p <= hi,
        walk_hits(s, lo, hi, p),
    ensures
        utf16_to_byte(s, lo, hi, utf16_len(s, lo, p)) == p,
    decreases p - lo,
{
    if lo == p {
        assert(utf16_len(s, lo, p) == 0);
    } else {
        let step = if lo + char_len_of(s[lo]) > hi {
            hi
        } else {
            lo + char_len_of(s[lo])
        };
        assert(step > lo);
        assert(walk_hits(s, step, hi, p));
        if step > p {
            assert(!walk_hits(s, step, hi, p));
        }
        assert(step <= p);
        let stepp = if lo + char_len_of(s[lo]) > p {
            p
        } else {
            lo + char_len_of(s[lo])
        };
        assert(stepp == step);
        assert(utf16_len(s, lo, p) == utf16_units_of(s[lo]) + utf16_len(s, step, p));
        lemma_utf16_len_bounds(s, step, p);
        lemma_utf16_round_trip(s, step, hi, p);
    }
}

/// A word byte: ASCII letter, digit, or underscore.
pub open spec fn is_word_byte(b: u8) -> bool {
    (48 <= b <= 57) || (65 <= b <= 90) || (97 <= b <= 122) || b == 95
}

/// Forward word-boundary scan from position `j`: once a word byte has been
/// seen, stops one past the first non-word byte.
pub open spec fn next_wb_from(s: Seq<u8>, j: int, found: bool) -> int
    decreases s.len() - j,
{
    if j < 0 || j >= s.len() {
        s.len() as int
    } else if found && !is_word_byte(s[j]) {
        j + 1
    } else {
        next_wb_from(s, j + 1, found || is_word_byte(s[j]))
    }
}

/// Backward word-boundary scan examining position `j` (never position 0):
/// once a word byte has been seen, stops one past the first non-word byte.
/// A position at the end of the content (no byte to read) is skipped.
pub open spec fn prev_wb_from(s: Seq<u8>, j: int, found: bool) -> int
    decreases j,
{
    if j <= 0 {
        0
    } else if j < s.len() && found && !is_word_byte(s[j]) {
        j + 1
    } else {
        prev_wb_from(s, j - 1, found || (j < s.len() && is_word_byte(s[j])))
    }
}

/// Forward character-boundary scan: at most `fuel` steps from `q` looking
/// for a non-continuation byte, else `fallback`.
pub open spec fn cb_fwd(s: Seq<u8>, q: int, fuel: nat, fallback: int) -> int
    decreases fuel,
{
    if fuel == 0 {
        fallback
    } else if q >= s.len() {
        s.len() as int
    } else if !is_cont_byte(s[q]) {
        q
    } else {
        cb_fwd(s, q + 1, (fuel - 1) as nat, fallback)
    }
}

/// Backward character-boundary scan: at most `fuel` steps from `q` looking
/// for a non-continuation byte, else `fallback`; position 0 always stops,
/// and a position at the end of the content (no byte to read) is skipped.
pub open spec fn cb_bwd(s: Seq<u8>, q: int, fuel: nat, fallback: int) -> int
    decreases fuel,
{
    if fuel == 0 {
        fallback
    } else if q <= 0 {
        0
    } else if q < s.len() && !is_cont_byte(s[q]) {
        q
    } else {
        cb_bwd(s, q - 1, (fuel - 1) as nat, fallback)
    }
}

/// What `next_char_boundary` computes on content `s`.
pub open spec fn next_cb(s: Seq<u8>, pos: int) -> int {
    if pos >= s.len() {
        s.len() as int
    } else {
        cb_fwd(s, pos + 1, 4, vstd::math::min(pos + 1, s.len() as int))
    }
}

/// UTF-8 boundary round trip: from a position where a character starts and
/// spans at most four bytes (as every UTF-8 character does), stepping to
/// the next character boundary and back returns to the same position.
pub proof fn lemma_char_boundary_round_trip(s: Seq<u8>, p: int)
    requires
        0 <= p < s.len(),
        !is_cont_byte(s[p]),
        exists|q: int| p < q <= p + 4 && (q >= s.len() || !is_cont_byte(#[trigger] s[q])),
    ensures
        prev_cb(s, next_cb(s, p)) == p,
{
    let len = s.len() as int;
    let n = next_cb(s, p);
    if p + 1 >= len || !is_cont_byte(s[p + 1]) {
        assert(n == p + 1);
        assert(prev_cb(s, n) == cb_bwd(s, p, 4, p));
        if p == 0 {
        } else {
            assert(cb_bwd(s, p, 4, p) == p);
        }
    } else if p + 2 >= len || !is_cont_byte(s[p + 2]) {
        assert(cb_fwd(s, p + 1, 4, vstd::math::min(p + 1, len)) == cb_fwd(
            s,
            p + 2,
            3,
            vstd::math::min(p + 1, len),
        ));
        assert(n == p + 2);
        assert(prev_cb(s, n) == cb_bwd(s, p + 1, 4, p + 1));
        assert(cb_bwd(s, p + 1, 4, p + 1) == cb_bwd(s, p, 3, p + 1));
        if p == 0 {
        } else {
            assert(cb_bwd(s, p, 3, p + 1) == p);
        }
    } else if p + 3 >= len || !is_cont_byte(s[p + 3]) {
        let fb = vstd::math::min(p + 1, len);
        assert(cb_fwd(s, p + 1, 4, fb) == cb_fwd(s, p + 2, 3, fb));
        assert(cb_fwd(s, p + 2, 3, fb) == cb_fwd(s, p + 3, 2, fb));
        assert(n == p + 3);
        assert(prev_cb(s, n) == cb_bwd(s, p + 2, 4, p + 2));
        assert(cb_bwd(s, p + 2, 4, p + 2) == cb_bwd(s, p + 1, 3, p + 2));
        assert(cb_bwd(s, p + 1, 3, p + 2) == cb_bwd(s, p, 2, p + 2));
        if p == 0 {
        } else {
            assert(cb_bwd(s, p, 2, p + 2) == p);
        }
    } else {
        assert(p + 4 >= len || !is_cont_byte(s[p + 4]));
        let fb = vstd::math::min(p + 1, len);
        assert(cb_fwd(s, p + 1, 4, fb) == cb_fwd(s, p + 2, 3, fb));
        assert(cb_fwd(s, p + 2, 3, fb) == cb_fwd(s, p + 3, 2, fb));
        assert(cb_fwd(s, p + 3, 2, fb) == cb_fwd(s, p + 4, 1, fb));
        assert(n == p + 4);
        assert(prev_cb(s, n) == cb_bwd(s, p + 3, 4, p + 3));
        assert(cb_bwd(s, p + 3, 4, p + 3) == cb_bwd(s, p + 2, 3, p + 3));
        assert(cb_bwd(s, p + 2, 3, p + 3) == cb_bwd(s, p + 1, 2, p + 3));
        assert(cb_bwd(s, p + 1, 2, p + 3) == cb_bwd(s, p, 1, p + 3));
        if p == 0 {
        } else {
            assert(cb_bwd(s, p, 1, p + 3) == p);
        }
    }
}

/// What `prev_char_boundary` computes on content `s`.
pub open spec fn prev_cb(s: Seq<u8>, pos: int) -> int {
    if pos <= 0 {
        0
    } else {
        cb_bwd(s, vstd::math::min(pos - 1, s.len() as int), 4, pos - 1)
    }
}

} // verus!
