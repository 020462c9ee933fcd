//! Buffer facade: a text buffer over a snapshot store and a line index
//! cache, with edits, clamped reads, streaming search, UTF-8 boundary
//! scanning, line iteration, and position conversion.
use crate::line_cache::LineCache;
use crate::store::SnapshotStore;
use crate::text::{has_match_in, is_first_match_in, match_at};
use crate::tree::{read_spec, splice_delete, splice_insert, ChunkTreeConfig};
use crate::window::OverlappingChunks;
use vstd::prelude::*;

verus! {

use vstd::string::StringSliceAdditionalSpecFns;

/// A line number that is either exact (scanned) or estimated from the
/// nearest cached point.
#[derive(Debug, Clone, Copy, PartialEq, Eq, Structural)]
pub enum LineNumber {
    /// The actual 0-indexed line number.
    Absolute(usize),
    /// An estimated line number, produced by the cache's large-jump
    /// fallback, together with the cached line it was computed from.
    Relative { line: usize, from_cached_line: usize },
}

/// The decimal digits of `n` as bytes, most significant first.
pub open spec fn dec_bytes(n: int) -> Seq<u8>
    decreases n,
{
    if n < 10 {
        seq![(48 + n) as u8]
    } else {
        dec_bytes(n / 10).push((48 + n % 10) as u8)
    }
}

/// The decimal digits of `n`, most significant first.
pub open spec fn dec_str(n: int) -> Seq<char> {
    dec_bytes(n).map(|_i: int, b: u8| b as char)
}

proof fn lemma_dec_bytes_ascii(n: int)
    requires
        n >= 0,
    ensures
        forall|i: int| 0 <= i < dec_bytes(n).len() ==> 48 <= #[trigger] dec_bytes(n)[i] < 128,
    decreases n,
{
    if n < 10 {
        assert(dec_bytes(n)[0] == (48 + n) as u8);
    } else {
        lemma_dec_bytes_ascii(n / 10);
        assert forall|i: int| 0 <= i < dec_bytes(n).len() implies 48 <= #[trigger] dec_bytes(n)[i]
            < 128 by {
            if i < dec_bytes(n / 10).len() {
                assert(dec_bytes(n)[i] == dec_bytes(n / 10)[i]);
            } else {
                assert(dec_bytes(n)[i] == (48 + n % 10) as u8);
            }
        }
    }
}

/// The decimal digits of `n` as bytes.
fn dec_bytes_of(n: usize) -> (r: Vec<u8>)
    ensures
        r@ == dec_bytes(n as int),
{
    let mut rev: Vec<u8> = Vec::new();
    let mut m = n;
    proof {
        assert(dec_bytes(n as int) =~= dec_bytes(n as int) + rev@.reverse());
    }
    loop
        invariant_except_break
            dec_bytes(n as int) == dec_bytes(m as int) + rev@.reverse(),
        ensures
            dec_bytes(n as int) == rev@.reverse(),
        decreases m,
    {
        let d: u8 = 48 + (m % 10) as u8;
        let ghost old_rev = rev@;
        let ghost old_m = m as int;
        rev.push(d);
        m = m / 10;
        proof {
            assert(rev@.reverse() =~= seq![d] + old_rev.reverse());
            if old_m >= 10 {
                assert(dec_bytes(old_m) == dec_bytes(old_m / 10).push(d));
                assert(dec_bytes(old_m) + old_rev.reverse() =~= dec_bytes(old_m / 10) + (seq![d]
                    + old_rev.reverse()));
            } else {
                assert(dec_bytes(old_m) =~= seq![d]);
                assert(dec_bytes(old_m) + old_rev.reverse() =~= seq![d] + old_rev.reverse());
            }
        }
        if m == 0 {
            proof {
                assert(dec_bytes(old_m) =~= seq![d]);
                assert(dec_bytes(n as int) =~= rev@.reverse());
            }
            break ;
        }
    }
    let mut out: Vec<u8> = Vec::new();
    let mut i = rev.len();
    while i > 0
        invariant
            i <= rev@.len(),
            out@ == rev@.subrange(i as int, rev@.len() as int).reverse(),
        decreases i,
    {
        i = i - 1;
        let c = rev[i];
        out.push(c);
        proof {
            assert(out@ =~= rev@.subrange(i as int, rev@.len() as int).reverse());
        }
    }
    proof {
        assert(rev@.subrange(0, rev@.len() as int) =~= rev@);
        assert(Seq::<u8>::empty() + rev@.reverse() =~= rev@.reverse());
        assert(rev@.reverse().reverse() =~= rev@);
        assert(out@ =~= dec_bytes(n as int));
    }
    out
}

impl LineNumber {
    /// The line number value, whether exact or estimated.
    pub fn value(&self) -> (r: usize)
        ensures
            r == match *self {
                LineNumber::Absolute(l) => l,
                LineNumber::Relative { line, .. } => line,
            },
    {
        match self {
            LineNumber::Absolute(line) => *line,
            LineNumber::Relative { line, .. } => *line,
        }
    }

    pub fn is_absolute(&self) -> (r: bool)
        ensures
            r == (*self is Absolute),
    {
        matches!(self, LineNumber::Absolute(_))
    }

    pub fn is_relative(&self) -> (r: bool)
        ensures
            r == (*self is Relative),
    {
        matches!(self, LineNumber::Relative { .. })
    }

    /// Renders the 1-indexed line number, prefixing `~` when estimated.
    pub fn format(&self) -> (r: String)
        requires
            (match *self {
                LineNumber::Absolute(l) => l,
                LineNumber::Relative { line, .. } => line,
            }) < usize::MAX,
        ensures
            r@ == match *self {
                LineNumber::Absolute(l) => dec_str(l + 1),
                LineNumber::Relative { line, .. } => seq!['~'] + dec_str(line + 1),
            },
    {
        match self {
            LineNumber::Absolute(line) => {
                let digits = dec_bytes_of(*line + 1);
                let r = lossy_string(&digits);
                proof {
                    lemma_dec_bytes_ascii(*line + 1);
                    assert(r@ =~= dec_str(*line + 1));
                }
                r
            },
            LineNumber::Relative { line, .. } => {
                let digits = dec_bytes_of(*line + 1);
                let mut bytes: Vec<u8> = Vec::new();
                bytes.push(126);
                let mut d = digits;
                bytes.append(&mut d);
                let r = lossy_string(&bytes);
                proof {
                    lemma_dec_bytes_ascii(*line + 1);
                    assert(bytes@ =~= seq![126u8] + dec_bytes(*line + 1));
                    assert(r@ =~= seq!['~'] + dec_str(*line + 1));
                }
                r
            },
        }
    }
}

/// Everything the buffer can name about a byte sequence decoded leniently.
pub uninterp spec fn lossy_utf8(s: Seq<u8>) -> Seq<char>;

/// Relies on String::from_utf8_lossy: the result depends on the bytes
/// alone; valid UTF-8 — in particular the encoding of any character
/// sequence, and plain ASCII — decodes back unchanged, invalid sequences
/// are replaced, and decoding never fails.
#[verifier::external_body]
fn lossy_string(bytes: &Vec<u8>) -> (r: String)
    ensures
        r@ == lossy_utf8(bytes@),
        forall|cs: Seq<char>| bytes@ == vstd::utf8::encode_utf8(cs) ==> r@ == cs,
        (forall|i: int| 0 <= i < bytes@.len() ==> bytes@[i] < 128) ==> r@ == bytes@.map(
            |_i: int, b: u8| b as char,
        ),
        bytes@.len() == 0 ==> r@.len() == 0,
{
    String::from_utf8_lossy(bytes).into_owned()
}

/// A match found inside a window is a match in the underlying content.
proof fn lemma_match_in_window(s: Seq<u8>, a: int, b: int, p: Seq<u8>, off: int)
    requires
        0 <= a <= b <= s.len(),
        match_at(s.subrange(a, b), p, off),
    ensures
        match_at(s, p, a + off),
{
    assert(s.subrange(a, b).subrange(off, off + p.len()) =~= s.subrange(a + off, a + off + p.len()));
}

/// A match in the content whose footprint lies inside a window is a match
/// inside that window.
proof fn lemma_match_into_window(s: Seq<u8>, a: int, b: int, p: Seq<u8>, i: int)
    requires
        0 <= a <= i,
        i + p.len() <= b <= s.len(),
        match_at(s, p, i),
    ensures
        match_at(s.subrange(a, b), p, i - a),
{
    assert(s.subrange(a, b).subrange(i - a, i - a + p.len()) =~= s.subrange(i, i + p.len()));
}

#[verifier::external_type_specification]
#[verifier::external_body]
pub struct ExRegex(regex::bytes::Regex);

/// The (start, end) pairs of the successive non-overlapping matches the
/// pattern engine reports on a haystack: a function of the compiled
/// pattern and the bytes alone.
pub uninterp spec fn regex_matches_of(re: regex::bytes::Regex, h: Seq<u8>) -> Seq<(usize, usize)>;

/// Relies on regex::bytes::Regex::find_iter: it yields successive
/// non-overlapping matches in order, deterministic in the compiled pattern
/// and the haystack, and every match lies within the haystack (its start
/// never exceeds its end, which never exceeds the haystack length). Which
/// positions match is the engine's decision, named by `regex_matches_of`.
#[verifier::external_body]
fn regex_find_all(re: &regex::bytes::Regex, haystack: &Vec<u8>) -> (r: Vec<(usize, usize)>)
    ensures
        r@ == regex_matches_of(*re, haystack@),
        forall|i: int| 0 <= i < r@.len() ==> (#[trigger] r@[i]).0 <= r@[i].1 <= haystack@.len(),
        forall|i: int| 0 <= i < r@.len() - 1 ==> (#[trigger] r@[i]).1 <= r@[i + 1].0,
{
    re.find_iter(haystack).map(|m| (m.start(), m.end())).collect()
}

/// Some engine match in `ms` has nonzero length. (A zero-length match can
/// never end past a window's valid zone start, so only these are ever
/// reported by the streaming search.)
pub open spec fn has_nonempty_match(ms: Seq<(usize, usize)>) -> bool {
    exists|t: int| 0 <= t < ms.len() && (#[trigger] ms[t]).1 > 0
}

/// `t` indexes the first nonzero-length engine match in `ms`.
pub open spec fn is_first_nonempty_match(ms: Seq<(usize, usize)>, t: int) -> bool {
    &&& 0 <= t < ms.len()
    &&& ms[t].1 > 0
    &&& forall|u: int| 0 <= u < t ==> (#[trigger] ms[u]).1 == 0
}

/// `k` starts an engine match on some window of the content lying inside
/// `[start, end]`, with the match's footprint inside it too.
pub open spec fn regex_match_in_windows(
    re: regex::bytes::Regex,
    s: Seq<u8>,
    start: int,
    end: int,
    k: int,
) -> bool {
    exists|a: int, b2: int, t: int|
        #![trigger regex_matches_of(re, s.subrange(a, b2))[t]]
        {
            &&& start <= a <= b2 <= end
            &&& b2 <= s.len()
            &&& 0 <= t < regex_matches_of(re, s.subrange(a, b2)).len()
            &&& k == a + regex_matches_of(re, s.subrange(a, b2))[t].0
            &&& a + regex_matches_of(re, s.subrange(a, b2))[t].1 <= end
        }
}

/// A text buffer: a snapshot store holding the content, an optional backing
/// file path, a modified flag, and a sparse line index cache.
pub struct Buffer {
    store: SnapshotStore,
    file_path: Option<String>,
    modified: bool,
    line_cache: LineCache,
}

impl View for Buffer {
    type V = Seq<u8>;

    closed spec fn view(&self) -> Seq<u8> {
        self.store@
    }
}

impl Buffer {
    pub closed spec fn wf(self) -> bool {
        &&& self.store.wf()
        &&& self.line_cache.wf()
    }

    /// The cached line entries, sorted by byte offset.
    pub closed spec fn cache_model(self) -> Seq<crate::line_cache::LineInfo> {
        self.line_cache.model()
    }

    pub closed spec fn modified_spec(self) -> bool {
        self.modified
    }

    pub closed spec fn path_spec(self) -> Option<Seq<char>> {
        match self.file_path {
            Some(p) => Some(p@),
            None => None,
        }
    }

    /// An empty buffer with the default tree shape (4 KiB leaves, branching
    /// factor 128).
    pub fn new() -> (r: Buffer)
        ensures
            r.wf(),
            r@ == Seq::<u8>::empty(),
            !r.modified_spec(),
            r.path_spec() is None,
            r.cache_model() == Seq::<crate::line_cache::LineInfo>::empty(),
    {
        let cfg = ChunkTreeConfig::new(4096, 128);
        Buffer {
            store: SnapshotStore::new_empty(cfg),
            file_path: None,
            modified: false,
            line_cache: LineCache::new(),
        }
    }

    /// A buffer holding the UTF-8 bytes of `s`.
    pub fn from_str(s: &str) -> (r: Buffer)
        ensures
            r.wf(),
            r@ == s.spec_bytes(),
            !r.modified_spec(),
            r.path_spec() is None,
            r.cache_model() == Seq::<crate::line_cache::LineInfo>::empty(),
    {
        let cfg = ChunkTreeConfig::new(4096, 128);
        let tree = crate::tree::ChunkTree::from_slice(s.as_bytes(), cfg);
        Buffer {
            store: SnapshotStore::from_tree(tree),
            file_path: None,
            modified: false,
            line_cache: LineCache::new(),
        }
    }

    /// A buffer over a pre-built tree version (for instance one loaded
    /// from a file's raw bytes).
    pub fn from_tree(tree: crate::tree::ChunkTree) -> (r: Buffer)
        requires
            tree.wf(),
        ensures
            r.wf(),
            r@ == tree@,
            !r.modified_spec(),
            r.path_spec() is None,
            r.cache_model() == Seq::<crate::line_cache::LineInfo>::empty(),
    {
        Buffer {
            store: SnapshotStore::from_tree(tree),
            file_path: None,
            modified: false,
            line_cache: LineCache::new(),
        }
    }

    pub fn len(&self) -> (r: usize)
        requires
            self.wf(),
        ensures
            r == self@.len(),
    {
        self.store.len()
    }

    pub fn is_empty(&self) -> (r: bool)
        requires
            self.wf(),
        ensures
            r == (self@.len() == 0),
    {
        self.len() == 0
    }

    /// Inserts the UTF-8 bytes of `text` at `pos` (clamped to the end) and
    /// marks the buffer modified; empty text is a no-op. The line cache is
    /// deliberately untouched: the caller runs the cache hooks separately.
    pub fn insert(&mut self, pos: usize, text: &str)
        requires
            old(self).wf(),
            old(self)@.len() + text.spec_bytes().len() <= usize::MAX,
        ensures
            final(self).wf(),
            text.spec_bytes().len() == 0 ==> final(self)@ == old(self)@ && final(self).modified_spec()
                == old(self).modified_spec(),
            text.spec_bytes().len() > 0 ==> final(self)@ == splice_insert(
                old(self)@,
                vstd::math::min(pos as int, old(self)@.len() as int),
                text.spec_bytes(),
            ) && final(self).modified_spec(),
            final(self).cache_model() == old(self).cache_model(),
            final(self).path_spec() == old(self).path_spec(),
    {
        let bytes = text.as_bytes();
        if bytes.len() == 0 {
            return ;
        }
        self.store.insert(pos, bytes);
        self.modified = true;
    }

    /// Deletes the byte range (clamped to the content bounds) and marks the
    /// buffer modified; an empty or inverted range is a no-op. The line
    /// cache is deliberately untouched.
    pub fn delete(&mut self, range: core::ops::Range<usize>)
        requires
            old(self).wf(),
        ensures
            final(self).wf(),
            range.start >= range.end ==> final(self)@ == old(self)@ && final(self).modified_spec()
                == old(self).modified_spec(),
            range.start < range.end ==> final(self)@ == splice_delete(
                old(self)@,
                vstd::math::min(range.start as int, old(self)@.len() as int),
                vstd::math::max(
                    vstd::math::min(range.end as int, old(self)@.len() as int),
                    vstd::math::min(range.start as int, old(self)@.len() as int),
                ),
            ) && final(self).modified_spec(),
            final(self).cache_model() == old(self).cache_model(),
            final(self).path_spec() == old(self).path_spec(),
    {
        if range.start >= range.end {
            return ;
        }
        self.store.delete(range.start, range.end);
        self.modified = true;
    }

    /// The bytes of the requested range, clamped to the content bounds.
    pub fn slice_bytes(&self, range: core::ops::Range<usize>) -> (r: Vec<u8>)
        requires
            self.wf(),
        ensures
            r@ == read_spec(
                self@,
                range.start as int,
                vstd::math::max(range.end - range.start, 0),
            ),
    {
        let len = if range.end > range.start {
            range.end - range.start
        } else {
            0
        };
        self.store.read(range.start, len)
    }

    /// The requested range decoded leniently as text; a range holding the
    /// UTF-8 encoding of some text decodes back to exactly that text.
    pub fn slice(&self, range: core::ops::Range<usize>) -> (r: String)
        requires
            self.wf(),
        ensures
            r@ == lossy_utf8(
                read_spec(self@, range.start as int, vstd::math::max(range.end - range.start, 0)),
            ),
            forall|cs: Seq<char>|
                read_spec(self@, range.start as int, vstd::math::max(range.end - range.start, 0))
                    == vstd::utf8::encode_utf8(cs) ==> r@ == cs,
    {
        let bytes = self.slice_bytes(range);
        lossy_string(&bytes)
    }

    /// The whole content decoded leniently as text. Content that is the
    /// UTF-8 encoding of some text — as after `from_str` — decodes back to
    /// exactly that text.
    pub fn to_string(&self) -> (r: String)
        requires
            self.wf(),
        ensures
            r@ == lossy_utf8(self@),
            forall|cs: Seq<char>| self@ == vstd::utf8::encode_utf8(cs) ==> r@ == cs,
    {
        let n = self.len();
        let r = self.slice(0..n);
        proof {
            assert(read_spec(self@, 0, vstd::math::max(n as int - 0, 0)) =~= self@);
        }
        r
    }

    /// The backing file path, if one is set.
    pub fn file_path(&self) -> (r: Option<&String>)
        ensures
            match r {
                Some(p) => self.path_spec() == Some(p@),
                None => self.path_spec() is None,
            },
    {
        self.file_path.as_ref()
    }

    pub fn set_file_path(&mut self, path: String)
        ensures
            final(self).path_spec() == Some(path@),
            final(self)@ == old(self)@,
            final(self).wf() == old(self).wf(),
            final(self).modified_spec() == old(self).modified_spec(),
            final(self).cache_model() == old(self).cache_model(),
    {
        self.file_path = Some(path);
    }

    pub fn is_modified(&self) -> (r: bool)
        ensures
            r == self.modified_spec(),
    {
        self.modified
    }

    pub fn clear_modified(&mut self)
        ensures
            !final(self).modified_spec(),
            final(self)@ == old(self)@,
            final(self).wf() == old(self).wf(),
            final(self).path_spec() == old(self).path_spec(),
            final(self).cache_model() == old(self).cache_model(),
    {
        self.modified = false;
    }

    /// Naive search: the first occurrence of `needle` in `haystack`, by
    /// exhaustive scan. An empty needle never matches.
    pub fn find_pattern(haystack: &[u8], needle: &[u8]) -> (r: Option<usize>)
        ensures
            match r {
                Some(k) => needle@.len() > 0 && is_first_match_in(
                    haystack@,
                    needle@,
                    0,
                    haystack@.len() as int,
                    k as int,
                ),
                None => needle@.len() == 0 || !has_match_in(
                    haystack@,
                    needle@,
                    0,
                    haystack@.len() as int,
                ),
            },
    {
        let n = needle.len();
        let h = haystack.len();
        if n == 0 || h < n {
            return None;
        }
        let mut i: usize = 0;
        while i <= h - n
            invariant
                1 <= n <= h,
                n == needle@.len(),
                h == haystack@.len(),
                i <= h - n + 1,
                forall|t: int| 0 <= t < i ==> !match_at(haystack@, needle@, t),
            decreases h - i,
        {
            let mut j: usize = 0;
            let mut is_same = true;
            while j < n && is_same
                invariant
                    1 <= n <= h,
                    n == needle@.len(),
                    h == haystack@.len(),
                    i + n <= h,
                    j <= n,
                    is_same ==> forall|t: int| 0 <= t < j ==> haystack@[i + t] == needle@[t],
                    !is_same ==> exists|t: int|
                        0 <= t < n && #[trigger] haystack@[i + t] != needle@[t],
                decreases n - j + (if is_same { 1int } else { 0int }),
            {
                if haystack[i + j] != needle[j] {
                    is_same = false;
                } else {
                    j = j + 1;
                }
            }
            if is_same {
                proof {
                    assert(haystack@.subrange(i as int, i as int + n as int) =~= needle@);
                }
                return Some(i);
            }
            proof {
                if match_at(haystack@, needle@, i as int) {
                    let t = choose|t: int| 0 <= t < n && #[trigger] haystack@[i + t] != needle@[t];
                    assert(haystack@.subrange(i as int, i as int + n as int)[t] == needle@[t]);
                    assert(false);
                }
            }
            i = i + 1;
        }
        proof {
            if has_match_in(haystack@, needle@, 0, h as int) {
                let t = choose|t: int| 0 <= t && t + needle@.len() <= h && match_at(
                    haystack@,
                    needle@,
                    t,
                );
                assert(!match_at(haystack@, needle@, t));
            }
        }
        None
    }

    /// Streaming search over `[start, end)` through overlapping windows;
    /// finds the first occurrence whose whole footprint lies in the range.
    /// A match that straddles a window boundary is caught in the window
    /// whose valid zone holds its end, and only there, so it is reported
    /// exactly once.
    pub fn find_pattern_streaming(&self, start: usize, end: usize, pattern: &[u8]) -> (r: Option<
        usize,
    >)
        requires
            self.wf(),
            end <= self@.len(),
        ensures
            match r {
                Some(k) => pattern@.len() > 0 && start < end && is_first_match_in(
                    self@,
                    pattern@,
                    start as int,
                    end as int,
                    k as int,
                ),
                None => pattern@.len() == 0 || start >= end || !has_match_in(
                    self@,
                    pattern@,
                    start as int,
                    end as int,
                ),
            },
    {
        if pattern.len() == 0 || start >= end {
            return None;
        }
        let overlap = pattern.len() - 1;
        let iter = self.store.iter_at(start);
        let mut chunks = OverlappingChunks::new(iter, start, end, 4096, overlap);
        loop
            invariant
                self.wf(),
                chunks.inv(),
                chunks.src() == self@,
                chunks.start_spec() == start,
                chunks.end_spec() == end,
                chunks.overlap_spec() == overlap,
                pattern@.len() >= 1,
                overlap == pattern@.len() - 1,
                start < end <= self@.len(),
                start <= chunks.covered() <= end,
                !has_match_in(self@, pattern@, start as int, chunks.covered()),
            decreases end - chunks.covered(),
        {
            let ghost prev_covered = chunks.covered();
            match chunks.next() {
                None => {
                    return None;
                },
                Some(w) => {
                    let ghost a = w.absolute_pos as int;
                    let ghost wl = w.buffer@.len() as int;
                    match Self::find_pattern(&w.buffer, pattern) {
                        Some(off) => {
                            proof {
                                lemma_match_in_window(self@, a, a + wl, pattern@, off as int);
                                assert forall|t: int|
                                    (start as int) <= t < a + off && t + pattern@.len()
                                        <= end implies !match_at(self@, pattern@, t) by {
                                    if t + pattern@.len() <= prev_covered {
                                        assert(!has_match_in(
                                            self@,
                                            pattern@,
                                            start as int,
                                            prev_covered,
                                        ));
                                        if match_at(self@, pattern@, t) {
                                            assert(has_match_in(
                                                self@,
                                                pattern@,
                                                start as int,
                                                prev_covered,
                                            ));
                                        }
                                    } else {
                                        assert(t >= prev_covered - pattern@.len() + 1);
                                        assert(t >= a);
                                        if match_at(self@, pattern@, t) {
                                            lemma_match_into_window(self@, a, a + wl, pattern@, t);
                                        }
                                    }
                                }
                            }
                            let match_end = off + pattern.len();
                            if match_end > w.valid_start {
                                let match_pos = w.absolute_pos + off;
                                if match_pos + pattern.len() <= end {
                                    return Some(match_pos);
                                }
                                proof {
                                    assert(a + off + pattern@.len() <= a + wl);
                                    assert(false);
                                }
                            } else {
                                proof {
                                    assert(match_at(self@, pattern@, a + off));
                                    assert(a + off >= start);
                                    assert(a + off + pattern@.len() <= prev_covered);
                                    assert(has_match_in(
                                        self@,
                                        pattern@,
                                        start as int,
                                        prev_covered,
                                    ));
                                    assert(false);
                                }
                            }
                        },
                        None => {
                            proof {
                                assert forall|t: int|
                                    (start as int) <= t && t + pattern@.len()
                                        <= chunks.covered() implies !match_at(
                                    self@,
                                    pattern@,
                                    t,
                                ) by {
                                    if t + pattern@.len() <= prev_covered {
                                        if match_at(self@, pattern@, t) {
                                            assert(has_match_in(
                                                self@,
                                                pattern@,
                                                start as int,
                                                prev_covered,
                                            ));
                                        }
                                    } else {
                                        assert(t >= prev_covered - pattern@.len() + 1);
                                        assert(t >= a);
                                        if match_at(self@, pattern@, t) {
                                            lemma_match_into_window(self@, a, a + wl, pattern@, t);
                                        }
                                    }
                                }
                            }
                        },
                    }
                },
            }
        }
    }

    /// Cyclic search: the first occurrence at or after `start_pos`, else —
    /// wrapping around — the first occurrence that ends at or before
    /// `start_pos`. Empty patterns never match.
    pub fn find_next(&self, pattern: &str, start_pos: usize) -> (r: Option<usize>)
        requires
            self.wf(),
        ensures
            ({
                let s = self@;
                let p = pattern.spec_bytes();
                let n = s.len() as int;
                let sp = vstd::math::min(start_pos as int, n);
                match r {
                    Some(k) => p.len() > 0 && if has_match_in(s, p, sp, n) {
                        is_first_match_in(s, p, sp, n, k as int)
                    } else {
                        is_first_match_in(s, p, 0, sp, k as int)
                    },
                    None => p.len() == 0 || (!has_match_in(s, p, sp, n) && !has_match_in(
                        s,
                        p,
                        0,
                        sp,
                    )),
                }
            }),
    {
        let pattern_bytes = pattern.as_bytes();
        if pattern_bytes.len() == 0 {
            return None;
        }
        let buffer_len = self.len();
        let sp = if start_pos > buffer_len {
            buffer_len
        } else {
            start_pos
        };
        let ghost s = self@;
        let ghost p = pattern.spec_bytes();
        let ghost n = s.len() as int;
        if sp < buffer_len {
            if let Some(offset) = self.find_pattern_streaming(sp, buffer_len, pattern_bytes) {
                proof {
                    assert(match_at(s, p, offset as int));
                    assert(has_match_in(s, p, sp as int, n));
                }
                return Some(offset);
            }
        }
        proof {
            if sp as int == n && has_match_in(s, p, sp as int, n) {
                let i = choose|i: int| sp as int <= i && i + p.len() <= n && match_at(s, p, i);
                assert(false);
            }
        }
        if sp > 0 {
            if let Some(offset) = self.find_pattern_streaming(0, sp, pattern_bytes) {
                proof {
                    assert(match_at(s, p, offset as int));
                }
                return Some(offset);
            }
        }
        proof {
            if sp == 0 && has_match_in(s, p, 0, sp as int) {
                let i = choose|i: int| 0 <= i && i + p.len() <= sp as int && match_at(s, p, i);
                assert(false);
            }
        }
        None
    }
}

impl Buffer {
    /// Streaming search for a pre-compiled pattern over `[start, end)`
    /// through overlapping windows (64 KiB window, 4 KiB overlap). A
    /// candidate inside a window is accepted only when it ends past the
    /// window's valid zone start, so a match lying wholly in the overlap —
    /// already scanned in the previous window — is not reported again.
    /// A reported offset starts an engine match on a window of the content;
    /// nothing is reported only when the first window (for short ranges,
    /// the whole range) holds no nonzero-length engine match. A match
    /// longer than the overlap that straddles a window boundary may be
    /// missed, a stated limitation of the window sizes.
    pub fn find_regex_streaming(&self, start: usize, end: usize, regex: &regex::bytes::Regex) -> (r:
        Option<usize>)
        requires
            self.wf(),
            end <= self@.len(),
        ensures
            r matches Some(k) ==> start <= k <= end && regex_match_in_windows(
                *regex,
                self@,
                start as int,
                end as int,
                k as int,
            ),
            start < end && r is None ==> !has_nonempty_match(
                regex_matches_of(
                    *regex,
                    self@.subrange(start as int, vstd::math::min(start + 65536, end as int)),
                ),
            ),
            ({
                let ms = regex_matches_of(*regex, self@.subrange(start as int, end as int));
                start < end && end - start <= 65536 ==> match r {
                    Some(k) => exists|t: int|
                        #[trigger] is_first_nonempty_match(ms, t) && k == start + ms[t].0,
                    None => !has_nonempty_match(ms),
                }
            }),
    {
        if start >= end {
            return None;
        }
        let ghost s = self@;
        let ghost first_hay = s.subrange(start as int, vstd::math::min(start + 65536, end as int));
        let iter = self.store.iter_at(start);
        let mut chunks = OverlappingChunks::new(iter, start, end, 65536, 4096);
        loop
            invariant
                self.wf(),
                s == self@,
                first_hay == s.subrange(
                    start as int,
                    vstd::math::min(start + 65536, end as int),
                ),
                chunks.inv(),
                chunks.src() == s,
                chunks.start_spec() == start,
                chunks.end_spec() == end,
                chunks.overlap_spec() == 4096,
                chunks.chunk_spec() == 65536,
                start < end <= s.len(),
                start <= chunks.covered() <= end,
                chunks.covered() > start ==> !has_nonempty_match(
                    regex_matches_of(*regex, first_hay),
                ),
                chunks.covered() > start ==> chunks.covered() >= vstd::math::min(
                    start + 65536,
                    end as int,
                ),
            decreases end - chunks.covered(),
        {
            let ghost prev_cov = chunks.covered();
            match chunks.next() {
                None => {
                    return None;
                },
                Some(w) => {
                    let ghost a = w.absolute_pos as int;
                    let ghost wl = w.buffer@.len() as int;
                    proof {
                        if prev_cov == start {
                            assert(a == start && wl == vstd::math::min(65536int, end - start));
                            assert(w.buffer@ == first_hay);
                        }
                    }
                    let found = regex_find_all(regex, &w.buffer);
                    let mut i: usize = 0;
                    while i < found.len()
                        invariant
                            s == self@,
                            start < end <= s.len(),
                            first_hay == s.subrange(
                                start as int,
                                vstd::math::min(start + 65536, end as int),
                            ),
                            prev_cov >= start,
                            prev_cov < end,
                            prev_cov > start ==> prev_cov >= vstd::math::min(
                                start + 65536,
                                end as int,
                            ),
                            start <= w.absolute_pos,
                            w.absolute_pos + w.buffer@.len() <= end <= s.len(),
                            a == w.absolute_pos && wl == w.buffer@.len(),
                            found@ == regex_matches_of(*regex, w.buffer@),
                            w.buffer@ == s.subrange(a, a + wl),
                            prev_cov == start ==> a == start && w.valid_start == 0
                                && w.buffer@ == first_hay,
                            forall|t: int|
                                0 <= t < found@.len() ==> (#[trigger] found@[t]).0 <= found@[t].1
                                    <= w.buffer@.len(),
                            prev_cov == start ==> forall|u: int|
                                0 <= u < i ==> (#[trigger] found@[u]).1 == 0,
                            i <= found@.len(),
                        decreases found@.len() - i,
                    {
                        let (m_start, m_end) = (found[i].0, found[i].1);
                        if m_end > w.valid_start {
                            let match_pos = w.absolute_pos + m_start;
                            if match_pos + (m_end - m_start) <= end {
                                proof {
                                    let ms_w = regex_matches_of(*regex, s.subrange(a, a + wl));
                                    assert(found@[i as int] == ms_w[i as int]);
                                    assert(regex_match_in_windows(
                                        *regex,
                                        s,
                                        start as int,
                                        end as int,
                                        match_pos as int,
                                    ));
                                    if start < end && end - start <= 65536 {
                                        if prev_cov > start {
                                            assert(prev_cov >= vstd::math::min(
                                                start + 65536,
                                                end as int,
                                            ));
                                            assert(false);
                                        }
                                        let ms = regex_matches_of(
                                            *regex,
                                            s.subrange(start as int, end as int),
                                        );
                                        assert(w.buffer@ == s.subrange(start as int, end as int));
                                        assert(is_first_nonempty_match(ms, i as int));
                                    }
                                }
                                return Some(match_pos);
                            }
                        }
                        i = i + 1;
                    }
                },
            }
        }
    }

    /// What the cyclic pattern search answers, over the engine's named
    /// match lists: a reported offset starts an engine match on a window of
    /// the searched content; when the whole content fits in one window the
    /// result is exactly the first nonzero-length engine match at or after
    /// the starting point, else — wrapping — the first one before it, and
    /// `None` exactly when the engine reports no nonzero-length match on
    /// either side.
    pub open spec fn find_next_regex_post(
        re: regex::bytes::Regex,
        s: Seq<u8>,
        start_pos: usize,
        r: Option<usize>,
    ) -> bool {
        let n = s.len() as int;
        let sp = vstd::math::min(start_pos as int, n);
        let ms1 = regex_matches_of(re, s.subrange(sp, n));
        let ms2 = regex_matches_of(re, s.subrange(0, sp));
        &&& match r {
            Some(k) => k <= n && (regex_match_in_windows(re, s, sp, n, k as int)
                || regex_match_in_windows(re, s, 0, sp, k as int)),
            None => {
                &&& (sp < n ==> !has_nonempty_match(
                    regex_matches_of(re, s.subrange(sp, vstd::math::min(sp + 65536, n))),
                ))
                &&& (sp > 0 ==> !has_nonempty_match(
                    regex_matches_of(re, s.subrange(0, vstd::math::min(65536int, sp))),
                ))
            },
        }
        &&& (n <= 65536 ==> match r {
            Some(k) => {
                if sp < n && has_nonempty_match(ms1) {
                    exists|t: int|
                        #[trigger] is_first_nonempty_match(ms1, t) && k == sp + ms1[t].0
                } else {
                    sp > 0 && (exists|t: int|
                        #[trigger] is_first_nonempty_match(ms2, t) && k == ms2[t].0)
                }
            },
            None => (sp < n ==> !has_nonempty_match(ms1)) && (sp > 0 ==> !has_nonempty_match(
                ms2,
            )),
        })
    }

    /// Cyclic pattern search: scans `[start_pos, length)` first, then wraps
    /// to `[0, start_pos)`. See `find_next_regex_post` for the exact
    /// statement over the engine's named match lists.
    pub fn find_next_regex(&self, regex: &regex::bytes::Regex, start_pos: usize) -> (r: Option<
        usize,
    >)
        requires
            self.wf(),
        ensures
            Buffer::find_next_regex_post(*regex, self@, start_pos, r),
    {
        let buffer_len = self.len();
        let sp = if start_pos > buffer_len {
            buffer_len
        } else {
            start_pos
        };
        if sp < buffer_len {
            if let Some(offset) = self.find_regex_streaming(sp, buffer_len, regex) {
                return Some(offset);
            }
        }
        if sp > 0 {
            if let Some(offset) = self.find_regex_streaming(0, sp, regex) {
                return Some(offset);
            }
        }
        None
    }

    /// A line cursor starting at the beginning of the line containing
    /// `byte_pos`, pinned to the current content version.
    pub fn line_iterator(&self, byte_pos: usize) -> (r: LineIterator)
        requires
            self.wf(),
        ensures
            r.wf(),
            r@ == self@,
            r.position_spec() == crate::text::line_start_of(
                self@,
                vstd::math::min(byte_pos as int, self@.len() as int),
            ),
    {
        LineIterator::new(&self.store, byte_pos)
    }

    /// The boundary of the UTF-8 character before `pos`: steps back over up
    /// to three continuation bytes looking for a leading byte.
    pub fn prev_char_boundary(&self, pos: usize) -> (r: usize)
        requires
            self.wf(),
        ensures
            r == crate::text::prev_cb(self@, pos as int),
    {
        if pos == 0 {
            return 0;
        }
        let mut it = self.store.iter_at(pos - 1);
        let ghost s = self@;
        let mut fuel: usize = 4;
        loop
            invariant
                it.wf(),
                it@ == s,
                s == self@,
                pos >= 1,
                it.position_spec() <= pos - 1,
                1 <= fuel <= 4,
                crate::text::prev_cb(s, pos as int) == crate::text::cb_bwd(
                    s,
                    it.position_spec(),
                    fuel as nat,
                    pos - 1,
                ),
            decreases fuel,
        {
            if it.position() == 0 {
                return 0;
            }
            match it.peek() {
                Some(b) => {
                    if !(b >= 128 && b < 192) {
                        return it.position();
                    }
                },
                None => {},
            }
            if fuel == 1 {
                // at most four steps: fall back to the previous byte position
                proof {
                    assert(crate::text::cb_bwd(s, it.position_spec() - 1, 0, pos - 1) == pos - 1);
                }
                return pos - 1;
            }
            fuel = fuel - 1;
            it.prev();
        }
    }

    /// The boundary of the next UTF-8 character after `pos`: steps forward
    /// over up to three continuation bytes looking for a leading byte.
    pub fn next_char_boundary(&self, pos: usize) -> (r: usize)
        requires
            self.wf(),
        ensures
            r == crate::text::next_cb(self@, pos as int),
    {
        let len = self.len();
        if pos >= len {
            return len;
        }
        let mut it = self.store.iter_at(pos + 1);
        let ghost s = self@;
        let mut fuel: usize = 4;
        loop
            invariant
                it.wf(),
                it@ == s,
                s == self@,
                pos < s.len(),
                len == s.len(),
                it.position_spec() <= s.len(),
                1 <= fuel <= 4,
                crate::text::next_cb(s, pos as int) == crate::text::cb_fwd(
                    s,
                    it.position_spec(),
                    fuel as nat,
                    vstd::math::min(pos + 1, s.len() as int),
                ),
            decreases fuel,
        {
            if it.position() >= len {
                return len;
            }
            match it.peek() {
                Some(b) => {
                    if !(b >= 128 && b < 192) {
                        return it.position();
                    }
                },
                None => {},
            }
            if fuel == 1 {
                // at most four steps: fall back to the next byte position
                proof {
                    assert(crate::text::cb_fwd(
                        s,
                        it.position_spec() + 1,
                        0,
                        vstd::math::min(pos + 1, s.len() as int),
                    ) == vstd::math::min(pos + 1, s.len() as int));
                }
                if pos + 1 > len {
                    return len;
                }
                return pos + 1;
            }
            fuel = fuel - 1;
            match it.next() {
                _ => {},
            }
        }
    }

    /// The previous word boundary: scans backward, and once a word byte has
    /// been seen stops one past the first non-word byte. Word bytes are
    /// ASCII letters, digits and underscore.
    pub fn prev_word_boundary(&self, pos: usize) -> (r: usize)
        requires
            self.wf(),
        ensures
            pos == 0 ==> r == 0,
            pos >= 1 ==> r == crate::text::prev_wb_from(
                self@,
                vstd::math::min(pos - 1, self@.len() as int),
                false,
            ),
    {
        if pos == 0 {
            return 0;
        }
        let buffer_len = self.len();
        let mut it = self.store.iter_at(pos - 1);
        let ghost s = self@;
        let mut found_word_char = false;
        loop
            invariant
                it.wf(),
                it@ == s,
                s == self@,
                buffer_len == s.len(),
                it.position_spec() <= s.len(),
                crate::text::prev_wb_from(s, vstd::math::min(pos - 1, s.len() as int), false)
                    == crate::text::prev_wb_from(s, it.position_spec(), found_word_char),
            decreases it.position_spec(),
        {
            if it.position() == 0 {
                return 0;
            }
            match it.peek() {
                Some(b) => {
                    let is_word = (b >= 48 && b <= 57) || (b >= 65 && b <= 90) || (b >= 97 && b
                        <= 122) || b == 95;
                    if found_word_char && !is_word {
                        let q = it.position();
                        return q + 1;
                    }
                    if is_word {
                        found_word_char = true;
                    }
                },
                None => {},
            }
            it.prev();
        }
    }

    /// The next word boundary: scans forward, and once a word byte has been
    /// seen stops one past the first non-word byte.
    pub fn next_word_boundary(&self, pos: usize) -> (r: usize)
        requires
            self.wf(),
        ensures
            pos >= self@.len() ==> r == self@.len(),
            pos < self@.len() ==> r == crate::text::next_wb_from(self@, pos as int, false),
    {
        let len = self.len();
        if pos >= len {
            return len;
        }
        let mut it = self.store.iter_at(pos);
        let ghost s = self@;
        let mut found_word_char = false;
        loop
            invariant
                it.wf(),
                it@ == s,
                s == self@,
                len == s.len(),
                it.position_spec() <= s.len(),
                crate::text::next_wb_from(s, pos as int, false) == crate::text::next_wb_from(
                    s,
                    it.position_spec(),
                    found_word_char,
                ),
            decreases s.len() - it.position_spec(),
        {
            if it.position() >= len {
                return len;
            }
            match it.next() {
                Some(b) => {
                    let is_word = (b >= 48 && b <= 57) || (b >= 65 && b <= 90) || (b >= 97 && b
                        <= 122) || b == 95;
                    if found_word_char && !is_word {
                        return it.position();
                    }
                    if is_word {
                        found_word_char = true;
                    }
                },
                None => {
                    proof {
                        assert(false);
                    }
                },
            }
        }
    }
}

impl Buffer {
    /// The first position past the line containing `from`: just after the
    /// next newline, or the end of the content.
    pub(crate) fn scan_line_end(&self, from: usize) -> (r: usize)
        requires
            self.wf(),
            from <= self@.len(),
        ensures
            r == crate::text::line_end_of(self@, from as int),
            from <= r <= self@.len(),
    {
        let ghost s = self@;
        let mut it = self.store.iter_at(from);
        loop
            invariant_except_break
                crate::text::line_end_of(s, from as int) == crate::text::line_end_of(
                    s,
                    it.position_spec(),
                ),
            invariant
                it.wf(),
                it@ == s,
                s == self@,
                from <= it.position_spec() <= s.len(),
            ensures
                it.position_spec() == crate::text::line_end_of(s, from as int),
                from <= it.position_spec() <= s.len(),
                s == self@,
            decreases s.len() - it.position_spec(),
        {
            let ghost before = it.position_spec();
            match it.next() {
                Some(10) => {
                    proof {
                        assert(crate::text::line_end_of(s, before) == before + 1);
                    }
                    break ;
                },
                Some(_) => {},
                None => {
                    proof {
                        assert(before == s.len());
                    }
                    break ;
                },
            }
        }
        it.position()
    }

    /// Walks from the top of the buffer to the position: the line number,
    /// its line start, the start of the previous line, and whether the last
    /// byte before the position is a newline.
    fn scan_to(&self, p2: usize) -> (r: (usize, usize, usize, bool))
        requires
            self.wf(),
            p2 <= self@.len(),
        ensures
            ({
                let s = self@;
                &&& r.0 == crate::text::count_newlines(s, 0, p2 as int)
                &&& r.1 == crate::text::line_start_of(s, p2 as int)
                &&& p2 >= 1 ==> r.2 == crate::text::line_start_of(s, p2 - 1)
                &&& r.3 == (p2 >= 1 && s[p2 - 1] == 10)
            }),
    {
        let ghost s = self@;
        let mut it = self.store.iter_at(0);
        let mut line: usize = 0;
        let mut ls: usize = 0;
        let mut prev_ls: usize = 0;
        let mut last_nl = false;
        let mut i: usize = 0;
        while i < p2
            invariant
                it.wf(),
                it@ == s,
                s == self@,
                p2 <= s.len(),
                i == it.position_spec(),
                i <= p2,
                line == crate::text::count_newlines(s, 0, i as int),
                line <= i,
                ls == crate::text::line_start_of(s, i as int),
                ls <= i,
                i >= 1 ==> prev_ls == crate::text::line_start_of(s, i - 1),
                last_nl == (i >= 1 && s[i - 1] == 10),
            decreases p2 - i,
        {
            let b = match it.next() {
                Some(b) => b,
                None => {
                    proof {
                        assert(false);
                    }
                    0
                },
            };
            proof {
                assert(crate::text::count_newlines(s, 0, i + 1) == crate::text::count_newlines(
                    s,
                    0,
                    i as int,
                ) + if s[i as int] == 10u8 {
                    1int
                } else {
                    0int
                });
            }
            prev_ls = ls;
            if b == 10 {
                line = line + 1;
                ls = i + 1;
                last_nl = true;
            } else {
                last_nl = false;
            }
            i = i + 1;
        }
        (line, ls, prev_ls, last_nl)
    }

    /// The 0-indexed line holding `byte_pos` and the byte column within it.
    /// Positions past the end land on the last line with column 0. A
    /// position just after a newline at the end of its line counts as that
    /// line, with the newline included in the column.
    pub fn position_to_line_col(&self, byte_pos: usize) -> (r: (usize, usize))
        requires
            self.wf(),
        ensures
            ({
                let s = self@;
                let p2 = vstd::math::min(byte_pos as int, s.len() as int);
                &&& r.0 == crate::text::pos_line(s, p2)
                &&& r.1 == if byte_pos <= s.len() {
                    crate::text::pos_col(s, p2)
                } else {
                    0int
                }
            }),
    {
        let len = self.len();
        let p2 = if byte_pos > len {
            len
        } else {
            byte_pos
        };
        let (line, ls, prev_ls, last_nl) = self.scan_to(p2);
        proof {
            let s = self@;
            if p2 >= 1 {
                crate::text::lemma_line_start_bounds(s, p2 - 1);
                assert(crate::text::count_newlines(s, 0, p2 as int) == crate::text::count_newlines(
                    s,
                    0,
                    p2 - 1,
                ) + if s[p2 - 1] == 10u8 {
                    1int
                } else {
                    0int
                });
                crate::text::lemma_count_newlines_bounds(s, 0, p2 - 1);
            }
            crate::text::lemma_line_start_bounds(s, p2 as int);
        }
        if last_nl {
            if byte_pos <= len {
                (line - 1, p2 - prev_ls)
            } else {
                (line - 1, 0)
            }
        } else {
            if byte_pos <= len {
                (line, p2 - ls)
            } else {
                (line, 0)
            }
        }
    }

    /// Counts UTF-16 code units over the byte walk `s[lo..hi)`.
    fn utf16_count(&self, lo: usize, hi: usize) -> (r: usize)
        requires
            self.wf(),
            lo <= hi <= self@.len(),
            hi - lo < usize::MAX,
        ensures
            r == crate::text::utf16_len(self@, lo as int, hi as int),
    {
        let ghost s = self@;
        let mut it = self.store.iter_at(lo);
        let mut q = lo;
        let mut units: usize = 0;
        proof {
            crate::text::lemma_utf16_len_bounds(s, lo as int, hi as int);
        }
        while q < hi
            invariant
                it.wf(),
                it@ == s,
                s == self@,
                lo <= q <= hi <= s.len(),
                hi - lo < usize::MAX,
                crate::text::utf16_len(s, lo as int, hi as int) <= hi - lo + 1,
                crate::text::utf16_len(s, lo as int, hi as int) == units + crate::text::utf16_len(
                    s,
                    q as int,
                    hi as int,
                ),
            decreases hi - q,
        {
            it.seek(q);
            let b = match it.peek() {
                Some(b) => b,
                None => {
                    proof {
                        assert(false);
                    }
                    0
                },
            };
            let step: usize = if b < 192 {
                1
            } else if b < 224 {
                2
            } else if b < 240 {
                3
            } else {
                4
            };
            let u: usize = if b >= 240 {
                2
            } else {
                1
            };
            let ghost step2 = vstd::math::min(q + step, hi as int);
            proof {
                assert(crate::text::utf16_len(s, q as int, hi as int)
                    == crate::text::utf16_units_of(s[q as int]) + crate::text::utf16_len(
                    s,
                    step2,
                    hi as int,
                ));
                crate::text::lemma_utf16_len_bounds(s, step2, hi as int);
            }
            units = units + u;
            q = if step > hi - q {
                hi
            } else {
                q + step
            };
        }
        units
    }

    /// The 0-indexed line holding `byte_pos` and the column within it in
    /// UTF-16 code units, counted over a byte-level character walk (exactly
    /// the UTF-16 length of the line prefix for well-formed UTF-8 content).
    pub fn position_to_lsp_position(&self, byte_pos: usize) -> (r: (usize, usize))
        requires
            self.wf(),
            self@.len() < usize::MAX,
        ensures
            ({
                let s = self@;
                let p2 = vstd::math::min(byte_pos as int, s.len() as int);
                &&& r.0 == crate::text::pos_line(s, p2)
                &&& r.1 == if byte_pos <= s.len() {
                    crate::text::utf16_len(s, crate::text::pos_line_start(s, p2), p2)
                } else {
                    0int
                }
            }),
    {
        let len = self.len();
        let p2 = if byte_pos > len {
            len
        } else {
            byte_pos
        };
        let (line, ls, prev_ls, last_nl) = self.scan_to(p2);
        let ls_eff = if last_nl {
            prev_ls
        } else {
            ls
        };
        proof {
            let s = self@;
            if p2 >= 1 {
                crate::text::lemma_line_start_bounds(s, p2 - 1);
                assert(crate::text::count_newlines(s, 0, p2 as int) == crate::text::count_newlines(
                    s,
                    0,
                    p2 - 1,
                ) + if s[p2 - 1] == 10u8 {
                    1int
                } else {
                    0int
                });
                crate::text::lemma_count_newlines_bounds(s, 0, p2 - 1);
            }
            crate::text::lemma_line_start_bounds(s, p2 as int);
        }
        if byte_pos > len {
            if last_nl {
                return (line - 1, 0);
            }
            return (line, 0);
        }
        let units = self.utf16_count(ls_eff, p2);
        if last_nl {
            (line - 1, units)
        } else {
            (line, units)
        }
    }

    /// Walks line starts from the top: the start of line `line`, stopping
    /// early at the end of the content when there are fewer lines.
    fn seek_line(&self, line: usize) -> (r: usize)
        requires
            self.wf(),
        ensures
            r == if crate::text::start_of_line(self@, line as int) < self@.len() {
                crate::text::start_of_line(self@, line as int)
            } else {
                self@.len() as int
            },
            r <= self@.len(),
    {
        let ghost s = self@;
        let len = self.len();
        let mut k: usize = 0;
        let mut ls: usize = 0;
        while k < line && ls < len
            invariant
                self.wf(),
                s == self@,
                len == s.len(),
                k <= line,
                ls <= s.len(),
                ls == crate::text::start_of_line(s, k as int),
            decreases line - k,
        {
            ls = self.scan_line_end(ls);
            k = k + 1;
        }
        if ls >= len && k < line {
            proof {
                crate::text::lemma_start_of_line_fixpoint(s, k as int, line as int);
            }
        }
        proof {
            crate::text::lemma_start_of_line_bounds(s, line as int);
        }
        ls
    }

    /// The byte position of (0-indexed) `line` and byte column `character`,
    /// clamping a missing line to the end of the buffer and an overlong
    /// column to the end of the line (newline included).
    pub fn line_col_to_position(&self, line: usize, character: usize) -> (r: usize)
        requires
            self.wf(),
        ensures
            ({
                let s = self@;
                let ls = crate::text::start_of_line(s, line as int);
                if ls >= s.len() {
                    r == s.len()
                } else {
                    r == ls + vstd::math::min(
                        character as int,
                        crate::text::line_end_of(s, ls) - ls,
                    )
                }
            }),
    {
        let len = self.len();
        let ls = self.seek_line(line);
        if ls >= len {
            return len;
        }
        let le = self.scan_line_end(ls);
        let avail = le - ls;
        let col = if character > avail {
            avail
        } else {
            character
        };
        ls + col
    }

    /// The byte position of (0-indexed) `line` and a column in UTF-16 code
    /// units, walking characters byte-wise; out-of-range lines clamp to the
    /// end of the buffer and overlong columns to the end of the line.
    pub fn lsp_position_to_byte(&self, line: usize, utf16_offset: usize) -> (r: usize)
        requires
            self.wf(),
        ensures
            ({
                let s = self@;
                let ls = crate::text::start_of_line(s, line as int);
                if ls >= s.len() {
                    r == s.len()
                } else {
                    r == crate::text::utf16_to_byte(
                        s,
                        ls,
                        crate::text::line_end_of(s, ls),
                        utf16_offset as int,
                    )
                }
            }),
    {
        let ghost s = self@;
        let len = self.len();
        let ls = self.seek_line(line);
        if ls >= len {
            return len;
        }
        let le = self.scan_line_end(ls);
        let mut it = self.store.iter_at(ls);
        let mut q = ls;
        let mut rem = utf16_offset;
        proof {
            crate::text::lemma_utf16_to_byte_bounds(s, ls as int, le as int, utf16_offset as int);
        }
        while q < le && rem > 0
            invariant
                it.wf(),
                it@ == s,
                s == self@,
                ls <= q <= le <= s.len(),
                crate::text::utf16_to_byte(s, ls as int, le as int, utf16_offset as int)
                    == crate::text::utf16_to_byte(s, q as int, le as int, rem as int),
            decreases le - q,
        {
            it.seek(q);
            let b = match it.peek() {
                Some(b) => b,
                None => {
                    proof {
                        assert(false);
                    }
                    0
                },
            };
            let step = if b < 192 {
                1
            } else if b < 224 {
                2
            } else if b < 240 {
                3
            } else {
                4
            };
            let u: usize = if b >= 240 {
                2
            } else {
                1
            };
            let ghost old_q = q as int;
            let ghost old_rem = rem as int;
            q = if step > le - q {
                le
            } else {
                q + step
            };
            rem = if u > rem {
                0
            } else {
                rem - u
            };
            proof {
                assert(crate::text::utf16_to_byte(s, old_q, le as int, old_rem)
                    == crate::text::utf16_to_byte(s, q as int, le as int, old_rem
                    - crate::text::utf16_units_of(s[old_q])));
                if old_rem - crate::text::utf16_units_of(s[old_q]) <= 0 {
                    assert(crate::text::utf16_to_byte(
                        s,
                        q as int,
                        le as int,
                        old_rem - crate::text::utf16_units_of(s[old_q]),
                    ) == q);
                    assert(crate::text::utf16_to_byte(s, q as int, le as int, rem as int) == q);
                }
            }
        }
        q
    }
}

/// Addition on line counters, saturating at the largest representable value.
pub open spec fn sat_add(a: int, b: int) -> int {
    if a + b > usize::MAX {
        usize::MAX as int
    } else {
        a + b
    }
}

/// The nearest cached point strictly before `p`: the entry with the
/// greatest smaller byte offset, or the origin `(0, 0)` when none exists.
pub open spec fn base_pair(m: Seq<crate::line_cache::LineInfo>, p: usize) -> (usize, usize)
    decreases m.len(),
{
    if m.len() == 0 {
        (0usize, 0usize)
    } else if m.last().byte_offset < p {
        (m.last().byte_offset, m.last().line_number)
    } else {
        base_pair(m.drop_last(), p)
    }
}

/// What the forward line scan from the cached base `(bo, bl)` answers for a
/// query at `p`: the base line plus the newlines passed on the way. Past
/// the end of the content the scan stops at the last line start.
pub open spec fn scan_line_value(s: Seq<u8>, bo: int, bl: int, p: int) -> int {
    if p < s.len() {
        sat_add(bl, crate::text::count_newlines(s, bo, p))
    } else if s.len() == 0 {
        if bl >= 1 {
            bl - 1
        } else {
            0
        }
    } else {
        sat_add(bl, crate::text::count_newlines(s, bo, s.len() - 1))
    }
}

/// On a sorted run, `base_pair` is exactly the greatest entry below `p`.
#[verifier::rlimit(60)]
proof fn lemma_base_pair_correct(m: Seq<crate::line_cache::LineInfo>, p: usize)
    requires
        crate::line_cache::sorted_strict(m),
    ensures
        (forall|k: int| 0 <= k < m.len() ==> (#[trigger] m[k]).byte_offset >= p) ==> base_pair(m, p)
            == (0usize, 0usize),
        (exists|k: int| 0 <= k < m.len() && (#[trigger] m[k]).byte_offset < p) ==> {
            let b = base_pair(m, p);
            &&& crate::line_cache::contains_entry(m, b.0, b.1)
            &&& b.0 < p
            &&& forall|k: int|
                0 <= k < m.len() && (#[trigger] m[k]).byte_offset < p ==> m[k].byte_offset <= b.0
        },
    decreases m.len(),
{
    if m.len() > 0 {
        assert forall|a: int| 0 <= a < m.drop_last().len() - 1 implies (#[trigger] m.drop_last()[a]).byte_offset
            < m.drop_last()[a + 1].byte_offset by {
            assert(m[a].byte_offset < m[a + 1].byte_offset);
        }
        lemma_base_pair_correct(m.drop_last(), p);
        if m.last().byte_offset < p {
            assert(m[m.len() - 1] == m.last());
            assert forall|k: int|
                0 <= k < m.len() && (#[trigger] m[k]).byte_offset < p implies m[k].byte_offset
                <= m.last().byte_offset by {
                if k < m.len() - 1 {
                    crate::line_cache::lemma_sorted_at(m, k, m.len() - 1);
                }
            }
        } else {
            assert forall|k: int|
                0 <= k < m.len() && (#[trigger] m[k]).byte_offset < p implies 0 <= k < m.drop_last().len()
                && m.drop_last()[k].byte_offset < p by {
                if k == m.len() - 1 {
                    assert(false);
                }
            }
            if exists|k: int| 0 <= k < m.len() && (#[trigger] m[k]).byte_offset < p {
                let k = choose|k: int| 0 <= k < m.len() && (#[trigger] m[k]).byte_offset < p;
                assert(m.drop_last()[k].byte_offset < p);
            }
        }
    }
}

impl Buffer {
    /// The line number of `byte_offset`. An exact cache hit answers from
    /// the cache. Otherwise the scan starts at the nearest cached point
    /// before the offset: a jump longer than 100000 bytes is answered with
    /// the estimate `base line + distance / 80` (cached as if exact — the
    /// deliberate accuracy-for-latency tradeoff); a shorter jump scans
    /// forward counting newlines, caching every line start passed.
    pub fn get_line_number(&mut self, byte_offset: usize) -> (r: usize)
        requires
            old(self).wf(),
        ensures
            final(self).wf(),
            final(self)@ == old(self)@,
            final(self).modified_spec() == old(self).modified_spec(),
            final(self).path_spec() == old(self).path_spec(),
            crate::line_cache::has_offset(old(self).cache_model(), byte_offset) ==> {
                &&& crate::line_cache::contains_entry(old(self).cache_model(), byte_offset, r)
                &&& final(self).cache_model() == old(self).cache_model()
            },
            !crate::line_cache::has_offset(old(self).cache_model(), byte_offset) ==> ({
                let s = old(self)@;
                let base = base_pair(old(self).cache_model(), byte_offset);
                let dist = byte_offset - base.0;
                &&& dist > 100000 ==> r == sat_add(base.1 as int, dist as int / 80)
                    && crate::line_cache::contains_entry(final(self).cache_model(), byte_offset, r)
                    && (forall|k: int|
                    0 <= k < old(self).cache_model().len() && (#[trigger] old(
                        self,
                    ).cache_model()[k]).byte_offset != byte_offset ==> crate::line_cache::contains_info(
                        final(self).cache_model(),
                        old(self).cache_model()[k],
                    ))
                &&& (dist <= 100000 && base.0 <= s.len()) ==> r == scan_line_value(
                    s,
                    base.0 as int,
                    base.1 as int,
                    byte_offset as int,
                ) && ({
                    // the scan caches its base and every line start it passes
                    let up = if byte_offset < s.len() {
                        byte_offset as int
                    } else {
                        vstd::math::max(s.len() as int - 1, base.0 as int)
                    };
                    &&& crate::line_cache::contains_entry(final(self).cache_model(), base.0, base.1)
                    &&& forall|q: int|
                        base.0 < q <= up && s[q - 1] == 10u8
                            ==> crate::line_cache::contains_entry(
                            final(self).cache_model(),
                            q as usize,
                            sat_add(
                                base.1 as int,
                                crate::text::count_newlines(s, base.0 as int, q),
                            ) as usize,
                        )
                })
            }),
    {
        let ghost s = self@;
        let ghost m0 = self.line_cache.model();
        if let Some(line) = self.line_cache.lookup_exact(byte_offset) {
            return line;
        }
        let (start_byte, start_line) = match self.line_cache.nearest_before(byte_offset) {
            Some(info) => {
                proof {
                    lemma_base_pair_correct(m0, byte_offset);
                    let b = base_pair(m0, byte_offset);
                    let i = choose|i: int|
                        0 <= i < m0.len() && (#[trigger] m0[i]).byte_offset == info.byte_offset
                            && m0[i].line_number == info.line_number;
                    let j = choose|j: int|
                        0 <= j < m0.len() && (#[trigger] m0[j]).byte_offset == b.0
                            && m0[j].line_number == b.1;
                    assert(m0[i].byte_offset == m0[j].byte_offset);
                    if i < j {
                        crate::line_cache::lemma_sorted_at(m0, i, j);
                    } else if j < i {
                        crate::line_cache::lemma_sorted_at(m0, j, i);
                    }
                }
                (info.byte_offset, info.line_number)
            },
            None => {
                proof {
                    lemma_base_pair_correct(m0, byte_offset);
                }
                (0, 0)
            },
        };
        let distance = byte_offset - start_byte;
        if distance > 100000 {
            // large jump: estimate from the average line length and cache it
            let est = distance / 80;
            let estimated_line_number = if start_line > usize::MAX - est {
                usize::MAX
            } else {
                start_line + est
            };
            self.line_cache.insert_entry(byte_offset, estimated_line_number);
            return estimated_line_number;
        }
        // short jump: scan forward from the base, counting newlines and
        // caching every line start passed
        let len = self.store.len();
        if start_byte > len {
            // a stale or estimated base beyond the content: nothing to scan
            let r = if start_line >= 1 {
                start_line - 1
            } else {
                0
            };
            return r;
        }
        if self.line_cache.lookup_exact(start_byte).is_none() {
            self.line_cache.insert_entry(start_byte, start_line);
        }
        proof {
            assert(crate::line_cache::contains_entry(
                self.line_cache.model(),
                start_byte,
                start_line,
            ));
        }
        let raw_upper = if byte_offset < len {
            byte_offset
        } else if len == 0 {
            let r = if start_line >= 1 {
                start_line - 1
            } else {
                0
            };
            return r;
        } else {
            len - 1
        };
        // a base cached exactly at the end of the content leaves nothing to scan
        let upper = if raw_upper < start_byte {
            start_byte
        } else {
            raw_upper
        };
        let mut it = self.store.iter_at(start_byte);
        let mut q = start_byte;
        let mut current: usize = start_line;
        proof {
            crate::text::lemma_count_newlines_bounds(s, start_byte as int, upper as int);
            assert(crate::text::count_newlines(s, start_byte as int, start_byte as int) == 0);
        }
        while q < upper
            invariant
                it.wf(),
                it@ == s,
                s == old(self)@,
                self@ == s,
                self.wf(),
                self.modified_spec() == old(self).modified_spec(),
                self.path_spec() == old(self).path_spec(),
                start_byte <= q <= upper <= s.len(),
                q == it.position_spec(),
                current as int == sat_add(
                    start_line as int,
                    crate::text::count_newlines(s, start_byte as int, q as int),
                ),
                crate::line_cache::contains_entry(self.cache_model(), start_byte, start_line),
                forall|q2: int|
                    start_byte < q2 <= q && s[q2 - 1] == 10u8
                        ==> crate::line_cache::contains_entry(
                        self.cache_model(),
                        q2 as usize,
                        sat_add(
                            start_line as int,
                            crate::text::count_newlines(s, start_byte as int, q2),
                        ) as usize,
                    ),
            decreases upper - q,
        {
            let b = match it.next() {
                Some(b) => b,
                None => {
                    proof {
                        assert(false);
                    }
                    0
                },
            };
            proof {
                assert(crate::text::count_newlines(s, start_byte as int, q + 1)
                    == crate::text::count_newlines(s, start_byte as int, q as int) + if s[q as int]
                    == 10u8 {
                    1int
                } else {
                    0int
                });
                crate::text::lemma_count_newlines_bounds(s, start_byte as int, q as int);
            }
            if b == 10 {
                current = if current < usize::MAX {
                    current + 1
                } else {
                    current
                };
                let ghost before_cache = self.cache_model();
                self.line_cache.insert_entry(q + 1, current);
                proof {
                    assert(crate::line_cache::contains_entry(
                        self.cache_model(),
                        (q + 1) as usize,
                        current,
                    ));
                    crate::line_cache::lemma_insert_preserves_entry(
                        before_cache,
                        self.cache_model(),
                        (q + 1) as usize,
                        start_byte,
                        start_line,
                    );
                    assert forall|q2: int|
                        start_byte < q2 <= q + 1 && s[q2 - 1]
                            == 10u8 implies crate::line_cache::contains_entry(
                        self.cache_model(),
                        q2 as usize,
                        sat_add(
                            start_line as int,
                            crate::text::count_newlines(s, start_byte as int, q2),
                        ) as usize,
                    ) by {
                        if q2 <= q {
                            crate::line_cache::lemma_insert_preserves_entry(
                                before_cache,
                                self.cache_model(),
                                (q + 1) as usize,
                                q2 as usize,
                                sat_add(
                                    start_line as int,
                                    crate::text::count_newlines(s, start_byte as int, q2),
                                ) as usize,
                            );
                        }
                    }
                }
            }
            q = q + 1;
        }
        current
    }

    /// Pre-warms the cache for a viewport: resolves the line number of
    /// `start_byte` exactly as `get_line_number` does (and returns it), then
    /// walks up to `line_count` further line starts, caching any that are
    /// not yet known.
    pub fn populate_line_cache(&mut self, start_byte: usize, line_count: usize) -> (r: usize)
        requires
            old(self).wf(),
        ensures
            final(self).wf(),
            final(self)@ == old(self)@,
            final(self).modified_spec() == old(self).modified_spec(),
            final(self).path_spec() == old(self).path_spec(),
            crate::line_cache::has_offset(old(self).cache_model(), start_byte)
                ==> crate::line_cache::contains_entry(old(self).cache_model(), start_byte, r),
            !crate::line_cache::has_offset(old(self).cache_model(), start_byte) ==> ({
                let s = old(self)@;
                let base = base_pair(old(self).cache_model(), start_byte);
                let dist = start_byte - base.0;
                &&& dist > 100000 ==> r == sat_add(base.1 as int, dist as int / 80)
                &&& (dist <= 100000 && base.0 <= s.len()) ==> r == scan_line_value(
                    s,
                    base.0 as int,
                    base.1 as int,
                    start_byte as int,
                )
            }),
            ({
                // the warming walk leaves each visited line start in the cache
                let s = old(self)@;
                let ls0 = crate::text::line_start_of(
                    s,
                    vstd::math::min(start_byte as int, s.len() as int),
                );
                forall|j: int|
                    0 <= j < line_count && #[trigger] crate::text::nth_line_start(s, ls0, j)
                        < s.len() ==> crate::line_cache::has_offset(
                        final(self).cache_model(),
                        crate::text::nth_line_start(s, ls0, j) as usize,
                    )
            }),
    {
        let start_line = self.get_line_number(start_byte);
        let len = self.store.len();
        let mut li = LineIterator::new(&self.store, start_byte);
        let ghost s = self@;
        let ghost ls0 = crate::text::line_start_of(
            s,
            vstd::math::min(start_byte as int, s.len() as int),
        );
        proof {
            crate::text::lemma_line_start_bounds(s, vstd::math::min(
                start_byte as int,
                s.len() as int,
            ));
        }
        let mut current_line = start_line;
        let mut added: usize = 0;
        while added < line_count
            invariant
                self.wf(),
                self@ == old(self)@,
                s == old(self)@,
                self.modified_spec() == old(self).modified_spec(),
                self.path_spec() == old(self).path_spec(),
                li.wf(),
                li@ == s,
                0 <= ls0 <= s.len(),
                ls0 == crate::text::line_start_of(
                    s,
                    vstd::math::min(start_byte as int, s.len() as int),
                ),
                added <= line_count,
                li.position_spec() == crate::text::nth_line_start(s, ls0, added as int),
                forall|jj: int|
                    0 <= jj < added && #[trigger] crate::text::nth_line_start(s, ls0, jj) < s.len()
                        ==> crate::line_cache::has_offset(
                        self.cache_model(),
                        crate::text::nth_line_start(s, ls0, jj) as usize,
                    ),
            ensures
                self.wf(),
                self@ == old(self)@,
                self.modified_spec() == old(self).modified_spec(),
                self.path_spec() == old(self).path_spec(),
                forall|j: int|
                    0 <= j < line_count && #[trigger] crate::text::nth_line_start(s, ls0, j)
                        < s.len() ==> crate::line_cache::has_offset(
                        self.cache_model(),
                        crate::text::nth_line_start(s, ls0, j) as usize,
                    ),
            decreases line_count - added,
        {
            match li.next() {
                Some((line_byte, _content)) => {
                    proof {
                        assert(line_byte == crate::text::nth_line_start(s, ls0, added as int));
                    }
                    let ghost before_cache = self.cache_model();
                    let mut inserted = false;
                    let mut ins_line: usize = 0;
                    if self.line_cache.lookup_exact(line_byte).is_none() {
                        self.line_cache.insert_entry(line_byte, current_line);
                        inserted = true;
                        ins_line = current_line;
                    }
                    proof {
                        assert(crate::line_cache::has_offset(self.cache_model(), line_byte)) by {
                            if !inserted {
                                let l0 = choose|l0: usize|
                                    crate::line_cache::contains_entry(
                                        before_cache,
                                        line_byte,
                                        l0,
                                    );
                            }
                        }
                        assert forall|jj: int|
                            0 <= jj < added + 1 && #[trigger] crate::text::nth_line_start(
                                s,
                                ls0,
                                jj,
                            ) < s.len() implies crate::line_cache::has_offset(
                            self.cache_model(),
                            crate::text::nth_line_start(s, ls0, jj) as usize,
                        ) by {
                            if jj < added && inserted {
                                crate::line_cache::lemma_insert_preserves_offset(
                                    before_cache,
                                    self.cache_model(),
                                    line_byte,
                                    ins_line,
                                    crate::text::nth_line_start(s, ls0, jj) as usize,
                                );
                            }
                        }
                    }
                    current_line = if current_line < usize::MAX {
                        current_line + 1
                    } else {
                        current_line
                    };
                    added = added + 1;
                },
                None => {
                    proof {
                        li.byte_iter.lemma_position_in_bounds();
                        crate::text::lemma_nth_line_start_bounds(s, ls0, added as int);
                        assert(crate::text::nth_line_start(s, ls0, added as int) == s.len());
                        assert forall|j: int|
                            0 <= j < line_count && #[trigger] crate::text::nth_line_start(
                                s,
                                ls0,
                                j,
                            ) < s.len() implies crate::line_cache::has_offset(
                            self.cache_model(),
                            crate::text::nth_line_start(s, ls0, j) as usize,
                        ) by {
                            if j >= added {
                                crate::text::lemma_nth_line_start_fixpoint(
                                    s,
                                    ls0,
                                    added as int,
                                    j,
                                );
                            }
                        }
                    }
                    break ;
                },
            }
        }
        start_line
    }

    /// The lowest cached byte offset for `line`, if the cache holds one; no
    /// cache population is triggered.
    pub fn get_cached_byte_offset_for_line(&self, line_number: usize) -> (r: Option<usize>)
        requires
            self.wf(),
        ensures
            match r {
                Some(off) => crate::line_cache::contains_entry(self.cache_model(), off, line_number),
                None => forall|k: int|
                    0 <= k < self.cache_model().len() ==> (#[trigger] self.cache_model()[k]).line_number
                        != line_number,
            },
    {
        self.line_cache.offset_for_line(line_number)
    }

    /// Drops every cache entry at or after `byte_offset`; call after any
    /// edit at or before that point.
    pub fn invalidate_line_cache_from(&mut self, byte_offset: usize)
        requires
            old(self).wf(),
        ensures
            final(self).wf(),
            final(self)@ == old(self)@,
            final(self).modified_spec() == old(self).modified_spec(),
            final(self).path_spec() == old(self).path_spec(),
            forall|k: int|
                0 <= k < final(self).cache_model().len() ==> (#[trigger] final(self).cache_model()[k]) == old(self).cache_model()[k] && final(self).cache_model()[k].byte_offset < byte_offset,
            forall|k: int|
                0 <= k < old(self).cache_model().len() && (#[trigger] old(self).cache_model()[k]).byte_offset < byte_offset ==> crate::line_cache::contains_info(
                    final(self).cache_model(),
                    old(self).cache_model()[k],
                ),
    {
        self.line_cache.invalidate_from(byte_offset);
    }

    /// After inserting `inserted_bytes` bytes holding `inserted_newlines`
    /// newlines at `insert_byte`: every cached entry at or after the edit
    /// point shifts forward by exactly that much; entries before it are
    /// untouched.
    pub fn handle_line_cache_insertion(
        &mut self,
        insert_byte: usize,
        inserted_bytes: usize,
        inserted_newlines: usize,
    )
        requires
            old(self).wf(),
            forall|k: int|
                0 <= k < old(self).cache_model().len() && (#[trigger] old(self).cache_model()[k]).byte_offset >= insert_byte ==> old(self).cache_model()[k].byte_offset + inserted_bytes <= usize::MAX && old(self).cache_model()[k].line_number + inserted_newlines <= usize::MAX,
        ensures
            final(self).wf(),
            final(self)@ == old(self)@,
            final(self).modified_spec() == old(self).modified_spec(),
            final(self).path_spec() == old(self).path_spec(),
            final(self).cache_model().len() == old(self).cache_model().len(),
            forall|k: int|
                0 <= k < old(self).cache_model().len() ==> {
                    let e = #[trigger] old(self).cache_model()[k];
                    if e.byte_offset < insert_byte {
                        final(self).cache_model()[k] == e
                    } else {
                        final(self).cache_model()[k].byte_offset == e.byte_offset + inserted_bytes
                            && final(self).cache_model()[k].line_number == e.line_number
                            + inserted_newlines
                    }
                },
    {
        proof {
            assert forall|k: int|
                0 <= k < self.line_cache.model().len() && (#[trigger] self.line_cache.model()[k]).byte_offset
                    >= insert_byte implies self.line_cache.model()[k].byte_offset + inserted_bytes
                <= usize::MAX && self.line_cache.model()[k].line_number + inserted_newlines
                <= usize::MAX by {
                assert(old(self).cache_model()[k] == self.line_cache.model()[k]);
            }
        }
        self.line_cache.handle_insertion(insert_byte, inserted_bytes, inserted_newlines);
    }

    /// After deleting `deleted_bytes` bytes holding `deleted_newlines`
    /// newlines at `delete_start`: entries before the edit stay, entries
    /// inside the deleted range are dropped, entries after it shift back.
    pub fn handle_line_cache_deletion(
        &mut self,
        delete_start: usize,
        deleted_bytes: usize,
        deleted_newlines: usize,
    )
        requires
            old(self).wf(),
            delete_start + deleted_bytes <= usize::MAX,
        ensures
            final(self).wf(),
            final(self)@ == old(self)@,
            final(self).modified_spec() == old(self).modified_spec(),
            final(self).path_spec() == old(self).path_spec(),
            final(self).cache_model() == crate::line_cache::shift_delete(
                old(self).cache_model(),
                delete_start,
                deleted_bytes,
                deleted_newlines,
            ),
    {
        self.line_cache.handle_deletion(delete_start, deleted_bytes, deleted_newlines);
    }

    /// Drops the whole line cache (for instance on file reload).
    pub fn clear_line_cache(&mut self)
        requires
            old(self).wf(),
        ensures
            final(self).wf(),
            final(self)@ == old(self)@,
            final(self).modified_spec() == old(self).modified_spec(),
            final(self).path_spec() == old(self).path_spec(),
            final(self).cache_model() == Seq::<crate::line_cache::LineInfo>::empty(),
    {
        self.line_cache.clear();
    }
}

/// A bidirectional, cursor-based line iterator over one pinned content
/// version.
///
/// `next` reads the line under the cursor forward and advances past it;
/// `prev` reads the line ending at (or last passed by) the cursor and
/// retreats to its start. Unlike a double-ended iterator, `next` followed
/// by `prev` returns the same line twice: callers moving to the line above
/// rely on exactly that.
pub struct LineIterator {
    byte_iter: crate::cursor::ByteCursor,
}

impl View for LineIterator {
    type V = Seq<u8>;

    closed spec fn view(&self) -> Seq<u8> {
        self.byte_iter@
    }
}

impl LineIterator {
    pub closed spec fn wf(self) -> bool {
        self.byte_iter.wf()
    }

    pub closed spec fn position_spec(self) -> int {
        self.byte_iter.position_spec()
    }

    /// Pins the store's current version and positions the cursor at the
    /// start of the line containing `byte_pos` (clamped to the end).
    pub fn new(vbuf: &SnapshotStore, byte_pos: usize) -> (r: LineIterator)
        requires
            vbuf.wf(),
        ensures
            r.wf(),
            r@ == vbuf@,
            r.position_spec() == crate::text::line_start_of(
                vbuf@,
                vstd::math::min(byte_pos as int, vbuf@.len() as int),
            ),
    {
        let mut it = vbuf.iter_at(byte_pos);
        let ghost s = vbuf@;
        let ghost p0 = it.position_spec();
        loop
            invariant
                it.wf(),
                it@ == s,
                s == vbuf@,
                p0 == vstd::math::min(byte_pos as int, s.len() as int),
                0 <= it.position_spec() <= s.len(),
                crate::text::line_start_of(s, p0) == crate::text::line_start_of(
                    s,
                    it.position_spec(),
                ),
            ensures
                it.wf(),
                it@ == s,
                s == vbuf@,
                it.position_spec() == crate::text::line_start_of(s, p0),
            decreases it.position_spec(),
        {
            if it.position() == 0 {
                break ;
            }
            let ghost at = it.position_spec();
            let b = it.prev();
            match b {
                Some(10) => {
                    proof {
                        assert(crate::text::line_start_of(s, at) == at);
                    }
                    match it.next() {
                        _ => {},
                    }
                    break ;
                },
                Some(_) => {},
                None => {
                    proof {
                        assert(false);
                    }
                },
            }
        }
        LineIterator { byte_iter: it }
    }

    /// Reads the line under the cursor and advances just past it. Returns
    /// the line's start offset and its content, including the newline when
    /// one is present; `None` at the end of the content.
    pub fn next(&mut self) -> (r: Option<(usize, String)>)
        requires
            old(self).wf(),
        ensures
            final(self).wf(),
            final(self)@ == old(self)@,
            old(self).position_spec() >= old(self)@.len() ==> r is None && final(self).position_spec() == old(self).position_spec(),
            old(self).position_spec() < old(self)@.len() ==> {
                let s = old(self)@;
                let ls = old(self).position_spec();
                let le = crate::text::line_end_of(s, ls);
                &&& r matches Some((rs, content)) && rs == ls && content@ == lossy_utf8(
                    s.subrange(ls, le),
                )
                &&& final(self).position_spec() == le
            },
    {
        let line_start = self.byte_iter.position();
        let buffer_len = self.byte_iter.buffer_len();
        if line_start >= buffer_len {
            return None;
        }
        let ghost s = self@;
        let ghost ls = line_start as int;
        proof {
            crate::text::lemma_line_end_bounds(s, ls);
        }
        let mut content: Vec<u8> = Vec::new();
        proof {
            assert(content@ =~= s.subrange(ls, ls));
        }
        loop
            invariant_except_break
                content@ == s.subrange(ls, self.byte_iter.position_spec()),
                crate::text::line_end_of(s, ls) == crate::text::line_end_of(
                    s,
                    self.byte_iter.position_spec(),
                ),
            invariant
                self.wf(),
                self@ == s,
                s == old(self)@,
                0 <= ls <= self.byte_iter.position_spec() <= s.len(),
            ensures
                self.wf(),
                self@ == s,
                content@ == s.subrange(ls, crate::text::line_end_of(s, ls)),
                self.byte_iter.position_spec() == crate::text::line_end_of(s, ls),
            decreases s.len() - self.byte_iter.position_spec(),
        {
            let ghost before = self.byte_iter.position_spec();
            match self.byte_iter.next() {
                Some(10) => {
                    content.push(10);
                    proof {
                        assert(content@ =~= s.subrange(ls, before + 1));
                        assert(crate::text::line_end_of(s, before) == before + 1);
                    }
                    break ;
                },
                Some(byte) => {
                    content.push(byte);
                    proof {
                        assert(content@ =~= s.subrange(ls, before + 1));
                    }
                },
                None => {
                    proof {
                        assert(before == s.len());
                        assert(crate::text::line_end_of(s, before) == s.len());
                    }
                    break ;
                },
            }
        }
        let text = lossy_string(&content);
        Some((line_start, text))
    }

    /// Reads the line ending at (or most recently passed by) the cursor and
    /// leaves the cursor at that line's start; `None` at position 0.
    pub fn prev(&mut self) -> (r: Option<(usize, String)>)
        requires
            old(self).wf(),
        ensures
            final(self).wf(),
            final(self)@ == old(self)@,
            old(self).position_spec() == 0 ==> r is None && final(self).position_spec() == 0,
            old(self).position_spec() > 0 ==> {
                let s = old(self)@;
                let ls = crate::text::line_start_of(
                    s,
                    vstd::math::min(old(self).position_spec() - 1, s.len() as int),
                );
                let le = crate::text::line_end_of(s, ls);
                &&& r matches Some((rs, content)) && rs == ls && content@ == lossy_utf8(
                    s.subrange(ls, le),
                )
                &&& final(self).position_spec() == ls
            },
    {
        let current_pos = self.byte_iter.position();
        if current_pos == 0 {
            return None;
        }
        let ghost s = self@;
        self.byte_iter.seek(current_pos - 1);
        let ghost p0 = self.byte_iter.position_spec();
        loop
            invariant
                self.wf(),
                self@ == s,
                s == old(self)@,
                old(self).position_spec() >= 1,
                p0 == vstd::math::min(old(self).position_spec() - 1, s.len() as int),
                0 <= self.byte_iter.position_spec() <= s.len(),
                crate::text::line_start_of(s, p0) == crate::text::line_start_of(
                    s,
                    self.byte_iter.position_spec(),
                ),
            ensures
                self.wf(),
                self@ == s,
                s == old(self)@,
                old(self).position_spec() >= 1,
                p0 == vstd::math::min(old(self).position_spec() - 1, s.len() as int),
                self.byte_iter.position_spec() == crate::text::line_start_of(s, p0),
            decreases self.byte_iter.position_spec(),
        {
            if self.byte_iter.position() == 0 {
                break ;
            }
            let ghost at = self.byte_iter.position_spec();
            let b = self.byte_iter.prev();
            match b {
                Some(10) => {
                    proof {
                        assert(crate::text::line_start_of(s, at) == at);
                    }
                    match self.byte_iter.next() {
                        _ => {},
                    }
                    break ;
                },
                Some(_) => {},
                None => {
                    proof {
                        assert(false);
                    }
                },
            }
        }
        let line_start = self.byte_iter.position();
        let ghost ls = line_start as int;
        let mut content: Vec<u8> = Vec::new();
        proof {
            assert(content@ =~= s.subrange(ls, ls));
        }
        loop
            invariant_except_break
                content@ == s.subrange(ls, self.byte_iter.position_spec()),
                crate::text::line_end_of(s, ls) == crate::text::line_end_of(
                    s,
                    self.byte_iter.position_spec(),
                ),
            invariant
                self.wf(),
                self@ == s,
                s == old(self)@,
                0 <= ls <= self.byte_iter.position_spec() <= s.len(),
            ensures
                self.wf(),
                self@ == s,
                content@ == s.subrange(ls, crate::text::line_end_of(s, ls)),
                self.byte_iter.position_spec() == crate::text::line_end_of(s, ls),
            decreases s.len() - self.byte_iter.position_spec(),
        {
            let ghost before = self.byte_iter.position_spec();
            match self.byte_iter.next() {
                Some(10) => {
                    content.push(10);
                    proof {
                        assert(content@ =~= s.subrange(ls, before + 1));
                        assert(crate::text::line_end_of(s, before) == before + 1);
                    }
                    break ;
                },
                Some(byte) => {
                    content.push(byte);
                    proof {
                        assert(content@ =~= s.subrange(ls, before + 1));
                    }
                },
                None => {
                    proof {
                        assert(before == s.len());
                        assert(crate::text::line_end_of(s, before) == s.len());
                    }
                    break ;
                },
            }
        }
        self.byte_iter.seek(line_start);
        let text = lossy_string(&content);
        Some((line_start, text))
    }

    /// The cursor's current byte position.
    pub fn current_position(&self) -> (r: usize)
        ensures
            r == self.position_spec(),
    {
        self.byte_iter.position()
    }
}

/// A well-formed buffer's line cache is sorted by strictly increasing byte
/// offset — the offset half of the cache invariant. This makes the cache
/// lemmas (`lemma_entry_unique` and the edit-shift lemmas) usable on a
/// buffer's `cache_model`. Line numbers are not monotone in general: the
/// large-jump path stores estimates untagged, and an estimate can overtake
/// the true line numbers cached later — the stated accuracy-for-latency
/// tradeoff.
pub proof fn lemma_cache_sorted(b: Buffer)
    requires
        b.wf(),
    ensures
        crate::line_cache::sorted_strict(b.cache_model()),
{
}

/// A line cursor's `next` followed immediately by `prev` returns the same
/// line twice: after reading the line starting at `ls` forward, the cursor
/// rests just past it, and a backward read from there lands on the very
/// same line start. This is the asymmetric cursor contract (unlike a
/// double-ended iterator) that "move to the line above" relies on; it
/// composes `LineIterator::next` and `LineIterator::prev` through their
/// contracts.
pub proof fn lemma_next_then_prev_same_line(s: Seq<u8>, ls: int)
    requires
        0 <= ls < s.len(),
        crate::text::line_start_of(s, ls) == ls,
    ensures
        ({
            let le = crate::text::line_end_of(s, ls);
            crate::text::line_start_of(s, vstd::math::min(le - 1, s.len() as int)) == ls
        }),
{
    let le = crate::text::line_end_of(s, ls);
    crate::text::lemma_line_end_bounds(s, ls);
    assert(le >= ls + 1) by {
        if s[ls] != crate::text::nl() {
            crate::text::lemma_line_end_bounds(s, ls + 1);
        }
    }
    crate::text::lemma_no_newline_inside_line(s, ls);
    crate::text::lemma_line_start_stable(s, ls, le - 1);
}

/// LSP round trip: for a byte offset reachable by the character walk from
/// its line start (every character boundary of well-formed UTF-8 content),
/// converting to an LSP pair and back yields the same offset. The line and
/// column here are exactly what `position_to_lsp_position` ensures, and
/// the conclusion exactly what `lsp_position_to_byte` ensures for them, so
/// the two calls compose to the identity on such offsets.
pub proof fn lemma_lsp_round_trip(s: Seq<u8>, p: int)
    requires
        0 <= p <= s.len(),
        crate::text::walk_hits(
            s,
            crate::text::pos_line_start(s, p),
            crate::text::line_end_of(s, crate::text::pos_line_start(s, p)),
            p,
        ),
    ensures
        ({
            let line = crate::text::pos_line(s, p);
            let col = crate::text::utf16_len(s, crate::text::pos_line_start(s, p), p);
            let ls = crate::text::start_of_line(s, line);
            &&& ls >= s.len() ==> p == s.len()
            &&& ls < s.len() ==> crate::text::utf16_to_byte(
                s,
                ls,
                crate::text::line_end_of(s, ls),
                col,
            ) == p
        }),
{
    let pls = crate::text::pos_line_start(s, p);
    let le = crate::text::line_end_of(s, pls);
    if 0 < p <= s.len() && s[p - 1] == crate::text::nl() {
        crate::text::lemma_line_numbering(s, p - 1);
        assert(crate::text::count_newlines(s, 0, p) == crate::text::count_newlines(s, 0, p - 1)
            + 1);
        crate::text::lemma_no_newline_before(s, p - 1);
        crate::text::lemma_line_start_bounds(s, p - 1);
        crate::text::lemma_line_end_stable(s, pls, p - 1);
        assert(crate::text::line_end_of(s, p - 1) == p);
        assert(le == p);
    } else {
        crate::text::lemma_line_numbering(s, p);
        crate::text::lemma_no_newline_before(s, p);
        crate::text::lemma_line_start_bounds(s, p);
        crate::text::lemma_line_end_stable(s, pls, p);
        crate::text::lemma_line_end_bounds(s, p);
        assert(le == crate::text::line_end_of(s, p) >= p);
    }
    assert(crate::text::start_of_line(s, crate::text::pos_line(s, p)) == pls);
    crate::text::lemma_utf16_round_trip(s, pls, le, p);
    if pls >= s.len() {
        assert(pls <= p <= s.len());
    }
}

/// Searching from the very start, the cyclic search is the plain first
/// occurrence found by exhaustive scan: there is nothing before position 0
/// to wrap around to.
pub proof fn lemma_find_next_from_zero(s: Seq<u8>, p: Seq<u8>, k: int)
    requires
        p.len() > 0,
        if has_match_in(s, p, 0, s.len() as int) {
            is_first_match_in(s, p, 0, s.len() as int, k)
        } else {
            is_first_match_in(s, p, 0, 0, k)
        },
    ensures
        is_first_match_in(s, p, 0, s.len() as int, k),
{
    if !has_match_in(s, p, 0, s.len() as int) {
        assert(k + p.len() <= 0);
        assert(match_at(s, p, k));
        assert(false);
    }
}

/// Wrap-around: when the pattern does not occur at or after `start`, a
/// successful cyclic search yields the first occurrence in `[0, start)`.
pub proof fn lemma_find_next_wraps(s: Seq<u8>, p: Seq<u8>, start: int, k: int)
    requires
        p.len() > 0,
        0 <= start <= s.len(),
        !has_match_in(s, p, start, s.len() as int),
        if has_match_in(s, p, start, s.len() as int) {
            is_first_match_in(s, p, start, s.len() as int, k)
        } else {
            is_first_match_in(s, p, 0, start, k)
        },
    ensures
        is_first_match_in(s, p, 0, start, k),
{
}

} // verus!
