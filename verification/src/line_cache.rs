//! Line index cache: a sparse, sorted map from byte offset to line number.
//!
//! The cache is a partial index and is never required to be complete; the
//! buffer consults it for the nearest known point and scans or estimates
//! from there. Edits do not update it on their own: the owner must call the
//! insertion/deletion hooks (or invalidate) after every edit, or later
//! queries silently answer from stale entries.
use vstd::prelude::*;

verus! {

/// One cached pair: byte offset of a line start (or estimated point) and
/// its line number.
#[derive(Clone, Copy, Debug)]
pub struct LineInfo {
    pub line_number: usize,
    pub byte_offset: usize,
}

/// Entries sorted by strictly increasing byte offset.
pub open spec fn sorted_strict(s: Seq<LineInfo>) -> bool {
    forall|i: int| 0 <= i < s.len() - 1 ==> (#[trigger] s[i]).byte_offset < s[i + 1].byte_offset
}

/// The cache holds an entry mapping `off` to `line`.
pub open spec fn contains_entry(s: Seq<LineInfo>, off: usize, line: usize) -> bool {
    exists|i: int|
        0 <= i < s.len() && (#[trigger] s[i]).byte_offset == off && s[i].line_number == line
}

/// The cache holds some entry at byte offset `off`.
pub open spec fn has_offset(s: Seq<LineInfo>, off: usize) -> bool {
    exists|i: int| 0 <= i < s.len() && (#[trigger] s[i]).byte_offset == off
}

/// The cache holds this exact entry.
pub open spec fn contains_info(s: Seq<LineInfo>, e: LineInfo) -> bool {
    exists|i: int|
        0 <= i < s.len() && (#[trigger] s[i]).byte_offset == e.byte_offset && s[i].line_number
            == e.line_number
}

/// In a sorted run, offsets grow with the index.
pub proof fn lemma_sorted_at(s: Seq<LineInfo>, i: int, j: int)
    requires
        sorted_strict(s),
        0 <= i < j < s.len(),
    ensures
        s[i].byte_offset < s[j].byte_offset,
    decreases j - i,
{
    if i + 1 < j {
        lemma_sorted_at(s, i, j - 1);
    }
}

/// What remains of cache entries after deleting `bytes` bytes (holding
/// `nls` newlines) at `start`: entries before the edit stay, entries inside
/// the deleted range are dropped, entries after it shift down.
pub open spec fn shift_delete(s: Seq<LineInfo>, start: usize, bytes: usize, nls: usize) -> Seq<
    LineInfo,
>
    decreases s.len(),
{
    if s.len() == 0 {
        Seq::empty()
    } else {
        let e = s.last();
        let rest = shift_delete(s.drop_last(), start, bytes, nls);
        if e.byte_offset < start {
            rest.push(e)
        } else if e.byte_offset < start + bytes {
            rest
        } else {
            rest.push(
                LineInfo {
                    byte_offset: (e.byte_offset - bytes) as usize,
                    line_number: if e.line_number >= nls {
                        (e.line_number - nls) as usize
                    } else {
                        0
                    },
                },
            )
        }
    }
}

/// Replacing the one entry at an offset keeps the run sorted and changes
/// no other entry.
proof fn lemma_entry_update(s: Seq<LineInfo>, i: int, info: LineInfo)
    requires
        sorted_strict(s),
        0 <= i < s.len(),
        s[i].byte_offset == info.byte_offset,
    ensures
        sorted_strict(s.update(i, info)),
        contains_entry(s.update(i, info), info.byte_offset, info.line_number),
        forall|k: int|
            0 <= k < s.len() && (#[trigger] s[k]).byte_offset != info.byte_offset ==> contains_info(
                s.update(i, info),
                s[k],
            ),
        forall|k: int|
            0 <= k < s.len() && (#[trigger] s.update(i, info)[k]).byte_offset == info.byte_offset
                ==> s.update(i, info)[k].line_number == info.line_number,
        forall|k: int|
            0 <= k < s.len() && (#[trigger] s.update(i, info)[k]).byte_offset != info.byte_offset
                ==> contains_info(s, s.update(i, info)[k]),
{
    let t = s.update(i, info);
    assert forall|a: int| 0 <= a < t.len() - 1 implies (#[trigger] t[a]).byte_offset < t[a
        + 1].byte_offset by {
        assert(s[a].byte_offset < s[a + 1].byte_offset);
    }
    assert(t[i] == info);
    assert forall|k: int|
        0 <= k < s.len() && (#[trigger] s[k]).byte_offset != info.byte_offset implies contains_info(
        t,
        s[k],
    ) by {
        assert(t[k] == s[k]);
    }
    assert forall|k: int|
        0 <= k < s.len() && (#[trigger] t[k]).byte_offset == info.byte_offset implies t[k].line_number
        == info.line_number by {
        if k != i {
            if k < i {
                lemma_sorted_at(s, k, i);
            } else {
                lemma_sorted_at(s, i, k);
            }
        }
    }
}

/// Inserting a fresh entry between smaller and larger offsets keeps the run
/// sorted and changes no other entry.
proof fn lemma_entry_insert(s: Seq<LineInfo>, i: int, info: LineInfo)
    requires
        sorted_strict(s),
        0 <= i <= s.len(),
        forall|k: int| 0 <= k < i ==> (#[trigger] s[k]).byte_offset < info.byte_offset,
        forall|k: int| i <= k < s.len() ==> (#[trigger] s[k]).byte_offset > info.byte_offset,
    ensures
        sorted_strict(s.insert(i, info)),
        contains_entry(s.insert(i, info), info.byte_offset, info.line_number),
        forall|k: int|
            0 <= k < s.len() && (#[trigger] s[k]).byte_offset != info.byte_offset ==> contains_info(
                s.insert(i, info),
                s[k],
            ),
        forall|k: int|
            0 <= k < s.insert(i, info).len() && (#[trigger] s.insert(i, info)[k]).byte_offset
                == info.byte_offset ==> s.insert(i, info)[k].line_number == info.line_number,
        forall|k: int|
            0 <= k < s.insert(i, info).len() && (#[trigger] s.insert(i, info)[k]).byte_offset
                != info.byte_offset ==> contains_info(s, s.insert(i, info)[k]),
{
    let t = s.insert(i, info);
    assert(t[i] == info);
    assert forall|a: int| 0 <= a < t.len() - 1 implies (#[trigger] t[a]).byte_offset < t[a
        + 1].byte_offset by {
        if a + 1 < i {
            assert(t[a] == s[a]);
            assert(t[a + 1] == s[a + 1]);
        } else if a + 1 == i {
            assert(t[a] == s[a]);
        } else if a == i {
            assert(t[a + 1] == s[a]);
        } else {
            assert(t[a] == s[a - 1]);
            assert(t[a + 1] == s[a]);
        }
    }
    assert forall|k: int|
        0 <= k < s.len() && (#[trigger] s[k]).byte_offset != info.byte_offset implies contains_info(
        t,
        s[k],
    ) by {
        if k < i {
            assert(t[k] == s[k]);
        } else {
            assert(t[k + 1] == s[k]);
        }
    }
    assert forall|k: int|
        0 <= k < t.len() && (#[trigger] t[k]).byte_offset == info.byte_offset implies t[k].line_number
        == info.line_number by {
        if k < i {
            assert(t[k] == s[k]);
        } else if k > i {
            assert(t[k] == s[k - 1]);
        }
    }
    assert forall|k: int|
        0 <= k < t.len() && (#[trigger] t[k]).byte_offset != info.byte_offset implies contains_info(
        s,
        t[k],
    ) by {
        if k < i {
            assert(t[k] == s[k]);
        } else if k > i {
            assert(t[k] == s[k - 1]);
        }
    }
}

/// In a sorted cache one byte offset maps to at most one line number.
pub proof fn lemma_entry_unique(m: Seq<LineInfo>, off: usize, l1: usize, l2: usize)
    requires
        sorted_strict(m),
        contains_entry(m, off, l1),
        contains_entry(m, off, l2),
    ensures
        l1 == l2,
{
    let i = choose|i: int|
        0 <= i < m.len() && (#[trigger] m[i]).byte_offset == off && m[i].line_number == l1;
    let j = choose|j: int|
        0 <= j < m.len() && (#[trigger] m[j]).byte_offset == off && m[j].line_number == l2;
    if i < j {
        lemma_sorted_at(m, i, j);
    } else if j < i {
        lemma_sorted_at(m, j, i);
    }
}

/// Cache consistency under insertion: after the insertion hook for an edit
/// of `b` bytes holding `n` newlines at `x` (whose effect on the entries is
/// the elementwise shift the hook ensures), an entry previously cached as
/// `(o, l)` with `o >= x` is cached as `(o + b, l + n)` — and at no other
/// line — so a subsequent exact line query at `o + b` answers `l + n`.
pub proof fn lemma_insertion_shifts_entry(
    before: Seq<LineInfo>,
    after: Seq<LineInfo>,
    x: usize,
    b: usize,
    n: usize,
    o: usize,
    l: usize,
)
    requires
        sorted_strict(before),
        contains_entry(before, o, l),
        o >= x,
        o + b <= usize::MAX,
        l + n <= usize::MAX,
        after.len() == before.len(),
        forall|k: int|
            0 <= k < before.len() ==> {
                let e = #[trigger] before[k];
                if e.byte_offset < x {
                    after[k] == e
                } else {
                    after[k].byte_offset == e.byte_offset + b && after[k].line_number
                        == e.line_number + n
                }
            },
    ensures
        contains_entry(after, (o + b) as usize, (l + n) as usize),
        forall|l2: usize|
            #[trigger] contains_entry(after, (o + b) as usize, l2) ==> l2 == ((l + n) as usize),
{
    let i = choose|i: int|
        0 <= i < before.len() && (#[trigger] before[i]).byte_offset == o && before[i].line_number
            == l;
    assert(after[i].byte_offset == o + b && after[i].line_number == l + n);
    assert forall|l2: usize| #[trigger] contains_entry(after, (o + b) as usize, l2) implies l2 == ((
    l + n) as usize) by {
        let k = choose|k: int|
            0 <= k < after.len() && (#[trigger] after[k]).byte_offset == ((o + b) as usize)
                && after[k].line_number == l2;
        if before[k].byte_offset < x {
            assert(after[k] == before[k]);
            assert(before[k].byte_offset == o + b >= x);
            assert(false);
        } else {
            assert(before[k].byte_offset == o);
            if k < i {
                lemma_sorted_at(before, k, i);
            } else if i < k {
                lemma_sorted_at(before, i, k);
            }
        }
    }
}

/// Cache consistency under deletion: after the deletion hook for an edit
/// removing `bytes` bytes holding `nls` newlines at `start`, an entry
/// previously cached at or past the removed range, with a line number at
/// least `nls`, shifts to `(o - bytes, l - nls)`.
pub proof fn lemma_deletion_shifts_entry(
    m: Seq<LineInfo>,
    start: usize,
    bytes: usize,
    nls: usize,
    o: usize,
    l: usize,
)
    requires
        contains_entry(m, o, l),
        o >= start + bytes,
        l >= nls,
    ensures
        contains_entry(
            shift_delete(m, start, bytes, nls),
            (o - bytes) as usize,
            (l - nls) as usize,
        ),
    decreases m.len(),
{
    let i = choose|i: int|
        0 <= i < m.len() && (#[trigger] m[i]).byte_offset == o && m[i].line_number == l;
    let rest = shift_delete(m.drop_last(), start, bytes, nls);
    if i == m.len() - 1 {
        assert(m.last() == m[i]);
        let t = shift_delete(m, start, bytes, nls);
        assert(t == rest.push(
            LineInfo { byte_offset: (o - bytes) as usize, line_number: (l - nls) as usize },
        ));
        assert(t[t.len() - 1].byte_offset == ((o - bytes) as usize));
    } else {
        assert(m.drop_last()[i] == m[i]);
        lemma_deletion_shifts_entry(m.drop_last(), start, bytes, nls, o, l);
        let j = choose|j: int|
            0 <= j < rest.len() && (#[trigger] rest[j]).byte_offset == ((o - bytes) as usize)
                && rest[j].line_number == ((l - nls) as usize);
        let t = shift_delete(m, start, bytes, nls);
        if m.last().byte_offset < start || m.last().byte_offset >= start + bytes {
            assert(t[j] == rest[j]);
        } else {
            assert(t == rest);
        }
    }
}

/// An entry elsewhere in the cache survives recording a pair at a
/// different offset.
pub proof fn lemma_insert_preserves_entry(
    before: Seq<LineInfo>,
    after: Seq<LineInfo>,
    off: usize,
    q: usize,
    l: usize,
)
    requires
        contains_entry(before, q, l),
        q != off,
        forall|k: int|
            0 <= k < before.len() && (#[trigger] before[k]).byte_offset != off ==> contains_info(
                after,
                before[k],
            ),
    ensures
        contains_entry(after, q, l),
{
    let k = choose|k: int|
        0 <= k < before.len() && (#[trigger] before[k]).byte_offset == q && before[k].line_number
            == l;
    assert(contains_info(after, before[k]));
    let j = choose|j: int|
        0 <= j < after.len() && (#[trigger] after[j]).byte_offset == before[k].byte_offset
            && after[j].line_number == before[k].line_number;
    assert(after[j].byte_offset == q && after[j].line_number == l);
}

/// An offset present in the cache stays present after recording a pair at
/// any offset.
pub proof fn lemma_insert_preserves_offset(
    before: Seq<LineInfo>,
    after: Seq<LineInfo>,
    off: usize,
    line: usize,
    q: usize,
)
    requires
        has_offset(before, q),
        contains_entry(after, off, line),
        forall|k: int|
            0 <= k < before.len() && (#[trigger] before[k]).byte_offset != off ==> contains_info(
                after,
                before[k],
            ),
    ensures
        has_offset(after, q),
{
    if q == off {
        let j = choose|j: int|
            0 <= j < after.len() && (#[trigger] after[j]).byte_offset == off && after[j].line_number
                == line;
        assert(after[j].byte_offset == q);
    } else {
        let k = choose|k: int| 0 <= k < before.len() && (#[trigger] before[k]).byte_offset == q;
        assert(contains_info(after, before[k]));
        let j = choose|j: int|
            0 <= j < after.len() && (#[trigger] after[j]).byte_offset == before[k].byte_offset
                && after[j].line_number == before[k].line_number;
        assert(after[j].byte_offset == q);
    }
}

pub struct LineCache {
    entries: Vec<LineInfo>,
}

impl LineCache {
    /// The cached entries, sorted by byte offset.
    pub closed spec fn model(self) -> Seq<LineInfo> {
        self.entries@
    }

    pub open spec fn wf(self) -> bool {
        sorted_strict(self.model())
    }

    pub fn new() -> (r: LineCache)
        ensures
            r.wf(),
            r.model() == Seq::<LineInfo>::empty(),
    {
        LineCache { entries: Vec::new() }
    }

    /// Drops every entry.
    pub fn clear(&mut self)
        ensures
            final(self).wf(),
            final(self).model() == Seq::<LineInfo>::empty(),
    {
        self.entries.clear();
    }

    /// The line cached for exactly this byte offset, if any.
    pub fn lookup_exact(&self, off: usize) -> (r: Option<usize>)
        requires
            self.wf(),
        ensures
            match r {
                Some(l) => contains_entry(self.model(), off, l),
                None => !has_offset(self.model(), off),
            },
    {
        let mut i: usize = 0;
        while i < self.entries.len()
            invariant
                forall|k: int| 0 <= k < i ==> (#[trigger] self.entries@[k]).byte_offset != off,
            decreases self.entries@.len() - i,
        {
            if self.entries[i].byte_offset == off {
                return Some(self.entries[i].line_number);
            }
            i = i + 1;
        }
        None
    }

    /// The cached entry with the greatest byte offset strictly below `off`.
    pub fn nearest_before(&self, off: usize) -> (r: Option<LineInfo>)
        requires
            self.wf(),
        ensures
            match r {
                None => forall|k: int|
                    0 <= k < self.model().len() ==> (#[trigger] self.model()[k]).byte_offset >= off,
                Some(e) => {
                    &&& contains_info(self.model(), e)
                    &&& e.byte_offset < off
                    &&& forall|k: int|
                        0 <= k < self.model().len() && (#[trigger] self.model()[k]).byte_offset
                            < off ==> self.model()[k].byte_offset <= e.byte_offset
                },
            },
    {
        let mut best: Option<LineInfo> = None;
        let mut i: usize = 0;
        while i < self.entries.len()
            invariant
                self.wf(),
                i <= self.entries@.len(),
                match best {
                    None => forall|k: int|
                        0 <= k < i ==> (#[trigger] self.entries@[k]).byte_offset >= off,
                    Some(e) => {
                        &&& contains_info(self.entries@, e)
                        &&& e.byte_offset < off
                        &&& forall|k: int|
                            0 <= k < i && (#[trigger] self.entries@[k]).byte_offset < off
                                ==> self.entries@[k].byte_offset <= e.byte_offset
                    },
                },
            decreases self.entries@.len() - i,
        {
            let e = self.entries[i];
            proof {
                assert(self.entries@[i as int] == e);
            }
            if e.byte_offset < off {
                proof {
                    assert forall|k: int|
                        0 <= k < i + 1 && (#[trigger] self.entries@[k]).byte_offset
                            < off implies self.entries@[k].byte_offset <= e.byte_offset by {
                        if k < i {
                            lemma_sorted_at(self.entries@, k, i as int);
                        }
                    }
                }
                best = Some(e);
            }
            i = i + 1;
        }
        best
    }

    /// Records `off -> line`, replacing any entry already at `off`.
    #[verifier::rlimit(50)]
    pub fn insert_entry(&mut self, off: usize, line: usize)
        requires
            old(self).wf(),
        ensures
            final(self).wf(),
            contains_entry(final(self).model(), off, line),
            forall|k: int|
                0 <= k < old(self).model().len() && (#[trigger] old(self).model()[k]).byte_offset
                    != off ==> contains_info(final(self).model(), old(self).model()[k]),
            forall|k: int|
                0 <= k < final(self).model().len() && (#[trigger] final(self).model()[k]).byte_offset
                    == off ==> final(self).model()[k].line_number == line,
            forall|k: int|
                0 <= k < final(self).model().len() && (#[trigger] final(self).model()[k]).byte_offset
                    != off ==> contains_info(old(self).model(), final(self).model()[k]),
    {
        let info = LineInfo { line_number: line, byte_offset: off };
        let mut i: usize = 0;
        while i < self.entries.len() && self.entries[i].byte_offset < off
            invariant
                self.wf(),
                i <= self.entries@.len(),
                forall|k: int| 0 <= k < i ==> (#[trigger] self.entries@[k]).byte_offset < off,
            decreases self.entries@.len() - i,
        {
            i = i + 1;
        }
        let ghost before = self.entries@;
        if i < self.entries.len() && self.entries[i].byte_offset == off {
            self.entries.remove(i);
            self.entries.insert(i, info);
            proof {
                assert(self.entries@ =~= before.update(i as int, info));
                lemma_entry_update(before, i as int, info);
            }
        } else {
            proof {
                if i < before.len() && before[i as int].byte_offset <= off {
                    assert(false);
                }
                assert forall|k: int| i <= k < before.len() implies (#[trigger] before[k]).byte_offset
                    > off by {
                    if k > i {
                        lemma_sorted_at(before, i as int, k);
                    }
                }
            }
            self.entries.insert(i, info);
            proof {
                assert(self.entries@ =~= before.insert(i as int, info));
                lemma_entry_insert(before, i as int, info);
            }
        }
    }

    /// Drops every entry at or after `off`; after an edit at or before that
    /// point, those entries can no longer be trusted.
    pub fn invalidate_from(&mut self, off: usize)
        requires
            old(self).wf(),
        ensures
            final(self).wf(),
            forall|k: int|
                0 <= k < final(self).model().len() ==> (#[trigger] final(self).model()[k]) == old(self).model()[k] && final(self).model()[k].byte_offset < off,
            forall|k: int|
                0 <= k < old(self).model().len() && (#[trigger] old(self).model()[k]).byte_offset
                    < off ==> contains_info(final(self).model(), old(self).model()[k]),
    {
        let mut i: usize = 0;
        while i < self.entries.len() && self.entries[i].byte_offset < off
            invariant
                self.wf(),
                i <= self.entries@.len(),
                forall|k: int| 0 <= k < i ==> (#[trigger] self.entries@[k]).byte_offset < off,
            decreases self.entries@.len() - i,
        {
            i = i + 1;
        }
        let ghost before = self.entries@;
        self.entries.truncate(i);
        proof {
            assert(self.entries@ == before.subrange(0, i as int));
            assert forall|k: int|
                0 <= k < before.len() && (#[trigger] before[k]).byte_offset < off implies contains_info(
                self.entries@,
                before[k],
            ) by {
                if k >= i {
                    lemma_sorted_at(before, i as int, k);
                    assert(false);
                } else {
                    assert(self.entries@[k] == before[k]);
                }
            }
        }
    }

    /// After inserting `bytes` bytes holding `nls` newlines at `at`: every
    /// entry at or after the edit point shifts forward by `bytes` bytes and
    /// `nls` lines; entries strictly before it are untouched.
    pub fn handle_insertion(&mut self, at: usize, bytes: usize, nls: usize)
        requires
            old(self).wf(),
            forall|k: int|
                0 <= k < old(self).model().len() && (#[trigger] old(self).model()[k]).byte_offset
                    >= at ==> old(self).model()[k].byte_offset + bytes <= usize::MAX && old(self).model()[k].line_number + nls <= usize::MAX,
        ensures
            final(self).wf(),
            final(self).model().len() == old(self).model().len(),
            forall|k: int|
                0 <= k < old(self).model().len() ==> {
                    let e = #[trigger] old(self).model()[k];
                    if e.byte_offset < at {
                        final(self).model()[k] == e
                    } else {
                        final(self).model()[k].byte_offset == e.byte_offset + bytes && final(self).model()[k].line_number == e.line_number + nls
                    }
                },
    {
        let ghost before = self.entries@;
        let mut out: Vec<LineInfo> = Vec::new();
        let mut i: usize = 0;
        while i < self.entries.len()
            invariant
                self.wf(),
                before == self.entries@,
                i <= before.len(),
                out@.len() == i,
                forall|k: int|
                    0 <= k < old(self).model().len() && (#[trigger] old(self).model()[k]).byte_offset
                        >= at ==> old(self).model()[k].byte_offset + bytes <= usize::MAX && old(self).model()[k].line_number + nls <= usize::MAX,
                before == old(self).model(),
                forall|k: int|
                    0 <= k < i ==> {
                        let e = #[trigger] before[k];
                        if e.byte_offset < at {
                            out@[k] == e
                        } else {
                            out@[k].byte_offset == e.byte_offset + bytes && out@[k].line_number
                                == e.line_number + nls
                        }
                    },
            decreases before.len() - i,
        {
            let e = self.entries[i];
            proof {
                assert(before[i as int] == e);
            }
            if e.byte_offset < at {
                out.push(e);
            } else {
                out.push(
                    LineInfo {
                        line_number: e.line_number + nls,
                        byte_offset: e.byte_offset + bytes,
                    },
                );
            }
            i = i + 1;
        }
        self.entries = out;
        proof {
            assert forall|a: int| 0 <= a < self.entries@.len() - 1 implies (#[trigger] self.entries@[a]).byte_offset
                < self.entries@[a + 1].byte_offset by {
                assert(before[a].byte_offset < before[a + 1].byte_offset);
            }
        }
    }

    /// After deleting `bytes` bytes holding `nls` newlines at `start`:
    /// entries before the edit stay, entries inside the deleted range are
    /// dropped, entries after it shift back (line numbers saturating at 0).
    pub fn handle_deletion(&mut self, start: usize, bytes: usize, nls: usize)
        requires
            old(self).wf(),
            start + bytes <= usize::MAX,
        ensures
            final(self).wf(),
            final(self).model() == shift_delete(old(self).model(), start, bytes, nls),
    {
        let ghost before = self.entries@;
        let mut out: Vec<LineInfo> = Vec::new();
        let mut i: usize = 0;
        while i < self.entries.len()
            invariant
                self.wf(),
                before == self.entries@,
                start + bytes <= usize::MAX,
                i <= before.len(),
                out@ == shift_delete(before.subrange(0, i as int), start, bytes, nls),
                sorted_strict(out@),
                forall|k: int|
                    0 <= k < out@.len() ==> (#[trigger] out@[k]).byte_offset < start || exists|
                        j: int,
                    |
                        0 <= j < i && (#[trigger] before[j]).byte_offset >= start + bytes
                            && out@[k].byte_offset == before[j].byte_offset - bytes,
            decreases before.len() - i,
        {
            let e = self.entries[i];
            proof {
                assert(before[i as int] == e);
                assert(before.subrange(0, i as int + 1).drop_last() =~= before.subrange(
                    0,
                    i as int,
                ));
                assert(before.subrange(0, i as int + 1).last() == e);
            }
            let ghost old_out = out@;
            if e.byte_offset < start {
                out.push(e);
                proof {
                    assert forall|a: int| 0 <= a < out@.len() - 1 implies (#[trigger] out@[a]).byte_offset
                        < out@[a + 1].byte_offset by {
                        if a < old_out.len() - 1 {
                            assert(old_out[a].byte_offset < old_out[a + 1].byte_offset);
                        } else {
                            assert(out@[a] == old_out[a]);
                            assert(out@[a + 1] == e);
                            if old_out[a].byte_offset >= start {
                                let j = choose|j: int|
                                    0 <= j < i && (#[trigger] before[j]).byte_offset >= start
                                        + bytes && old_out[a].byte_offset == before[j].byte_offset
                                        - bytes;
                                lemma_sorted_at(before, j, i as int);
                                assert(false);
                            }
                        }
                    }
                }
            } else if e.byte_offset < start + bytes {
                // dropped: its position no longer exists
            } else {
                let ne = LineInfo {
                    byte_offset: e.byte_offset - bytes,
                    line_number: if e.line_number >= nls {
                        e.line_number - nls
                    } else {
                        0
                    },
                };
                out.push(ne);
                proof {
                    assert forall|a: int| 0 <= a < out@.len() - 1 implies (#[trigger] out@[a]).byte_offset
                        < out@[a + 1].byte_offset by {
                        if a < old_out.len() - 1 {
                            assert(old_out[a].byte_offset < old_out[a + 1].byte_offset);
                        } else {
                            assert(out@[a] == old_out[a]);
                            assert(out@[a + 1] == ne);
                            if old_out[a].byte_offset >= start {
                                let j = choose|j: int|
                                    0 <= j < i && (#[trigger] before[j]).byte_offset >= start
                                        + bytes && old_out[a].byte_offset == before[j].byte_offset
                                        - bytes;
                                lemma_sorted_at(before, j, i as int);
                            }
                        }
                    }
                }
            }
            i = i + 1;
        }
        proof {
            assert(before.subrange(0, before.len() as int) =~= before);
        }
        self.entries = out;
    }

    /// The lowest cached byte offset mapped to `line`, if any. The cache
    /// keeps no index by line number, so this is a linear scan.
    pub fn offset_for_line(&self, line: usize) -> (r: Option<usize>)
        requires
            self.wf(),
        ensures
            match r {
                Some(off) => contains_entry(self.model(), off, line),
                None => forall|k: int|
                    0 <= k < self.model().len() ==> (#[trigger] self.model()[k]).line_number
                        != line,
            },
    {
        let mut i: usize = 0;
        while i < self.entries.len()
            invariant
                forall|k: int| 0 <= k < i ==> (#[trigger] self.entries@[k]).line_number != line,
            decreases self.entries@.len() - i,
        {
            if self.entries[i].line_number == line {
                return Some(self.entries[i].byte_offset);
            }
            i = i + 1;
        }
        None
    }
}

} // verus!
