//! Chunk window stream: turns a byte cursor into a run of overlapping
//! windows with a "valid zone", so a search can scan a large range without
//! materializing it while still catching matches that straddle window
//! boundaries.
//!
//! The first window holds up to `chunk_size` bytes and is valid from its
//! start. Each later window keeps the trailing `overlap` bytes of the
//! previous one as a prefix and appends up to `chunk_size` new bytes; its
//! valid zone starts right after the kept prefix. The valid zones therefore
//! tile the streamed range `[start, end)` exactly: each position is in the
//! valid zone of exactly one window.
use crate::cursor::ByteCursor;
use vstd::prelude::*;

verus! {

/// One streamed window: a byte run, its absolute start offset, and the
/// offset inside it where not-yet-scanned data begins.
pub struct ChunkInfo {
    pub buffer: Vec<u8>,
    pub absolute_pos: usize,
    pub valid_start: usize,
}

pub struct OverlappingChunks {
    iter: ByteCursor,
    buffer: Vec<u8>,
    buffer_start_pos: usize,
    current_read_pos: usize,
    start: usize,
    end: usize,
    chunk_size: usize,
    overlap: usize,
    first_chunk: bool,
}

impl OverlappingChunks {
    /// The content of the snapshot the stream reads from.
    pub closed spec fn src(self) -> Seq<u8> {
        self.iter@
    }

    /// The absolute position up to which windows have been handed out;
    /// valid zones handed out so far tile `[start, covered)` exactly.
    pub closed spec fn covered(self) -> int {
        self.current_read_pos as int
    }

    pub closed spec fn start_spec(self) -> int {
        self.start as int
    }

    pub closed spec fn end_spec(self) -> int {
        self.end as int
    }

    pub closed spec fn overlap_spec(self) -> int {
        self.overlap as int
    }

    pub closed spec fn chunk_spec(self) -> int {
        self.chunk_size as int
    }

    /// The structural part of the stream invariant: cursor position, range
    /// bounds, and the window buffer mirroring the source.
    spec fn inv_core(self) -> bool {
        &&& self.iter.wf()
        &&& self.iter.position_spec() == self.current_read_pos
        &&& self.start <= self.buffer_start_pos <= self.current_read_pos <= self.end
        &&& self.end <= self.src().len()
        &&& self.buffer@ == self.src().subrange(
            self.buffer_start_pos as int,
            self.current_read_pos as int,
        )
        &&& self.chunk_size >= 1
        &&& self.buffer_start_pos == self.start || self.buffer@.len() >= self.overlap
    }

    pub closed spec fn inv(self) -> bool {
        &&& self.inv_core()
        &&& self.first_chunk ==> self.buffer_start_pos == self.current_read_pos
            == self.start
        &&& !self.first_chunk ==> self.current_read_pos > self.start || self.current_read_pos
            == self.end
    }

    /// Builds the stream over `[start, end)`; the cursor is repositioned to
    /// `start`. An inverted range is clamped and streams nothing.
    pub fn new(iter: ByteCursor, start: usize, end: usize, chunk_size: usize, overlap: usize) -> (r:
        OverlappingChunks)
        requires
            iter.wf(),
            start <= iter@.len(),
            end <= iter@.len(),
            chunk_size >= 1,
        ensures
            r.inv(),
            r.src() == iter@,
            r.covered() == start,
            r.start_spec() == start,
            r.end_spec() == vstd::math::max(start as int, end as int),
            r.overlap_spec() == overlap,
            r.chunk_spec() == chunk_size,
    {
        let e = if end < start {
            start
        } else {
            end
        };
        let mut it = iter;
        it.seek(start);
        let r = OverlappingChunks {
            iter: it,
            buffer: Vec::new(),
            buffer_start_pos: start,
            current_read_pos: start,
            start,
            end: e,
            chunk_size,
            overlap,
            first_chunk: true,
        };
        proof {
            assert(r.buffer@ =~= r.src().subrange(start as int, start as int));
        }
        r
    }

    /// Appends bytes from the cursor until the window holds `target` bytes
    /// or the range is exhausted.
    fn fill_to(&mut self, target: usize)
        requires
            old(self).inv_core(),
            !old(self).first_chunk,
            target >= 1,
        ensures
            final(self).inv(),
            final(self).src() == old(self).src(),
            final(self).start_spec() == old(self).start_spec(),
            final(self).end_spec() == old(self).end_spec(),
            final(self).overlap_spec() == old(self).overlap_spec(),
            final(self).buffer_start_pos == old(self).buffer_start_pos,
            final(self).first_chunk == old(self).first_chunk,
            final(self).covered() >= old(self).covered(),
            final(self).buffer@.len() >= target || final(self).covered()
                == final(self).end_spec(),
            final(self).buffer@.len() <= vstd::math::max(
                old(self).buffer@.len() as int,
                target as int,
            ),
            final(self).buffer@.len() >= old(self).buffer@.len(),
            final(self).chunk_spec() == old(self).chunk_spec(),
            final(self).buffer@.len() > old(self).buffer@.len() || old(self).buffer@.len()
                >= target || old(self).covered() == old(self).end_spec(),
    {
        while self.buffer.len() < target && self.current_read_pos < self.end
            invariant
                self.inv_core(),
                self.src() == old(self).src(),
                self.start == old(self).start,
                self.end == old(self).end,
                self.overlap == old(self).overlap,
                self.chunk_size == old(self).chunk_size,
                self.buffer_start_pos == old(self).buffer_start_pos,
                self.first_chunk == old(self).first_chunk,
                !self.first_chunk,
                self.current_read_pos >= old(self).current_read_pos,
                self.buffer@.len() >= old(self).buffer@.len(),
                self.buffer@.len() <= vstd::math::max(
                    old(self).buffer@.len() as int,
                    target as int,
                ),
                self.buffer@.len() - old(self).buffer@.len() == self.current_read_pos - old(
                    self,
                ).current_read_pos,
            decreases self.end - self.current_read_pos,
        {
            let ob = self.iter.next();
            match ob {
                Some(b) => {
                    self.buffer.push(b);
                    self.current_read_pos = self.current_read_pos + 1;
                    proof {
                        assert(self.buffer@ =~= self.src().subrange(
                            self.buffer_start_pos as int,
                            self.current_read_pos as int,
                        ));
                    }
                },
                None => {
                    proof {
                        assert(false);
                    }
                },
            }
        }
    }

    /// Hands out the next window, or `None` once the whole range has been
    /// streamed. When a window comes back:
    /// - its buffer is exactly the content at `[absolute_pos, covered')`,
    /// - its valid zone `[absolute_pos + valid_start, covered')` begins
    ///   exactly where the previous window's ended, so the zones tile
    ///   `[start, end)` with no gap and no double count,
    /// - it either starts at `start` or keeps exactly `overlap` prefix bytes.
    pub fn next(&mut self) -> (r: Option<ChunkInfo>)
        requires
            old(self).inv(),
        ensures
            final(self).inv(),
            final(self).src() == old(self).src(),
            final(self).start_spec() == old(self).start_spec(),
            final(self).end_spec() == old(self).end_spec(),
            final(self).overlap_spec() == old(self).overlap_spec(),
            final(self).chunk_spec() == old(self).chunk_spec(),
            match r {
                None => {
                    &&& final(self).covered() == old(self).covered()
                    &&& old(self).covered() == old(self).end_spec()
                },
                Some(w) => {
                    &&& w.valid_start <= w.buffer@.len()
                    &&& w.absolute_pos + w.buffer@.len() == final(self).covered()
                    &&& w.absolute_pos + w.valid_start == old(self).covered()
                    &&& old(self).covered() < final(self).covered() <= final(self).end_spec()
                    &&& w.buffer@ == final(self).src().subrange(
                        w.absolute_pos as int,
                        w.absolute_pos + w.buffer@.len(),
                    )
                    &&& w.absolute_pos >= final(self).start_spec()
                    &&& (w.absolute_pos == final(self).start_spec() || w.valid_start
                        == final(self).overlap_spec())
                    &&& w.buffer@.len() <= final(self).overlap_spec() + final(self).chunk_spec()
                    &&& (old(self).covered() == old(self).start_spec() ==> w.absolute_pos
                        == old(self).start_spec() && w.buffer@.len() == vstd::math::min(
                        final(self).chunk_spec(),
                        final(self).end_spec() - final(self).start_spec(),
                    ))
                    &&& (old(self).covered() > old(self).start_spec() ==> w.buffer@.len()
                        == vstd::math::min(
                        final(self).overlap_spec() + final(self).chunk_spec(),
                        final(self).end_spec() - w.absolute_pos,
                    ))
                },
            },
    {
        if self.first_chunk {
            self.first_chunk = false;
            self.fill_to(self.chunk_size);
            if self.buffer.len() == 0 {
                return None;
            }
            let wb = self.buffer.clone();
            proof {
                assert(wb@ =~= self.buffer@);
            }
            return Some(
                ChunkInfo { buffer: wb, absolute_pos: self.buffer_start_pos, valid_start: 0 },
            );
        }
        if self.current_read_pos >= self.end {
            return None;
        }
        // keep at most `overlap` trailing bytes as the next window's prefix
        if self.buffer.len() > self.overlap {
            let drain_amount = self.buffer.len() - self.overlap;
            let tail = self.buffer.split_off(drain_amount);
            self.buffer = tail;
            self.buffer_start_pos = self.buffer_start_pos + drain_amount;
            proof {
                assert(self.buffer@ =~= self.src().subrange(
                    self.buffer_start_pos as int,
                    self.current_read_pos as int,
                ));
            }
        }
        let kept = self.buffer.len();
        let target = if self.chunk_size > usize::MAX - self.overlap {
            usize::MAX
        } else {
            self.overlap + self.chunk_size
        };
        self.fill_to(target);
        let wb = self.buffer.clone();
        proof {
            assert(wb@ =~= self.buffer@);
        }
        Some(ChunkInfo { buffer: wb, absolute_pos: self.buffer_start_pos, valid_start: kept })
    }
}

/// Adjacent strict order extends to any two marks.
proof fn lemma_marks_increase(marks: Seq<int>, i: int, j: int)
    requires
        forall|t: int| 0 <= t < marks.len() - 1 ==> (#[trigger] marks[t]) < marks[t + 1],
        0 <= i < j < marks.len(),
    ensures
        marks[i] < marks[j],
    decreases j - i,
{
    if i + 1 < j {
        lemma_marks_increase(marks, i, j - 1);
    }
}

/// Valid-zone coverage: the zones a stream hands out are the intervals
/// between consecutive covered marks (see `next`: each window's valid zone
/// runs from the previously covered position to the newly covered one, and
/// the stream ends only once `end` is covered). For any such strictly
/// increasing chain of marks from `start` to `end`, every position of
/// `[start, end)` lies in exactly one zone: no gaps, no double counts.
#[verifier::rlimit(50)]
pub proof fn lemma_valid_zones_tile(marks: Seq<int>, start: int, end: int, p: int)
    requires
        marks.len() >= 1,
        marks[0] == start,
        marks.last() == end,
        forall|t: int| 0 <= t < marks.len() - 1 ==> (#[trigger] marks[t]) < marks[t + 1],
        start <= p < end,
    ensures
        exists|i: int| 0 <= i < marks.len() - 1 && (#[trigger] marks[i]) <= p < marks[i + 1],
        forall|i: int, j: int|
            #![trigger marks[i], marks[j]]
            0 <= i < marks.len() - 1 && marks[i] <= p < marks[i + 1] && 0 <= j < marks.len() - 1
                && marks[j] <= p < marks[j + 1] ==> i == j,
    decreases marks.len(),
{
    assert(marks.len() >= 2);
    if p < marks[1] {
        assert(marks[0] <= p < marks[1]);
    } else {
        let tail = marks.drop_first();
        assert forall|t: int| 0 <= t < tail.len() - 1 implies (#[trigger] tail[t]) < tail[t
            + 1] by {
            assert(tail[t] == marks[t + 1]);
            assert(tail[t + 1] == marks[t + 2]);
        }
        assert(tail[0] == marks[1]);
        assert(tail.last() == marks.last());
        lemma_valid_zones_tile(tail, marks[1], end, p);
        let i = choose|i: int| 0 <= i < tail.len() - 1 && (#[trigger] tail[i]) <= p < tail[i + 1];
        assert(tail[i] == marks[i + 1]);
        assert(tail[i + 1] == marks[i + 2]);
        assert(0 <= i + 1 < marks.len() - 1 && marks[i + 1] <= p < marks[i + 1 + 1]);
    }
    assert forall|i: int, j: int|
        #![trigger marks[i], marks[j]]
        0 <= i < marks.len() - 1 && marks[i] <= p < marks[i + 1] && 0 <= j < marks.len() - 1
            && marks[j] <= p < marks[j + 1] implies i == j by {
        if i < j {
            if i + 1 < j {
                lemma_marks_increase(marks, i + 1, j);
            }
            assert(marks[i + 1] <= marks[j]);
        } else if j < i {
            if j + 1 < i {
                lemma_marks_increase(marks, j + 1, i);
            }
            assert(marks[j + 1] <= marks[i]);
        }
    }
}

} // verus!
