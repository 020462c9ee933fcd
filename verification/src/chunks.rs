//! Character-indexed chunks and their line iterator: a chunk holds a run of
//! characters loaded from disk, and splits into lines on newline characters
//! from either end.
use crate::lines::LoadedLine;
use vstd::prelude::*;

verus! {

/// The index of the first newline in `s`, or -1 when there is none.
pub open spec fn first_nl_at(s: Seq<char>) -> int
    decreases s.len(),
{
    if s.len() == 0 {
        -1
    } else if s[0] == '\n' {
        0
    } else {
        let r = first_nl_at(s.drop_first());
        if r < 0 {
            -1
        } else {
            r + 1
        }
    }
}

/// `s` cut at a newline with no earlier newline before it has that prefix
/// as its first segment.
proof fn lemma_first_nl_from(s: Seq<char>, b: int)
    requires
        0 <= b <= s.len(),
        forall|q: int| 0 <= q < b ==> s[q] != '\n',
        b < s.len() ==> s[b] == '\n',
    ensures
        b < s.len() ==> first_nl_at(s) == b,
        b == s.len() ==> first_nl_at(s) < 0,
    decreases b,
{
    if b > 0 {
        lemma_first_nl_from(s.drop_first(), b - 1);
    }
}

/// The segments of `s` between newline characters; `n` newlines give
/// `n + 1` segments, so content ending in a newline ends with an empty
/// segment.
pub open spec fn split_lines(s: Seq<char>) -> Seq<Seq<char>>
    decreases s.len(),
{
    let f = first_nl_at(s);
    if f < 0 {
        seq![s]
    } else if f >= s.len() {
        seq![s]
    } else {
        seq![s.subrange(0, f)] + split_lines(s.skip(f + 1))
    }
}

/// An immutable run of characters as loaded from disk.
pub struct Chunk {
    file_offset: u64,
    is_modified: bool,
    data: Vec<char>,
}

impl View for Chunk {
    type V = Seq<char>;

    closed spec fn view(&self) -> Seq<char> {
        self.data@
    }
}

impl Chunk {
    pub fn from_disk(file_offset: u64, data: &[char]) -> (r: Chunk)
        ensures
            r@ == data@,
    {
        let mut v: Vec<char> = Vec::new();
        v.extend_from_slice(data);
        proof {
            assert(v@ =~= data@);
        }
        Chunk { file_offset, is_modified: false, data: v }
    }

    /// A double-ended iterator over the chunk's lines.
    pub fn lines_iter(&self) -> (r: ChunkLinesIter)
        ensures
            r.wf(),
            r.remaining() == split_lines(self@),
    {
        let mut segs: Vec<LoadedLine> = Vec::new();
        let mut seg_start: usize = 0;
        let mut cur: Vec<char> = Vec::new();
        let mut i: usize = 0;
        let ghost d = self.data@;
        proof {
            assert(d.skip(0) =~= d);
            assert(cur@ =~= d.subrange(0, 0));
        }
        while i < self.data.len()
            invariant
                d == self.data@,
                seg_start <= i <= d.len(),
                cur@ == d.subrange(seg_start as int, i as int),
                forall|q: int| seg_start <= q < i ==> d[q] != '\n',
                split_lines(d) == segs@.map(|_t: int, l: LoadedLine| l@) + split_lines(
                    d.skip(seg_start as int),
                ),
            decreases d.len() - i,
        {
            let c = self.data[i];
            if c == '\n' {
                let ghost tail = d.skip(seg_start as int);
                proof {
                    assert(forall|q: int|
                        0 <= q < i - seg_start ==> tail[q] == d[seg_start + q] && tail[q] != '\n');
                    assert(tail[i - seg_start] == '\n');
                    lemma_first_nl_from(tail, i - seg_start);
                    assert(tail.subrange(0, i - seg_start) =~= d.subrange(
                        seg_start as int,
                        i as int,
                    ));
                    assert(tail.skip(i - seg_start + 1) =~= d.skip(i as int + 1));
                }
                let line = LoadedLine::from_vec(cur);
                let ghost old_segs = segs@;
                segs.push(line);
                proof {
                    assert(segs@.map(|_t: int, l: LoadedLine| l@) =~= old_segs.map(
                        |_t: int, l: LoadedLine| l@,
                    ).push(line@));
                    assert(split_lines(tail) == seq![line@] + split_lines(d.skip(i as int + 1)));
                    assert(old_segs.map(|_t: int, l: LoadedLine| l@).push(line@) + split_lines(
                        d.skip(i as int + 1),
                    ) =~= old_segs.map(|_t: int, l: LoadedLine| l@) + split_lines(tail));
                }
                cur = Vec::new();
                seg_start = i + 1;
                proof {
                    assert(cur@ =~= d.subrange(seg_start as int, seg_start as int));
                }
            } else {
                cur.push(c);
                proof {
                    assert(cur@ =~= d.subrange(seg_start as int, i as int + 1));
                }
            }
            i = i + 1;
        }
        let ghost tail = d.skip(seg_start as int);
        proof {
            assert(forall|q: int|
                0 <= q < tail.len() ==> tail[q] == d[seg_start + q] && tail[q] != '\n');
            lemma_first_nl_from(tail, tail.len() as int);
            assert(tail =~= d.subrange(seg_start as int, d.len() as int));
        }
        let line = LoadedLine::from_vec(cur);
        let ghost old_segs = segs@;
        segs.push(line);
        proof {
            assert(segs@.map(|_t: int, l: LoadedLine| l@) =~= old_segs.map(
                |_t: int, l: LoadedLine| l@,
            ).push(line@));
            assert(split_lines(tail) =~= seq![line@]);
            assert(old_segs.map(|_t: int, l: LoadedLine| l@).push(line@) =~= old_segs.map(
                |_t: int, l: LoadedLine| l@,
            ) + split_lines(tail));
        }
        let n = segs.len();
        ChunkLinesIter { segs, front: 0, back: n }
    }
}

/// Iterates the lines of a chunk from either end; the two ends share the
/// remaining region, as a double-ended iterator does.
pub struct ChunkLinesIter {
    segs: Vec<LoadedLine>,
    front: usize,
    back: usize,
}

impl ChunkLinesIter {
    pub closed spec fn wf(self) -> bool {
        self.front <= self.back <= self.segs@.len()
    }

    /// The lines not yet handed out, in order.
    pub closed spec fn remaining(self) -> Seq<Seq<char>> {
        self.segs@.subrange(self.front as int, self.back as int).map(
            |_t: int, l: LoadedLine| l@,
        )
    }

    /// The next line from the front, or `None` when the ends have met.
    pub fn next(&mut self) -> (r: Option<LoadedLine>)
        requires
            old(self).wf(),
        ensures
            final(self).wf(),
            old(self).remaining().len() == 0 ==> r is None && final(self).remaining()
                == old(self).remaining(),
            old(self).remaining().len() > 0 ==> (r matches Some(l) && l@ == old(
                self,
            ).remaining()[0] && final(self).remaining() == old(self).remaining().drop_first()),
    {
        if self.front < self.back {
            let l = self.segs[self.front].chars_iter();
            self.front = self.front + 1;
            proof {
                assert(old(self).remaining()[0] == old(self).segs@[old(self).front as int]@);
                assert(final(self).remaining() =~= old(self).remaining().drop_first());
            }
            Some(LoadedLine::from_vec(l))
        } else {
            proof {
                assert(final(self).remaining() =~= old(self).remaining());
            }
            None
        }
    }

    /// The next line from the back, or `None` when the ends have met.
    pub fn next_back(&mut self) -> (r: Option<LoadedLine>)
        requires
            old(self).wf(),
        ensures
            final(self).wf(),
            old(self).remaining().len() == 0 ==> r is None && final(self).remaining()
                == old(self).remaining(),
            old(self).remaining().len() > 0 ==> (r matches Some(l) && l@ == old(
                self,
            ).remaining().last() && final(self).remaining() == old(self).remaining().drop_last()),
    {
        if self.front < self.back {
            self.back = self.back - 1;
            let l = self.segs[self.back].chars_iter();
            proof {
                assert(old(self).remaining().last() == old(self).segs@[old(self).back - 1]@);
                assert(final(self).remaining() =~= old(self).remaining().drop_last());
            }
            Some(LoadedLine::from_vec(l))
        } else {
            proof {
                assert(final(self).remaining() =~= old(self).remaining());
            }
            None
        }
    }
}

} // verus!
