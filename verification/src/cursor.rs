//! Byte cursor: a bidirectional, position-tracking reader over one pinned
//! tree snapshot.
//!
//! The cursor holds its own handle on the snapshot's root, so edits that
//! replace the store's current tree never affect it: it keeps reading the
//! version that was live when it was created.
use crate::tree::{node_byte_at, node_wf, ChunkTree, ChunkTreeConfig, Node};
use vstd::prelude::*;

verus! {

use std::rc::Rc;

pub struct ByteCursor {
    root: Rc<Node>,
    pos: usize,
    total: usize,
    cfg: Ghost<ChunkTreeConfig>,
}

impl View for ByteCursor {
    type V = Seq<u8>;

    closed spec fn view(&self) -> Seq<u8> {
        crate::tree::node_bytes(*self.root)
    }
}

impl ByteCursor {
    pub closed spec fn wf(self) -> bool {
        &&& self.cfg@.wf()
        &&& node_wf(*self.root, self.cfg@)
        &&& self.total == self@.len()
        &&& self.pos <= self.total
    }

    /// The cursor's absolute byte position, in `[0, buffer_len]`.
    pub closed spec fn position_spec(self) -> int {
        self.pos as int
    }

    /// Pins the given tree version and starts at `pos`, clamped to its end.
    pub fn new_at(tree: &ChunkTree, pos: usize) -> (r: ByteCursor)
        requires
            tree.wf(),
        ensures
            r@ == tree@,
            r.wf(),
            r.position_spec() == vstd::math::min(pos as int, tree@.len() as int),
    {
        let total = tree.len();
        let p = if pos > total {
            total
        } else {
            pos
        };
        ByteCursor { root: tree.share_root(), pos: p, total, cfg: Ghost(tree.config()) }
    }

    pub fn position(&self) -> (r: usize)
        ensures
            r == self.position_spec(),
    {
        self.pos
    }

    /// The total length of the pinned snapshot.
    pub fn buffer_len(&self) -> (r: usize)
        requires
            self.wf(),
        ensures
            r == self@.len(),
    {
        self.total
    }

    /// The byte under the cursor, without moving; `None` at the end.
    pub fn peek(&self) -> (r: Option<u8>)
        requires
            self.wf(),
        ensures
            r is Some <==> self.position_spec() < self@.len(),
            self.position_spec() < self@.len() ==> r == Some(self@[self.position_spec()]),
            self.position_spec() == self@.len() ==> r is None,
    {
        if self.pos < self.total {
            Some(node_byte_at(&self.root, self.pos, Ghost(self.cfg@)))
        } else {
            None
        }
    }

    /// Returns the byte under the cursor and advances past it.
    pub fn next(&mut self) -> (r: Option<u8>)
        requires
            old(self).wf(),
        ensures
            final(self).wf(),
            final(self)@ == old(self)@,
            r is Some <==> old(self).position_spec() < old(self)@.len(),
            old(self).position_spec() < old(self)@.len() ==> {
                &&& r == Some(old(self)@[old(self).position_spec()])
                &&& final(self).position_spec() == old(self).position_spec() + 1
            },
            old(self).position_spec() == old(self)@.len() ==> {
                &&& r is None
                &&& final(self).position_spec() == old(self).position_spec()
            },
    {
        if self.pos < self.total {
            let b = node_byte_at(&self.root, self.pos, Ghost(self.cfg@));
            self.pos = self.pos + 1;
            Some(b)
        } else {
            None
        }
    }

    /// Retreats by one and returns the byte now under the cursor; `None` at
    /// the start.
    pub fn prev(&mut self) -> (r: Option<u8>)
        requires
            old(self).wf(),
        ensures
            final(self).wf(),
            final(self)@ == old(self)@,
            r is Some <==> old(self).position_spec() > 0,
            old(self).position_spec() > 0 ==> {
                &&& final(self).position_spec() == old(self).position_spec() - 1
                &&& r == Some(old(self)@[final(self).position_spec()])
            },
            old(self).position_spec() == 0 ==> {
                &&& r is None
                &&& final(self).position_spec() == 0
            },
    {
        if self.pos > 0 {
            self.pos = self.pos - 1;
            Some(node_byte_at(&self.root, self.pos, Ghost(self.cfg@)))
        } else {
            None
        }
    }

    /// A well-formed cursor's position never passes the end of its snapshot.
    pub proof fn lemma_position_in_bounds(&self)
        requires
            self.wf(),
        ensures
            0 <= self.position_spec() <= self@.len(),
    {
    }

    /// Jumps to an arbitrary position, clamped to `[0, buffer_len]`.
    pub fn seek(&mut self, pos: usize)
        requires
            old(self).wf(),
        ensures
            final(self).wf(),
            final(self)@ == old(self)@,
            final(self).position_spec() == vstd::math::min(pos as int, old(self)@.len() as int),
    {
        if pos > self.total {
            self.pos = self.total;
        } else {
            self.pos = pos;
        }
    }
}

} // verus!
