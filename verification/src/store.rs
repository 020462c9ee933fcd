//! Snapshot store: owns the current tree version and swaps it on edit.
//!
//! This is the sole mutation point for file content. Edits replace the stored
//! handle with the new root returned by the tree operation; existing trees
//! are never mutated in place, so cursors pinned to an older version keep
//! reading it unchanged.
use crate::cursor::ByteCursor;
use crate::tree::{read_spec, splice_delete, splice_insert, ChunkTree, ChunkTreeConfig};
use vstd::prelude::*;

verus! {

pub struct SnapshotStore {
    tree: ChunkTree,
}

impl View for SnapshotStore {
    type V = Seq<u8>;

    closed spec fn view(&self) -> Seq<u8> {
        self.tree@
    }
}

impl SnapshotStore {
    pub closed spec fn wf(self) -> bool {
        self.tree.wf()
    }

    pub closed spec fn config(self) -> ChunkTreeConfig {
        self.tree.config()
    }

    /// An empty store with the given tree shape parameters.
    pub fn new_empty(cfg: ChunkTreeConfig) -> (r: SnapshotStore)
        requires
            cfg.wf(),
        ensures
            r@ == Seq::<u8>::empty(),
            r.wf(),
    {
        let empty: [u8; 0] = [];
        let t = ChunkTree::from_slice(&empty, cfg);
        proof {
            assert(t@ =~= Seq::<u8>::empty());
        }
        SnapshotStore { tree: t }
    }

    /// A store over a pre-built tree version.
    pub fn from_tree(tree: ChunkTree) -> (r: SnapshotStore)
        requires
            tree.wf(),
        ensures
            r@ == tree@,
            r.wf(),
    {
        SnapshotStore { tree }
    }

    pub fn len(&self) -> (r: usize)
        requires
            self.wf(),
        ensures
            r == self@.len(),
    {
        self.tree.len()
    }

    /// Reads up to `len` bytes from `offset`, clamped to the content bounds.
    pub fn read(&self, offset: usize, len: usize) -> (r: Vec<u8>)
        requires
            self.wf(),
        ensures
            r@ == read_spec(self@, offset as int, len as int),
    {
        self.tree.read(offset, len)
    }

    /// Splices `data` in at `pos` (clamped to the end) and swaps the stored
    /// version for the new root. Empty payloads are a no-op.
    pub fn insert(&mut self, pos: usize, data: &[u8])
        requires
            old(self).wf(),
            old(self)@.len() + data@.len() <= usize::MAX,
        ensures
            final(self).wf(),
            final(self).config() == old(self).config(),
            final(self)@ == splice_insert(
                old(self)@,
                vstd::math::min(pos as int, old(self)@.len() as int),
                data@,
            ),
    {
        if data.len() == 0 {
            proof {
                let p = vstd::math::min(pos as int, self@.len() as int);
                assert(splice_insert(self@, p, data@) =~= self@);
            }
            return ;
        }
        let total = self.tree.len();
        let p = if pos > total {
            total
        } else {
            pos
        };
        self.tree = self.tree.insert(p, data);
    }

    /// Removes the byte range `[start, end)`, clamped to the content bounds,
    /// and swaps the stored version. Empty or inverted ranges are a no-op.
    pub fn delete(&mut self, start: usize, end: usize)
        requires
            old(self).wf(),
        ensures
            final(self).wf(),
            final(self).config() == old(self).config(),
            final(self)@ == splice_delete(
                old(self)@,
                vstd::math::min(start as int, old(self)@.len() as int),
                vstd::math::max(
                    vstd::math::min(end as int, old(self)@.len() as int),
                    vstd::math::min(start as int, old(self)@.len() as int),
                ),
            ),
    {
        let total = self.tree.len();
        let s = if start > total {
            total
        } else {
            start
        };
        let e0 = if end > total {
            total
        } else {
            end
        };
        let e = if e0 < s {
            s
        } else {
            e0
        };
        if s == e {
            proof {
                assert(splice_delete(self@, s as int, e as int) =~= self@);
            }
            return ;
        }
        self.tree = self.tree.delete(s, e);
    }

    /// A cursor pinned to the current version, starting at `pos`.
    pub fn iter_at(&self, pos: usize) -> (r: ByteCursor)
        requires
            self.wf(),
        ensures
            r@ == self@,
            r.wf(),
            r.position_spec() == vstd::math::min(pos as int, self@.len() as int),
    {
        ByteCursor::new_at(&self.tree, pos)
    }
}

} // verus!
