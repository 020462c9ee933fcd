//! Content tree: a persistent, height-balanced tree of byte chunks.
//!
//! Leaves hold contiguous byte runs of at most `chunk_size` bytes; internal
//! nodes hold child handles tagged with each child's subtree byte count, so a
//! point lookup descends by offset. Edits build new roots and share every
//! unmodified subtree through `Rc`, which is what lets a cursor keep reading
//! an old snapshot while newer versions are created elsewhere.
use vstd::prelude::*;

verus! {

use std::rc::Rc;

/// Tree shape parameters: target leaf size and branching factor.
#[derive(Clone, Copy)]
pub struct ChunkTreeConfig {
    pub chunk_size: usize,
    pub max_children: usize,
}

impl ChunkTreeConfig {
    pub open spec fn wf(self) -> bool {
        self.chunk_size >= 1 && self.max_children >= 2
    }

    pub fn new(chunk_size: usize, max_children: usize) -> (r: ChunkTreeConfig)
        requires
            chunk_size >= 1,
            max_children >= 2,
        ensures
            r.chunk_size == chunk_size,
            r.max_children == max_children,
            r.wf(),
    {
        ChunkTreeConfig { chunk_size, max_children }
    }
}

/// A child handle: the byte count of the subtree, and the shared subtree.
pub type Child = (usize, Rc<Node>);

pub enum Node {
    Leaf(Vec<u8>),
    Internal(Vec<Child>),
}

/// The byte sequence a node stands for.
pub open spec fn node_bytes(n: Node) -> Seq<u8>
    decreases n,
{
    match n {
        Node::Leaf(d) => d@,
        Node::Internal(cs) => children_bytes(cs@),
    }
}

/// The concatenation of the byte sequences of a run of children.
pub open spec fn children_bytes(cs: Seq<Child>) -> Seq<u8>
    decreases cs,
{
    if cs.len() == 0 {
        Seq::empty()
    } else {
        node_bytes(*cs[0].1) + children_bytes(cs.drop_first())
    }
}

/// The bytes of the `i`-th child of a run.
pub open spec fn child_bytes_at(cs: Seq<Child>, i: int) -> Seq<u8> {
    node_bytes(*cs[i].1)
}

/// Height of a subtree; every child of one internal node has the same height.
pub open spec fn depth(n: Node) -> nat
    decreases n,
{
    match n {
        Node::Leaf(_) => 0,
        Node::Internal(cs) => if cs@.len() == 0 {
            1
        } else {
            depth(*cs@[0].1) + 1
        },
    }
}

/// Each handle carries its subtree's true byte count, the subtree is
/// well formed, and all subtrees have the same height `d`.
pub open spec fn children_ok(cs: Seq<Child>, cfg: ChunkTreeConfig, d: nat) -> bool
    decreases cs,
{
    forall|i: int|
        0 <= i < cs.len() ==> {
            &&& (#[trigger] cs[i]).0 == node_bytes(*cs[i].1).len()
            &&& node_wf(*cs[i].1, cfg)
            &&& depth(*cs[i].1) == d
        }
}

/// Height of the `i`-th child of a run.
pub open spec fn child_depth_at(cs: Seq<Child>, i: int) -> nat {
    depth(*cs[i].1)
}

/// Well-formedness: leaves within the chunk size, internal nodes with
/// 1..=max_children children of equal height and correct size tags.
pub open spec fn node_wf(n: Node, cfg: ChunkTreeConfig) -> bool
    decreases n,
{
    match n {
        Node::Leaf(d) => d@.len() <= cfg.chunk_size,
        Node::Internal(cs) => {
            &&& 1 <= cs@.len() <= cfg.max_children
            &&& children_ok(cs@, cfg, depth(*cs@[0].1))
        },
    }
}

pub proof fn lemma_children_bytes_concat(a: Seq<Child>, b: Seq<Child>)
    ensures
        children_bytes(a + b) == children_bytes(a) + children_bytes(b),
    decreases a,
{
    if a.len() == 0 {
        assert(a + b =~= b);
        assert(children_bytes(a) + children_bytes(b) =~= children_bytes(b));
    } else {
        assert((a + b).drop_first() =~= a.drop_first() + b);
        lemma_children_bytes_concat(a.drop_first(), b);
        assert(children_bytes(a + b) =~= children_bytes(a) + children_bytes(b));
    }
}

pub proof fn lemma_children_bytes_push(cs: Seq<Child>, c: Child)
    ensures
        children_bytes(cs.push(c)) == children_bytes(cs) + node_bytes(*c.1),
{
    assert(cs.push(c) =~= cs + seq![c]);
    lemma_children_bytes_concat(cs, seq![c]);
    assert(seq![c].drop_first() =~= Seq::<Child>::empty());
    assert(seq![c][0] == c);
    assert(children_bytes(Seq::<Child>::empty()) =~= Seq::<u8>::empty());
    assert(children_bytes(seq![c]) =~= node_bytes(*c.1) + Seq::<u8>::empty());
    assert(node_bytes(*c.1) + Seq::<u8>::empty() =~= node_bytes(*c.1));
}

/// Splits off the first child: bytes of the run are the first subtree's bytes
/// followed by the rest.
pub proof fn lemma_children_bytes_skip(cs: Seq<Child>, j: int)
    requires
        0 <= j < cs.len(),
    ensures
        children_bytes(cs.skip(j)) == node_bytes(*cs[j].1) + children_bytes(cs.skip(j + 1)),
{
    assert(cs.skip(j).len() > 0);
    assert(cs.skip(j)[0] == cs[j]);
    assert(cs.skip(j).drop_first() =~= cs.skip(j + 1));
}

pub proof fn lemma_children_bytes_take_push(cs: Seq<Child>, j: int)
    requires
        0 <= j < cs.len(),
    ensures
        children_bytes(cs.take(j + 1)) == children_bytes(cs.take(j)) + node_bytes(*cs[j].1),
{
    assert(cs.take(j + 1) =~= cs.take(j).push(cs[j]));
    lemma_children_bytes_push(cs.take(j), cs[j]);
}

pub proof fn lemma_children_bytes_split(cs: Seq<Child>, j: int)
    requires
        0 <= j <= cs.len(),
    ensures
        children_bytes(cs) == children_bytes(cs.take(j)) + children_bytes(cs.skip(j)),
{
    assert(cs =~= cs.take(j) + cs.skip(j));
    lemma_children_bytes_concat(cs.take(j), cs.skip(j));
}

/// The sequence with `d` spliced in at position `i`.
pub open spec fn splice_insert(s: Seq<u8>, i: int, d: Seq<u8>) -> Seq<u8> {
    s.take(i) + d + s.skip(i)
}

/// The sequence with the range `[a, b)` removed.
pub open spec fn splice_delete(s: Seq<u8>, a: int, b: int) -> Seq<u8> {
    s.take(a) + s.skip(b)
}

pub proof fn lemma_children_ok_subrange(cs: Seq<Child>, cfg: ChunkTreeConfig, d: nat, a: int, b: int)
    requires
        children_ok(cs, cfg, d),
        0 <= a <= b <= cs.len(),
    ensures
        children_ok(cs.subrange(a, b), cfg, d),
{
    assert forall|i: int| 0 <= i < cs.subrange(a, b).len() implies {
        &&& (#[trigger] cs.subrange(a, b)[i]).0 == node_bytes(*cs.subrange(a, b)[i].1).len()
        &&& node_wf(*cs.subrange(a, b)[i].1, cfg)
        &&& depth(*cs.subrange(a, b)[i].1) == d
    } by {
        assert(cs.subrange(a, b)[i] == cs[a + i]);
    }
}

/// The byte at index `i` of the subtree under `n`.
pub fn node_byte_at(n: &Node, i: usize, cfg: Ghost<ChunkTreeConfig>) -> (r: u8)
    requires
        node_wf(*n, cfg@),
        i < node_bytes(*n).len(),
    ensures
        r == node_bytes(*n)[i as int],
    decreases *n,
{
    match n {
        Node::Leaf(d) => d[i],
        Node::Internal(cs) => {
            let mut j: usize = 0;
            let mut rem: usize = i;
            proof {
                assert(node_bytes(*n) == children_bytes(cs@));
                assert(cs@.skip(0) =~= cs@);
            }
            loop
                invariant
                    node_wf(*n, cfg@),
                    *n == Node::Internal(*cs),
                    j < cs@.len(),
                    rem < children_bytes(cs@.skip(j as int)).len(),
                    children_bytes(cs@.skip(j as int))[rem as int] == node_bytes(*n)[i as int],
                decreases cs@.len() - j,
            {
                proof {
                    lemma_children_bytes_skip(cs@, j as int);
                }
                let size_j = cs[j].0;
                if rem < size_j {
                    let sub = &cs[j].1;
                    return node_byte_at(sub, rem, cfg);
                }
                proof {
                    if j + 1 >= cs@.len() {
                        assert(cs@.skip(j as int + 1) =~= Seq::<Child>::empty());
                        assert(false);
                    }
                }
                rem = rem - size_j;
                j = j + 1;
            }
        },
    }
}

/// Cuts `data` into leaf handles of at most `chunk_size` bytes each.
fn make_leaves(data: &Vec<u8>, cfg: ChunkTreeConfig) -> (res: Vec<Child>)
    requires
        cfg.wf(),
    ensures
        children_bytes(res@) == data@,
        children_ok(res@, cfg, 0),
        res@.len() >= 1 <==> data@.len() >= 1,
{
    let mut out: Vec<Child> = Vec::new();
    let mut pos: usize = 0;
    proof {
        assert(data@.take(0) =~= Seq::<u8>::empty());
    }
    while pos < data.len()
        invariant
            cfg.wf(),
            pos <= data@.len(),
            children_bytes(out@) == data@.take(pos as int),
            children_ok(out@, cfg, 0),
            out@.len() >= 1 <==> pos >= 1,
        decreases data@.len() - pos,
    {
        let take_n = if data.len() - pos < cfg.chunk_size {
            data.len() - pos
        } else {
            cfg.chunk_size
        };
        let mut buf: Vec<u8> = Vec::new();
        buf.extend_from_slice(&data.as_slice()[pos..pos + take_n]);
        proof {
            assert(buf@ =~= data@.subrange(pos as int, pos as int + take_n as int));
        }
        let ghost old_out = out@;
        let c: Child = (take_n, Rc::new(Node::Leaf(buf)));
        out.push(c);
        proof {
            lemma_children_bytes_push(old_out, c);
            assert(children_bytes(out@) =~= data@.take(pos as int + take_n as int));
        }
        pos = pos + take_n;
    }
    proof {
        assert(data@.take(pos as int) =~= data@);
    }
    out
}

/// Wraps consecutive runs of at most `max_children` handles, all of height
/// `d`, into internal nodes of height `d + 1`.
fn group_level(handles: &Vec<Child>, cfg: ChunkTreeConfig, d: Ghost<nat>) -> (res: Vec<Child>)
    requires
        cfg.wf(),
        handles@.len() >= 1,
        children_ok(handles@, cfg, d@),
        children_bytes(handles@).len() <= usize::MAX,
    ensures
        children_bytes(res@) == children_bytes(handles@),
        children_ok(res@, cfg, d@ + 1),
        res@.len() >= 1,
        res@.len() < handles@.len() || handles@.len() == 1,
        handles@.len() <= cfg.max_children ==> res@.len() == 1,
    decreases handles@.len(),
{
    let n = handles.len();
    let mut out: Vec<Child> = Vec::new();
    let mut j: usize = 0;
    proof {
        assert(handles@.take(0) =~= Seq::<Child>::empty());
    }
    while j < n
        invariant
            cfg.wf(),
            n == handles@.len(),
            n >= 1,
            children_ok(handles@, cfg, d@),
            children_bytes(handles@).len() <= usize::MAX,
            j <= n,
            children_bytes(out@) == children_bytes(handles@.take(j as int)),
            children_ok(out@, cfg, d@ + 1),
            out@.len() >= 1 <==> j >= 1,
            n >= 2 ==> (j == 0 || out@.len() < j),
            n <= cfg.max_children ==> (j == 0 || j == n),
            n <= cfg.max_children ==> out@.len() <= 1,
        decreases n - j,
    {
        let g = if n - j < cfg.max_children {
            n - j
        } else {
            cfg.max_children
        };
        let mut grp: Vec<Child> = Vec::new();
        let mut size_acc: usize = 0;
        let mut k: usize = 0;
        proof {
            assert(handles@.subrange(j as int, j as int) =~= Seq::<Child>::empty());
        }
        while k < g
            invariant
                cfg.wf(),
                n == handles@.len(),
                children_ok(handles@, cfg, d@),
                children_bytes(handles@).len() <= usize::MAX,
                j + g <= n,
                k <= g,
                grp@ == handles@.subrange(j as int, j as int + k as int),
                size_acc == children_bytes(grp@).len(),
            decreases g - k,
        {
            let c: Child = (handles[j + k].0, handles[j + k].1.clone());
            proof {
                assert(c == handles@[j as int + k as int]);
                lemma_children_bytes_push(grp@, c);
                let s1 = handles@.subrange(j as int, j as int + k as int + 1);
                assert(grp@.push(c) =~= s1);
                lemma_children_bytes_split(handles@, j as int + k as int + 1);
                lemma_children_bytes_split(handles@.take(j as int + k as int + 1), j as int);
                assert(handles@.take(j as int + k as int + 1).take(j as int) =~= handles@.take(
                    j as int,
                ));
                assert(handles@.take(j as int + k as int + 1).skip(j as int) =~= s1);
                assert(children_bytes(s1).len() <= children_bytes(handles@).len());
            }
            size_acc = size_acc + c.0;
            grp.push(c);
            proof {
                assert(grp@ =~= handles@.subrange(j as int, j as int + k as int + 1));
            }
            k = k + 1;
        }
        let ghost old_out = out@;
        let node: Child = (size_acc, Rc::new(Node::Internal(grp)));
        proof {
            let gs = handles@.subrange(j as int, j as int + g as int);
            lemma_children_ok_subrange(handles@, cfg, d@, j as int, j as int + g as int);
            assert(node_bytes(*node.1) == children_bytes(gs));
            assert(depth(*node.1) == d@ + 1);
            assert(node_wf(*node.1, cfg));
            lemma_children_bytes_push(old_out, node);
            lemma_children_bytes_split(handles@.take(j as int + g as int), j as int);
            assert(handles@.take(j as int + g as int).take(j as int) =~= handles@.take(j as int));
            assert(handles@.take(j as int + g as int).skip(j as int) =~= gs);
            assert(children_bytes(out@.push(node)) =~= children_bytes(handles@.take(j as int + g as int)));
            assert forall|i: int| 0 <= i < old_out.push(node).len() implies {
                &&& (#[trigger] old_out.push(node)[i]).0 == node_bytes(*old_out.push(node)[i].1).len()
                &&& node_wf(*old_out.push(node)[i].1, cfg)
                &&& depth(*old_out.push(node)[i].1) == d@ + 1
            } by {
                if i < old_out.len() {
                    assert(old_out.push(node)[i] == old_out[i]);
                } else {
                    assert(old_out.push(node)[i] == node);
                }
            }
        }
        out.push(node);
        j = j + g;
    }
    proof {
        assert(handles@.take(n as int) =~= handles@);
    }
    out
}

/// Inserting into the middle part of a three-way split touches only that part.
pub proof fn lemma_splice_insert_mid(x: Seq<u8>, y: Seq<u8>, z: Seq<u8>, i: int, d: Seq<u8>)
    requires
        x.len() <= i <= x.len() + y.len(),
    ensures
        splice_insert(x + y + z, i, d) == x + splice_insert(y, i - x.len(), d) + z,
{
    assert((x + y + z).take(i) =~= x + y.take(i - x.len() as int));
    assert((x + y + z).skip(i) =~= y.skip(i - x.len() as int) + z);
    assert(splice_insert(x + y + z, i, d) =~= x + splice_insert(y, i - x.len(), d) + z);
}

/// Replaces the subtree under `n` by subtrees carrying the same bytes with
/// `data` spliced in at `offset`; the handles returned all have the height
/// of `n`, so the caller can splice them into the parent's child list.
fn insert_rec(n: &Node, offset: usize, data: &Vec<u8>, cfg: ChunkTreeConfig) -> (res: Vec<Child>)
    requires
        cfg.wf(),
        node_wf(*n, cfg),
        offset <= node_bytes(*n).len(),
        data@.len() >= 1,
        node_bytes(*n).len() + data@.len() <= usize::MAX,
    ensures
        children_bytes(res@) == splice_insert(node_bytes(*n), offset as int, data@),
        children_ok(res@, cfg, depth(*n)),
        res@.len() >= 1,
    decreases *n,
{
    match n {
        Node::Leaf(d) => {
            let mut content: Vec<u8> = Vec::new();
            content.extend_from_slice(&d.as_slice()[0..offset]);
            content.extend_from_slice(data.as_slice());
            content.extend_from_slice(&d.as_slice()[offset..d.len()]);
            proof {
                assert(content@ =~= splice_insert(node_bytes(*n), offset as int, data@));
            }
            make_leaves(&content, cfg)
        },
        Node::Internal(cs) => {
            let ghost full = children_bytes(cs@);
            let mut j: usize = 0;
            let mut rem: usize = offset;
            proof {
                assert(cs@.take(0) =~= Seq::<Child>::empty());
                assert(children_bytes(Seq::<Child>::empty()) =~= Seq::<u8>::empty());
                assert(cs@.skip(0) =~= cs@);
            }
            while rem > cs[j].0
                invariant
                    cfg.wf(),
                    node_wf(*n, cfg),
                    *n == Node::Internal(*cs),
                    j < cs@.len(),
                    offset == children_bytes(cs@.take(j as int)).len() + rem,
                    rem <= children_bytes(cs@.skip(j as int)).len(),
                decreases cs@.len() - j,
            {
                proof {
                    lemma_children_bytes_skip(cs@, j as int);
                    if j + 1 >= cs@.len() {
                        assert(cs@.skip(j as int + 1) =~= Seq::<Child>::empty());
                        assert(false);
                    }
                    lemma_children_bytes_take_push(cs@, j as int);
                }
                rem = rem - cs[j].0;
                j = j + 1;
            }
            proof {
                lemma_children_bytes_skip(cs@, j as int);
                lemma_children_bytes_split(cs@, j as int);
            }
            let pieces = insert_rec(&cs[j].1, rem, data, cfg);
            let ghost d0 = child_depth_at(cs@, 0);
            let mut nc: Vec<Child> = Vec::new();
            let mut t: usize = 0;
            proof {
                assert(cs@.take(0) =~= Seq::<Child>::empty());
            }
            while t < j
                invariant
                    *n == Node::Internal(*cs),
                    j < cs@.len(),
                    t <= j,
                    nc@ == cs@.take(t as int),
                decreases j - t,
            {
                let c: Child = (cs[t].0, cs[t].1.clone());
                proof {
                    assert(c == cs@[t as int]);
                    assert(cs@.take(t as int).push(c) =~= cs@.take(t as int + 1));
                }
                nc.push(c);
                t = t + 1;
            }
            let mut pieces_m = pieces;
            let ghost pieces_v = pieces_m@;
            nc.append(&mut pieces_m);
            let mut t2: usize = j + 1;
            while t2 < cs.len()
                invariant
                    *n == Node::Internal(*cs),
                    j < cs@.len(),
                    j + 1 <= t2 <= cs@.len(),
                    nc@ == cs@.take(j as int) + pieces_v + cs@.subrange(j as int + 1, t2 as int),
                decreases cs@.len() - t2,
            {
                let c: Child = (cs[t2].0, cs[t2].1.clone());
                proof {
                    assert(c == cs@[t2 as int]);
                    assert((cs@.take(j as int) + pieces_v + cs@.subrange(j as int + 1, t2 as int)).push(c)
                        =~= cs@.take(j as int) + pieces_v + cs@.subrange(j as int + 1, t2 as int + 1));
                }
                nc.push(c);
                t2 = t2 + 1;
            }
            proof {
                let pre = cs@.take(j as int);
                let post = cs@.skip(j as int + 1);
                assert(cs@.subrange(j as int + 1, cs@.len() as int) =~= post);
                lemma_children_bytes_concat(pre + pieces_v, post);
                lemma_children_bytes_concat(pre, pieces_v);
                assert(nc@ =~= (pre + pieces_v) + post);
                lemma_children_bytes_split(cs@, j as int);
                lemma_children_bytes_skip(cs@, j as int);
                lemma_splice_insert_mid(
                    children_bytes(pre),
                    child_bytes_at(cs@, j as int),
                    children_bytes(post),
                    offset as int,
                    data@,
                );
                assert(children_bytes(pre) + child_bytes_at(cs@, j as int) + children_bytes(post)
                    =~= children_bytes(cs@));
                assert(children_bytes(nc@) =~= splice_insert(children_bytes(cs@), offset as int, data@));
                assert forall|i: int| 0 <= i < nc@.len() implies {
                    &&& (#[trigger] nc@[i]).0 == node_bytes(*nc@[i].1).len()
                    &&& node_wf(*nc@[i].1, cfg)
                    &&& depth(*nc@[i].1) == d0
                } by {
                    if i < pre.len() {
                        assert(nc@[i] == cs@[i]);
                    } else if i < pre.len() + pieces_v.len() {
                        assert(nc@[i] == pieces_v[i - pre.len()]);
                        assert(depth(*cs@[j as int].1) == d0);
                    } else {
                        assert(nc@[i] == cs@[i - pieces_v.len() as int + 1]);
                    }
                }
                assert(children_bytes(nc@).len() <= usize::MAX);
            }
            let res = group_level(&nc, cfg, Ghost(d0));
            proof {
                assert(depth(*n) == d0 + 1);
            }
            res
        },
    }
}

/// Builds a single root over a level of same-height handles, grouping
/// repeatedly while more than one handle remains.
fn build_root(handles: Vec<Child>, cfg: ChunkTreeConfig, d: Ghost<nat>) -> (res: Child)
    requires
        cfg.wf(),
        handles@.len() >= 1,
        children_ok(handles@, cfg, d@),
        children_bytes(handles@).len() <= usize::MAX,
    ensures
        node_bytes(*res.1) == children_bytes(handles@),
        node_wf(*res.1, cfg),
        res.0 == children_bytes(handles@).len(),
{
    let mut level = handles;
    let ghost mut dd: nat = d@;
    loop
        invariant
            cfg.wf(),
            level@.len() >= 1,
            children_ok(level@, cfg, dd),
            children_bytes(level@) == children_bytes(handles@),
            children_bytes(level@).len() <= usize::MAX,
        decreases level@.len(),
    {
        if level.len() == 1 {
            let ghost lv = level@;
            let c = level.pop().unwrap();
            proof {
                assert(c == lv[0]);
                assert(lv.drop_first() =~= Seq::<Child>::empty());
                assert(children_bytes(Seq::<Child>::empty()) =~= Seq::<u8>::empty());
                assert(children_bytes(lv) =~= node_bytes(*c.1));
            }
            return c;
        }
        let next = group_level(&level, cfg, Ghost(dd));
        level = next;
        proof {
            dd = dd + 1;
        }
    }
}

/// Deleting a range from a two-way split deletes the clamped range from
/// each part.
pub proof fn lemma_splice_delete_concat(x: Seq<u8>, y: Seq<u8>, a: int, b: int)
    requires
        0 <= a <= b <= x.len() + y.len(),
    ensures
        splice_delete(x + y, a, b) == splice_delete(
            x,
            vstd::math::min(a, x.len() as int),
            vstd::math::min(b, x.len() as int),
        ) + splice_delete(y, vstd::math::max(a - x.len(), 0), vstd::math::max(b - x.len(), 0)),
{
    let xl = x.len() as int;
    if b <= xl {
        assert((x + y).take(a) =~= x.take(a));
        assert((x + y).skip(b) =~= x.skip(b) + y);
        assert(splice_delete(x + y, a, b) =~= splice_delete(x, a, b) + (y.take(0) + y.skip(0)));
    } else if a <= xl {
        assert((x + y).take(a) =~= x.take(a));
        assert((x + y).skip(b) =~= y.skip(b - xl));
        assert(splice_delete(x + y, a, b) =~= (x.take(a) + x.skip(xl)) + (y.take(0) + y.skip(b - xl)));
    } else {
        assert((x + y).take(a) =~= x + y.take(a - xl));
        assert((x + y).skip(b) =~= y.skip(b - xl));
        assert(splice_delete(x + y, a, b) =~= (x.take(xl) + x.skip(xl)) + (y.take(a - xl) + y.skip(
            b - xl,
        )));
    }
}

/// A shared copy of a run of child handles.
fn clone_children(cs: &Vec<Child>) -> (res: Vec<Child>)
    ensures
        res@ == cs@,
{
    let mut out: Vec<Child> = Vec::new();
    let mut t: usize = 0;
    proof {
        assert(out@ =~= cs@.subrange(0, 0));
    }
    while t < cs.len()
        invariant
            t <= cs@.len(),
            out@ == cs@.subrange(0, t as int),
        decreases cs@.len() - t,
    {
        let c: Child = (cs[t].0, cs[t].1.clone());
        proof {
            assert(c == cs@[t as int]);
            assert(cs@.subrange(0, t as int).push(c) =~= cs@.subrange(0, t as int + 1));
        }
        out.push(c);
        t = t + 1;
    }
    proof {
        assert(cs@.subrange(0, cs@.len() as int) =~= cs@);
    }
    out
}

/// Merges the internal children at positions `i` and `i + 1` of `cs`: their
/// grandchild lists are combined into one node when they fit, else
/// redistributed evenly over two. The run's bytes are unchanged.
fn merge_adjacent(cs: &Vec<Child>, i: usize, cfg: ChunkTreeConfig, d: Ghost<nat>) -> (res: Vec<
    Child,
>)
    requires
        cfg.wf(),
        children_ok(cs@, cfg, d@),
        i + 1 < cs@.len(),
        *cs@[i as int].1 is Internal,
        *cs@[i as int + 1].1 is Internal,
        children_bytes(cs@).len() <= usize::MAX,
    ensures
        children_bytes(res@) == children_bytes(cs@),
        children_ok(res@, cfg, d@),
        cs@.len() - 1 <= res@.len() <= cs@.len(),
{
    let cn = cs.len();
    let ghost old_cs = cs@;
    let left_gs = match &*cs[i].1 {
        Node::Internal(gs) => clone_children(gs),
        Node::Leaf(_) => {
            proof {
                assert(false);
            }
            Vec::new()
        },
    };
    let right_gs = match &*cs[i + 1].1 {
        Node::Internal(gs) => clone_children(gs),
        Node::Leaf(_) => {
            proof {
                assert(false);
            }
            Vec::new()
        },
    };
    proof {
        assert(node_wf(*old_cs[i as int].1, cfg));
        assert(node_wf(*old_cs[i as int + 1].1, cfg));
        assert(node_bytes(*old_cs[i as int].1) == children_bytes(left_gs@));
        assert(node_bytes(*old_cs[i as int + 1].1) == children_bytes(right_gs@));
    }
    let ghost d0 = (d@ - 1) as nat;
    proof {
        assert(depth(*old_cs[i as int].1) == d@);
        assert(d@ >= 1);
        assert(left_gs@.len() >= 1);
        assert(child_depth_at(left_gs@, 0) + 1 == d@);
        assert forall|k: int| 0 <= k < left_gs@.len() + right_gs@.len() implies {
            let e = #[trigger] (left_gs@ + right_gs@)[k];
            &&& e.0 == node_bytes(*e.1).len()
            &&& node_wf(*e.1, cfg)
            &&& depth(*e.1) == d0
        } by {
            if k < left_gs@.len() {
                assert((left_gs@ + right_gs@)[k] == left_gs@[k]);
            } else {
                assert((left_gs@ + right_gs@)[k] == right_gs@[k - left_gs@.len()]);
            }
        }
        lemma_children_bytes_concat(left_gs@, right_gs@);
    }
    let mut comb = left_gs;
    let mut right_m = right_gs;
    let size_l = cs[i].0;
    let size_r = cs[i + 1].0;
    comb.append(&mut right_m);
    let ghost combv = comb@;
    proof {
        lemma_children_bytes_take_push(old_cs, i as int);
        lemma_children_bytes_take_push(old_cs, i as int + 1);
        lemma_children_bytes_split(old_cs, i as int + 2);
        assert(children_bytes(old_cs.take(i as int + 2)).len() <= children_bytes(old_cs).len());
        assert(children_bytes(combv) == node_bytes(*old_cs[i as int].1) + node_bytes(
            *old_cs[i as int + 1].1,
        ));
        assert(children_bytes(combv).len() <= usize::MAX);
        assert(children_ok(combv, cfg, d0));
        assert(combv.len() >= 1);
    }
    let merged_size = size_l + size_r;
    let replacement: Vec<Child> = if comb.len() <= cfg.max_children {
        let node: Child = (merged_size, Rc::new(Node::Internal(comb)));
        proof {
            assert(node_bytes(*node.1) == children_bytes(combv));
            assert(child_depth_at(combv, 0) == d0);
            assert(depth(*node.1) == d0 + 1);
            assert(node_wf(*node.1, cfg));
        }
        let mut one: Vec<Child> = Vec::new();
        one.push(node);
        proof {
            assert(one@ =~= seq![node]);
            assert(seq![node][0] == node);
            assert(seq![node].drop_first() =~= Seq::<Child>::empty());
            assert(children_bytes(Seq::<Child>::empty()) =~= Seq::<u8>::empty());
            assert(children_bytes(one@) =~= children_bytes(combv));
            assert(children_ok(one@, cfg, d@));
        }
        one
    } else {
        // too many for one node: redistribute the grandchildren evenly
        let mid = comb.len() / 2;
        let mut left_half = comb;
        let right_half = left_half.split_off(mid);
        let ghost lh = left_half@;
        let ghost rh = right_half@;
        proof {
            assert(lh =~= combv.subrange(0, mid as int));
            assert(rh =~= combv.subrange(mid as int, combv.len() as int));
            lemma_children_bytes_split(combv, mid as int);
            assert(combv.take(mid as int) =~= lh);
            assert(combv.skip(mid as int) =~= rh);
            lemma_children_ok_subrange(combv, cfg, d0, 0, mid as int);
            lemma_children_ok_subrange(combv, cfg, d0, mid as int, combv.len() as int);
            assert(children_bytes(lh).len() <= usize::MAX);
        }
        let mut size_left: usize = 0;
        let mut t: usize = 0;
        proof {
            assert(lh.take(0) =~= Seq::<Child>::empty());
            assert(children_bytes(Seq::<Child>::empty()) =~= Seq::<u8>::empty());
        }
        while t < left_half.len()
            invariant
                lh == left_half@,
                t <= lh.len(),
                children_ok(lh, cfg, d0),
                children_bytes(lh).len() <= usize::MAX,
                size_left == children_bytes(lh.take(t as int)).len(),
            decreases lh.len() - t,
        {
            proof {
                lemma_children_bytes_take_push(lh, t as int);
                lemma_children_bytes_split(lh, t as int + 1);
                assert(children_bytes(lh.take(t as int + 1)).len() <= children_bytes(lh).len());
            }
            size_left = size_left + left_half[t].0;
            t = t + 1;
        }
        proof {
            assert(lh.take(lh.len() as int) =~= lh);
            assert(size_left == children_bytes(lh).len());
        }
        let size_right = merged_size - size_left;
        let nl: Child = (size_left, Rc::new(Node::Internal(left_half)));
        let nr: Child = (size_right, Rc::new(Node::Internal(right_half)));
        proof {
            assert(lh.len() >= 1 && rh.len() >= 1);
            assert(lh.len() <= cfg.max_children && rh.len() <= cfg.max_children);
            assert(node_bytes(*nl.1) == children_bytes(lh));
            assert(node_bytes(*nr.1) == children_bytes(rh));
            assert(child_depth_at(lh, 0) == d0);
            assert(child_depth_at(rh, 0) == d0);
            assert(depth(*nl.1) == d0 + 1 && depth(*nr.1) == d0 + 1);
            assert(node_wf(*nl.1, cfg) && node_wf(*nr.1, cfg));
        }
        let mut two: Vec<Child> = Vec::new();
        two.push(nl);
        two.push(nr);
        proof {
            assert(two@ =~= seq![nl, nr]);
            assert(seq![nl, nr][0] == nl);
            assert(seq![nl, nr].drop_first() =~= seq![nr]);
            assert(seq![nr][0] == nr);
            assert(seq![nr].drop_first() =~= Seq::<Child>::empty());
            assert(children_bytes(Seq::<Child>::empty()) =~= Seq::<u8>::empty());
            assert(node_bytes(*nr.1) + Seq::<u8>::empty() =~= node_bytes(*nr.1));
            assert(children_bytes(seq![nr]) =~= node_bytes(*nr.1));
            assert(children_bytes(two@) =~= node_bytes(*nl.1) + node_bytes(*nr.1));
            assert(children_bytes(two@) =~= children_bytes(combv));
            assert(children_ok(two@, cfg, d@)) by {
                assert(two@[0] == nl && two@[1] == nr);
            }
        }
        two
    };
    proof {
        assert(children_bytes(replacement@) == children_bytes(combv));
        assert(children_ok(replacement@, cfg, d@));
        assert(1 <= replacement@.len() <= 2);
    }
    // splice the replacement over positions i and i + 1
    let mut out: Vec<Child> = Vec::new();
    let mut t: usize = 0;
    proof {
        assert(out@ =~= old_cs.take(0));
    }
    while t < i
        invariant
            old_cs == cs@,
            i + 1 < old_cs.len(),
            t <= i,
            out@ == old_cs.take(t as int),
        decreases i - t,
    {
        let c: Child = (cs[t].0, cs[t].1.clone());
        proof {
            assert(c == old_cs[t as int]);
            assert(old_cs.take(t as int).push(c) =~= old_cs.take(t as int + 1));
        }
        out.push(c);
        t = t + 1;
    }
    let ghost repl = replacement@;
    let mut repl_m = replacement;
    out.append(&mut repl_m);
    let mut t2: usize = i + 2;
    while t2 < cn
        invariant
            old_cs == cs@,
            cn == old_cs.len(),
            i + 2 <= t2 <= old_cs.len(),
            out@ == old_cs.take(i as int) + repl + old_cs.subrange(i as int + 2, t2 as int),
        decreases old_cs.len() - t2,
    {
        let c: Child = (cs[t2].0, cs[t2].1.clone());
        proof {
            assert(c == old_cs[t2 as int]);
            assert((old_cs.take(i as int) + repl + old_cs.subrange(i as int + 2, t2 as int)).push(c)
                =~= old_cs.take(i as int) + repl + old_cs.subrange(i as int + 2, t2 as int + 1));
        }
        out.push(c);
        t2 = t2 + 1;
    }
    proof {
        let pre = old_cs.take(i as int);
        let post = old_cs.skip(i as int + 2);
        assert(old_cs.subrange(i as int + 2, old_cs.len() as int) =~= post);
        assert(out@ =~= (pre + repl) + post);
        lemma_children_bytes_concat(pre + repl, post);
        lemma_children_bytes_concat(pre, repl);
        lemma_children_bytes_split(old_cs, i as int + 2);
        lemma_children_bytes_take_push(old_cs, i as int);
        lemma_children_bytes_take_push(old_cs, i as int + 1);
        assert(children_bytes(repl) == node_bytes(*old_cs[i as int].1) + node_bytes(
            *old_cs[i as int + 1].1,
        ));
        assert(children_bytes(out@) =~= children_bytes(old_cs));
        assert forall|k: int| 0 <= k < out@.len() implies {
            let e = #[trigger] out@[k];
            &&& e.0 == node_bytes(*e.1).len()
            &&& node_wf(*e.1, cfg)
            &&& depth(*e.1) == d@
        } by {
            if k < pre.len() {
                assert(out@[k] == old_cs[k]);
            } else if k < pre.len() + repl.len() {
                assert(out@[k] == repl[k - pre.len()]);
            } else {
                assert(out@[k] == old_cs[k - repl.len() as int + 2]);
            }
        }
    }
    out
}

/// Walks a child list after a deletion and repairs underfull internal
/// children (fewer than half the branching factor): each is merged with its
/// right sibling when it has one, else its left; two lists that together
/// overflow the branching factor are redistributed evenly instead.
fn fix_underfull(children: Vec<Child>, cfg: ChunkTreeConfig, d: Ghost<nat>) -> (res: Vec<Child>)
    requires
        cfg.wf(),
        children_ok(children@, cfg, d@),
        children_bytes(children@).len() <= usize::MAX,
    ensures
        children_bytes(res@) == children_bytes(children@),
        children_ok(res@, cfg, d@),
        res@.len() >= 1 || children@.len() == 0,
        res@.len() <= children@.len(),
{
    let mut out = children;
    let mut i: usize = 0;
    loop
        invariant
            cfg.wf(),
            children_ok(out@, cfg, d@),
            children_bytes(out@) == children_bytes(children@),
            children_bytes(out@).len() <= usize::MAX,
            out@.len() >= 1 || children@.len() == 0,
            out@.len() <= children@.len(),
        decreases out@.len(), out@.len() - i,
    {
        if i >= out.len() {
            break ;
        }
        let half = cfg.max_children / 2;
        let underfull = match &*out[i].1 {
            Node::Internal(gs) => gs.len() < half,
            Node::Leaf(_) => false,
        };
        if !underfull || out.len() < 2 {
            i = i + 1;
            continue ;
        }
        let li = if i + 1 < out.len() {
            i
        } else {
            i - 1
        };
        proof {
            assert(depth(*out@[i as int].1) == d@);
            assert(d@ >= 1);
            assert(depth(*out@[li as int].1) == d@);
            assert(depth(*out@[li as int + 1].1) == d@);
            assert(*out@[li as int].1 is Leaf ==> depth(*out@[li as int].1) == 0);
            assert(*out@[li as int].1 is Internal);
            assert(*out@[li as int + 1].1 is Leaf ==> depth(*out@[li as int + 1].1) == 0);
            assert(*out@[li as int + 1].1 is Internal);
        }
        let merged = merge_adjacent(&out, li, cfg, d);
        let shrunk = merged.len() < out.len();
        out = merged;
        if shrunk {
            // a merge can leave the combined node still underfull: recheck it
            i = li;
        } else {
            // redistributed into two even halves: both are filled enough
            i = li + 2;
        }
    }
    out
}

/// Removes the byte range `[start, end)` from the subtree under `n`.
/// Returns `None` when nothing is left; otherwise one handle of the same
/// height carrying the remaining bytes.
fn delete_rec(n: &Node, start: usize, end: usize, cfg: ChunkTreeConfig) -> (res: Option<Child>)
    requires
        cfg.wf(),
        node_wf(*n, cfg),
        start <= end,
        end <= node_bytes(*n).len(),
        node_bytes(*n).len() <= usize::MAX,
    ensures
        match res {
            None => splice_delete(node_bytes(*n), start as int, end as int).len() == 0,
            Some(c) => {
                &&& node_bytes(*c.1) == splice_delete(node_bytes(*n), start as int, end as int)
                &&& c.0 == node_bytes(*c.1).len()
                &&& node_wf(*c.1, cfg)
                &&& depth(*c.1) == depth(*n)
            },
        },
    decreases *n,
{
    match n {
        Node::Leaf(d) => {
            let mut content: Vec<u8> = Vec::new();
            content.extend_from_slice(&d.as_slice()[0..start]);
            content.extend_from_slice(&d.as_slice()[end..d.len()]);
            proof {
                assert(content@ =~= splice_delete(node_bytes(*n), start as int, end as int));
            }
            if content.len() == 0 {
                None
            } else {
                let sz = content.len();
                Some((sz, Rc::new(Node::Leaf(content))))
            }
        },
        Node::Internal(cs) => {
            let ghost d0 = child_depth_at(cs@, 0);
            let ghost full = children_bytes(cs@);
            let mut out: Vec<Child> = Vec::new();
            let mut j: usize = 0;
            let mut lo: usize = 0;
            proof {
                assert(cs@.take(0) =~= Seq::<Child>::empty());
                assert(children_bytes(Seq::<Child>::empty()) =~= Seq::<u8>::empty());
                assert(splice_delete(Seq::<u8>::empty(), 0, 0) =~= Seq::<u8>::empty());
            }
            while j < cs.len()
                invariant
                    cfg.wf(),
                    node_wf(*n, cfg),
                    *n == Node::Internal(*cs),
                    start <= end <= children_bytes(cs@).len(),
                    children_bytes(cs@).len() <= usize::MAX,
                    d0 == child_depth_at(cs@, 0),
                    j <= cs@.len(),
                    lo == children_bytes(cs@.take(j as int)).len(),
                    children_bytes(out@) == splice_delete(
                        children_bytes(cs@.take(j as int)),
                        vstd::math::min(start as int, lo as int),
                        vstd::math::min(end as int, lo as int),
                    ),
                    children_ok(out@, cfg, d0),
                    out@.len() <= j,
                decreases cs@.len() - j,
            {
                let ghost pre = cs@.take(j as int);
                let ghost cbytes = child_bytes_at(cs@, j as int);
                proof {
                    lemma_children_bytes_take_push(cs@, j as int);
                    lemma_children_bytes_split(cs@, j as int + 1);
                    assert(children_bytes(cs@.take(j as int + 1)).len() <= children_bytes(
                        cs@,
                    ).len());
                }
                let size_j = cs[j].0;
                let s_loc = if start > lo {
                    if start - lo > size_j {
                        size_j
                    } else {
                        start - lo
                    }
                } else {
                    0
                };
                let e_loc = if end > lo {
                    if end - lo > size_j {
                        size_j
                    } else {
                        end - lo
                    }
                } else {
                    0
                };
                let ghost old_out = out@;
                if s_loc == 0 && e_loc == size_j {
                    // the child lies entirely inside the deleted range
                    proof {
                        assert(splice_delete(cbytes, 0, size_j as int) =~= Seq::<u8>::empty());
                    }
                } else if s_loc == e_loc {
                    // the child lies entirely outside the deleted range: share it
                    let c: Child = (cs[j].0, cs[j].1.clone());
                    proof {
                        assert(c == cs@[j as int]);
                        lemma_children_bytes_push(old_out, c);
                        assert(splice_delete(cbytes, s_loc as int, e_loc as int) =~= cbytes);
                    }
                    out.push(c);
                } else {
                    match delete_rec(&cs[j].1, s_loc, e_loc, cfg) {
                        Some(c) => {
                            proof {
                                lemma_children_bytes_push(old_out, c);
                            }
                            out.push(c);
                        },
                        None => {
                            proof {
                                assert(splice_delete(cbytes, s_loc as int, e_loc as int).len()
                                    == s_loc + cbytes.len() - e_loc);
                                assert(false);
                            }
                        },
                    }
                }
                proof {
                    lemma_splice_delete_concat(
                        children_bytes(pre),
                        cbytes,
                        vstd::math::min(start as int, lo as int + size_j as int),
                        vstd::math::min(end as int, lo as int + size_j as int),
                    );
                    assert(children_bytes(out@) =~= splice_delete(
                        children_bytes(cs@.take(j as int + 1)),
                        vstd::math::min(start as int, lo as int + size_j as int),
                        vstd::math::min(end as int, lo as int + size_j as int),
                    ));
                    assert forall|i: int| 0 <= i < out@.len() implies {
                        &&& (#[trigger] out@[i]).0 == node_bytes(*out@[i].1).len()
                        &&& node_wf(*out@[i].1, cfg)
                        &&& depth(*out@[i].1) == d0
                    } by {
                        if i < old_out.len() {
                            assert(out@[i] == old_out[i]);
                        }
                    }
                }
                lo = lo + size_j;
                j = j + 1;
            }
            proof {
                assert(cs@.take(cs@.len() as int) =~= cs@);
            }
            if out.len() == 0 {
                None
            } else {
                let removed = end - start;
                let new_size = lo - removed;
                proof {
                    assert(children_bytes(out@).len() == new_size);
                }
                let fixed = fix_underfull(out, cfg, Ghost(d0));
                Some((new_size, Rc::new(Node::Internal(fixed))))
            }
        },
    }
}

/// The result of a clamped read: the part of `[off, off + len)` that lies
/// inside `s`.
pub open spec fn read_spec(s: Seq<u8>, off: int, len: int) -> Seq<u8> {
    let a = vstd::math::min(off, s.len() as int);
    let b = vstd::math::min(off + len, s.len() as int);
    if b < a {
        Seq::empty()
    } else {
        s.subrange(a, b)
    }
}

/// One immutable tree version. Edits return a new version; subtrees the edit
/// did not touch are shared between the versions through their `Rc` handles.
pub struct ChunkTree {
    root: Rc<Node>,
    cfg: ChunkTreeConfig,
    total: usize,
}

impl View for ChunkTree {
    type V = Seq<u8>;

    closed spec fn view(&self) -> Seq<u8> {
        node_bytes(*self.root)
    }
}

impl ChunkTree {
    pub closed spec fn wf(self) -> bool {
        &&& self.cfg.wf()
        &&& node_wf(*self.root, self.cfg)
        &&& self.total == self@.len()
    }

    pub closed spec fn config(self) -> ChunkTreeConfig {
        self.cfg
    }

    closed spec fn root_depth(self) -> nat {
        depth(*self.root)
    }

    /// Builds a tree over a copy of `data`, cut into `chunk_size` leaves.
    pub fn from_slice(data: &[u8], cfg: ChunkTreeConfig) -> (r: ChunkTree)
        requires
            cfg.wf(),
        ensures
            r@ == data@,
            r.wf(),
            r.config() == cfg,
    {
        let mut v: Vec<u8> = Vec::new();
        v.extend_from_slice(data);
        proof {
            assert(v@ =~= data@);
        }
        let n_bytes = v.len();
        proof {
            assert(v@.len() == n_bytes);
        }
        let leaves = make_leaves(&v, cfg);
        if leaves.len() == 0 {
            let t = ChunkTree { root: Rc::new(Node::Leaf(Vec::new())), cfg, total: 0 };
            proof {
                assert(t@ =~= data@);
            }
            t
        } else {
            let root = build_root(leaves, cfg, Ghost(0));
            ChunkTree { root: root.1, cfg, total: root.0 }
        }
    }

    pub fn len(&self) -> (r: usize)
        requires
            self.wf(),
        ensures
            r == self@.len(),
    {
        self.total
    }

    /// Hands a cursor (or any reader) a pinned handle on this version's root.
    pub(crate) fn share_root(&self) -> (r: Rc<Node>)
        ensures
            node_bytes(*r) == self@,
            self.wf() ==> node_wf(*r, self.config()) && self.config().wf(),
    {
        self.root.clone()
    }

    pub fn byte_at(&self, i: usize) -> (r: u8)
        requires
            self.wf(),
            i < self@.len(),
        ensures
            r == self@[i as int],
    {
        node_byte_at(&self.root, i, Ghost(self.cfg))
    }

    /// Reads up to `len` bytes from `offset`, clamped to the tree bounds.
    pub fn read(&self, offset: usize, len: usize) -> (r: Vec<u8>)
        requires
            self.wf(),
        ensures
            r@ == read_spec(self@, offset as int, len as int),
    {
        let a = if offset > self.total {
            self.total
        } else {
            offset
        };
        let avail = self.total - a;
        let n = if len > avail {
            avail
        } else {
            len
        };
        let mut out: Vec<u8> = Vec::new();
        let mut i: usize = 0;
        while i < n
            invariant
                self.wf(),
                a + n <= self@.len(),
                i <= n,
                out@ == self@.subrange(a as int, a as int + i as int),
            decreases n - i,
        {
            let b = self.byte_at(a + i);
            out.push(b);
            proof {
                assert(out@ =~= self@.subrange(a as int, a as int + i as int + 1));
            }
            i = i + 1;
        }
        proof {
            assert(out@ =~= read_spec(self@, offset as int, len as int));
        }
        out
    }

    /// Splices `data` in at `offset`, returning the new tree version.
    pub fn insert(&self, offset: usize, data: &[u8]) -> (r: ChunkTree)
        requires
            self.wf(),
            offset <= self@.len(),
            data@.len() >= 1,
            self@.len() + data@.len() <= usize::MAX,
        ensures
            r@ == splice_insert(self@, offset as int, data@),
            r.wf(),
            r.config() == self.config(),
    {
        let mut v: Vec<u8> = Vec::new();
        v.extend_from_slice(data);
        proof {
            assert(v@ =~= data@);
        }
        let pieces = insert_rec(&self.root, offset, &v, self.cfg);
        let c = build_root(pieces, self.cfg, Ghost(self.root_depth()));
        ChunkTree { root: c.1, cfg: self.cfg, total: c.0 }
    }

    /// Removes the byte range `[start, end)`, returning the new tree version.
    pub fn delete(&self, start: usize, end: usize) -> (r: ChunkTree)
        requires
            self.wf(),
            start <= end,
            end <= self@.len(),
        ensures
            r@ == splice_delete(self@, start as int, end as int),
            r.wf(),
            r.config() == self.config(),
    {
        match delete_rec(&self.root, start, end, self.cfg) {
            None => {
                let t = ChunkTree { root: Rc::new(Node::Leaf(Vec::new())), cfg: self.cfg, total: 0 };
                proof {
                    assert(t@ =~= splice_delete(self@, start as int, end as int));
                }
                t
            },
            Some(c) => {
                // collapse chains of single-child internal nodes at the root
                let mut node = c.1;
                let sz = c.0;
                loop
                    invariant
                        self.cfg.wf(),
                        node_wf(*node, self.cfg),
                        node_bytes(*node) == splice_delete(self@, start as int, end as int),
                        sz == node_bytes(*node).len(),
                    decreases depth(*node),
                {
                    let next: Option<Rc<Node>> = match &*node {
                        Node::Internal(cs) => {
                            if cs.len() == 1 {
                                proof {
                                    assert(cs@.drop_first() =~= Seq::<Child>::empty());
                                    assert(children_bytes(Seq::<Child>::empty())
                                        =~= Seq::<u8>::empty());
                                    assert(children_bytes(cs@) =~= node_bytes(*cs@[0].1));
                                }
                                Some(cs[0].1.clone())
                            } else {
                                None
                            }
                        },
                        Node::Leaf(_) => None,
                    };
                    match next {
                        Some(nx) => {
                            node = nx;
                        },
                        None => {
                            break ;
                        },
                    }
                }
                ChunkTree { root: node, cfg: self.cfg, total: sz }
            },
        }
    }
}

} // verus!
