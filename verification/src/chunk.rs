//! Splitting a byte source into fixed-size blocks and digesting each block
//! into one leaf.

use vstd::prelude::*;
use crate::hashing::{sha256_of, sha256_digest};
use crate::node::{MerkleNode, NodeModel, models};

verus! {

/// One leaf: the digest of its block, and no children.
pub open spec fn leaf_of(block: Seq<u8>, offset: int) -> NodeModel {
    NodeModel { hash: sha256_of(block), children: Seq::empty(), offset }
}

/// The leaves for `data` chunked at `bs` bytes per block, with the first
/// block starting at stream offset `base`.  Each block of up to `bs` bytes
/// becomes one leaf, in stream order; the final block may be shorter but is
/// still hashed.  Zero bytes of input give no leaves at all.
pub open spec fn leaves_model(data: Seq<u8>, bs: int, base: int) -> Seq<NodeModel>
    decreases data.len(),
{
    if bs < 1 || data.len() == 0 {
        Seq::empty()
    } else if data.len() <= bs {
        seq![leaf_of(data, base)]
    } else {
        seq![leaf_of(data.take(bs), base)] + leaves_model(data.skip(bs), bs, base + bs)
    }
}

/// The block that leaf `i` covers: `[i * bs, min((i + 1) * bs, len))`.
pub open spec fn block_at(data: Seq<u8>, bs: int, i: int) -> Seq<u8> {
    data.subrange(i * bs, if (i + 1) * bs <= data.len() { (i + 1) * bs } else { data.len() as int })
}

/// How many leaves the data yields: at least one for nonempty data, never
/// more than one per byte.
pub proof fn lemma_leaves_len(data: Seq<u8>, bs: int, base: int)
    requires
        bs >= 1,
    ensures
        data.len() >= 1 ==> leaves_model(data, bs, base).len() >= 1,
        leaves_model(data, bs, base).len() <= data.len(),
    decreases data.len(),
{
    if data.len() > bs {
        lemma_leaves_len(data.skip(bs), bs, base + bs);
    }
}

/// Leaf `i` starts strictly inside the data, carries offset `base + i * bs`,
/// and hashes exactly its own block.
pub proof fn lemma_leaf_at(data: Seq<u8>, bs: int, base: int, i: int)
    requires
        bs >= 1,
        0 <= i < leaves_model(data, bs, base).len(),
    ensures
        leaves_model(data, bs, base)[i] == leaf_of(block_at(data, bs, i), base + i * bs),
        i * bs < data.len(),
    decreases data.len(),
{
    let l = leaves_model(data, bs, base);
    assert(0 * bs == 0) by (nonlinear_arith);
    assert((0 + 1) * bs == bs) by (nonlinear_arith);
    if data.len() <= bs {
        assert(i == 0);
        assert(l[0] == leaf_of(data, base));
        assert(block_at(data, bs, 0) =~= data);
    } else if i == 0 {
        assert(l[0] == leaf_of(data.take(bs), base));
        assert(block_at(data, bs, 0) =~= data.take(bs));
    } else {
        let sub = data.skip(bs);
        let rest = leaves_model(sub, bs, base + bs);
        let j = i - 1;
        lemma_leaf_at(sub, bs, base + bs, j);
        assert(l[i] == rest[j]);
        assert(i * bs == j * bs + bs) by (nonlinear_arith)
            requires i == j + 1;
        assert((i + 1) * bs == (j + 1) * bs + bs) by (nonlinear_arith)
            requires i == j + 1;
        assert(j * bs >= 0) by (nonlinear_arith)
            requires j >= 0 && bs >= 1;
        assert(j * bs < sub.len());
        assert(rest[j] == leaf_of(block_at(sub, bs, j), base + bs + j * bs));
        assert(j * bs <= (j + 1) * bs);
        assert(block_at(sub, bs, j) =~= block_at(data, bs, i));
    }
}

/// Chunk `data` into blocks of up to `block_size` bytes and hash each block
/// into a leaf, in stream order, offsets starting at `base_offset`.
pub fn chunk_hashes(data: &[u8], block_size: usize, base_offset: usize) -> (r: Vec<MerkleNode>)
    requires
        block_size >= 1,
        base_offset + data@.len() <= usize::MAX,
    ensures
        models(r@) == leaves_model(data@, block_size as int, base_offset as int),
{
    let ghost d = data@;
    let ghost b = block_size as int;
    let mut out: Vec<MerkleNode> = Vec::new();
    let mut pos: usize = 0;
    proof {
        assert(d.skip(0) =~= d);
        assert(models(out@) + leaves_model(d, b, base_offset as int) =~= leaves_model(d, b, base_offset as int));
    }
    while pos < data.len()
        invariant
            block_size >= 1,
            b == block_size as int,
            d == data@,
            base_offset + d.len() <= usize::MAX,
            pos <= d.len(),
            models(out@) + leaves_model(d.skip(pos as int), b, base_offset + pos)
                == leaves_model(d, b, base_offset as int),
        decreases d.len() - pos,
    {
        let end = if data.len() - pos < block_size { data.len() } else { pos + block_size };
        let block = vstd::slice::slice_subrange(data, pos, end);
        let hash = sha256_digest(block);
        let node = MerkleNode { hash, children: Vec::new(), offset: base_offset + pos };
        let ghost out_snap = out@;
        let ghost p = pos as int;
        let ghost rem = d.skip(p);
        proof {
            assert(node@.children =~= Seq::<int>::empty());
            if d.len() - p > b {
                assert(block@ =~= rem.take(b));
                assert(node@ =~= leaf_of(rem.take(b), base_offset + p));
                assert(rem.skip(b) =~= d.skip(p + b));
            } else {
                assert(block@ =~= rem);
                assert(node@ =~= leaf_of(rem, base_offset + p));
            }
        }
        out.push(node);
        pos = end;
        proof {
            assert(models(out@) =~= models(out_snap) + seq![node@]);
            let tail = leaves_model(d.skip(pos as int), b, base_offset + pos);
            if d.len() - p > b {
                assert(leaves_model(rem, b, base_offset + p) == seq![node@] + tail);
                assert(models(out_snap) + (seq![node@] + tail) =~= (models(out_snap) + seq![node@]) + tail);
            } else {
                assert(leaves_model(rem, b, base_offset + p) == seq![node@]);
                assert(d.skip(pos as int).len() == 0);
                assert(tail =~= Seq::<NodeModel>::empty());
                assert(models(out_snap) + seq![node@] =~= (models(out_snap) + seq![node@]) + tail);
            }
        }
    }
    proof {
        assert(d.skip(pos as int).len() == 0);
        assert(models(out@) + leaves_model(d.skip(pos as int), b, base_offset + pos) =~= models(out@));
    }
    out
}

} // verus!
