//! Folding a level of leaves bottom-up into a binary Merkle tree held in a
//! flat, append-only arena.

use vstd::prelude::*;
use crate::hashing::{sha256_of, sha256_digest};
use crate::node::{MerkleNode, NodeModel, MerkleError, models, is_child, node_ok, unique_parents, covered, wf_tree};
use crate::chunk::{leaves_model, chunk_hashes, lemma_leaves_len};

verus! {

/// How many parents one folding pass over `count` siblings creates:
/// consecutive pairs, plus one parent for an odd leftover sibling.
pub open spec fn half_up(count: int) -> int {
    (count + 1) / 2
}

/// Parent `j` of the level `[start, start + count)`: its children are the
/// arena indices `start + 2j` and `start + 2j + 1` when both lie in the
/// level, only `start + 2j` when the level ends there.  A two-child parent
/// hashes the concatenation of its children's hashes in order; a one-child
/// parent hashes its lone child's hash again (never copies it), so every
/// pass strictly shrinks the level.
pub open spec fn parent_model(arena: Seq<NodeModel>, start: int, count: int, j: int) -> NodeModel {
    if 2 * j + 1 < count {
        NodeModel {
            hash: sha256_of(arena[start + 2 * j].hash + arena[start + 2 * j + 1].hash),
            children: seq![start + 2 * j, start + 2 * j + 1],
            offset: arena[start + 2 * j].offset,
        }
    } else {
        NodeModel {
            hash: sha256_of(arena[start + 2 * j].hash),
            children: seq![start + 2 * j],
            offset: arena[start + 2 * j].offset,
        }
    }
}

/// One folding pass: the parents of the level `[start, start + count)`, in
/// left-to-right order.
pub open spec fn level_models(arena: Seq<NodeModel>, start: int, count: int) -> Seq<NodeModel> {
    Seq::new(half_up(count) as nat, |j: int| parent_model(arena, start, count, j))
}

/// The arena after repeatedly folding the newest level, starting from the
/// level `[start, start + count)`, until a pass creates exactly one node:
/// that node is the root.
pub open spec fn merklify_spec(arena: Seq<NodeModel>, start: int, count: int) -> Seq<NodeModel>
    decreases count,
{
    if count < 1 {
        arena
    } else {
        let arena2 = arena + level_models(arena, start, count);
        if half_up(count) > 1 {
            merklify_spec(arena2, start + count, half_up(count))
        } else {
            arena2
        }
    }
}

/// How many nodes folding adds above `count` leaves: the halving-with-carry
/// rule applied until one node remains.
pub open spec fn extra_nodes(count: int) -> int
    decreases count,
{
    if count < 1 {
        0
    } else if half_up(count) > 1 {
        half_up(count) + extra_nodes(half_up(count))
    } else {
        half_up(count)
    }
}

/// Append the 32 bytes of one digest to a byte buffer.
fn append_hash(buf: &mut Vec<u8>, h: &[u8; 32])
    ensures
        final(buf)@ == old(buf)@ + h@,
{
    let mut k: usize = 0;
    while k < 32
        invariant
            k <= 32,
            buf@ == old(buf)@ + h@.take(k as int),
        decreases 32 - k,
    {
        let ghost snap = buf@;
        buf.push(h[k]);
        k = k + 1;
        proof {
            assert(h@.take(k as int) =~= h@.take(k - 1).push(h@[k - 1]));
            assert(old(buf)@ + h@.take(k as int) =~= snap.push(h@[k - 1]));
        }
    }
    proof {
        assert(h@.take(32) =~= h@);
    }
}

/// Fold the level `[start, start + count)` of the arena into parents,
/// appending level after level until one pass creates a single node.
pub fn merklify(arena: &mut Vec<MerkleNode>, start: usize, count: usize)
    requires
        start + count == old(arena)@.len(),
    ensures
        models(final(arena)@) == merklify_spec(models(old(arena)@), start as int, count as int),
{
    if count == 0 {
        return;
    }
    let mut s: usize = start;
    let mut c: usize = count;
    let mut go: bool = true;
    while go
        invariant
            go ==> 1 <= c && s + c == arena@.len(),
            merklify_spec(models(old(arena)@), start as int, count as int) == (if go {
                merklify_spec(models(arena@), s as int, c as int)
            } else {
                models(arena@)
            }),
        decreases (if go { c as int + 1 } else { 0 }),
    {
        let ghost pre = models(arena@);
        let lvl_end = arena.len();
        let mut j: usize = 0;
        proof {
            assert(level_models(pre, s as int, c as int).take(0) =~= Seq::<NodeModel>::empty());
            assert(pre + level_models(pre, s as int, c as int).take(0) =~= pre);
        }
        while j < c - j
            invariant
                1 <= c,
                s + c == lvl_end,
                lvl_end <= arena@.len(),
                pre.len() == lvl_end,
                j <= half_up(c as int),
                pre == models(arena@).take(lvl_end as int),
                models(arena@) == pre + level_models(pre, s as int, c as int).take(j as int),
            decreases c + 1 - 2 * j,
        {
            let left = s + 2 * j;
            let has_right = 2 * j + 1 < c;
            let mut buf: Vec<u8> = Vec::new();
            let mut children: Vec<usize> = Vec::new();
            proof {
                assert(models(arena@)[left as int] == pre[left as int]);
                if has_right {
                    assert(models(arena@)[left + 1] == pre[left + 1]);
                }
            }
            append_hash(&mut buf, &arena[left].hash);
            children.push(left);
            if has_right {
                append_hash(&mut buf, &arena[left + 1].hash);
                children.push(left + 1);
            }
            let hash = sha256_digest(buf.as_slice());
            let node = MerkleNode { hash, children, offset: arena[left].offset };
            let ghost snap = models(arena@);
            proof {
                if has_right {
                    assert(buf@ == pre[left as int].hash + pre[left + 1].hash);
                    assert(node@.children =~= seq![s + 2 * (j as int), s + 2 * (j as int) + 1]);
                } else {
                    assert(buf@ =~= pre[left as int].hash);
                    assert(node@.children =~= seq![s + 2 * (j as int)]);
                }
                assert(node@ =~= parent_model(pre, s as int, c as int, j as int));
            }
            arena.push(node);
            j = j + 1;
            proof {
                let lvl = level_models(pre, s as int, c as int);
                assert(models(arena@) =~= snap + seq![node@]);
                assert(lvl.take(j as int) =~= lvl.take(j - 1).push(parent_model(pre, s as int, c as int, j - 1)));
                assert(models(arena@) =~= pre + lvl.take(j as int));
                assert(pre =~= models(arena@).take(lvl_end as int));
            }
        }
        proof {
            assert(j == half_up(c as int));
            assert(level_models(pre, s as int, c as int).take(j as int) =~= level_models(pre, s as int, c as int));
        }
        if j > 1 {
            s = lvl_end;
            c = j;
        } else {
            go = false;
        }
    }
}

/// Folding always adds at least one node above a nonempty level.
pub proof fn lemma_extra_nonneg(count: int)
    ensures
        extra_nodes(count) >= 0,
        count >= 1 ==> extra_nodes(count) >= 1,
    decreases count,
{
    if count >= 1 && half_up(count) > 1 {
        lemma_extra_nonneg(half_up(count));
    }
}

/// Folding leaves nothing already in the arena disturbed, adds only inner
/// nodes, and turns an arena whose tail level is not yet owned by any
/// parent into a well-formed tree.
pub proof fn lemma_merklify_wf(arena: Seq<NodeModel>, start: int, count: int)
    requires
        0 <= start,
        1 <= count,
        start + count == arena.len(),
        forall|i: int| 0 <= i < arena.len() ==> #[trigger] node_ok(arena, i),
        unique_parents(arena),
        forall|c: int| 0 <= c < start ==> #[trigger] covered(arena, c),
        forall|c: int| start <= c < arena.len() ==> !(#[trigger] covered(arena, c)),
    ensures
        merklify_spec(arena, start, count).len() == arena.len() + extra_nodes(count),
        merklify_spec(arena, start, count).take(arena.len() as int) == arena,
        wf_tree(merklify_spec(arena, start, count)),
        forall|i: int| arena.len() <= i < merklify_spec(arena, start, count).len()
            ==> 1 <= (#[trigger] merklify_spec(arena, start, count)[i]).children.len() <= 2,
    decreases count,
{
    let lvl = level_models(arena, start, count);
    let m = half_up(count);
    let a2 = arena + lvl;
    let n = arena.len() as int;
    let r = merklify_spec(arena, start, count);
    assert(lvl.len() == m);
    assert forall|i: int| 0 <= i < n implies a2[i] == arena[i] by {}
    assert forall|j: int| 0 <= j < m implies a2[n + j] == parent_model(arena, start, count, j) by {}
    assert forall|i: int| 0 <= i < a2.len() implies #[trigger] node_ok(a2, i) by {
        if i < n {
            assert(node_ok(arena, i));
            assert(a2[i].children == arena[i].children);
        } else {
            let j = i - n;
            assert(a2[i] == parent_model(arena, start, count, j));
            assert(2 * j < count);
        }
    }
    assert forall|i: int, x: int| #[trigger] is_child(a2, i, x) && i < n implies is_child(arena, i, x) by {
        assert(a2[i].children == arena[i].children);
    }
    assert forall|i: int, x: int| #[trigger] is_child(a2, i, x) && i >= n implies
        start <= x < start + count && (x == start + 2 * (i - n) || x == start + 2 * (i - n) + 1) by {
        let j = i - n;
        assert(a2[i] == parent_model(arena, start, count, j));
        assert(2 * j < count);
    }
    assert(unique_parents(a2)) by {
        assert forall|i1: int, i2: int, x: int|
            #[trigger] is_child(a2, i1, x) && #[trigger] is_child(a2, i2, x) implies i1 == i2 by {
            if i1 < n && i2 < n {
                assert(is_child(arena, i1, x) && is_child(arena, i2, x));
            } else if i1 < n && i2 >= n {
                assert(is_child(arena, i1, x));
                assert(covered(arena, x));
            } else if i1 >= n && i2 < n {
                assert(is_child(arena, i2, x));
                assert(covered(arena, x));
            }
        }
    }
    assert forall|c: int| 0 <= c < n implies #[trigger] covered(a2, c) by {
        if c < start {
            assert(covered(arena, c));
            let iw = choose|i: int| is_child(arena, i, c);
            assert(is_child(arena, iw, c));
            assert(a2[iw].children == arena[iw].children);
            assert(is_child(a2, iw, c));
        } else if c < n {
            let j = (c - start) / 2;
            assert(0 <= j < m);
            assert(a2[n + j] == parent_model(arena, start, count, j));
            assert(c == start + 2 * j || c == start + 2 * j + 1);
            if c == start + 2 * j {
                assert(parent_model(arena, start, count, j).children[0] == c);
                assert(parent_model(arena, start, count, j).children.contains(c));
            } else {
                assert(2 * j + 1 < count);
                assert(parent_model(arena, start, count, j).children[1] == c);
                assert(parent_model(arena, start, count, j).children.contains(c));
            }
            assert(is_child(a2, n + j, c));
        }
    }
    assert forall|c: int| n <= c < a2.len() implies !(#[trigger] covered(a2, c)) by {
        assert forall|i: int| 0 <= i < a2.len() implies !is_child(a2, i, c) by {
            if is_child(a2, i, c) {
                if i < n {
                    assert(node_ok(arena, i));
                    assert(is_child(arena, i, c));
                } else {
                    assert(c < n);
                }
            }
        }
    }
    if m > 1 {
        assert(r == merklify_spec(a2, n, m));
        lemma_merklify_wf(a2, n, m);
        lemma_extra_nonneg(m);
        assert(r.len() == a2.len() + extra_nodes(m));
        assert(r.take(n) =~= r.take(a2.len() as int).take(n));
        assert(a2.take(n) =~= arena);
        assert forall|i: int| n <= i < r.len() implies
            1 <= (#[trigger] r[i]).children.len() <= 2 by {
            if i < a2.len() {
                assert(r[i] == r.take(a2.len() as int)[i]);
                assert(a2[i] == parent_model(arena, start, count, i - n));
                assert(2 * (i - n) < count);
            }
        }
    } else {
        assert(r == a2);
        assert(m == 1);
        assert(r.take(n) =~= arena);
        assert(wf_tree(r));
        assert forall|i: int| n <= i < r.len() implies
            1 <= (#[trigger] r[i]).children.len() <= 2 by {
            assert(a2[i] == parent_model(arena, start, count, i - n));
            assert(2 * (i - n) < count);
        }
    }
}

/// A finished, immutable Merkle tree: leaves first in stream order, then
/// each folded level in turn, the root last.
pub struct MerkleTree {
    nodes: Vec<MerkleNode>,
}

/// The whole arena a build over `data` produces.
pub open spec fn tree_model(data: Seq<u8>, bs: int, base: int) -> Seq<NodeModel> {
    merklify_spec(leaves_model(data, bs, base), 0, leaves_model(data, bs, base).len() as int)
}

impl View for MerkleTree {
    type V = Seq<NodeModel>;

    closed spec fn view(&self) -> Seq<NodeModel> {
        models(self.nodes@)
    }
}

impl MerkleTree {
    #[verifier::type_invariant]
    spec fn inv(&self) -> bool {
        wf_tree(models(self.nodes@))
    }

    /// Read access to the finished arena; every tree that exists is well
    /// formed.
    pub fn arena(&self) -> (r: &Vec<MerkleNode>)
        ensures
            models(r@) == self@,
            wf_tree(self@),
    {
        proof {
            use_type_invariant(self);
        }
        &self.nodes
    }

    /// Total number of nodes, leaves and inner nodes together.
    pub fn node_count(&self) -> (r: usize)
        ensures
            r == self@.len(),
    {
        self.nodes.len()
    }
}

/// Build the tree for `data` chunked at `block_size` bytes per leaf, leaf
/// offsets counted from `base_offset`.  Zero bytes of input have no leaves
/// and therefore no root: that is an error, never an empty arena.
pub fn merkle_tree_at(data: &[u8], block_size: usize, base_offset: usize) -> (r: Result<
    MerkleTree,
    MerkleError,
>)
    requires
        block_size >= 1,
        base_offset + data@.len() <= usize::MAX,
    ensures
        match r {
            Ok(t) => data@.len() > 0 && t@ == tree_model(
                data@,
                block_size as int,
                base_offset as int,
            ) && wf_tree(t@),
            Err(e) => data@.len() == 0 && e == MerkleError::EmptyInput,
        },
{
    let mut nodes = chunk_hashes(data, block_size, base_offset);
    proof {
        lemma_leaves_len(data@, block_size as int, base_offset as int);
    }
    if nodes.len() == 0 {
        return Err(MerkleError::EmptyInput);
    }
    let count = nodes.len();
    let ghost leaves = models(nodes@);
    proof {
        assert forall|i: int| 0 <= i < leaves.len() implies #[trigger] node_ok(leaves, i) by {
            crate::chunk::lemma_leaf_at(data@, block_size as int, base_offset as int, i);
            assert(leaves[i].children.len() == 0);
        }
        assert forall|i: int, x: int| !(#[trigger] is_child(leaves, i, x)) by {
            if 0 <= i < leaves.len() {
                crate::chunk::lemma_leaf_at(data@, block_size as int, base_offset as int, i);
                assert(leaves[i].children.len() == 0);
            }
        }
        assert(unique_parents(leaves));
        assert forall|c: int| 0 <= c < leaves.len() implies !(#[trigger] covered(leaves, c)) by {
            assert(forall|i: int| !(#[trigger] is_child(leaves, i, c)));
        }
    }
    merklify(&mut nodes, 0, count);
    proof {
        lemma_merklify_wf(leaves, 0, count as int);
    }
    Ok(MerkleTree { nodes })
}

/// Build the top-level tree over the whole of `data`: one leaf per
/// `block_size` bytes, the final leaf covering whatever remains.
pub fn merkle_tree(data: &[u8], block_size: usize) -> (r: Result<MerkleTree, MerkleError>)
    requires
        block_size >= 1,
    ensures
        match r {
            Ok(t) => data@.len() > 0 && t@ == tree_model(data@, block_size as int, 0) && wf_tree(
                t@,
            ),
            Err(e) => data@.len() == 0 && e == MerkleError::EmptyInput,
        },
{
    let byte_len: usize = data.len();
    proof {
        assert(byte_len == data@.len());
    }
    merkle_tree_at(data, block_size, 0)
}

/// The shape of a finished tree: the leaves sit untouched at the front of
/// the arena, every node added by folding has children, and the whole is
/// well formed.
pub proof fn lemma_tree_model_shape(data: Seq<u8>, bs: int, base: int)
    requires
        bs >= 1,
        data.len() >= 1,
    ensures
        wf_tree(tree_model(data, bs, base)),
        tree_model(data, bs, base).len() >= leaves_model(data, bs, base).len(),
        tree_model(data, bs, base).take(leaves_model(data, bs, base).len() as int)
            == leaves_model(data, bs, base),
        forall|i: int|
            leaves_model(data, bs, base).len() <= i < tree_model(data, bs, base).len()
                ==> (#[trigger] tree_model(data, bs, base)[i]).children.len() >= 1,
{
    let leaves = leaves_model(data, bs, base);
    lemma_leaves_len(data, bs, base);
    assert forall|i: int| 0 <= i < leaves.len() implies #[trigger] node_ok(leaves, i) by {
        crate::chunk::lemma_leaf_at(data, bs, base, i);
        assert(leaves[i].children.len() == 0);
    }
    assert forall|i: int, x: int| !(#[trigger] is_child(leaves, i, x)) by {
        if 0 <= i < leaves.len() {
            crate::chunk::lemma_leaf_at(data, bs, base, i);
            assert(leaves[i].children.len() == 0);
        }
    }
    assert(unique_parents(leaves));
    assert forall|c: int| 0 <= c < leaves.len() implies !(#[trigger] covered(leaves, c)) by {
        assert(forall|i: int| !(#[trigger] is_child(leaves, i, c)));
    }
    lemma_merklify_wf(leaves, 0, leaves.len() as int);
    lemma_extra_nonneg(leaves.len() as int);
}

/// The leaves of a finished tree are exactly its childless vertices: leaf
/// `j` sits at arena index `j`, hashes its own block, and carries the
/// block's absolute offset `base + j * bs`.  At block size 1 that offset
/// names one byte exactly.
pub proof fn lemma_tree_leaf_offsets(data: Seq<u8>, bs: int, base: int, j: int)
    requires
        bs >= 1,
        data.len() >= 1,
        0 <= j < leaves_model(data, bs, base).len(),
    ensures
        tree_model(data, bs, base)[j] == crate::chunk::leaf_of(
            crate::chunk::block_at(data, bs, j),
            base + j * bs,
        ),
        tree_model(data, bs, base)[j].children.len() == 0,
        tree_model(data, bs, base)[j].offset == base + j * bs,
{
    lemma_tree_model_shape(data, bs, base);
    crate::chunk::lemma_leaf_at(data, bs, base, j);
    let nl = leaves_model(data, bs, base).len() as int;
    assert(tree_model(data, bs, base).take(nl)[j] == tree_model(data, bs, base)[j]);
}

/// Construction is deterministic and pure: two trees built from the same
/// bytes with the same block size are node-for-node identical, hashes and
/// shape alike.
pub proof fn lemma_build_deterministic(d1: Seq<u8>, d2: Seq<u8>, bs: int, base: int)
    requires
        d1 == d2,
    ensures
        tree_model(d1, bs, base) == tree_model(d2, bs, base),
{
}

/// Counting law: folding a level of `count` nodes adds exactly
/// `extra_nodes(count)` nodes, the halving-with-carry rule applied until
/// one node remains.
pub proof fn lemma_node_count(arena: Seq<NodeModel>, start: int, count: int)
    ensures
        merklify_spec(arena, start, count).len() == arena.len() + extra_nodes(count),
    decreases count,
{
    if count >= 1 && half_up(count) > 1 {
        lemma_node_count(arena + level_models(arena, start, count), start + count, half_up(count));
    }
}

/// The whole tree over `n` leaves holds `n + extra_nodes(n)` nodes.
pub proof fn lemma_tree_node_count(data: Seq<u8>, bs: int, base: int)
    ensures
        tree_model(data, bs, base).len() == leaves_model(data, bs, base).len() + extra_nodes(
            leaves_model(data, bs, base).len() as int,
        ),
{
    let leaves = leaves_model(data, bs, base);
    lemma_node_count(leaves, 0, leaves.len() as int);
}

} // verus!
