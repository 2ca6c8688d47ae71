//! The refinement step: re-apply chunking and diffing at a finer block
//! size inside a mismatched block, to pin differences down to exact byte
//! offsets.  It is the same two-stage algorithm over a narrower window;
//! both peers must run it at the same offset and the same finer block size
//! for the session to stay synchronized.

use vstd::prelude::*;
use crate::node::{NodeModel, MerkleError};
use crate::chunk::{block_at, leaves_model, lemma_leaves_len};
use crate::builder::{tree_model, merkle_tree_at, lemma_tree_model_shape, lemma_tree_node_count, lemma_tree_leaf_offsets, lemma_extra_nonneg};
use crate::diff::{MerkleAsk, node_answers, leaf_mismatch, in_subtree, merkle_diff, asked_set, lemma_single_mismatch};

verus! {

/// The scoped tree a refinement pass builds for block `b` of the top-level
/// chunking: the block's bytes, re-chunked at `fine` bytes per leaf, with
/// leaf offsets absolute in the original stream.
pub open spec fn refined_tree(data: Seq<u8>, bs: int, fine: int, b: int) -> Seq<NodeModel> {
    tree_model(block_at(data, bs, b), fine, b * bs)
}

/// What one completed refinement pass over a scoped tree `t` reports:
/// exactly the absolute offsets of the mismatched fine-grained leaves, and
/// one exchange per asked vertex.
pub open spec fn refine_report_ok(
    t: Seq<NodeModel>,
    ans: spec_fn(int) -> bool,
    offs: Seq<usize>,
    q: int,
) -> bool {
    &&& forall|ou: usize|
        (#[trigger] offs.contains(ou)) <==> exists|j: int|
            (#[trigger] leaf_mismatch(t, ans, j)) && t[j].offset == ou as int
    &&& q == asked_set(t, ans).len()
}

/// What the whole refinement loop reports after the first `upto` blocks:
/// the union of each block's refined offsets, each pass judged by the
/// asker's answers for that pass's scoped tree.
pub open spec fn refined_union_ok<A: MerkleAsk>(
    data: Seq<u8>,
    bs: int,
    fine: int,
    blocks: Seq<usize>,
    upto: int,
    a0: A,
    out: Seq<usize>,
) -> bool {
    forall|ou: usize|
        (#[trigger] out.contains(ou)) <==> exists|k: int, j: int|
            0 <= k < upto && (#[trigger] leaf_mismatch(
                refined_tree(data, bs, fine, blocks[k] as int),
                node_answers(a0, refined_tree(data, bs, fine, blocks[k] as int)),
                j,
            )) && refined_tree(data, bs, fine, blocks[k] as int)[j].offset == ou as int
}

/// Everything a sequence concatenation holds.
proof fn lemma_concat_contains<T>(a: Seq<T>, b: Seq<T>, y: T)
    ensures
        (a + b).contains(y) <==> (a.contains(y) || b.contains(y)),
{
    if a.contains(y) {
        let k = choose|k: int| 0 <= k < a.len() && a[k] == y;
        assert((a + b)[k] == y);
    }
    if b.contains(y) {
        let k = choose|k: int| 0 <= k < b.len() && b[k] == y;
        assert((a + b)[a.len() + k] == y);
    }
    if (a + b).contains(y) {
        let k = choose|k: int| 0 <= k < (a + b).len() && (a + b)[k] == y;
        if k < a.len() {
            assert(a[k] == y);
        } else {
            assert(b[k - a.len()] == y);
        }
    }
}

/// Re-read one span of the stream, re-chunk it at `fine_block` bytes per
/// leaf, build the scoped tree, and walk it against the same transport.
/// Returns the absolute byte offsets of the mismatched fine-grained leaves
/// (exact differing bytes when `fine_block` is 1), with the exchange count.
#[verifier::loop_isolation(false)]
pub fn refine_leaf<A: MerkleAsk>(
    data: &[u8],
    offset: usize,
    span: usize,
    fine_block: usize,
    asker: &mut A,
) -> (r: Result<(Vec<usize>, usize), MerkleError>)
    requires
        fine_block >= 1,
        span >= 1,
        offset < data@.len(),
    ensures
        forall|i: int, h: Seq<u8>| final(asker).answer(i, h) == old(asker).answer(i, h),
        final(asker).sent() >= old(asker).sent(),
        old(asker).reliable() ==> final(asker).reliable() && r is Ok,
        (r matches Ok(p) ==> final(asker).sent() == old(asker).sent() + p.1),
        (r matches Ok(p) ==> refine_report_ok(
            tree_model(
                data@.subrange(
                    offset as int,
                    if offset + span <= data@.len() {
                        (offset + span) as int
                    } else {
                        data@.len() as int
                    },
                ),
                fine_block as int,
                offset as int,
            ),
            node_answers(
                *old(asker),
                tree_model(
                    data@.subrange(
                        offset as int,
                        if offset + span <= data@.len() {
                            (offset + span) as int
                        } else {
                            data@.len() as int
                        },
                    ),
                    fine_block as int,
                    offset as int,
                ),
            ),
            p.0@,
            p.1 as int,
        )),
{
    let dlen = data.len();
    let end = if dlen - offset < span {
        dlen
    } else {
        offset + span
    };
    let sub = vstd::slice::slice_subrange(data, offset, end);
    let ghost s = data@.subrange(
        offset as int,
        if offset + span <= data@.len() {
            (offset + span) as int
        } else {
            data@.len() as int
        },
    );
    let ghost t = tree_model(s, fine_block as int, offset as int);
    let ghost ans = node_answers(*old(asker), t);
    proof {
        assert(sub@ == s);
        assert(s.len() >= 1);
    }
    let tree = match merkle_tree_at(sub, fine_block, offset) {
        Ok(tr) => tr,
        Err(e) => {
            proof {
                assert(false);
            }
            return Err(e);
        },
    };
    let pair = match merkle_diff(&tree, asker) {
        Ok(p) => p,
        Err(e) => {
            return Err(e);
        },
    };
    let (blocks, questions) = pair;
    let arena = tree.arena();
    let mut offs: Vec<usize> = Vec::new();
    let mut k: usize = 0;
    while k < blocks.len()
        invariant
            k <= blocks@.len(),
            offs@.len() == k,
            forall|k2: int|
                0 <= k2 < k ==> ((#[trigger] offs@[k2]) as int) == t[blocks@[k2] as int].offset,
        decreases blocks@.len() - k,
    {
        let b = blocks[k];
        offs.push(arena[b].offset);
        k = k + 1;
    }
    proof {
        assert(refine_report_ok(t, ans, offs@, questions as int)) by {
            assert forall|ou: usize| (#[trigger] offs@.contains(ou)) implies exists|j: int|
                (#[trigger] leaf_mismatch(t, ans, j)) && t[j].offset == ou as int by {
                let k2 = choose|k2: int| 0 <= k2 < offs@.len() && offs@[k2] == ou;
                let j = blocks@[k2] as int;
                assert(blocks@.contains(blocks@[k2]));
                assert(leaf_mismatch(t, ans, j));
                assert(t[j].offset == ou as int);
            }
            assert forall|ou: usize|
                (exists|j: int| (#[trigger] leaf_mismatch(t, ans, j)) && t[j].offset == ou as int)
                    implies offs@.contains(ou) by {
                let j = choose|j: int| (#[trigger] leaf_mismatch(t, ans, j)) && t[j].offset
                    == ou as int;
                assert(blocks@.contains(j as usize));
                let k2 = choose|k2: int| 0 <= k2 < blocks@.len() && blocks@[k2] == j as usize;
                assert(offs@[k2] == ou);
            }
        }
    }
    Ok((offs, questions))
}

/// The refinement loop: for each mismatched top-level block, seek to its
/// offset and run one refinement pass over exactly that block's span,
/// against the same transport, collecting every refined offset.
#[verifier::loop_isolation(false)]
pub fn refine_blocks<A: MerkleAsk>(
    data: &[u8],
    block_size: usize,
    fine_block: usize,
    blocks: &Vec<usize>,
    asker: &mut A,
) -> (r: Result<Vec<usize>, MerkleError>)
    requires
        block_size >= 1,
        fine_block >= 1,
        forall|k: int|
            0 <= k < blocks@.len() ==> ((#[trigger] blocks@[k]) as int) * (block_size as int)
                < data@.len(),
    ensures
        forall|i: int, h: Seq<u8>| final(asker).answer(i, h) == old(asker).answer(i, h),
        final(asker).sent() >= old(asker).sent(),
        old(asker).reliable() ==> final(asker).reliable() && r is Ok,
        (r matches Ok(v) ==> refined_union_ok(
            data@,
            block_size as int,
            fine_block as int,
            blocks@,
            blocks@.len() as int,
            *old(asker),
            v@,
        )),
{
    let ghost bs = block_size as int;
    let ghost fine = fine_block as int;
    let ghost a0 = *old(asker);
    let dlen = data.len();
    let mut out: Vec<usize> = Vec::new();
    let mut k: usize = 0;
    proof {
        assert(refined_union_ok(data@, bs, fine, blocks@, 0, a0, out@)) by {
            assert forall|ou: usize| !(#[trigger] out@.contains(ou)) by {}
        }
    }
    while k < blocks.len()
        invariant
            k <= blocks@.len(),
            forall|i: int, h: Seq<u8>| asker.answer(i, h) == old(asker).answer(i, h),
            asker.sent() >= old(asker).sent(),
            old(asker).reliable() ==> asker.reliable(),
            a0 == *old(asker),
            refined_union_ok(data@, bs, fine, blocks@, k as int, a0, out@),
        decreases blocks@.len() - k,
    {
        let b = blocks[k];
        proof {
            assert((b as int) * bs < data@.len());
            assert(data@.len() <= usize::MAX);
        }
        let offset = b * block_size;
        let ghost apre = *asker;
        let part = match refine_leaf(data, offset, block_size, fine_block, asker) {
            Ok(p) => p,
            Err(e) => {
                return Err(e);
            },
        };
        let (mut offs, _questions) = part;
        let ghost osnap = out@;
        let ghost psnap = offs@;
        out.append(&mut offs);
        k = k + 1;
        proof {
            assert(out@ == osnap + psnap);
            let kb = (k - 1) as int;
            let tb = refined_tree(data@, bs, fine, blocks@[kb] as int);
            let ansb = node_answers(a0, tb);
            let sub_expr = data@.subrange(
                offset as int,
                if offset + block_size <= data@.len() {
                    (offset + block_size) as int
                } else {
                    data@.len() as int
                },
            );
            let tcall = tree_model(sub_expr, fine, offset as int);
            assert(block_at(data@, bs, blocks@[kb] as int) == sub_expr) by {
                assert((blocks@[kb] as int) * bs == offset as int);
                assert((blocks@[kb] as int + 1) * bs == offset + bs) by (nonlinear_arith)
                    requires
                        bs == block_size as int && offset as int == (blocks@[kb] as int) * bs,
                ;
            }
            assert(tb == tcall);
            assert(node_answers(apre, tcall) =~= ansb);
            assert(node_answers(apre, tcall) == ansb);
            assert(refine_report_ok(tb, ansb, psnap, part.1 as int));
            assert(refined_union_ok(data@, bs, fine, blocks@, k as int, a0, out@)) by {
                assert forall|ou: usize| (#[trigger] out@.contains(ou)) implies exists|
                    k2: int,
                    j: int,
                |
                    0 <= k2 < k && (#[trigger] leaf_mismatch(
                        refined_tree(data@, bs, fine, blocks@[k2] as int),
                        node_answers(a0, refined_tree(data@, bs, fine, blocks@[k2] as int)),
                        j,
                    )) && refined_tree(data@, bs, fine, blocks@[k2] as int)[j].offset
                        == ou as int by {
                    lemma_concat_contains(osnap, psnap, ou);
                    if osnap.contains(ou) {
                        assert(refined_union_ok(data@, bs, fine, blocks@, kb, a0, osnap));
                    } else {
                        assert(psnap.contains(ou));
                        let j = choose|j: int|
                            (#[trigger] leaf_mismatch(tb, ansb, j)) && tb[j].offset == ou as int;
                        assert(leaf_mismatch(
                            refined_tree(data@, bs, fine, blocks@[kb] as int),
                            node_answers(a0, refined_tree(data@, bs, fine, blocks@[kb] as int)),
                            j,
                        ));
                    }
                }
                assert forall|ou: usize|
                    (exists|k2: int, j: int|
                        0 <= k2 < k && (#[trigger] leaf_mismatch(
                            refined_tree(data@, bs, fine, blocks@[k2] as int),
                            node_answers(a0, refined_tree(data@, bs, fine, blocks@[k2] as int)),
                            j,
                        )) && refined_tree(data@, bs, fine, blocks@[k2] as int)[j].offset
                            == ou as int) implies out@.contains(ou) by {
                    let (k2, j) = choose|k2: int, j: int|
                        0 <= k2 < k && (#[trigger] leaf_mismatch(
                            refined_tree(data@, bs, fine, blocks@[k2] as int),
                            node_answers(a0, refined_tree(data@, bs, fine, blocks@[k2] as int)),
                            j,
                        )) && refined_tree(data@, bs, fine, blocks@[k2] as int)[j].offset
                            == ou as int;
                    lemma_concat_contains(osnap, psnap, ou);
                    if k2 < kb {
                        assert(refined_union_ok(data@, bs, fine, blocks@, kb, a0, osnap));
                        assert(osnap.contains(ou));
                    } else {
                        assert(leaf_mismatch(tb, ansb, j) && tb[j].offset == ou as int);
                        assert(psnap.contains(ou));
                    }
                }
            }
        }
    }
    Ok(out)
}

/// One differing byte: when every vertex of a byte-granularity scoped tree
/// disagrees exactly when its subtree holds the leaf of byte
/// `base + target`, a completed refinement pass reports that byte's
/// absolute offset and no other.
pub proof fn lemma_refined_single_byte(
    sub: Seq<u8>,
    base: int,
    target: int,
    ans: spec_fn(int) -> bool,
    offs: Seq<usize>,
    q: int,
)
    requires
        sub.len() >= 1,
        0 <= target < leaves_model(sub, 1, base).len(),
        forall|i: int|
            0 <= i < tree_model(sub, 1, base).len() ==> ((#[trigger] ans(i)) <==> !in_subtree(
                tree_model(sub, 1, base),
                i,
                target,
            )),
        refine_report_ok(tree_model(sub, 1, base), ans, offs, q),
    ensures
        forall|ou: usize| (#[trigger] offs.contains(ou)) <==> ou as int == base + target,
{
    let t = tree_model(sub, 1, base);
    let nl = leaves_model(sub, 1, base).len() as int;
    lemma_tree_model_shape(sub, 1, base);
    lemma_leaves_len(sub, 1, base);
    lemma_tree_node_count(sub, 1, base);
    lemma_extra_nonneg(nl);
    assert(t.len() - 1 >= nl);
    assert(t[t.len() - 1].children.len() > 0);
    lemma_tree_leaf_offsets(sub, 1, base, target);
    assert(target * 1 == target) by (nonlinear_arith);
    assert(t[target].children.len() == 0);
    lemma_single_mismatch(t, ans, target);
    assert forall|ou: usize| (#[trigger] offs.contains(ou)) implies ou as int == base + target by {
        let j = choose|j: int| (#[trigger] leaf_mismatch(t, ans, j)) && t[j].offset == ou as int;
        assert(j == target);
    }
    assert forall|ou: usize| ou as int == base + target implies offs.contains(ou) by {
        assert(leaf_mismatch(t, ans, target) && t[target].offset == ou as int);
    }
}

} // verus!
