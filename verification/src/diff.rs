//! The breadth-first challenge/response walk that finds which blocks of two
//! structurally identical trees differ.

use vstd::prelude::*;
use vstd::set_lib::{set_int_range, lemma_int_range, lemma_len_subset};
use crate::node::{MerkleNode, NodeModel, MerkleError, models, is_child, node_ok, covered, wf_tree};
use crate::builder::MerkleTree;

verus! {

/// One challenge/response capability: send a node's hash over the session's
/// channel, learn whether the peer's hash for the structurally corresponding
/// node is equal.
pub trait MerkleAsk {
    /// What the peer answers when asked about the vertex at arena index
    /// `idx` with hash `hash`.  A synchronized peer walks its own tree in
    /// lockstep, so the structurally corresponding vertex — and with it the
    /// reply — is determined by the index; the reply table never changes
    /// across one session.  An implementation outside the library may leave
    /// it unspecified.
    open spec fn answer(&self, idx: int, hash: Seq<u8>) -> bool {
        arbitrary()
    }

    /// How many round trips this asker has completed.  An implementation
    /// outside the library may leave it unspecified.
    open spec fn sent(&self) -> int {
        arbitrary()
    }

    /// Whether every future round trip of this asker succeeds.  Left
    /// unspecified, nothing is promised.
    open spec fn reliable(&self) -> bool {
        false
    }

    /// One full round trip: send the hash of the vertex at arena index
    /// `idx`, block for the reply, and compare.  A failure to write or to
    /// read the whole reply is fatal for the session.
    fn ask(&mut self, node: &MerkleNode, idx: usize) -> (r: Result<bool, MerkleError>)
        ensures
            forall|i: int, h: Seq<u8>|
                final(self).answer(i, h) == old(self).answer(i, h),
            final(self).sent() == old(self).sent() + 1,
            old(self).reliable() ==> final(self).reliable() && r is Ok,
            (r matches Ok(b) ==> b == old(self).answer(idx as int, node@.hash)),
    ;
}

/// The per-vertex answers one asker gives for one tree: what it replies
/// when asked about vertex `i`, carrying that vertex's own hash.
pub open spec fn node_answers<A: MerkleAsk>(a: A, t: Seq<NodeModel>) -> spec_fn(int) -> bool {
    |i: int| a.answer(i, t[i].hash)
}

/// Vertex `i` lies in the subtree rooted at vertex `a`.
pub open spec fn in_subtree(t: Seq<NodeModel>, a: int, i: int) -> bool
    decreases (if a >= 0 { a } else { 0 }),
{
    if a == i {
        true
    } else {
        exists|c: int| 0 <= c < a && #[trigger] is_child(t, a, c) && in_subtree(t, c, i)
    }
}

/// Vertex `j` is asked about: some expanded vertex has it as a child.
pub open spec fn asked(t: Seq<NodeModel>, ans: spec_fn(int) -> bool, j: int) -> bool
    decreases t.len() - j, 0int,
{
    exists|i: int| j < i < t.len() && #[trigger] is_child(t, i, j) && expanded(t, ans, i)
}

/// Vertex `i` is expanded: the walk asks about each of its children.  The
/// root is always expanded (its own hash is never asked — both sides
/// already disagree about the whole file); any other vertex is expanded
/// when it was asked, the peer disagreed, and it has children to descend
/// into.
pub open spec fn expanded(t: Seq<NodeModel>, ans: spec_fn(int) -> bool, i: int) -> bool
    decreases t.len() - i, 1int,
{
    if i == t.len() - 1 {
        true
    } else if 0 <= i < t.len() {
        asked(t, ans, i) && !ans(i) && t[i].children.len() > 0
    } else {
        false
    }
}

/// A mismatched block: a leaf that was asked about and disagreed, with
/// nothing below it to descend into.
pub open spec fn leaf_mismatch(t: Seq<NodeModel>, ans: spec_fn(int) -> bool, j: int) -> bool {
    0 <= j < t.len() && t[j].children.len() == 0 && asked(t, ans, j) && !ans(j)
}

/// Every vertex the walk asks about: one exchange each.
pub open spec fn asked_set(t: Seq<NodeModel>, ans: spec_fn(int) -> bool) -> Set<int> {
    Set::new(|j: int| 0 <= j < t.len() && asked(t, ans, j))
}

/// A transport looped back on itself: the reply to every question is the
/// very hash that was sent, so every comparison agrees.
pub struct LoopbackAsker {
    /// How many questions have been answered, as a value.
    pub answered: Ghost<int>,
}

impl LoopbackAsker {
    /// A fresh loopback channel.
    pub fn new() -> (r: LoopbackAsker)
        ensures
            r.sent() == 0,
    {
        LoopbackAsker { answered: Ghost(0) }
    }
}

impl MerkleAsk for LoopbackAsker {
    open spec fn answer(&self, idx: int, hash: Seq<u8>) -> bool {
        true
    }

    open spec fn sent(&self) -> int {
        self.answered@
    }

    open spec fn reliable(&self) -> bool {
        true
    }

    fn ask(&mut self, node: &MerkleNode, idx: usize) -> (r: Result<bool, MerkleError>) {
        self.answered = Ghost(self.answered@ + 1);
        Ok(true)
    }
}

/// Whatever a sequence holds after one push: everything it held, plus the
/// pushed value.
proof fn lemma_push_contains<T>(s: Seq<T>, x: T, y: T)
    ensures
        s.push(x).contains(y) <==> (s.contains(y) || y == x),
{
    if s.contains(y) {
        let k = choose|k: int| 0 <= k < s.len() && s[k] == y;
        assert(s.push(x)[k] == y);
    }
    if y == x {
        assert(s.push(x)[s.len() as int] == y);
    }
    if s.push(x).contains(y) {
        let k = choose|k: int| 0 <= k < s.push(x).len() && s.push(x)[k] == y;
        if k < s.len() {
            assert(s[k] == y);
        }
    }
}

/// Every vertex on a path down to an expanded vertex is itself expanded:
/// the walk reached `i` through an unbroken chain of disagreements.
pub proof fn lemma_ancestors_expanded(
    t: Seq<NodeModel>,
    ans: spec_fn(int) -> bool,
    a: int,
    i: int,
)
    requires
        wf_tree(t),
        0 <= i < t.len(),
        0 <= a < t.len(),
        expanded(t, ans, i),
        in_subtree(t, a, i),
    ensures
        expanded(t, ans, a),
    decreases a,
{
    if a != i {
        let c = choose|c: int| 0 <= c < a && #[trigger] is_child(t, a, c) && in_subtree(t, c, i);
        lemma_ancestors_expanded(t, ans, c, i);
        assert(c < a <= t.len() - 1);
        assert(asked(t, ans, c));
        let p = choose|p: int| c < p < t.len() && #[trigger] is_child(t, p, c) && expanded(t, ans, p);
        assert(is_child(t, p, c) && is_child(t, a, c));
        assert(p == a);
    }
}

/// Some vertex in the processed prefix `q[0, qi)` owns `j` as a child.
pub open spec fn processed_parent(t: Seq<NodeModel>, q: Seq<usize>, qi: int, j: int) -> bool {
    exists|k: int| 0 <= k < qi && #[trigger] is_child(t, q[k] as int, j)
}

/// Some not-yet-processed queue entry has `i` strictly inside its subtree.
pub open spec fn unprocessed_ancestor(t: Seq<NodeModel>, q: Seq<usize>, qi: int, i: int) -> bool {
    exists|k: int| qi <= k < q.len() && #[trigger] in_subtree(t, q[k] as int, i) && q[k] as int != i
}

/// A sequence of distinct values below `n` holds at most `n` of them.
proof fn lemma_distinct_bounded_len(q: Seq<usize>, n: int)
    requires
        q.no_duplicates(),
        forall|k: int| 0 <= k < q.len() ==> (#[trigger] q[k] as int) < n,
        0 <= n,
    ensures
        q.len() <= n,
{
    let s = q.map_values(|x: usize| x as int);
    assert(s.no_duplicates());
    s.unique_seq_to_set();
    assert forall|x: int| s.to_set().contains(x) implies set_int_range(0, n).contains(x) by {
        let k = choose|k: int| 0 <= k < s.len() && s[k] == x;
        assert(q[k] as int == x);
    }
    lemma_int_range(0, n);
    lemma_len_subset(s.to_set(), set_int_range(0, n));
}

/// A sequence of distinct values drawn from a finite set holds at most as
/// many of them as the set does.
proof fn lemma_distinct_in_set(q: Seq<usize>, s: Set<int>)
    requires
        q.no_duplicates(),
        s.finite(),
        forall|k: int| 0 <= k < q.len() ==> s.contains((#[trigger] q[k]) as int),
    ensures
        q.len() <= s.len(),
{
    let m = q.map_values(|x: usize| x as int);
    assert(m.no_duplicates());
    m.unique_seq_to_set();
    assert forall|x: int| m.to_set().contains(x) implies s.contains(x) by {
        let k = choose|k: int| 0 <= k < m.len() && m[k] == x;
        assert(q[k] as int == x);
    }
    lemma_len_subset(m.to_set(), s);
}

/// A subtree also holds the children of every vertex it holds.
proof fn lemma_subtree_extend(t: Seq<NodeModel>, a: int, p: int, c: int)
    requires
        wf_tree(t),
        0 <= a < t.len(),
        0 <= p < t.len(),
        in_subtree(t, a, p),
        is_child(t, p, c),
        0 <= c < p,
    ensures
        in_subtree(t, a, c),
    decreases a,
{
    if a == p {
        assert(in_subtree(t, c, c));
        assert(is_child(t, a, c) && 0 <= c < a && in_subtree(t, c, c));
    } else {
        let d = choose|d: int| 0 <= d < a && #[trigger] is_child(t, a, d) && in_subtree(t, d, p);
        lemma_subtree_extend(t, d, p, c);
        assert(is_child(t, a, d) && in_subtree(t, d, c));
    }
}

/// In a well-formed tree the root's subtree is the whole arena.
pub proof fn lemma_in_root_subtree(t: Seq<NodeModel>, i: int)
    requires
        wf_tree(t),
        0 <= i < t.len(),
    ensures
        in_subtree(t, t.len() - 1, i),
    decreases t.len() - i,
{
    let root = t.len() - 1;
    if i != root {
        assert(covered(t, i));
        let p = choose|p: int| #[trigger] is_child(t, p, i);
        assert(node_ok(t, p));
        assert(i < p < t.len());
        lemma_in_root_subtree(t, p);
        lemma_subtree_extend(t, root, p, i);
    }
}

/// Walk the tree breadth-first from the root, asking the peer about each
/// child of each expanded vertex, left to right, one blocking round trip at
/// a time.  A child whose hash the peer confirms is pruned; one that
/// disagrees is descended into, or recorded when it is a leaf.  Returns the
/// mismatched leaves' arena indices, in ascending order and without
/// repetition, and the number of exchanges performed — one per round trip,
/// one per asked vertex, the root's own hash never among them.  The first
/// failed round trip aborts the whole walk.
#[verifier::loop_isolation(false)]
#[verifier::rlimit(100)]
pub fn merkle_diff<A: MerkleAsk>(tree: &MerkleTree, asker: &mut A) -> (r: Result<
    (Vec<usize>, usize),
    MerkleError,
>)
    ensures
        forall|i: int, h: Seq<u8>| final(asker).answer(i, h) == old(asker).answer(i, h),
        final(asker).sent() >= old(asker).sent(),
        old(asker).reliable() ==> final(asker).reliable() && r is Ok,
        (r matches Ok(p) ==> {
            let t = tree@;
            let ans = node_answers(*old(asker), tree@);
            &&& final(asker).sent() == old(asker).sent() + p.1
            &&& forall|j: int|
                0 <= j < t.len() ==> ((#[trigger] leaf_mismatch(t, ans, j)) <==> p.0@.contains(
                    j as usize,
                ))
            &&& p.0@.no_duplicates()
            &&& forall|k1: int, k2: int| 0 <= k1 < k2 < p.0@.len() ==> p.0@[k1] < p.0@[k2]
            &&& forall|k: int| 0 <= k < p.0@.len() ==> ((#[trigger] p.0@[k]) as int) < t.len()
            &&& p.1 == asked_set(t, ans).len()
            &&& p.0@.len() <= p.1
            &&& forall|i: int| (#[trigger] asked(t, ans, i)) ==> 0 <= i < t.len() - 1
        }),
{
    let ghost t = tree@;
    let ghost ans = node_answers(*old(asker), tree@);
    let nodes = tree.arena();
    let n = nodes.len();
    let mut hit: Vec<bool> = Vec::new();
    let mut fill: usize = 0;
    while fill < n
        invariant
            hit@.len() == fill,
            fill <= n,
            forall|j: int| 0 <= j < fill ==> !(#[trigger] hit@[j]),
        decreases n - fill,
    {
        hit.push(false);
        fill = fill + 1;
    }
    let mut questions: usize = 0;
    let mut queue: Vec<usize> = Vec::new();
    let mut qi: usize = 0;
    let ghost mut seen: Set<int> = Set::empty();
    queue.push(n - 1);
    proof {
        assert(expanded(t, ans, n - 1));
        assert forall|j: int| !(#[trigger] processed_parent(t, queue@, 0, j)) by {}
        assert forall|i: int| 0 <= i < n && (#[trigger] expanded(t, ans, i)) implies queue@.contains(
            i as usize,
        ) || unprocessed_ancestor(t, queue@, 0, i) by {
            if i == n - 1 {
                assert(queue@[0] == (n - 1) as usize);
                assert(queue@.contains(i as usize));
            } else {
                lemma_in_root_subtree(t, i);
                assert(queue@[0] as int == n - 1);
                assert(in_subtree(t, queue@[0] as int, i) && queue@[0] as int != i);
                assert(unprocessed_ancestor(t, queue@, 0, i));
            }
        }
    }
    while qi < queue.len()
        invariant
            forall|i: int, h: Seq<u8>| asker.answer(i, h) == old(asker).answer(i, h),
            asker.sent() == old(asker).sent() + questions,
            old(asker).reliable() ==> asker.reliable(),
            qi <= queue@.len(),
            queue@.len() >= 1,
            queue@[0] == (n - 1) as usize,
            forall|k: int| 0 <= k < queue@.len() ==> ((#[trigger] queue@[k]) as int) < n,
            forall|k: int|
                0 <= k < queue@.len() ==> expanded(t, ans, (#[trigger] queue@[k]) as int),
            queue@.no_duplicates(),
            forall|k: int|
                1 <= k < queue@.len() ==> exists|k2: int|
                    0 <= k2 < qi && k2 < k && is_child(
                        t,
                        queue@[k2] as int,
                        (#[trigger] queue@[k]) as int,
                    ),
            hit@.len() == n,
            forall|j: int|
                0 <= j < n ==> ((#[trigger] hit@[j]) <==> (t[j].children.len() == 0 && !ans(j)
                    && processed_parent(t, queue@, qi as int, j))),
            seen.finite(),
            questions == seen.len(),
            forall|j: int|
                (#[trigger] seen.contains(j)) <==> processed_parent(t, queue@, qi as int, j),
            forall|j: int| (#[trigger] seen.contains(j)) ==> 0 <= j < n - 1,
            forall|i: int|
                0 <= i < n && (#[trigger] expanded(t, ans, i)) ==> queue@.contains(i as usize)
                    || unprocessed_ancestor(t, queue@, qi as int, i),
        decreases n - qi,
    {
        let current = queue[qi];
        let ghost qio = qi as int;
        let ghost qsnap = queue@;
        let ghost cur = current as int;
        proof {
            lemma_distinct_bounded_len(queue@, n as int);
            assert(expanded(t, ans, cur));
            assert(node_ok(t, cur));
            assert(models(nodes@)[cur] == nodes@[cur]@);
        }
        let clen = nodes[current].children.len();
        let mut ci: usize = 0;
        proof {
            assert(clen == t[cur].children.len());
            assert(t[cur].children.take(0) =~= Seq::<int>::empty());
        }
        while ci < clen
            invariant
                ci <= clen,
                forall|i: int, h: Seq<u8>| asker.answer(i, h) == old(asker).answer(i, h),
                asker.sent() == old(asker).sent() + questions,
                old(asker).reliable() ==> asker.reliable(),
                queue@.len() >= qsnap.len(),
                forall|k: int| 0 <= k < qsnap.len() ==> #[trigger] queue@[k] == qsnap[k],
                forall|k: int|
                    qsnap.len() <= k < queue@.len() ==> is_child(
                        t,
                        cur,
                        (#[trigger] queue@[k]) as int,
                    ) && t[cur].children.take(ci as int).contains(queue@[k] as int),
                forall|k: int| 0 <= k < queue@.len() ==> ((#[trigger] queue@[k]) as int) < n,
                forall|k: int|
                    0 <= k < queue@.len() ==> expanded(t, ans, (#[trigger] queue@[k]) as int),
                queue@.no_duplicates(),
                hit@.len() == n,
                forall|j: int|
                    0 <= j < n ==> ((#[trigger] hit@[j]) <==> (t[j].children.len() == 0 && !ans(j)
                        && (processed_parent(t, queue@, qio, j) || t[cur].children.take(
                        ci as int,
                    ).contains(j)))),
                seen.finite(),
                questions == seen.len(),
                forall|j: int|
                    (#[trigger] seen.contains(j)) <==> (processed_parent(t, queue@, qio, j)
                        || t[cur].children.take(ci as int).contains(j)),
                forall|j: int| (#[trigger] seen.contains(j)) ==> 0 <= j < n - 1,
                forall|j: int|
                    (#[trigger] t[cur].children.take(ci as int).contains(j)) && !ans(j)
                        && t[j].children.len() > 0 ==> queue@.contains(j as usize),
            decreases clen - ci,
        {
            let c = nodes[current].children[ci];
            let ghost cc = c as int;
            proof {
                assert(t[cur].children[ci as int] == cc);
                assert(is_child(t, cur, cc));
                assert(0 <= cc < cur);
                assert(asked(t, ans, cc)) by {
                    assert(is_child(t, cur, cc) && expanded(t, ans, cur));
                }
                assert(!processed_parent(t, queue@, qio, cc)) by {
                    if processed_parent(t, queue@, qio, cc) {
                        let k2 = choose|k2: int|
                            0 <= k2 < qio && #[trigger] is_child(t, queue@[k2] as int, cc);
                        assert(is_child(t, queue@[k2] as int, cc) && is_child(t, cur, cc));
                        assert(queue@[k2] as int == cur);
                        assert(queue@[k2] == qsnap[k2] && qsnap[qio] == current);
                        assert(qsnap.no_duplicates());
                        assert(false);
                    }
                }
                assert(!t[cur].children.take(ci as int).contains(cc)) by {
                    if t[cur].children.take(ci as int).contains(cc) {
                        let k = choose|k: int|
                            0 <= k < ci && t[cur].children.take(ci as int)[k] == cc;
                        assert(t[cur].children[k] == t[cur].children[ci as int]);
                        assert(false);
                    }
                }
                assert(!seen.contains(cc));
                // room for one more exchange
                assert(seen.subset_of(set_int_range(0, n - 1)));
                lemma_int_range(0, n - 1);
                lemma_len_subset(seen, set_int_range(0, n - 1));
                assert(questions < n);
            }
            let reply = asker.ask(&nodes[c], c);
            let matched = match reply {
                Ok(b) => b,
                Err(e) => {
                    return Err(e);
                },
            };
            questions = questions + 1;
            let ghost qpre = queue@;
            let ghost hpre = hit@;
            proof {
                seen = seen.insert(cc);
                assert(models(nodes@)[cc] == nodes@[cc]@);
                assert(matched == ans(cc));
            }
            if !matched {
                if nodes[c].children.len() == 0 {
                    hit.set(c, true);
                    proof {
                        assert(t[cc].children.len() == 0);
                    }
                } else {
                    queue.push(c);
                    proof {
                        assert(t[cc].children.len() > 0);
                        assert(expanded(t, ans, cc)) by {
                            assert(cc < n - 1);
                        }
                        assert(!qpre.contains(c)) by {
                            if qpre.contains(c) {
                                let k = choose|k: int| 0 <= k < qpre.len() && qpre[k] == c;
                                if k < qsnap.len() {
                                    if k == 0 {
                                        assert(qsnap[0] == (n - 1) as usize);
                                        assert(cc < n - 1);
                                        assert(false);
                                    } else {
                                        let k2 = choose|k2: int|
                                            0 <= k2 < qio && k2 < k && is_child(
                                                t,
                                                qsnap[k2] as int,
                                                qsnap[k] as int,
                                            );
                                        assert(is_child(t, qsnap[k2] as int, cc));
                                        assert(is_child(t, cur, cc));
                                        assert(qsnap[k2] as int == cur);
                                        assert(qsnap[k2] == qsnap[qio]);
                                        assert(false);
                                    }
                                } else {
                                    assert(t[cur].children.take(ci as int).contains(cc));
                                    assert(false);
                                }
                            }
                        }
                    }
                }
            }
            ci = ci + 1;
            proof {
                let tk = t[cur].children.take(ci as int);
                assert(tk =~= t[cur].children.take(ci - 1).push(cc));
                lemma_push_contains(t[cur].children.take(ci - 1), cc, cc);
                assert forall|j: int| #[trigger] tk.contains(j) implies (t[cur].children.take(
                    ci - 1,
                ).contains(j) || j == cc) by {
                    lemma_push_contains(t[cur].children.take(ci - 1), cc, j);
                }
                assert forall|j: int|
                    (t[cur].children.take(ci - 1).contains(j) || j == cc) implies tk.contains(
                    j,
                ) by {
                    lemma_push_contains(t[cur].children.take(ci - 1), cc, j);
                }
                if !matched && t[cc].children.len() == 0 {
                    assert(hit@ =~= hpre.update(cc, true));
                } else {
                    assert(hit@ == hpre);
                }
                if !matched && t[cc].children.len() > 0 {
                    assert(queue@ =~= qpre.push(c));
                    assert forall|k: int| qsnap.len() <= k < queue@.len() implies is_child(
                        t,
                        cur,
                        (#[trigger] queue@[k]) as int,
                    ) && tk.contains(queue@[k] as int) by {
                        if k < qpre.len() {
                            assert(queue@[k] == qpre[k]);
                        } else {
                            assert(queue@[k] == c);
                        }
                    }
                } else {
                    assert(queue@ == qpre);
                }
                assert forall|j: int|
                    #[trigger] processed_parent(t, queue@, qio, j) == processed_parent(
                    t,
                    qpre,
                    qio,
                    j,
                ) by {
                    if processed_parent(t, queue@, qio, j) {
                        let k = choose|k: int|
                            0 <= k < qio && #[trigger] is_child(t, queue@[k] as int, j);
                        assert(queue@[k] == qpre[k]);
                        assert(is_child(t, qpre[k] as int, j));
                    }
                    if processed_parent(t, qpre, qio, j) {
                        let k = choose|k: int|
                            0 <= k < qio && #[trigger] is_child(t, qpre[k] as int, j);
                        assert(qpre[k] == queue@[k]);
                        assert(is_child(t, queue@[k] as int, j));
                    }
                }
                assert forall|j: int| 0 <= j < n implies ((#[trigger] hit@[j]) <==> (
                t[j].children.len() == 0 && !ans(j) && (processed_parent(t, queue@, qio, j)
                    || tk.contains(j)))) by {
                    if j == cc {
                        if !matched && t[cc].children.len() == 0 {
                            assert(hit@[cc]);
                        }
                    } else {
                        assert(hit@[j] == hpre[j]);
                    }
                }
                // the child just handled is in the queue when it must be
                assert forall|j: int|
                    #[trigger] tk.contains(j) && !ans(j) && t[j].children.len() > 0
                        implies queue@.contains(j as usize) by {
                    if j == cc {
                        if !matched {
                            assert(queue@[qpre.len() as int] == c);
                            assert(queue@.contains(c));
                        } else {
                            assert(ans(cc));
                        }
                    } else {
                        assert(t[cur].children.take(ci - 1).contains(j));
                        assert(qpre.contains(j as usize));
                        lemma_push_contains(qpre, c, j as usize);
                    }
                }
            }
        }
        qi = qi + 1;
        proof {
            let tk = t[cur].children.take(clen as int);
            assert(tk =~= t[cur].children);
            // children of the processed prefix, one step further
            assert(queue@[qio] == current);
            assert forall|j: int|
                (#[trigger] processed_parent(t, queue@, qi as int, j)) implies (processed_parent(
                t,
                queue@,
                qio,
                j,
            ) || is_child(t, cur, j)) by {
                let k = choose|k: int|
                    0 <= k < qi && #[trigger] is_child(t, queue@[k] as int, j);
                if k < qio {
                    assert(processed_parent(t, queue@, qio, j));
                }
            }
            assert forall|j: int|
                (processed_parent(t, queue@, qio, j) || is_child(t, cur, j)) implies (
            #[trigger] processed_parent(t, queue@, qi as int, j)) by {
                if processed_parent(t, queue@, qio, j) {
                    let k = choose|k: int|
                        0 <= k < qio && #[trigger] is_child(t, queue@[k] as int, j);
                    assert(is_child(t, queue@[k] as int, j));
                } else {
                    assert(is_child(t, queue@[qio] as int, j));
                }
            }
            // membership of children as plain child relation
            assert forall|j: int| #[trigger] is_child(t, cur, j) implies tk.contains(j) by {
                let k = choose|k: int|
                    0 <= k < t[cur].children.len() && t[cur].children[k] == j;
                assert(tk[k] == j);
            }
            // restored queue ancestry invariant
            assert forall|k: int| 1 <= k < queue@.len() implies exists|k2: int|
                0 <= k2 < qi && k2 < k && is_child(
                    t,
                    queue@[k2] as int,
                    (#[trigger] queue@[k]) as int,
                ) by {
                if k < qsnap.len() {
                    let k2 = choose|k2: int|
                        0 <= k2 < qio && k2 < k && is_child(
                            t,
                            qsnap[k2] as int,
                            qsnap[k] as int,
                        );
                    assert(is_child(t, queue@[k2] as int, queue@[k] as int));
                } else {
                    assert(is_child(t, cur, queue@[k] as int));
                    assert(queue@[qio] as int == cur);
                    assert(qio < qsnap.len() <= k);
                }
            }
            // completeness, one step further
            assert forall|i: int|
                0 <= i < n && (#[trigger] expanded(t, ans, i)) implies queue@.contains(i as usize)
                    || unprocessed_ancestor(t, queue@, qi as int, i) by {
                if !queue@.contains(i as usize) {
                    assert(!qsnap.contains(i as usize)) by {
                        if qsnap.contains(i as usize) {
                            let k = choose|k: int|
                                0 <= k < qsnap.len() && qsnap[k] == i as usize;
                            assert(queue@[k] == i as usize);
                        }
                    }
                    assert(unprocessed_ancestor(t, qsnap, qio, i));
                    let k = choose|k: int|
                        qio <= k < qsnap.len() && #[trigger] in_subtree(t, qsnap[k] as int, i)
                            && qsnap[k] as int != i;
                    if k > qio {
                        assert(queue@[k] == qsnap[k]);
                        assert(in_subtree(t, queue@[k] as int, i) && queue@[k] as int != i);
                        assert(unprocessed_ancestor(t, queue@, qi as int, i));
                    } else {
                        assert(in_subtree(t, cur, i) && cur != i);
                        let c = choose|c: int|
                            0 <= c < cur && #[trigger] is_child(t, cur, c) && in_subtree(
                                t,
                                c,
                                i,
                            );
                        lemma_ancestors_expanded(t, ans, c, i);
                        assert(c != n - 1);
                        assert(!ans(c) && t[c].children.len() > 0);
                        assert(tk.contains(c));
                        assert(queue@.contains(c as usize));
                        assert(c != i);
                        let kc = choose|kc: int|
                            0 <= kc < queue@.len() && queue@[kc] == c as usize;
                        assert(kc >= qi as int) by {
                            if kc < qsnap.len() {
                                if kc == 0 {
                                    assert(queue@[0] == qsnap[0]);
                                    assert(qsnap[0] == (n - 1) as usize);
                                    assert(c < cur <= n - 1);
                                    assert(false);
                                } else if kc < qio {
                                    let k2 = choose|k2: int|
                                        0 <= k2 < qio && k2 < kc && is_child(
                                            t,
                                            qsnap[k2] as int,
                                            qsnap[kc] as int,
                                        );
                                    assert(is_child(t, qsnap[k2] as int, c));
                                    assert(is_child(t, cur, c));
                                    assert(qsnap[k2] as int == cur);
                                    assert(qsnap[k2] == qsnap[qio]);
                                    assert(false);
                                } else if kc == qio {
                                    assert(queue@[qio] as int == cur);
                                    assert(c < cur);
                                    assert(false);
                                }
                            }
                        }
                        assert(in_subtree(t, queue@[kc] as int, i));
                        assert(queue@[kc] as int != i);
                        assert(unprocessed_ancestor(t, queue@, qi as int, i));
                    }
                }
            }
        }
    }
    proof {
        assert forall|j: int| 0 <= j < n implies ((#[trigger] asked(t, ans, j)) <==> seen.contains(
            j,
        )) by {
            if asked(t, ans, j) {
                let i = choose|i: int|
                    j < i < t.len() && #[trigger] is_child(t, i, j) && expanded(t, ans, i);
                assert(queue@.contains(i as usize) || unprocessed_ancestor(
                    t,
                    queue@,
                    qi as int,
                    i,
                ));
                if unprocessed_ancestor(t, queue@, qi as int, i) {
                    let k = choose|k: int|
                        qi <= k < queue@.len() && #[trigger] in_subtree(t, queue@[k] as int, i)
                            && queue@[k] as int != i;
                    assert(false);
                }
                let k = choose|k: int| 0 <= k < queue@.len() && queue@[k] == i as usize;
                assert(is_child(t, queue@[k] as int, j));
                assert(processed_parent(t, queue@, qi as int, j));
                assert(seen.contains(j));
            }
            if seen.contains(j) {
                let k = choose|k: int|
                    0 <= k < qi && #[trigger] is_child(t, queue@[k] as int, j);
                let i = queue@[k] as int;
                assert(expanded(t, ans, i));
                assert(node_ok(t, i));
                assert(j < i < t.len());
                assert(asked(t, ans, j));
            }
        }
        assert(asked_set(t, ans) =~= seen);
        assert forall|j: int| 0 <= j < n implies ((#[trigger] leaf_mismatch(t, ans, j)) <==> hit@[
            j
        ]) by {
            if leaf_mismatch(t, ans, j) {
                assert(seen.contains(j));
                assert(processed_parent(t, queue@, qi as int, j));
            }
            if hit@[j] {
                assert(processed_parent(t, queue@, qi as int, j));
                assert(seen.contains(j));
                assert(asked(t, ans, j));
            }
        }
        assert forall|i: int| (#[trigger] asked(t, ans, i)) implies 0 <= i < n - 1 by {
            let p = choose|p: int|
                i < p < t.len() && #[trigger] is_child(t, p, i) && expanded(t, ans, p);
            assert(node_ok(t, p));
        }
    }
    // emit the mismatched leaves in ascending arena order
    let mut blocks: Vec<usize> = Vec::new();
    let mut i: usize = 0;
    while i < n
        invariant
            i <= n,
            forall|j: int|
                0 <= j < n ==> ((#[trigger] blocks@.contains(j as usize)) <==> (j < i && hit@[j])),
            forall|k: int| 0 <= k < blocks@.len() ==> ((#[trigger] blocks@[k]) as int) < i,
            forall|k1: int, k2: int| 0 <= k1 < k2 < blocks@.len() ==> blocks@[k1] < blocks@[k2],
            blocks@.no_duplicates(),
        decreases n - i,
    {
        let ghost bsnap = blocks@;
        if hit[i] {
            blocks.push(i);
        }
        i = i + 1;
        proof {
            assert forall|j: int| 0 <= j < n implies ((#[trigger] blocks@.contains(j as usize))
                <==> (j < i && hit@[j])) by {
                if hit@[(i - 1) as int] {
                    lemma_push_contains(bsnap, (i - 1) as usize, j as usize);
                } else {
                    assert(blocks@ == bsnap);
                }
            }
        }
    }
    proof {
        assert forall|k: int| 0 <= k < blocks@.len() implies seen.contains(
            (#[trigger] blocks@[k]) as int,
        ) by {
            let j = blocks@[k] as int;
            assert(0 <= j < n);
            assert(j as usize == blocks@[k]);
            assert(blocks@.contains(j as usize));
            assert(hit@[j]);
            assert(leaf_mismatch(t, ans, j));
            assert(asked(t, ans, j));
            assert(seen.contains(j));
        }
        lemma_distinct_in_set(blocks@, seen);
    }
    Ok((blocks, questions))
}

/// When every answer agrees — the peers' trees are hash-identical, as two
/// builds over byte-identical data are — the walk reports no mismatched
/// block and performs exactly one exchange per child of the root,
/// descending nowhere.
pub proof fn lemma_identical_no_descent(t: Seq<NodeModel>, ans: spec_fn(int) -> bool)
    requires
        wf_tree(t),
        forall|i: int| 0 <= i < t.len() ==> #[trigger] ans(i),
    ensures
        forall|j: int| !(#[trigger] leaf_mismatch(t, ans, j)),
        asked_set(t, ans).len() == t[t.len() - 1].children.len(),
{
    let n = t.len() as int;
    let root = n - 1;
    assert forall|j: int| !(#[trigger] leaf_mismatch(t, ans, j)) by {
        if 0 <= j < n {
            assert(ans(j));
        }
    }
    assert forall|j: int| (#[trigger] asked(t, ans, j)) implies is_child(t, root, j) by {
        let i = choose|i: int|
            j < i < t.len() && #[trigger] is_child(t, i, j) && expanded(t, ans, i);
        if i != root {
            assert(ans(i));
            assert(!expanded(t, ans, i));
        }
    }
    let ch = t[root].children;
    assert(node_ok(t, root));
    assert(expanded(t, ans, root));
    assert forall|j: int| asked_set(t, ans).contains(j) <==> ch.contains(j) by {
        if ch.contains(j) {
            let k = choose|k: int| 0 <= k < ch.len() && ch[k] == j;
            assert(0 <= j < root);
            assert(is_child(t, root, j));
            assert(asked(t, ans, j));
        }
        if asked_set(t, ans).contains(j) {
            assert(is_child(t, root, j));
        }
    }
    assert(asked_set(t, ans) =~= ch.to_set());
    ch.unique_seq_to_set();
}

/// The subtree of vertex `a` holds one of the differing leaves.
pub open spec fn subtree_hits(t: Seq<NodeModel>, a: int, targets: Set<int>) -> bool {
    exists|d: int| #[trigger] targets.contains(d) && in_subtree(t, a, d)
}

/// On the path above any differing leaf every vertex disagrees and is
/// descended into.
proof fn lemma_targets_path_expanded(
    t: Seq<NodeModel>,
    ans: spec_fn(int) -> bool,
    targets: Set<int>,
    d: int,
    a: int,
)
    requires
        wf_tree(t),
        forall|dd: int|
            #[trigger] targets.contains(dd) ==> 0 <= dd < t.len() && t[dd].children.len() == 0,
        forall|i: int| 0 <= i < t.len() ==> ((#[trigger] ans(i)) <==> !subtree_hits(t, i, targets)),
        targets.contains(d),
        0 <= a < t.len(),
        in_subtree(t, a, d),
        a != d,
    ensures
        expanded(t, ans, a),
    decreases t.len() - a,
{
    let n = t.len() as int;
    let root = n - 1;
    assert(t[a].children.len() > 0) by {
        let c = choose|c: int| 0 <= c < a && #[trigger] is_child(t, a, c) && in_subtree(t, c, d);
        assert(t[a].children.contains(c));
    }
    if a != root {
        assert(covered(t, a));
        let p = choose|p: int| #[trigger] is_child(t, p, a);
        assert(node_ok(t, p));
        assert(a < p < n);
        assert(in_subtree(t, p, d)) by {
            assert(is_child(t, p, a) && 0 <= a < p && in_subtree(t, a, d));
        }
        assert(p != d) by {
            if p == d {
                assert(t[p].children.len() == 0);
            }
        }
        lemma_targets_path_expanded(t, ans, targets, d, p);
        assert(asked(t, ans, a)) by {
            assert(is_child(t, p, a) && expanded(t, ans, p));
        }
        assert(subtree_hits(t, a, targets)) by {
            assert(targets.contains(d) && in_subtree(t, a, d));
        }
        assert(!ans(a));
    }
}

/// The walk is sound and complete: against a peer whose answer for each
/// vertex denies equality exactly when the vertex's subtree covers one of
/// the differing leaves — what comparing hashes gives whenever no two
/// distinct blocks hash alike — the reported set is exactly those leaves.
pub proof fn lemma_mismatch_set(t: Seq<NodeModel>, ans: spec_fn(int) -> bool, targets: Set<int>)
    requires
        wf_tree(t),
        t[t.len() - 1].children.len() > 0,
        forall|d: int|
            #[trigger] targets.contains(d) ==> 0 <= d < t.len() && t[d].children.len() == 0,
        forall|i: int| 0 <= i < t.len() ==> ((#[trigger] ans(i)) <==> !subtree_hits(t, i, targets)),
    ensures
        forall|j: int| (#[trigger] leaf_mismatch(t, ans, j)) <==> targets.contains(j),
{
    let n = t.len() as int;
    let root = n - 1;
    assert forall|j: int| (#[trigger] leaf_mismatch(t, ans, j)) implies targets.contains(j) by {
        assert(!ans(j));
        assert(subtree_hits(t, j, targets));
        let d = choose|d: int| #[trigger] targets.contains(d) && in_subtree(t, j, d);
        if j != d {
            let c = choose|c: int|
                0 <= c < j && #[trigger] is_child(t, j, c) && in_subtree(t, c, d);
            assert(t[j].children.contains(c));
        }
    }
    assert forall|j: int| targets.contains(j) implies #[trigger] leaf_mismatch(t, ans, j) by {
        assert(t[j].children.len() == 0);
        assert(j != root);
        assert(covered(t, j));
        let p = choose|p: int| #[trigger] is_child(t, p, j);
        assert(node_ok(t, p));
        assert(j < p < n);
        assert(in_subtree(t, p, j)) by {
            assert(in_subtree(t, j, j));
            assert(is_child(t, p, j) && 0 <= j < p && in_subtree(t, j, j));
        }
        lemma_targets_path_expanded(t, ans, targets, j, p);
        assert(asked(t, ans, j)) by {
            assert(is_child(t, p, j) && expanded(t, ans, p));
        }
        assert(subtree_hits(t, j, targets)) by {
            assert(targets.contains(j) && in_subtree(t, j, j));
        }
        assert(!ans(j));
    }
}

/// When the peers differ in exactly one block, every vertex disagrees
/// exactly when its subtree holds that block's leaf.  The walk then
/// reports exactly that leaf and no other.
pub proof fn lemma_single_mismatch(
    t: Seq<NodeModel>,
    ans: spec_fn(int) -> bool,
    target: int,
)
    requires
        wf_tree(t),
        0 <= target < t.len(),
        t[target].children.len() == 0,
        t[t.len() - 1].children.len() > 0,
        forall|i: int| 0 <= i < t.len() ==> ((#[trigger] ans(i)) <==> !in_subtree(t, i, target)),
    ensures
        forall|j: int| (#[trigger] leaf_mismatch(t, ans, j)) <==> j == target,
{
    let targets = set![target];
    assert forall|i: int| 0 <= i < t.len() implies ((#[trigger] ans(i)) <==> !subtree_hits(
        t,
        i,
        targets,
    )) by {
        if subtree_hits(t, i, targets) {
            let d = choose|d: int| #[trigger] targets.contains(d) && in_subtree(t, i, d);
            assert(d == target);
        }
        if in_subtree(t, i, target) {
            assert(targets.contains(target) && in_subtree(t, i, target));
            assert(subtree_hits(t, i, targets));
        }
    }
    lemma_mismatch_set(t, ans, targets);
    assert forall|j: int| (#[trigger] leaf_mismatch(t, ans, j)) <==> j == target by {
        assert(targets.contains(j) <==> j == target);
    }
}

} // verus!
