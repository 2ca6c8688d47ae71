//! Tree vertices, their mathematical model, and the shape invariant of the
//! flat arena that holds a finished tree.

use vstd::prelude::*;

verus! {

/// One vertex of the Merkle tree.
///
/// `children` holds arena indices into the same tree: empty for a leaf,
/// one or two entries for an inner node.  `offset` is the byte offset into
/// the original stream that this vertex's subtree covers.
pub struct MerkleNode {
    pub hash: [u8; 32],
    pub children: Vec<usize>,
    pub offset: usize,
}

/// The mathematical value of a [`MerkleNode`].
#[verifier::ext_equal]
pub ghost struct NodeModel {
    pub hash: Seq<u8>,
    pub children: Seq<int>,
    pub offset: int,
}

impl View for MerkleNode {
    type V = NodeModel;

    open spec fn view(&self) -> NodeModel {
        NodeModel {
            hash: self.hash@,
            children: self.children@.map_values(|c: usize| c as int),
            offset: self.offset as int,
        }
    }
}

impl MerkleNode {
    /// A leaf covers one block of the stream and has no children.
    pub fn is_leaf(&self) -> (r: bool)
        ensures
            r == (self@.children.len() == 0),
    {
        self.children.is_empty()
    }
}

/// The model of a whole arena.
pub open spec fn models(v: Seq<MerkleNode>) -> Seq<NodeModel> {
    v.map_values(|n: MerkleNode| n@)
}

/// Everything that can go wrong in a comparison session.
#[derive(Clone, Copy, Debug, PartialEq, Eq, Structural)]
pub enum MerkleError {
    /// A tree was requested over zero bytes: the root would be undefined.
    EmptyInput,
    /// A challenge/response round trip on the channel failed.
    Transport,
}

/// `c` is a child of vertex `i`.
pub open spec fn is_child(t: Seq<NodeModel>, i: int, c: int) -> bool {
    0 <= i < t.len() && t[i].children.contains(c)
}

/// The local shape of vertex `i`: at most two children, all with strictly
/// smaller arena indices (the arena is append-only, parents come after
/// their children), and no child listed twice.
pub open spec fn node_ok(t: Seq<NodeModel>, i: int) -> bool {
    &&& t[i].children.len() <= 2
    &&& forall|k: int| 0 <= k < t[i].children.len() ==> 0 <= #[trigger] t[i].children[k] < i
    &&& t[i].children.no_duplicates()
}

/// No vertex is the child of two distinct parents.
pub open spec fn unique_parents(t: Seq<NodeModel>) -> bool {
    forall|i1: int, i2: int, c: int|
        #[trigger] is_child(t, i1, c) && #[trigger] is_child(t, i2, c) ==> i1 == i2
}

/// Vertex `c` has a parent somewhere in the arena.
pub open spec fn covered(t: Seq<NodeModel>, c: int) -> bool {
    exists|i: int| #[trigger] is_child(t, i, c)
}

/// A finished tree: nonempty, every vertex well shaped, every vertex but
/// the last owned by exactly one parent.  The last vertex is the root.
pub open spec fn wf_tree(t: Seq<NodeModel>) -> bool {
    &&& t.len() >= 1
    &&& forall|i: int| 0 <= i < t.len() ==> #[trigger] node_ok(t, i)
    &&& unique_parents(t)
    &&& forall|c: int| 0 <= c < t.len() - 1 ==> #[trigger] covered(t, c)
}

} // verus!
