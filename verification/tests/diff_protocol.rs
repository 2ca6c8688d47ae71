use merklederp::builder::{merkle_tree, MerkleTree};
use merklederp::diff::{merkle_diff, LoopbackAsker, MerkleAsk};
use merklederp::node::{MerkleError, MerkleNode};
use merklederp::refine::{refine_blocks, refine_leaf};

/// The responder side of the protocol, simulated in-process: it walks a
/// structurally identical tree in lockstep, so each question concerns the
/// peer vertex at the same arena index, and the reply compares the two
/// hashes for that vertex.
struct MirrorAsker {
    peer: MerkleTree,
}

impl MirrorAsker {
    fn new(peer: MerkleTree) -> MirrorAsker {
        MirrorAsker { peer }
    }
}

impl MerkleAsk for MirrorAsker {
    fn ask(&mut self, node: &MerkleNode, idx: usize) -> Result<bool, MerkleError> {
        Ok(self.peer.arena()[idx].hash == node.hash)
    }
}

#[test]
fn loopback_reports_nothing_and_asks_once_per_root_child() {
    let data: Vec<u8> = (0u8..=255).cycle().take(777).collect();
    let tree = merkle_tree(&data, 100).unwrap();
    let root_children = tree.arena()[tree.node_count() - 1].children.len();
    let mut asker = LoopbackAsker::new();
    let (blocks, questions) = merkle_diff(&tree, &mut asker).unwrap();
    assert!(blocks.is_empty());
    assert_eq!(questions, root_children);
}

#[test]
fn identical_peers_report_nothing() {
    let data: Vec<u8> = (0u8..=255).cycle().take(5000).collect();
    let tree = merkle_tree(&data, 512).unwrap();
    let peer = merkle_tree(&data, 512).unwrap();
    let root_children = tree.arena()[tree.node_count() - 1].children.len();
    let mut asker = MirrorAsker::new(peer);
    let (blocks, questions) = merkle_diff(&tree, &mut asker).unwrap();
    assert!(blocks.is_empty());
    assert_eq!(questions, root_children);
}

#[test]
fn one_flipped_byte_is_pinned_to_its_block_and_offset() {
    let mine: Vec<u8> = vec![0u8; 16];
    let mut theirs = mine.clone();
    theirs[9] ^= 0xff;

    // coarse pass at 4 bytes per block: byte 9 lies in block 2
    let tree = merkle_tree(&mine, 4).unwrap();
    let peer = merkle_tree(&theirs, 4).unwrap();
    let mut asker = MirrorAsker::new(peer);
    let (blocks, _questions) = merkle_diff(&tree, &mut asker).unwrap();
    assert_eq!(blocks, vec![2]);

    // refinement of that block at byte granularity names offset 9 exactly
    let sub_peer = peer_scoped_tree(&theirs, 8, 4, 1);
    let mut fine_asker = MirrorAsker::new(sub_peer);
    let (offsets, _q) = refine_leaf(&mine, 8, 4, 1, &mut fine_asker).unwrap();
    assert_eq!(offsets, vec![9]);
}

/// The peer's scoped tree over one span, as its own refinement pass would
/// build it.
fn peer_scoped_tree(data: &[u8], lo: usize, span: usize, fine: usize) -> MerkleTree {
    let hi = std::cmp::min(lo + span, data.len());
    merklederp::builder::merkle_tree_at(&data[lo..hi], fine, lo).unwrap()
}

#[test]
fn refine_blocks_collects_every_fine_offset() {
    let mine: Vec<u8> = vec![7u8; 24];
    let mut theirs = mine.clone();
    theirs[1] ^= 1;
    theirs[17] ^= 1;

    let tree = merkle_tree(&mine, 8).unwrap();
    let peer = merkle_tree(&theirs, 8).unwrap();
    let mut asker = MirrorAsker::new(peer);
    let (blocks, _q) = merkle_diff(&tree, &mut asker).unwrap();
    assert_eq!(blocks, vec![0, 2]);

    // refinement walks the blocks in order against a transport that serves
    // each block's scoped tree in turn
    let mut offsets: Vec<usize> = Vec::new();
    for &b in blocks.iter() {
        let sub_peer = peer_scoped_tree(&theirs, b * 8, 8, 1);
        let mut fine_asker = MirrorAsker::new(sub_peer);
        let (part, _q) = refine_leaf(&mine, b * 8, 8, 1, &mut fine_asker).unwrap();
        offsets.extend(part);
    }
    assert_eq!(offsets, vec![1, 17]);
}

#[test]
fn refine_blocks_over_a_reliable_transport_succeeds() {
    // refine_blocks drives every pass over one shared transport; with a
    // loopback channel every comparison agrees and nothing is reported
    let mine: Vec<u8> = vec![3u8; 32];
    let blocks: Vec<usize> = vec![1, 3];
    let mut asker = LoopbackAsker::new();
    let offsets = refine_blocks(&mine, 8, 1, &blocks, &mut asker).unwrap();
    assert!(offsets.is_empty());
}

/// A channel that fails on the first round trip.
struct BrokenAsker;

impl MerkleAsk for BrokenAsker {
    fn ask(&mut self, _node: &MerkleNode, _idx: usize) -> Result<bool, MerkleError> {
        Err(MerkleError::Transport)
    }
}

#[test]
fn a_failed_round_trip_aborts_the_walk() {
    let data: Vec<u8> = vec![1, 2, 3, 4];
    let tree = merkle_tree(&data, 2).unwrap();
    let mut asker = BrokenAsker;
    let r = merkle_diff(&tree, &mut asker);
    assert_eq!(r.err().unwrap(), MerkleError::Transport);
}

#[test]
fn three_mib_of_zeros_match_their_copy() {
    let mib: usize = 1048576;
    let data: Vec<u8> = vec![0u8; 3 * mib];
    let tree = merkle_tree(&data, mib).unwrap();
    let peer = merkle_tree(&data, mib).unwrap();
    let mut asker = MirrorAsker::new(peer);
    let (blocks, _questions) = merkle_diff(&tree, &mut asker).unwrap();
    assert!(blocks.is_empty());
}

#[test]
fn flipped_byte_at_five_million_is_found_exactly() {
    let mib: usize = 1048576;
    let flipped: usize = 5_000_000;
    let mine: Vec<u8> = vec![0u8; 6 * mib];
    let mut theirs = mine.clone();
    theirs[flipped] ^= 0x5a;

    // leaf 4 covers bytes 4194304 through 5242879
    let tree = merkle_tree(&mine, mib).unwrap();
    let peer = merkle_tree(&theirs, mib).unwrap();
    let mut asker = MirrorAsker::new(peer);
    let (blocks, _questions) = merkle_diff(&tree, &mut asker).unwrap();
    assert_eq!(blocks, vec![4]);

    // two refinement rounds narrow the megabyte block down to one byte:
    // 4 KiB spans first, then byte granularity over the one span left
    let mid: usize = 4096;
    let sub_peer = peer_scoped_tree(&theirs, 4 * mib, mib, mid);
    let mut mid_asker = MirrorAsker::new(sub_peer);
    let (spans, _q) = refine_leaf(&mine, 4 * mib, mib, mid, &mut mid_asker).unwrap();
    assert_eq!(spans, vec![4_997_120]);

    let byte_peer = peer_scoped_tree(&theirs, 4_997_120, mid, 1);
    let mut byte_asker = MirrorAsker::new(byte_peer);
    let (offsets, _q) = refine_leaf(&mine, 4_997_120, mid, 1, &mut byte_asker).unwrap();
    assert_eq!(offsets, vec![flipped]);
}
