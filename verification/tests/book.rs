use opening_othello::canon::Transform;
use opening_othello::opening::{bfs_stats, serialize};
use opening_othello::tree::GameTree;

/// Builds a 64-byte record from a move prefix and the final disc counts.
fn rec(moves: &[u8], black: u8, white: u8) -> Vec<u8> {
    let mut r = vec![0u8; 64];
    r[..moves.len()].copy_from_slice(moves);
    r[62] = black;
    r[63] = white;
    r
}

fn be_u64(bytes: &[u8]) -> u64 {
    let mut v: u64 = 0;
    for b in bytes {
        v = v * 256 + *b as u64;
    }
    v
}

#[test]
fn transform_identity_for_canonical_opening() {
    let mut t = Transform::new();
    t.init(2, 3);
    assert_eq!(t.get(0x23), 0x23);
    assert_eq!(t.get(0x10), 0x10);
    assert_eq!(t.get(0x88), 0x88);
    assert_eq!(t.get(0xff), 0xff);
}

#[test]
fn transform_swap_rotate_and_both() {
    let mut t = Transform::new();
    t.init(3, 2);
    assert_eq!(t.get(0x32), 0x23);
    assert_eq!(t.get(0x01), 0x10);
    assert_eq!(t.get(0x88), 0x88);
    let mut t = Transform::new();
    t.init(5, 4);
    assert_eq!(t.get(0x54), 0x23);
    assert_eq!(t.get(0x00), 0x77);
    let mut t = Transform::new();
    t.init(4, 5);
    assert_eq!(t.get(0x45), 0x23);
    assert_eq!(t.get(0xff), 0xff);
}

#[test]
fn two_symmetric_records_share_one_branch() {
    // the concrete scenario: a record and its board transpose
    let rec1 = rec(&[0x23, 0x10, 0xff], 35, 29);
    let rec2 = rec(&[0x32, 0x01, 0xff], 35, 29);
    let mut tree = GameTree::new();
    tree.add_play(&rec1, 25, true);
    tree.add_play(&rec2, 25, true);

    assert_eq!(tree.plays, 2);
    assert_eq!(tree.score_sum, 12);
    assert_eq!(tree.children.len(), 1);
    let (code, child) = &tree.children[0];
    assert_eq!(*code, 0x23);
    assert_eq!(child.plays, 2);
    assert_eq!(child.score_sum, 12);
    assert_eq!(child.children.len(), 1);
    let (gcode, grand) = &child.children[0];
    assert_eq!(*gcode, 0x10);
    assert_eq!(grand.plays, 2);
    assert_eq!(grand.score_sum, 12);
    assert_eq!(grand.children.len(), 0);
}

#[test]
fn scenario_serializes_to_three_blocks() {
    let rec1 = rec(&[0x23, 0x10, 0xff], 35, 29);
    let rec2 = rec(&[0x32, 0x01, 0xff], 35, 29);
    let mut tree = GameTree::new();
    tree.add_play(&rec1, 25, true);
    tree.add_play(&rec2, 25, true);

    let stats = bfs_stats(&tree);
    assert_eq!(stats, vec![(12i64, 2u64), (12, 2), (12, 2)]);
    let bits: Vec<u64> = stats
        .iter()
        .map(|&(s, p)| (s as f64 / p as f64).to_bits())
        .collect();
    let bytes = serialize(&tree, &bits);

    // three blocks: 32 + 32 + 8 bytes
    assert_eq!(bytes.len(), 72);
    assert_eq!(be_u64(&bytes[0..8]), 32);
    assert_eq!(be_u64(&bytes[32..40]), 32);
    assert_eq!(be_u64(&bytes[64..72]), 8);

    // root block entry: padding, move code, score 6.0, pointer to offset 32
    assert_eq!(&bytes[8..15], &[0u8; 7]);
    assert_eq!(bytes[15], 0x23);
    assert_eq!(&bytes[16..24], &6.0f64.to_be_bytes());
    assert_eq!(be_u64(&bytes[24..32]), 32);

    // depth-1 block entry: move 0x10, score 6.0, leaf child pointer 0
    assert_eq!(&bytes[40..47], &[0u8; 7]);
    assert_eq!(bytes[47], 0x10);
    assert_eq!(&bytes[48..56], &6.0f64.to_be_bytes());
    assert_eq!(be_u64(&bytes[56..64]), 0);
}

#[test]
fn reader_walk_reconstructs_the_tree() {
    // the round trip a book reader performs: size, entries, follow pointer
    let rec1 = rec(&[0x23, 0x10, 0xff], 35, 29);
    let rec2 = rec(&[0x32, 0x01, 0xff], 35, 29);
    let mut tree = GameTree::new();
    tree.add_play(&rec1, 25, true);
    tree.add_play(&rec2, 25, true);
    let bits: Vec<u64> = bfs_stats(&tree)
        .iter()
        .map(|&(s, p)| (s as f64 / p as f64).to_bits())
        .collect();
    let bytes = serialize(&tree, &bits);

    let size = be_u64(&bytes[0..8]) as usize;
    let entries = (size - 8) / 24;
    assert_eq!(entries, tree.children.len());
    let code = bytes[8 + 7];
    assert_eq!(code, tree.children[0].0);
    let ptr = be_u64(&bytes[16 + 8..16 + 16]) as usize;
    assert_ne!(ptr, 0);

    // follow the pointer: the child's block describes the child node
    let child = &tree.children[0].1;
    let csize = be_u64(&bytes[ptr..ptr + 8]) as usize;
    assert_eq!((csize - 8) / 24, child.children.len());
    assert_eq!(bytes[ptr + 8 + 7], child.children[0].0);
    assert_eq!(
        f64::from_be_bytes(bytes[ptr + 16..ptr + 24].try_into().unwrap()),
        6.0
    );
}

#[test]
fn sentinel_at_first_position_updates_root_only() {
    let r = rec(&[0xff], 33, 31);
    let mut tree = GameTree::new();
    tree.add_play(&r, 25, true);
    assert_eq!(tree.plays, 1);
    assert_eq!(tree.score_sum, 2);
    assert_eq!(tree.children.len(), 0);
}

#[test]
fn depth_limit_truncates_without_error() {
    let r = rec(&[0x23, 0x10, 0x11, 0xff], 40, 24);
    let mut tree = GameTree::new();
    tree.add_play(&r, 1, true);
    // the root is updated and the first move inserted; the node beyond the
    // limit is never updated and gets no children
    assert_eq!(tree.plays, 1);
    assert_eq!(tree.score_sum, 16);
    assert_eq!(tree.children.len(), 1);
    let child = &tree.children[0].1;
    assert_eq!(child.plays, 0);
    assert_eq!(child.score_sum, 0);
    assert_eq!(child.children.len(), 0);
}

#[test]
fn pass_is_inserted_unremapped() {
    let r = rec(&[0x32, 0x88, 0xff], 33, 31);
    let mut tree = GameTree::new();
    tree.add_play(&r, 25, true);
    // first move picks the transpose class, the pass stays itself
    assert_eq!(tree.children.len(), 1);
    assert_eq!(tree.children[0].0, 0x23);
    let child = &tree.children[0].1;
    assert_eq!(child.children.len(), 1);
    assert_eq!(child.children[0].0, 0x88);
}

#[test]
fn canonicalization_can_be_disabled() {
    let r = rec(&[0x32, 0x01, 0xff], 35, 29);
    let mut tree = GameTree::new();
    tree.add_play(&r, 25, false);
    assert_eq!(tree.children.len(), 1);
    assert_eq!(tree.children[0].0, 0x32);
    assert_eq!(tree.children[0].1.children[0].0, 0x01);
}

#[test]
fn scores_average_over_all_visiting_records() {
    let r1 = rec(&[0x23, 0xff], 40, 24); // differential +16
    let r2 = rec(&[0x23, 0xff], 20, 44); // differential -24
    let mut tree = GameTree::new();
    tree.add_play(&r1, 25, true);
    tree.add_play(&r2, 25, true);
    assert_eq!(tree.plays, 2);
    assert_eq!(tree.score_sum, -8);
    let child = &tree.children[0].1;
    assert_eq!(child.plays, 2);
    assert_eq!(child.score_sum, -8);
    let bits: Vec<u64> = bfs_stats(&tree)
        .iter()
        .map(|&(s, p)| (s as f64 / p as f64).to_bits())
        .collect();
    let bytes = serialize(&tree, &bits);
    // the entry score is the mean differential, -4.0
    assert_eq!(&bytes[16..24], &(-4.0f64).to_be_bytes());
}

#[test]
fn entries_keep_insertion_order_not_key_order() {
    let r1 = rec(&[0x23, 0x75, 0xff], 33, 31);
    let r2 = rec(&[0x23, 0x10, 0xff], 33, 31);
    let mut tree = GameTree::new();
    tree.add_play(&r1, 25, true);
    tree.add_play(&r2, 25, true);
    let child = &tree.children[0].1;
    assert_eq!(child.children[0].0, 0x75);
    assert_eq!(child.children[1].0, 0x10);

    let bits: Vec<u64> = bfs_stats(&tree)
        .iter()
        .map(|&(s, p)| if p == 0 { 0 } else { (s as f64 / p as f64).to_bits() })
        .collect();
    let bytes = serialize(&tree, &bits);
    // depth-1 block sits at offset 32 and lists 0x75 before 0x10
    assert_eq!(be_u64(&bytes[32..40]), 8 + 2 * 24);
    assert_eq!(bytes[40 + 7], 0x75);
    assert_eq!(bytes[40 + 24 + 7], 0x10);
}

#[test]
fn empty_tree_serializes_to_one_leaf_block() {
    let tree = GameTree::new();
    let stats = bfs_stats(&tree);
    assert_eq!(stats, vec![(0i64, 0u64)]);
    let bytes = serialize(&tree, &vec![0u64]);
    assert_eq!(bytes, vec![0, 0, 0, 0, 0, 0, 0, 8]);
}

#[test]
fn four_symmetric_variants_one_branch() {
    // the same game seen through all four board symmetries
    let recs = [
        rec(&[0x23, 0x10, 0xff], 35, 29),
        rec(&[0x32, 0x01, 0xff], 35, 29),
        rec(&[0x54, 0x67, 0xff], 35, 29),
        rec(&[0x45, 0x76, 0xff], 35, 29),
    ];
    let mut tree = GameTree::new();
    for r in &recs {
        tree.add_play(r, 25, true);
    }
    assert_eq!(tree.plays, 4);
    assert_eq!(tree.children.len(), 1);
    let child = &tree.children[0].1;
    assert_eq!(tree.children[0].0, 0x23);
    assert_eq!(child.plays, 4);
    assert_eq!(child.score_sum, 24);
    assert_eq!(child.children.len(), 1);
    assert_eq!(child.children[0].0, 0x10);
    assert_eq!(child.children[0].1.plays, 4);
}

#[test]
fn limit_zero_ignores_records() {
    let r = rec(&[0x23, 0x10, 0xff], 35, 29);
    let mut tree = GameTree::new();
    tree.add_play(&r, 0, true);
    assert_eq!(tree.plays, 0);
    assert_eq!(tree.score_sum, 0);
    assert_eq!(tree.children.len(), 0);
}
