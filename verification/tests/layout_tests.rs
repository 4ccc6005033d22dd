use merkle_accel::layout::{get_node_hash_index_in_digests, node_digest_offset};
use merkle_accel::params::derive_params;

/// The original interleaved-layout formula, written out directly with bit
/// operations, as a cross-check for the library's mapping.
fn reference_formula(num_layers: usize, tree_length: usize, level: usize, index: usize) -> usize {
    let leaf_index = index << level;
    let tree_index = index >> (num_layers - level);
    let pair_index = (leaf_index & ((1 << num_layers) - 1)) >> level;
    let parity = pair_index & 1;
    let pair_index = pair_index >> 1;
    let siblings_index = (pair_index << (level + 1)) + (1 << level) - 1;
    let d_index = 2 * siblings_index + parity;
    d_index + tree_index * tree_length
}

#[test]
fn offsets_match_bit_formula() {
    // tree_height 5, cap_height 2: 3 layers, 4 sub-blocks of length 14.
    let p = derive_params(32, 4, 2).unwrap();
    assert_eq!(p.num_layers, 3);
    assert_eq!(p.tree_length, 14);
    for level in 0..p.num_layers {
        for index in 0..(p.leaf_count >> level) {
            assert_eq!(
                node_digest_offset(&p, level, index),
                reference_formula(p.num_layers, p.tree_length, level, index)
            );
        }
    }
}

#[test]
fn known_offsets_of_worked_example() {
    // tree_height 13, cap_height 4: 9 layers, sub-blocks of length 1022.
    let p = derive_params(8192, 4, 4).unwrap();
    assert_eq!(p.num_layers, 9);
    assert_eq!(p.tree_length, 1022);
    // Leaf level: the first sibling pair opens the buffer.
    assert_eq!(node_digest_offset(&p, 0, 0), 0);
    assert_eq!(node_digest_offset(&p, 0, 1), 1);
    assert_eq!(node_digest_offset(&p, 0, 2), 4);
    assert_eq!(node_digest_offset(&p, 0, 3), 5);
    // Level 1 sits interleaved right after the first leaf pair.
    assert_eq!(node_digest_offset(&p, 1, 0), 2);
    assert_eq!(node_digest_offset(&p, 1, 1), 3);
    assert_eq!(node_digest_offset(&p, 1, 2), 10);
    // Topmost stored level of the first sub-block.
    assert_eq!(node_digest_offset(&p, 8, 0), 510);
    assert_eq!(node_digest_offset(&p, 8, 1), 511);
    // The second sub-block repeats the pattern one tree_length later.
    assert_eq!(node_digest_offset(&p, 0, 512), 1022);
    assert_eq!(node_digest_offset(&p, 8, 2), 510 + 1022);
}

#[test]
fn bijection_covers_buffer_exactly_once() {
    // Every (level, index) pair maps into [0, total_digests), each slot hit
    // exactly once.
    for (leaf_count, cap_height) in [(16usize, 1usize), (64, 0), (64, 3), (256, 2)] {
        let p = derive_params(leaf_count, 4, cap_height).unwrap();
        let mut seen = vec![false; p.total_digests];
        let mut count = 0usize;
        for level in 0..p.num_layers {
            for index in 0..(p.leaf_count >> level) {
                let o = node_digest_offset(&p, level, index);
                assert!(o < p.total_digests);
                assert!(!seen[o], "offset {} hit twice", o);
                seen[o] = true;
                count += 1;
            }
        }
        assert_eq!(count, p.total_digests);
        assert!(seen.iter().all(|&s| s));
    }
}

#[test]
fn siblings_are_adjacent() {
    let p = derive_params(64, 4, 2).unwrap();
    for level in 0..p.num_layers {
        let nodes = p.leaf_count >> level;
        let mut index = 0;
        while index + 1 < nodes {
            let left = node_digest_offset(&p, level, index);
            let right = node_digest_offset(&p, level, index + 1);
            assert_eq!(right, left + 1);
            index += 2;
        }
    }
}

#[test]
fn raw_mapping_matches_param_driven_mapping() {
    let p = derive_params(128, 4, 3).unwrap();
    for level in 0..p.num_layers {
        for index in 0..(p.leaf_count >> level) {
            assert_eq!(
                get_node_hash_index_in_digests(p.num_layers, p.tree_length, level, index),
                node_digest_offset(&p, level, index)
            );
        }
    }
}
