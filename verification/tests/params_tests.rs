use merkle_accel::TreeError;
use merkle_accel::params::{compute_tree_height, derive_params, pow2_exec};

#[test]
fn tree_height_is_ceiling_log2() {
    assert_eq!(compute_tree_height(1), 0);
    assert_eq!(compute_tree_height(2), 1);
    assert_eq!(compute_tree_height(3), 2);
    assert_eq!(compute_tree_height(4), 2);
    assert_eq!(compute_tree_height(5), 3);
    assert_eq!(compute_tree_height(8192), 13);
}

#[test]
fn pow2_exec_matches_shifts() {
    assert_eq!(pow2_exec(0), 1);
    assert_eq!(pow2_exec(4), 16);
    assert_eq!(pow2_exec(13), 8192);
}

#[test]
fn worked_example_layout() {
    // 8192 leaves of 4 field elements, truncated at cap height 4.
    let p = derive_params(8192, 4, 4).unwrap();
    assert_eq!(p.leaf_count, 8192);
    assert_eq!(p.leaf_length, 4);
    assert_eq!(p.tree_height, 13);
    assert_eq!(p.cap_height, 4);
    assert_eq!(p.num_caps, 16);
    assert_eq!(p.total_digests, 16352);
    assert_eq!(p.num_layers, 9);
    assert_eq!(p.tree_length, 1022);
    // total_digests is the 16383 tree hashes minus the 31 nodes that the
    // 16 cap entries replace.
    assert_eq!(p.total_digests, (2 * 8192 - 1) - (2 * 16 - 1));
}

#[test]
fn small_example_layout() {
    let p = derive_params(16, 4, 1).unwrap();
    assert_eq!(p.tree_height, 4);
    assert_eq!(p.num_caps, 2);
    assert_eq!(p.total_digests, 28);
    assert_eq!(p.num_layers, 3);
    assert_eq!(p.tree_length, 14);
}

#[test]
fn full_height_cap_keeps_every_digest() {
    let p = derive_params(64, 4, 0).unwrap();
    assert_eq!(p.num_caps, 1);
    assert_eq!(p.total_digests, 126);
    assert_eq!(p.tree_length, 126);
    assert_eq!(p.num_layers, 6);
}

#[test]
fn smallest_tree_has_one_layer() {
    // Two leaves, no cap truncation: one stored layer of two digests.
    let p = derive_params(2, 4, 0).unwrap();
    assert_eq!(p.tree_height, 1);
    assert_eq!(p.num_caps, 1);
    assert_eq!(p.num_layers, 1);
    assert_eq!(p.total_digests, 2);
    assert_eq!(p.tree_length, 2);
}

#[test]
fn cap_at_or_above_tree_height_is_a_configuration_error() {
    assert_eq!(derive_params(16, 4, 4), Err(TreeError::Configuration));
    assert_eq!(derive_params(16, 4, 7), Err(TreeError::Configuration));
    assert!(derive_params(16, 4, 3).is_ok());
}
