use merkle_accel::{ACCEL_MIN_TREE_HEIGHT, PoseidonGoldilocksGPUMerkleHasher, TreeError};
use merkle_accel::params::derive_params;
use merkle_accel::tree::{
    BuildPath, Digest, cap_children, choose_build_path, derive_cap, finish_build, flatten_leaves,
};

#[test]
fn small_trees_never_use_the_accelerator() {
    // Below the threshold the reference path wins, whatever the cap height.
    for cap_height in 0..13 {
        assert_eq!(
            choose_build_path(4096, cap_height, ACCEL_MIN_TREE_HEIGHT),
            BuildPath::Reference
        );
        assert_eq!(choose_build_path(16, cap_height, ACCEL_MIN_TREE_HEIGHT), BuildPath::Reference);
    }
}

#[test]
fn tall_trees_use_the_accelerator_unless_fully_capped() {
    assert_eq!(choose_build_path(8192, 0, ACCEL_MIN_TREE_HEIGHT), BuildPath::Accelerated);
    assert_eq!(choose_build_path(8192, 5, ACCEL_MIN_TREE_HEIGHT), BuildPath::Accelerated);
    // A cap as high as the tree leaves nothing for the engine to do.
    assert_eq!(choose_build_path(8192, 13, ACCEL_MIN_TREE_HEIGHT), BuildPath::Reference);
}

#[test]
fn hasher_routes_by_the_default_threshold() {
    assert_eq!(
        PoseidonGoldilocksGPUMerkleHasher::merkle_tree_path(4096, 0),
        BuildPath::Reference
    );
    assert_eq!(
        PoseidonGoldilocksGPUMerkleHasher::merkle_tree_path(8192, 4),
        BuildPath::Accelerated
    );
    assert_eq!(
        PoseidonGoldilocksGPUMerkleHasher::merkle_tree_path(8192, 13),
        BuildPath::Reference
    );
}

#[test]
fn threshold_is_a_policy_parameter() {
    assert_eq!(choose_build_path(16, 1, 5), BuildPath::Reference);
    assert_eq!(choose_build_path(16, 1, 4), BuildPath::Accelerated);
    assert_eq!(choose_build_path(16, 1, 3), BuildPath::Accelerated);
}

#[test]
fn flatten_concatenates_in_leaf_order() {
    let leaves = vec![vec![1u64, 2], vec![3, 4], vec![5, 6]];
    assert_eq!(flatten_leaves(&leaves, 2), vec![1, 2, 3, 4, 5, 6]);
    let empty: Vec<Vec<u64>> = Vec::new();
    assert_eq!(flatten_leaves(&empty, 4), Vec::<u64>::new());
}

fn numbered_digests(n: usize) -> Vec<Digest> {
    (0..n as u64).map(|k| [k, k + 100, k + 200, k + 300]).collect()
}

#[test]
fn cap_children_select_the_mapped_pairs() {
    // tree_height 4, cap_height 1: sub-blocks of length 14, cap children at
    // level 2 with indices 0..4.
    let p = derive_params(16, 4, 1).unwrap();
    let digests = numbered_digests(p.total_digests);
    let pairs = cap_children(&digests, &p);
    assert_eq!(pairs.len(), 2);
    // Level 2, index 0 maps to slot 6; index 2 to slot 6 + 14.
    assert_eq!(pairs[0], (digests[6], digests[7]));
    assert_eq!(pairs[1], (digests[20], digests[21]));
}

#[test]
fn smallest_tree_caps_the_two_leaf_digests() {
    // With one layer the cap children are the two leaf digests themselves.
    let p = derive_params(2, 4, 0).unwrap();
    let digests = numbered_digests(p.total_digests);
    let pairs = cap_children(&digests, &p);
    assert_eq!(pairs, vec![(digests[0], digests[1])]);
}

#[test]
fn derive_cap_compresses_each_selected_pair() {
    let p = derive_params(16, 4, 1).unwrap();
    let digests = numbered_digests(p.total_digests);
    let combine = |a: Digest, b: Digest| -> Digest {
        [a[0] ^ b[0], a[1].wrapping_add(b[1]), b[2], a[3]]
    };
    let cap = derive_cap(&digests, &p, &combine);
    assert_eq!(cap.len(), p.num_caps);
    assert_eq!(cap[0], combine(digests[6], digests[7]));
    assert_eq!(cap[1], combine(digests[20], digests[21]));
    // A combiner that ignored its children would give a different cap.
    assert_ne!(cap[0], cap[1]);
}

#[test]
fn finish_build_checks_the_readback_sizes() {
    let p = derive_params(16, 4, 1).unwrap();
    let leaves = vec![vec![0u64; 4]; 16];
    let digests = numbered_digests(p.total_digests);
    let cap = numbered_digests(p.num_caps);
    let tree = finish_build(leaves.clone(), digests.clone(), cap.clone(), &p).unwrap();
    assert_eq!(tree.leaves, leaves);
    assert_eq!(tree.digests, digests);
    assert_eq!(tree.cap, cap);

    let short = numbered_digests(p.total_digests - 1);
    assert!(matches!(
        finish_build(leaves.clone(), short, cap.clone(), &p),
        Err(TreeError::DispatchFailure)
    ));
    let long_cap = numbered_digests(p.num_caps + 1);
    assert!(matches!(
        finish_build(leaves, digests, long_cap, &p),
        Err(TreeError::DispatchFailure)
    ));
}
