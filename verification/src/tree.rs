//! Assembly of the final tree value.
//!
//! The builder decides between the accelerator and the sequential reference
//! path, flattens the leaves for upload, and derives the cap — the truncated
//! top layer that serves as the tree's public commitment — from the digest
//! buffer through the layout mapping.  The two hash primitives themselves
//! (the leaf/level kernels and the two-to-one compression) are external
//! collaborators: the caller runs them and hands their output back in.

use vstd::prelude::*;
use vstd::arithmetic::power2::{pow2, lemma_pow2_unfold};
use vstd::arithmetic::mul::{lemma_mul_inequality, lemma_mul_is_distributive_add};
use vstd::bits::lemma_usize_pow2_no_overflow;
use crate::TreeError;
use crate::params::{TreeParams, clog2, compute_tree_height};
use crate::layout::{node_offset, in_domain, node_digest_offset, lemma_siblings_adjacent,
    lemma_node_offset_in_range};

verus! {

/// A digest: four field elements, each a 64-bit word.
pub type Digest = [u64; 4];

/// A finished commitment tree: the leaves, the flat digest buffer, and the
/// cap of `pow2(cap_height)` top digests.
pub struct Tree {
    pub leaves: Vec<Vec<u64>>,
    pub digests: Vec<Digest>,
    pub cap: Vec<Digest>,
}

/// Which implementation a build is routed to.
#[derive(Clone, Copy, Debug, PartialEq, Eq, Structural)]
pub enum BuildPath {
    /// The sequential reference implementation.
    Reference,
    /// The accelerator-resident digest engine.
    Accelerated,
}

/// Whether a build of `leaf_count` leaves truncated at `cap_height` goes to
/// the accelerator: only when the tree is at least `min_accel_height`
/// levels high and the cap does not replace the whole tree.
pub open spec fn uses_accelerator(leaf_count: nat, cap_height: nat, min_accel_height: nat) -> bool {
    clog2(leaf_count) != cap_height && clog2(leaf_count) >= min_accel_height
}

/// Law: below the policy threshold the accelerator path is never taken,
/// whatever the cap height.
pub proof fn lemma_small_tree_stays_on_reference(
    leaf_count: nat,
    cap_height: nat,
    min_accel_height: nat,
)
    requires
        clog2(leaf_count) < min_accel_height,
    ensures
        !uses_accelerator(leaf_count, cap_height, min_accel_height),
{
}

/// Routes a build.  The threshold is a policy value owned by the caller;
/// `crate::ACCEL_MIN_TREE_HEIGHT` is the default.
pub fn choose_build_path(leaf_count: usize, cap_height: usize, min_accel_height: usize) -> (path:
    BuildPath)
    requires
        1 <= leaf_count,
        leaf_count <= usize::MAX / 2,
    ensures
        path == (if uses_accelerator(leaf_count as nat, cap_height as nat, min_accel_height as nat) {
            BuildPath::Accelerated
        } else {
            BuildPath::Reference
        }),
        clog2(leaf_count as nat) < min_accel_height ==> path == BuildPath::Reference,
{
    let tree_height = compute_tree_height(leaf_count);
    if cap_height == tree_height || tree_height < min_accel_height {
        BuildPath::Reference
    } else {
        BuildPath::Accelerated
    }
}

impl crate::PoseidonGoldilocksGPUMerkleHasher {
    /// The routing decision of this hasher's tree builder: the reference
    /// implementation below the default threshold or when the cap replaces
    /// the whole tree, the accelerator otherwise.
    pub fn merkle_tree_path(leaf_count: usize, cap_height: usize) -> (path: BuildPath)
        requires
            1 <= leaf_count,
            leaf_count <= usize::MAX / 2,
        ensures
            path == (if uses_accelerator(
                leaf_count as nat,
                cap_height as nat,
                crate::ACCEL_MIN_TREE_HEIGHT as nat,
            ) {
                BuildPath::Accelerated
            } else {
                BuildPath::Reference
            }),
    {
        choose_build_path(leaf_count, cap_height, crate::ACCEL_MIN_TREE_HEIGHT)
    }
}

/// Flattens the leaves into the one contiguous sequence the upload buffer
/// holds, leaf after leaf.
pub fn flatten_leaves(leaves: &Vec<Vec<u64>>, leaf_length: usize) -> (flat: Vec<u64>)
    requires
        forall|i: int| 0 <= i < leaves@.len() ==> (#[trigger] leaves@[i])@.len() == leaf_length,
        leaves@.len() * leaf_length <= usize::MAX,
    ensures
        flat@.len() == leaves@.len() * leaf_length,
        forall|i: int, j: int|
            #![trigger leaves@[i]@[j]]
            0 <= i < leaves@.len() && 0 <= j < leaf_length ==> flat@[i * leaf_length + j]
                == leaves@[i]@[j],
{
    let ghost l = leaf_length as int;
    let mut flat: Vec<u64> = Vec::new();
    let mut i: usize = 0;
    while i < leaves.len()
        invariant
            forall|a: int| 0 <= a < leaves@.len() ==> (#[trigger] leaves@[a])@.len() == leaf_length,
            leaves@.len() * leaf_length <= usize::MAX,
            i <= leaves@.len(),
            flat@.len() == i * l,
            l == leaf_length,
            forall|a: int, b: int|
                #![trigger leaves@[a]@[b]]
                0 <= a < i && 0 <= b < l ==> flat@[a * l + b] == leaves@[a]@[b],
        decreases leaves@.len() - i,
    {
        let leaf = &leaves[i];
        let mut j: usize = 0;
        proof {
            lemma_mul_inequality(i as int + 1, leaves@.len() as int, l);
            lemma_mul_is_distributive_add(l, i as int, 1);
            assert((i + 1) * l == l * (i + 1));
            assert(l * i == i * l);
        }
        while j < leaf.len()
            invariant
                forall|a: int| 0 <= a < leaves@.len() ==> (#[trigger] leaves@[a])@.len()
                    == leaf_length,
                0 <= i < leaves@.len(),
                leaf == &leaves@[i as int],
                leaf@.len() == leaf_length,
                j <= leaf_length,
                l == leaf_length,
                (i + 1) * l <= usize::MAX,
                (i + 1) * l == i * l + l,
                flat@.len() == i * l + j,
                forall|a: int, b: int|
                    #![trigger leaves@[a]@[b]]
                    0 <= a < i && 0 <= b < l ==> flat@[a * l + b] == leaves@[a]@[b],
                forall|b: int| 0 <= b < j ==> flat@[i * l + b] == leaf@[b],
            decreases leaf@.len() - j,
        {
            flat.push(leaf[j]);
            j = j + 1;
            proof {
                // Earlier leaves' slots all sit below i * l, so the push
                // left them untouched.
                assert forall|a: int, b: int|
                    #![trigger leaves@[a]@[b]]
                    0 <= a < i && 0 <= b < l implies flat@[a * l + b] == leaves@[a]@[b] by {
                    lemma_mul_inequality(a + 1, i as int, l);
                    lemma_mul_is_distributive_add(l, a, 1);
                    assert((a + 1) * l == l * (a + 1));
                    assert(l * a == a * l);
                    assert(a * l + b < i as int * l);
                };
            }
        }
        i = i + 1;
        proof {
            assert forall|a: int, b: int|
                #![trigger leaves@[a]@[b]]
                0 <= a < i && 0 <= b < l implies flat@[a * l + b] == leaves@[a]@[b] by {
                if a == i - 1 {
                    assert(flat@[(i - 1) * l + b] == leaves@[i - 1]@[b]);
                }
            };
        }
    }
    proof {
        assert(flat@.len() == leaves@.len() * l);
    }
    flat
}

/// The pair of child digests that one cap entry is compressed from: for cap
/// entry `i`, the digests of the nodes at the cap-child level with indices
/// `2 i` and `2 i + 1`, read from the buffer through the layout mapping.
pub fn cap_children(digests: &Vec<Digest>, p: &TreeParams) -> (pairs: Vec<(Digest, Digest)>)
    requires
        p.wf(),
        digests@.len() == p.total_digests,
    ensures
        pairs@.len() == p.num_caps,
        forall|i: int|
            #![trigger pairs@[i]]
            0 <= i < p.num_caps ==> {
                let left = node_offset(
                    p.num_layers as nat,
                    p.tree_length as nat,
                    p.cap_child_level(),
                    (2 * i) as nat,
                ) as int;
                pairs@[i].0 == digests@[left] && pairs@[i].1 == digests@[left + 1]
            },
{
    let mut pairs: Vec<(Digest, Digest)> = Vec::new();
    let mut i: usize = 0;
    let child_level = p.num_layers - 1;
    while i < p.num_caps
        invariant
            p.wf(),
            digests@.len() == p.total_digests,
            child_level == p.num_layers - 1,
            i <= p.num_caps,
            pairs@.len() == i,
            forall|k: int|
                #![trigger pairs@[k]]
                0 <= k < i ==> {
                    let left = node_offset(
                        p.num_layers as nat,
                        p.tree_length as nat,
                        p.cap_child_level(),
                        (2 * k) as nat,
                    ) as int;
                    pairs@[k].0 == digests@[left] && pairs@[k].1 == digests@[left + 1]
                },
        decreases p.num_caps - i,
    {
        proof {
            // 2 i + 1 < pow2(cap_height + 1), the extent of the cap-child
            // level, so both children are in the layout's domain.
            lemma_usize_pow2_no_overflow((p.cap_height + 1) as nat);
            lemma_pow2_unfold((p.cap_height + 1) as nat);
            assert((p.tree_height - child_level) as nat == (p.cap_height + 1) as nat);
            assert(in_domain(*p, child_level as nat, (2 * i) as nat));
            assert(in_domain(*p, child_level as nat, (2 * i + 1) as nat));
            lemma_siblings_adjacent(*p, child_level as nat, (2 * i) as nat);
            lemma_node_offset_in_range(*p, child_level as nat, (2 * i + 1) as nat);
        }
        let left = node_digest_offset(p, child_level, 2 * i);
        let pair = (digests[left], digests[left + 1]);
        pairs.push(pair);
        i = i + 1;
    }
    pairs
}

/// Derives the cap from the digest buffer: entry `i` is the two-to-one
/// compression of the two children selected through the layout mapping at
/// the cap-child level.  The compression primitive itself is an external
/// collaborator and comes in as `two_to_one`; whatever input-output pairs
/// it admits, each cap entry is its output on exactly the right children.
pub fn derive_cap<F: Fn(Digest, Digest) -> Digest>(
    digests: &Vec<Digest>,
    p: &TreeParams,
    two_to_one: &F,
) -> (cap: Vec<Digest>)
    requires
        p.wf(),
        digests@.len() == p.total_digests,
        forall|a: Digest, b: Digest| call_requires(*two_to_one, (a, b)),
    ensures
        cap@.len() == p.num_caps,
        forall|i: int|
            #![trigger cap@[i]]
            0 <= i < p.num_caps ==> {
                let left = node_offset(
                    p.num_layers as nat,
                    p.tree_length as nat,
                    p.cap_child_level(),
                    (2 * i) as nat,
                ) as int;
                call_ensures(*two_to_one, (digests@[left], digests@[left + 1]), cap@[i])
            },
{
    let mut cap: Vec<Digest> = Vec::new();
    let mut i: usize = 0;
    let child_level = p.num_layers - 1;
    while i < p.num_caps
        invariant
            p.wf(),
            digests@.len() == p.total_digests,
            child_level == p.num_layers - 1,
            i <= p.num_caps,
            cap@.len() == i,
            forall|a: Digest, b: Digest| call_requires(*two_to_one, (a, b)),
            forall|k: int|
                #![trigger cap@[k]]
                0 <= k < i ==> {
                    let left = node_offset(
                        p.num_layers as nat,
                        p.tree_length as nat,
                        p.cap_child_level(),
                        (2 * k) as nat,
                    ) as int;
                    call_ensures(*two_to_one, (digests@[left], digests@[left + 1]), cap@[k])
                },
        decreases p.num_caps - i,
    {
        proof {
            lemma_usize_pow2_no_overflow((p.cap_height + 1) as nat);
            lemma_pow2_unfold((p.cap_height + 1) as nat);
            assert((p.tree_height - child_level) as nat == (p.cap_height + 1) as nat);
            assert(in_domain(*p, child_level as nat, (2 * i) as nat));
            assert(in_domain(*p, child_level as nat, (2 * i + 1) as nat));
            lemma_siblings_adjacent(*p, child_level as nat, (2 * i) as nat);
            lemma_node_offset_in_range(*p, child_level as nat, (2 * i + 1) as nat);
        }
        let left = node_digest_offset(p, child_level, 2 * i);
        let entry = two_to_one(digests[left], digests[left + 1]);
        cap.push(entry);
        i = i + 1;
    }
    cap
}

/// Bounds-checked assembly of the final tree value from a build's readback.
///
/// Succeeds exactly when the digest buffer and the cap have the sizes the
/// layout demands; a device readback of the wrong size is reported as a
/// dispatch failure and produces no tree.
pub fn finish_build(leaves: Vec<Vec<u64>>, digests: Vec<Digest>, cap: Vec<Digest>, p: &TreeParams)
    -> (r: Result<Tree, TreeError>)
    requires
        p.wf(),
    ensures
        match r {
            Ok(t) => {
                &&& digests@.len() == p.total_digests
                &&& cap@.len() == p.num_caps
                &&& t.leaves == leaves
                &&& t.digests == digests
                &&& t.cap == cap
            },
            Err(e) => {
                &&& e == TreeError::DispatchFailure
                &&& (digests@.len() != p.total_digests || cap@.len() != p.num_caps)
            },
        },
{
    if digests.len() != p.total_digests || cap.len() != p.num_caps {
        return Err(TreeError::DispatchFailure);
    }
    Ok(Tree { leaves, digests, cap })
}

} // verus!
