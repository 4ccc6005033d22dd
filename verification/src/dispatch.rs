//! Planning of the accelerator work for one build.
//!
//! A build is one leaf-hash pass over all leaves followed by one level-hash
//! pass per remaining layer, every pass encoded separately so that a level's
//! reads see the previous level's writes.  The functions here compute what
//! each dispatch needs — grid shapes, uniform records, pass list and buffer
//! sizes — while the unverifiable device calls live with the caller.

use vstd::prelude::*;
use vstd::arithmetic::power2::{pow2, lemma_pow2_subtracts};
use vstd::arithmetic::div_mod::{lemma_fundamental_div_mod, lemma_fundamental_div_mod_converse};
use vstd::bits::lemma_usize_shr_is_div;
use crate::params::{TreeParams, lemma_pow2_fits_word};

verus! {

/// Hard per-dimension limit on the number of thread groups in one grid
/// dispatch.
pub const MAX_GRID_DIM: usize = 32768;

/// A three-dimensional grid extent handed to one kernel dispatch.
#[derive(Clone, Copy, Debug, PartialEq, Eq, Structural)]
pub struct GridSize {
    pub width: u64,
    pub height: u64,
    pub depth: u64,
}

/// Width and height of the thread-group grid covering `count` groups: one
/// row while `count` fits the per-dimension limit, otherwise rows of the
/// maximal width, with height increased to cover the remainder.
pub open spec fn grid_for_count(count: nat) -> (nat, nat) {
    if count <= MAX_GRID_DIM {
        (count, 1 as nat)
    } else {
        (MAX_GRID_DIM as nat, ((count + MAX_GRID_DIM - 1) / (MAX_GRID_DIM as int)) as nat)
    }
}

/// Shapes `count` thread groups into a dispatchable grid: the width never
/// exceeds the per-dimension limit, and the grid holds at least `count`
/// groups.
pub fn get_size_for_count(count: usize) -> (g: GridSize)
    ensures
        (g.width as nat, g.height as nat) == grid_for_count(count as nat),
        g.depth == 1,
        g.width <= MAX_GRID_DIM,
        g.width * g.height >= count,
{
    if count <= MAX_GRID_DIM {
        GridSize { width: count as u64, height: 1, depth: 1 }
    } else {
        let full_rows = count / MAX_GRID_DIM;
        let rows = if count % MAX_GRID_DIM == 0 {
            full_rows
        } else {
            full_rows + 1
        };
        proof {
            // count == full_rows * 32768 + rem, so rounding the division up
            // is exactly one more row whenever a remainder is left over.
            let c = count as int;
            let d = MAX_GRID_DIM as int;
            lemma_fundamental_div_mod(c, d);
            if c % d == 0 {
                lemma_fundamental_div_mod_converse(c + d - 1, d, c / d, d - 1);
                assert(d * (c / d) == c);
            } else {
                lemma_fundamental_div_mod_converse(c + d - 1, d, c / d + 1, c % d - 1);
                assert(d * (c / d + 1) == d * (c / d) + d) by (nonlinear_arith);
            }
            assert(d * (rows as int) >= c);
        }
        GridSize { width: MAX_GRID_DIM as u64, height: rows as u64, depth: 1 }
    }
}

/// Thread groups needed for `work_items` at `thread_width` threads per
/// group, shaped into a grid.
pub fn thread_group_count(work_items: usize, thread_width: usize) -> (g: GridSize)
    requires
        1 <= thread_width,
        work_items + thread_width <= usize::MAX,
    ensures
        (g.width as nat, g.height as nat) == grid_for_count(
            ((work_items + thread_width) as nat) / (thread_width as nat),
        ),
        g.depth == 1,
{
    get_size_for_count((work_items + thread_width) / thread_width)
}

/// The four-word control record handed to each kernel dispatch; only the
/// level word changes between the passes of one build.
#[derive(Clone, Copy, Debug, PartialEq, Eq, Structural)]
pub struct Uniforms {
    pub level: u32,
    pub tree_length: u32,
    pub num_layers: u32,
    pub leaf_length: u32,
}

impl Uniforms {
    /// The record in its device wire order.
    pub fn to_words(&self) -> (w: [u32; 4])
        ensures
            w@ == seq![self.level, self.tree_length, self.num_layers, self.leaf_length],
    {
        let w = [self.level, self.tree_length, self.num_layers, self.leaf_length];
        proof {
            assert(w@ =~= seq![self.level, self.tree_length, self.num_layers, self.leaf_length]);
        }
        w
    }
}

/// Builds the uniform record for the pass at `level`.
///
/// The three fixed words are 32-bit on the device side, so the layout must
/// fit that width; the bound is part of the device interface, not of the
/// tree logic.
pub fn uniforms_for_level(p: &TreeParams, level: usize) -> (u: Uniforms)
    requires
        p.wf(),
        level < p.num_layers,
        p.tree_length <= u32::MAX,
        p.leaf_length <= u32::MAX,
    ensures
        u.level == level,
        u.tree_length == p.tree_length,
        u.num_layers == p.num_layers,
        u.leaf_length == p.leaf_length,
{
    Uniforms {
        level: level as u32,
        tree_length: p.tree_length as u32,
        num_layers: p.num_layers as u32,
        leaf_length: p.leaf_length as u32,
    }
}

/// One level-hash pass: the level it computes and the number of nodes it
/// hashes.
#[derive(Clone, Copy, Debug, PartialEq, Eq, Structural)]
pub struct LevelPass {
    pub level: usize,
    pub work_items: usize,
}

/// The level-hash passes of one build in dispatch order: levels `1` up to
/// `num_layers - 1`, each over `leaf_count >> level` nodes.
pub fn level_passes(p: &TreeParams) -> (passes: Vec<LevelPass>)
    requires
        p.wf(),
    ensures
        passes@.len() == p.num_layers - 1,
        forall|j: int|
            0 <= j < passes@.len() ==> (#[trigger] passes@[j]).level == j + 1
                && passes@[j].work_items == pow2((p.tree_height - j - 1) as nat),
{
    let mut passes: Vec<LevelPass> = Vec::new();
    let mut i: usize = 1;
    while i < p.num_layers
        invariant
            p.wf(),
            1 <= i <= p.num_layers,
            passes@.len() == i - 1,
            forall|j: int|
                0 <= j < passes@.len() ==> (#[trigger] passes@[j]).level == j + 1
                    && passes@[j].work_items == pow2((p.tree_height - j - 1) as nat),
        decreases p.num_layers - i,
    {
        proof {
            lemma_pow2_fits_word(p.tree_height as nat);
            lemma_usize_shr_is_div(p.leaf_count, i);
            lemma_pow2_subtracts(i as nat, p.tree_height as nat);
        }
        let work_items = p.leaf_count >> i;
        passes.push(LevelPass { level: i, work_items });
        i = i + 1;
    }
    passes
}

/// Bytes of the shared buffer that holds the digest array: four 8-byte
/// field elements per digest slot.
pub fn digest_buffer_bytes(p: &TreeParams) -> (n: usize)
    requires
        p.wf(),
        p.total_digests * 32 <= usize::MAX,
    ensures
        n == p.total_digests * 32,
{
    (p.total_digests * 4) * 8
}

/// Bytes of the shared buffer that holds the flattened leaves: one 8-byte
/// field element per word.
pub fn leaves_buffer_bytes(p: &TreeParams) -> (n: usize)
    requires
        p.wf(),
        p.leaf_count * p.leaf_length * 8 <= usize::MAX,
    ensures
        n == p.leaf_count * p.leaf_length * 8,
{
    proof {
        assert(p.leaf_length * p.leaf_count == p.leaf_count * p.leaf_length) by (nonlinear_arith);
        assert(p.leaf_length * p.leaf_count * 8 == (p.leaf_length * p.leaf_count) * 8);
    }
    (p.leaf_length * p.leaf_count) * 8
}

} // verus!
