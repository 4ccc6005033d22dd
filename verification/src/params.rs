//! Derivation of the buffer-layout parameters of one tree build.
//!
//! Every component works from the same `TreeParams` record; nothing may
//! re-derive a value independently, so the equalities in `TreeParams::wf`
//! are the single source of truth for the layout arithmetic.

use vstd::prelude::*;
use vstd::arithmetic::power2::{
    pow2, lemma_pow2_adds, lemma_pow2_pos, lemma_pow2_strictly_increases, lemma_pow2_unfold,
    lemma2_to64,
};
use vstd::arithmetic::div_mod::lemma_div_multiples_vanish;
use vstd::bits::{lemma_usize_pow2_no_overflow, lemma_usize_shl_is_mul, lemma_usize_shr_is_div};
use crate::TreeError;

verus! {

/// Ceiling of the base-2 logarithm: the smallest `h` with `n <= pow2(h)`
/// (0 for `n <= 1`).
pub open spec fn clog2(n: nat) -> nat
    decreases n,
{
    if n <= 1 {
        0
    } else {
        (1 + clog2(((n + 1) / 2) as nat)) as nat
    }
}

/// Whether `n` is an exact power of two.
pub open spec fn is_power_of_two(n: nat) -> bool {
    n == pow2(clog2(n))
}

/// `clog2` really is the ceiling of the base-2 logarithm: `pow2(clog2(n))`
/// reaches `n`, and no smaller exponent does.
pub proof fn lemma_clog2_bounds(n: nat)
    requires
        1 <= n,
    ensures
        n <= pow2(clog2(n)),
        clog2(n) > 0 ==> pow2((clog2(n) - 1) as nat) < n,
    decreases n,
{
    if n <= 1 {
        assert(pow2(0) == 1) by { lemma2_to64(); };
    } else {
        let m = ((n + 1) / 2) as nat;
        lemma_clog2_bounds(m);
        lemma_pow2_unfold(clog2(n));
        assert(pow2(clog2(n)) == 2 * pow2(clog2(m)));
        if clog2(m) > 0 {
            lemma_pow2_unfold(clog2(m));
        } else {
            assert(pow2(0) == 1) by { lemma2_to64(); };
        }
    }
}

/// A power of two that fits in `usize` has its exponent below the word width.
pub proof fn lemma_pow2_fits_word(e: nat)
    requires
        pow2(e) <= usize::MAX,
    ensures
        e < usize::BITS,
{
    if e >= usize::BITS {
        lemma2_to64();
        if e > usize::BITS {
            lemma_pow2_strictly_increases(usize::BITS as nat, e);
        }
        assert(usize::BITS == 32 || usize::BITS == 64);
    }
}

/// Computes `pow2(e)` as a machine word.
pub fn pow2_exec(e: usize) -> (r: usize)
    requires
        pow2(e as nat) <= usize::MAX,
    ensures
        r == pow2(e as nat),
{
    proof {
        lemma_pow2_fits_word(e as nat);
        lemma_usize_shl_is_mul(1, e);
    }
    1usize << e
}

/// Computes the tree height `clog2(leaf_count)` of a base layer of
/// `leaf_count` leaves.
pub fn compute_tree_height(leaf_count: usize) -> (h: usize)
    requires
        1 <= leaf_count,
        leaf_count <= usize::MAX / 2,
    ensures
        h == clog2(leaf_count as nat),
        leaf_count <= pow2(h as nat),
{
    let ghost goal = clog2(leaf_count as nat);
    proof {
        lemma_clog2_bounds(leaf_count as nat);
        assert(pow2(0) == 1) by { lemma2_to64(); };
        if goal > 0 {
            // pow2(goal) == 2 * pow2(goal - 1) < 2 * leaf_count, so it fits.
            lemma_pow2_unfold(goal);
        }
        lemma_pow2_fits_word(goal);
    }
    let mut h: usize = 0;
    let mut p: usize = 1;
    while p < leaf_count
        invariant
            1 <= leaf_count,
            leaf_count <= pow2(goal),
            pow2(goal) <= usize::MAX,
            goal < usize::BITS,
            goal > 0 ==> pow2((goal - 1) as nat) < leaf_count,
            p == pow2(h as nat),
            h <= goal,
        decreases goal - h,
    {
        proof {
            lemma_pow2_pos(h as nat);
            if h >= goal {
                if h > goal {
                    lemma_pow2_strictly_increases(goal, h as nat);
                }
                assert(false);
            }
            lemma_pow2_unfold((h + 1) as nat);
            if h + 1 < goal {
                lemma_pow2_strictly_increases((h + 1) as nat, goal);
            }
        }
        p = 2 * p;
        h = h + 1;
    }
    proof {
        // p == pow2(h) >= leaf_count, and every exponent below goal falls
        // short of leaf_count, so h is exactly the ceiling logarithm.
        if h < goal {
            if h < goal - 1 {
                lemma_pow2_strictly_increases(h as nat, (goal - 1) as nat);
            }
            assert(pow2(h as nat) <= pow2((goal - 1) as nat));
            assert(false);
        }
    }
    h
}

/// The shared layout record of one tree build.
#[derive(Clone, Copy, Debug, PartialEq, Eq, Structural)]
pub struct TreeParams {
    /// Number of leaves; always an exact power of two.
    pub leaf_count: usize,
    /// Field elements per leaf.
    pub leaf_length: usize,
    /// `clog2(leaf_count)`: levels from the leaves to the root.
    pub tree_height: usize,
    /// Number of top levels replaced by the explicit cap.
    pub cap_height: usize,
    /// `pow2(cap_height)` independent sub-blocks / cap entries.
    pub num_caps: usize,
    /// Digest slots in the flat buffer.
    pub total_digests: usize,
    /// Levels stored in the digest buffer: `tree_height - cap_height`.
    pub num_layers: usize,
    /// Digest slots per sub-block: `total_digests >> cap_height`.
    pub tree_length: usize,
}

impl TreeParams {
    /// The defining equalities of the layout.  Every component recomputes
    /// nothing: it reads these fields.
    pub open spec fn wf(self) -> bool {
        &&& self.cap_height < self.tree_height
        &&& self.tree_height + 3 <= usize::BITS
        &&& self.leaf_count == pow2(self.tree_height as nat)
        &&& self.num_caps == pow2(self.cap_height as nat)
        &&& self.num_layers == self.tree_height - self.cap_height
        &&& self.total_digests == 2 * self.leaf_count - 2 * self.num_caps
        &&& self.tree_length == 2 * (pow2(self.num_layers as nat) - 1)
    }

    /// Level (in buffer numbering) of the two children combined into one cap
    /// entry.
    pub open spec fn cap_child_level(self) -> nat {
        (self.num_layers - 1) as nat
    }
}

/// The per-sub-block length times the sub-block count covers the whole
/// buffer exactly.
pub proof fn lemma_params_product(p: TreeParams)
    requires
        p.wf(),
    ensures
        p.num_caps * p.tree_length == p.total_digests,
{
    let ch = p.cap_height as nat;
    let l = p.num_layers as nat;
    lemma_pow2_adds(ch, l);
    lemma_pow2_pos(l);
    assert(pow2(ch) * (2 * (pow2(l) - 1)) == 2 * (pow2(ch) * pow2(l)) - 2 * pow2(ch))
        by (nonlinear_arith)
        requires pow2(l) >= 1;
}

/// Derives the layout record for a build of `leaf_count` leaves of
/// `leaf_length` field elements each, truncated at `cap_height`.
///
/// Succeeds exactly when the cap height lies below the tree height; a cap
/// height at or above the tree height is a configuration error and the
/// build does not proceed.
pub fn derive_params(leaf_count: usize, leaf_length: usize, cap_height: usize) -> (r: Result<
    TreeParams,
    TreeError,
>)
    requires
        1 <= leaf_count,
        is_power_of_two(leaf_count as nat),
        leaf_count <= usize::MAX / 8,
    ensures
        match r {
            Ok(p) => {
                &&& cap_height < clog2(leaf_count as nat)
                &&& p.wf()
                &&& p.leaf_count == leaf_count
                &&& p.leaf_length == leaf_length
                &&& p.cap_height == cap_height
                &&& p.tree_height == clog2(leaf_count as nat)
            },
            Err(e) => e == TreeError::Configuration && cap_height >= clog2(leaf_count as nat),
        },
{
    let tree_height = compute_tree_height(leaf_count);
    if cap_height >= tree_height {
        return Err(TreeError::Configuration);
    }
    let ghost th = tree_height as nat;
    let ghost ch = cap_height as nat;
    let ghost l = (th - ch) as nat;
    proof {
        lemma_pow2_strictly_increases(ch, th);
    }
    let num_caps = pow2_exec(cap_height);
    let total_tree_hashes = 2 * leaf_count - 1;
    proof {
        // 2 * num_caps <= leaf_count: the cap sits strictly below the root.
        lemma_pow2_pos(ch);
        lemma_pow2_unfold(th);
        if ch < th - 1 {
            lemma_pow2_strictly_increases(ch, (th - 1) as nat);
        }
        assert(pow2(ch) <= pow2((th - 1) as nat));
    }
    let total_digests = total_tree_hashes - (2 * num_caps - 1);
    let num_layers = tree_height - cap_height;
    proof {
        // total_digests == pow2(ch) * (2 * pow2(l) - 2), so the shift by
        // cap_height strips the sub-block factor exactly.
        lemma_pow2_adds(ch, l);
        lemma_pow2_pos(l);
        lemma_pow2_pos(ch);
        assert(pow2(ch) * (2 * (pow2(l) - 1)) == 2 * (pow2(ch) * pow2(l)) - 2 * pow2(ch))
            by (nonlinear_arith)
            requires pow2(l) >= 1;
        assert(total_digests == pow2(ch) * (2 * (pow2(l) - 1)));
        lemma_pow2_fits_word(th);
        lemma_usize_shr_is_div(total_digests, cap_height);
        lemma_div_multiples_vanish(2 * (pow2(l) - 1), pow2(ch) as int);
        assert(pow2(ch) * (2 * (pow2(l) - 1)) == (2 * (pow2(l) - 1)) * pow2(ch))
            by (nonlinear_arith);
    }
    let tree_length = total_digests >> cap_height;
    proof {
        // leaf_count <= usize::MAX / 8 puts tree_height + 3 within the word.
        lemma_pow2_adds(th, 3);
        assert(pow2(3) == 8) by { lemma2_to64(); };
        assert(pow2(th) * 8 <= usize::MAX) by (nonlinear_arith)
            requires pow2(th) <= usize::MAX as int / 8;
        lemma_pow2_fits_word((th + 3) as nat);
    }
    Ok(TreeParams {
        leaf_count,
        leaf_length,
        tree_height,
        cap_height,
        num_caps,
        total_digests,
        num_layers,
        tree_length,
    })
}

} // verus!
