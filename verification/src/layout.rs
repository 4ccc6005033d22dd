//! The interleaved digest-buffer layout.
//!
//! A build writes every level of the reduction into one flat buffer of
//! `total_digests` slots, split into `num_caps` sub-blocks of `tree_length`
//! slots; within a sub-block the levels are interleaved so that each level's
//! parallel pass works with a statically computable stride.  `node_offset`
//! maps a logical position `(level, index)` to its physical slot, and
//! `node_of_offset` recovers the position from the slot; the two are proved
//! inverse to each other, which makes the mapping a bijection between the
//! set of logical positions and `[0, total_digests)`.

use vstd::prelude::*;
use vstd::arithmetic::power2::{
    pow2, lemma_pow2_adds, lemma_pow2_pos, lemma_pow2_strictly_increases, lemma_pow2_unfold,
    lemma2_to64,
};
use vstd::arithmetic::div_mod::{
    lemma_div_denominator, lemma_div_multiples_vanish, lemma_fundamental_div_mod,
    lemma_fundamental_div_mod_converse, lemma_mod_bound, lemma_multiply_divide_lt,
    lemma_truncate_middle,
};
use vstd::arithmetic::mul::{
    lemma_mul_inequality, lemma_mul_is_commutative, lemma_mul_is_distributive_add,
    lemma_mul_is_distributive_sub, lemma_mul_strict_inequality,
};
use vstd::bits::{
    low_bits_mask, lemma_usize_low_bits_mask_is_mod, lemma_usize_pow2_no_overflow,
    lemma_usize_shl_is_mul, lemma_usize_shr_is_div,
};
use crate::params::{TreeParams, lemma_params_product};

verus! {

/// Physical offset in the digest buffer of the node at `level` (0 holds the
/// leaf digests, higher levels approach the cap) and `index` within that
/// level, stated over unbounded integers.
pub open spec fn node_offset(num_layers: nat, tree_length: nat, level: nat, index: nat) -> nat
    recommends
        level < num_layers,
{
    let span = pow2((num_layers - level) as nat);
    let tree_index = index / span;
    let pair_index = index % span;
    let parity = pair_index % 2;
    let pair = pair_index / 2;
    (pair * pow2((level + 2) as nat) + 2 * pow2(level) - 2 + parity + tree_index * tree_length) as nat
}

/// Logical position stored at buffer offset `o`: the inverse of
/// `node_offset`.
pub open spec fn node_of_offset(num_layers: nat, tree_length: nat, o: nat) -> (nat, nat)
    recommends
        1 <= num_layers,
        tree_length == 2 * (pow2(num_layers) - 1),
{
    let tree_index = o / tree_length;
    let d = o % tree_length;
    let parity = d % 2;
    let n = d / 2 + 1;
    let level = trailing_zeros(n);
    let m = n / pow2(level);
    let pair = ((m - 1) / 2) as nat;
    let index = tree_index * pow2((num_layers - level) as nat) + 2 * pair + parity;
    (level, index)
}

/// Number of factors of two in `n`.
pub open spec fn trailing_zeros(n: nat) -> nat
    decreases n,
{
    if n == 0 || n % 2 == 1 {
        0
    } else {
        1 + trailing_zeros(n / 2)
    }
}

/// The domain of the mapping for one build: levels below `num_layers`, and
/// within a level the indices of all nodes of that level across all
/// sub-blocks.
pub open spec fn in_domain(p: TreeParams, level: nat, index: nat) -> bool {
    level < p.num_layers && index < pow2((p.tree_height - level) as nat)
}

/// The within-sub-block part of the offset stays strictly below the
/// sub-block length.
proof fn lemma_block_offset_bound(num_layers: nat, level: nat, pair_index: nat)
    requires
        level < num_layers,
        pair_index < pow2((num_layers - level) as nat),
    ensures
        (pair_index / 2) * pow2((level + 2) as nat) + 2 * pow2(level) - 2 + pair_index % 2
            < 2 * (pow2(num_layers) - 1),
{
    let l = num_layers;
    let span = pow2((l - level) as nat);
    let pair = pair_index / 2;
    // span is even, so pair <= span / 2 - 1 = pow2(l - level - 1) - 1.
    lemma_pow2_unfold((l - level) as nat);
    assert(span == 2 * pow2((l - level - 1) as nat));
    let half = pow2((l - level - 1) as nat);
    assert(pair < half) by {
        lemma_multiply_divide_lt(pair_index as int, 2, half as int);
    };
    // pair * pow2(level + 2) <= (half - 1) * pow2(level + 2)
    lemma_mul_inequality(pair as int, half as int - 1, pow2((level + 2) as nat) as int);
    // (half - 1) * pow2(level + 2) == pow2(l + 1) - pow2(level + 2)
    lemma_pow2_adds((l - level - 1) as nat, (level + 2) as nat);
    assert((half - 1) * pow2((level + 2) as nat) == half * pow2((level + 2) as nat) - pow2(
        (level + 2) as nat,
    )) by {
        lemma_mul_is_distributive_sub(
            pow2((level + 2) as nat) as int,
            half as int,
            1,
        );
        lemma_mul_is_commutative(half as int - 1, pow2((level + 2) as nat) as int);
        lemma_mul_is_commutative(half as int, pow2((level + 2) as nat) as int);
    };
    assert(half * pow2((level + 2) as nat) == pow2((l + 1) as nat));
    // 2 * pow2(level) == pow2(level + 1), and pow2(level + 2) is twice that,
    // so the subtraction of the pair base dominates the additive terms.
    lemma_pow2_unfold((level + 1) as nat);
    lemma_pow2_unfold((level + 2) as nat);
    lemma_pow2_unfold((l + 1) as nat);
    lemma_pow2_strictly_increases((level + 1) as nat, (l + 1) as nat);
    lemma_pow2_pos(level);
    lemma_pow2_pos(l);
    assert(pair * pow2((level + 2) as nat) <= pow2((l + 1) as nat) - pow2((level + 2) as nat));
    assert(pair_index % 2 <= 1);
    assert(pow2((level + 1) as nat) >= 2);
}

/// Every in-domain position lands strictly inside the buffer.
pub proof fn lemma_node_offset_in_range(p: TreeParams, level: nat, index: nat)
    requires
        p.wf(),
        in_domain(p, level, index),
    ensures
        node_offset(p.num_layers as nat, p.tree_length as nat, level, index)
            < p.total_digests,
{
    let l = p.num_layers as nat;
    let t = p.tree_length as nat;
    let th = p.tree_height as nat;
    let span = pow2((l - level) as nat);
    let tree_index = index / span;
    let pair_index = index % span;
    lemma_pow2_pos((l - level) as nat);
    lemma_mod_bound(index as int, span as int);
    lemma_block_offset_bound(l, level, pair_index);
    // tree_index < num_caps
    lemma_pow2_adds((th - l) as nat, (l - level) as nat);
    assert(index < pow2((th - l) as nat) * span);
    lemma_mul_is_commutative(pow2((th - l) as nat) as int, span as int);
    lemma_multiply_divide_lt(index as int, span as int, pow2((th - l) as nat) as int);
    assert(tree_index < pow2((th - l) as nat));
    assert(pow2((th - l) as nat) == p.num_caps) by {
        assert((th - l) as nat == p.cap_height as nat);
    };
    // offset <= (d) + (num_caps - 1) * t < num_caps * t == total_digests
    lemma_mul_inequality(tree_index as int, p.num_caps as int - 1, t as int);
    assert((p.num_caps - 1) * t == p.num_caps * t - t) by {
        lemma_mul_is_distributive_sub(t as int, p.num_caps as int, 1);
        lemma_mul_is_commutative(p.num_caps as int - 1, t as int);
        lemma_mul_is_commutative(p.num_caps as int, t as int);
    };
    lemma_params_product(p);
    lemma_pow2_pos(level);
    assert(tree_index * t <= p.num_caps * t - t);
}

/// Two siblings sit in adjacent slots: the right child directly follows the
/// left one.
pub proof fn lemma_siblings_adjacent(p: TreeParams, level: nat, index: nat)
    requires
        p.wf(),
        index % 2 == 0,
        in_domain(p, level, (index + 1) as nat),
    ensures
        node_offset(p.num_layers as nat, p.tree_length as nat, level, (index + 1) as nat)
            == node_offset(p.num_layers as nat, p.tree_length as nat, level, index) + 1,
{
    let l = p.num_layers as nat;
    let span = pow2((l - level) as nat);
    // span is even because level < num_layers.
    lemma_pow2_unfold((l - level) as nat);
    let half = pow2((l - level - 1) as nat);
    assert(span == 2 * half);
    lemma_pow2_pos((l - level - 1) as nat);
    // index == 2 * (index / 2); its remainder modulo span is even, so adding
    // one changes only the parity contribution.
    let q = index / span;
    let r = index % span;
    lemma_fundamental_div_mod(index as int, span as int);
    lemma_mod_bound(index as int, span as int);
    assert(r % 2 == 0) by {
        assert(index == q * span + r);
        assert(index % 2 == 0);
        assert(q * span == (q * half) * 2) by {
            assert(q * (2 * half) == (q * half) * 2) by (nonlinear_arith);
        };
        lemma_fundamental_div_mod_converse(
            index as int,
            2,
            q * half as int + r as int / 2,
            (r % 2) as int,
        );
        assert(index == (q * half as int + r as int / 2) * 2 + r % 2) by {
            lemma_fundamental_div_mod(r as int, 2);
            lemma_mul_is_distributive_add(2, q * half as int, r as int / 2);
            assert(r == (r / 2) * 2 + r % 2);
            assert((q * half as int + r as int / 2) * 2 == (q * half as int) * 2 + (r as int / 2)
                * 2) by (nonlinear_arith);
        };
    };
    // r < span - 1: r is even and span - 1 is odd, and r <= span - 1.
    assert(r < span - 1);
    // Hence (index + 1) / span == q and (index + 1) % span == r + 1.
    lemma_fundamental_div_mod_converse(index as int + 1, span as int, q as int, r as int + 1);
    // Parities and pair indices line up.
    assert((r + 1) % 2 == 1) by {
        lemma_fundamental_div_mod_converse(r as int + 1, 2, (r / 2) as int, 1);
        lemma_fundamental_div_mod(r as int, 2);
    };
    assert((r + 1) / 2 == r / 2) by {
        lemma_fundamental_div_mod_converse(r as int + 1, 2, (r / 2) as int, 1);
        lemma_fundamental_div_mod(r as int, 2);
    };
    lemma_pow2_pos(level);
}

/// An odd multiple of `pow2(l)` has exactly `l` trailing zero bits.
proof fn lemma_tz_of_odd_multiple(l: nat, m: nat)
    requires
        m % 2 == 1,
    ensures
        trailing_zeros(pow2(l) * m) == l,
        (pow2(l) * m) / pow2(l) == m,
    decreases l,
{
    lemma_pow2_pos(l);
    lemma_div_multiples_vanish(m as int, pow2(l) as int);
    if l == 0 {
        assert(pow2(0) == 1) by {
            lemma2_to64();
        };
    } else {
        lemma_pow2_unfold(l);
        lemma_pow2_pos((l - 1) as nat);
        let n = pow2(l) * m;
        assert(n == 2 * (pow2((l - 1) as nat) * m)) by (nonlinear_arith)
            requires
                n == pow2(l) * m,
                pow2(l) == 2 * pow2((l - 1) as nat),
        ;
        assert(n % 2 == 0 && n / 2 == pow2((l - 1) as nat) * m) by {
            lemma_fundamental_div_mod_converse(
                n as int,
                2,
                (pow2((l - 1) as nat) * m) as int,
                0,
            );
        };
        assert(n > 0) by (nonlinear_arith)
            requires
                n == pow2(l) * m,
                pow2(l) >= 1,
                m >= 1,
        ;
        lemma_tz_of_odd_multiple((l - 1) as nat, m);
    }
}

/// Every positive integer splits into a power of two times an odd part,
/// with the exponent given by its trailing zero count.
proof fn lemma_tz_decompose(n: nat)
    requires
        1 <= n,
    ensures
        n == pow2(trailing_zeros(n)) * (n / pow2(trailing_zeros(n))),
        (n / pow2(trailing_zeros(n))) % 2 == 1,
    decreases n,
{
    if n % 2 == 1 {
        assert(trailing_zeros(n) == 0);
        assert(pow2(0) == 1) by {
            lemma2_to64();
        };
    } else {
        let h = n / 2;
        lemma_fundamental_div_mod(n as int, 2);
        assert(n == 2 * h);
        lemma_tz_decompose(h);
        let t = trailing_zeros(h);
        lemma_pow2_pos(t);
        assert(trailing_zeros(n) == t + 1);
        lemma_pow2_unfold((t + 1) as nat);
        lemma_div_denominator(n as int, 2, pow2(t) as int);
        assert(n / pow2((t + 1) as nat) == h / pow2(t));
        assert(n == pow2((t + 1) as nat) * (n / pow2((t + 1) as nat))) by (nonlinear_arith)
            requires
                n == 2 * h,
                h == pow2(t) * (h / pow2(t)),
                pow2((t + 1) as nat) == 2 * pow2(t),
                n / pow2((t + 1) as nat) == h / pow2(t),
        ;
    }
}

/// Applying the inverse to a mapped in-domain position recovers exactly
/// that position.
pub proof fn lemma_node_offset_inverse(p: TreeParams, level: nat, index: nat)
    requires
        p.wf(),
        in_domain(p, level, index),
    ensures
        node_of_offset(
            p.num_layers as nat,
            p.tree_length as nat,
            node_offset(p.num_layers as nat, p.tree_length as nat, level, index),
        ) == (level, index),
{
    let l = p.num_layers as nat;
    let t = p.tree_length as nat;
    let span = pow2((l - level) as nat);
    lemma_pow2_pos((l - level) as nat);
    lemma_pow2_pos(level);
    lemma_pow2_pos(l);
    lemma_pow2_strictly_increases(0, l);
    assert(pow2(0) == 1) by {
        lemma2_to64();
    };
    let ti = index / span;
    let pi = index % span;
    let parity = pi % 2;
    let pr = pi / 2;
    let d = (pr * pow2((level + 2) as nat) + 2 * pow2(level) - 2 + parity) as nat;
    let o = node_offset(l, t, level, index);
    lemma_mod_bound(index as int, span as int);
    lemma_block_offset_bound(l, level, pi);
    lemma_fundamental_div_mod_converse(o as int, t as int, ti as int, d as int);
    // d splits as 2 * k + parity, so parity and k come straight back.
    let k = (pr * pow2((level + 1) as nat) + pow2(level) - 1) as int;
    lemma_pow2_unfold((level + 1) as nat);
    lemma_pow2_unfold((level + 2) as nat);
    assert(d == 2 * k + parity) by (nonlinear_arith)
        requires
            pow2((level + 2) as nat) == 2 * pow2((level + 1) as nat),
            d == pr * pow2((level + 2) as nat) + 2 * pow2(level) - 2 + parity,
            k == pr * pow2((level + 1) as nat) + pow2(level) - 1,
            pow2(level) >= 1,
            parity < 2,
    ;
    lemma_fundamental_div_mod_converse(d as int, 2, k, parity as int);
    // k + 1 is pow2(level) times the odd number 2 * pr + 1.
    let n = (d / 2 + 1) as nat;
    assert(n == pow2(level) * (2 * pr + 1)) by (nonlinear_arith)
        requires
            n == k + 1,
            k == pr * pow2((level + 1) as nat) + pow2(level) - 1,
            pow2((level + 1) as nat) == 2 * pow2(level),
    ;
    lemma_tz_of_odd_multiple(level, (2 * pr + 1) as nat);
    lemma_div_multiples_vanish(pr as int, 2);
    // pair and parity reassemble the in-block position, and the sub-block
    // index restores the full index.
    lemma_fundamental_div_mod(index as int, span as int);
    lemma_fundamental_div_mod(pi as int, 2);
}

/// Every buffer slot holds exactly one in-domain position: the inverse of
/// any offset inside the buffer lands in the domain and maps back to that
/// offset.
pub proof fn lemma_node_offset_surjective(p: TreeParams, o: nat)
    requires
        p.wf(),
        o < p.total_digests,
    ensures
        in_domain(
            p,
            node_of_offset(p.num_layers as nat, p.tree_length as nat, o).0,
            node_of_offset(p.num_layers as nat, p.tree_length as nat, o).1,
        ),
        node_offset(
            p.num_layers as nat,
            p.tree_length as nat,
            node_of_offset(p.num_layers as nat, p.tree_length as nat, o).0,
            node_of_offset(p.num_layers as nat, p.tree_length as nat, o).1,
        ) == o,
{
    let l = p.num_layers as nat;
    let t = p.tree_length as nat;
    let th = p.tree_height as nat;
    lemma_pow2_pos(l);
    lemma_pow2_strictly_increases(0, l);
    assert(pow2(0) == 1) by {
        lemma2_to64();
    };
    assert(t >= 2);
    let ti = o / t;
    let d = o % t;
    lemma_mod_bound(o as int, t as int);
    lemma_fundamental_div_mod(o as int, t as int);
    lemma_params_product(p);
    lemma_mul_is_commutative(p.num_caps as int, t as int);
    lemma_multiply_divide_lt(o as int, t as int, p.num_caps as int);
    // The in-block part determines level, pair and parity.
    let parity = d % 2;
    let n = (d / 2 + 1) as nat;
    lemma_fundamental_div_mod(d as int, 2);
    assert(d / 2 <= pow2(l) - 2);
    assert(1 <= n && n < pow2(l));
    lemma_tz_decompose(n);
    let level = trailing_zeros(n);
    let m = n / pow2(level);
    lemma_pow2_pos(level);
    assert(pow2(level) <= n) by (nonlinear_arith)
        requires
            n == pow2(level) * m,
            m >= 1,
            pow2(level) >= 1,
    ;
    if l <= level {
        if l < level {
            lemma_pow2_strictly_increases(l, level);
        }
        assert(false);
    }
    let span = pow2((l - level) as nat);
    lemma_pow2_pos((l - level) as nat);
    lemma_pow2_adds(level, (l - level) as nat);
    assert(m < span) by (nonlinear_arith)
        requires
            n == pow2(level) * m,
            n < pow2(l),
            pow2(l) == pow2(level) * span,
            pow2(level) >= 1,
    ;
    // m is odd: m == 2 * pr + 1.
    lemma_fundamental_div_mod(m as int, 2);
    lemma_div_multiples_vanish((m / 2) as int, 2);
    let pr = ((m - 1) / 2) as nat;
    assert(pr == m / 2);
    assert(m == 2 * pr + 1);
    let pair_index = (2 * pr + parity) as nat;
    assert(pair_index < span);
    let index = (ti * span + pair_index) as nat;
    // index stays inside this level's extent.
    assert(p.num_caps == pow2((th - l) as nat));
    lemma_pow2_adds((th - l) as nat, (l - level) as nat);
    lemma_mul_inequality(ti as int, pow2((th - l) as nat) as int - 1, span as int);
    assert((pow2((th - l) as nat) - 1) as int * span as int == pow2((th - l) as nat) as int
        * span as int - span as int) by {
        lemma_mul_is_distributive_sub(span as int, pow2((th - l) as nat) as int, 1);
        lemma_mul_is_commutative(pow2((th - l) as nat) as int - 1, span as int);
        lemma_mul_is_commutative(pow2((th - l) as nat) as int, span as int);
    };
    assert(index < pow2((th - level) as nat));
    // Running the forward mapping on (level, index) rebuilds o.
    lemma_fundamental_div_mod_converse(index as int, span as int, ti as int, pair_index as int);
    lemma_fundamental_div_mod_converse(pair_index as int, 2, pr as int, parity as int);
    lemma_pow2_unfold((level + 1) as nat);
    lemma_pow2_unfold((level + 2) as nat);
    assert(d == pr * pow2((level + 2) as nat) + 2 * pow2(level) - 2 + parity) by (nonlinear_arith)
        requires
            d == 2 * (d / 2) + parity,
            d / 2 + 1 == n,
            n == pow2(level) * (2 * pr + 1),
            pow2((level + 2) as nat) == 2 * pow2((level + 1) as nat),
            pow2((level + 1) as nat) == 2 * pow2(level),
            pow2(level) >= 1,
    ;
    assert(node_of_offset(l, t, o) == (level, index));
}

/// Law: for a fixed well-formed layout, the offset mapping sends the set of
/// in-domain positions onto `[0, total_digests)` exactly once: distinct
/// positions get distinct offsets, every offset is inside the buffer, and
/// every buffer slot is the image of an in-domain position.
pub proof fn lemma_layout_bijection(p: TreeParams)
    requires
        p.wf(),
    ensures
        forall|level: nat, index: nat| #[trigger] in_domain(p, level, index) ==> {
            let o = node_offset(p.num_layers as nat, p.tree_length as nat, level, index);
            o < p.total_digests && node_of_offset(p.num_layers as nat, p.tree_length as nat, o)
                == (level, index)
        },
        forall|o: nat|
            #![trigger node_of_offset(p.num_layers as nat, p.tree_length as nat, o)]
            o < p.total_digests ==> {
                let pos = node_of_offset(p.num_layers as nat, p.tree_length as nat, o);
                in_domain(p, pos.0, pos.1) && node_offset(
                    p.num_layers as nat,
                    p.tree_length as nat,
                    pos.0,
                    pos.1,
                ) == o
            },
        forall|l1: nat, i1: nat, l2: nat, i2: nat|
            #![trigger node_offset(p.num_layers as nat, p.tree_length as nat, l1, i1),
                node_offset(p.num_layers as nat, p.tree_length as nat, l2, i2)]
            in_domain(p, l1, i1) && in_domain(p, l2, i2) && node_offset(
                p.num_layers as nat,
                p.tree_length as nat,
                l1,
                i1,
            ) == node_offset(p.num_layers as nat, p.tree_length as nat, l2, i2) ==> l1 == l2
                && i1 == i2,
{
    assert forall|level: nat, index: nat| #[trigger] in_domain(p, level, index) implies {
        let o = node_offset(p.num_layers as nat, p.tree_length as nat, level, index);
        o < p.total_digests && node_of_offset(p.num_layers as nat, p.tree_length as nat, o) == (
            level,
            index,
        )
    } by {
        lemma_node_offset_in_range(p, level, index);
        lemma_node_offset_inverse(p, level, index);
    };
    assert forall|o: nat|
        #![trigger node_of_offset(p.num_layers as nat, p.tree_length as nat, o)]
        o < p.total_digests implies {
        let pos = node_of_offset(p.num_layers as nat, p.tree_length as nat, o);
        in_domain(p, pos.0, pos.1) && node_offset(
            p.num_layers as nat,
            p.tree_length as nat,
            pos.0,
            pos.1,
        ) == o
    } by {
        lemma_node_offset_surjective(p, o);
    };
    assert forall|l1: nat, i1: nat, l2: nat, i2: nat|
        #![trigger node_offset(p.num_layers as nat, p.tree_length as nat, l1, i1),
            node_offset(p.num_layers as nat, p.tree_length as nat, l2, i2)]
        in_domain(p, l1, i1) && in_domain(p, l2, i2) && node_offset(
            p.num_layers as nat,
            p.tree_length as nat,
            l1,
            i1,
        ) == node_offset(p.num_layers as nat, p.tree_length as nat, l2, i2) implies l1 == l2 && i1
        == i2 by {
        lemma_node_offset_inverse(p, l1, i1);
        lemma_node_offset_inverse(p, l2, i2);
    };
}

/// Computes the physical offset of the node at `level`/`index` in the digest
/// buffer, exactly as the accelerator kernels derive it on their side.
///
/// `tree_length` must be the sub-block length belonging to `num_layers`, and
/// the position must lie in the layout's domain for some tree height that
/// fits the machine word; inputs are caller-guaranteed in range and there
/// are no error conditions.
pub fn get_node_hash_index_in_digests(
    num_layers: usize,
    tree_length: usize,
    level: usize,
    index: usize,
) -> (r: usize)
    requires
        1 <= num_layers,
        level < num_layers,
        tree_length == 2 * (pow2(num_layers as nat) - 1),
        exists|th: nat|
            #[trigger] pow2(th) >= 0 && num_layers <= th && th + 3 <= usize::BITS && (index as nat)
                < pow2((th - level) as nat),
    ensures
        r == node_offset(num_layers as nat, tree_length as nat, level as nat, index as nat),
{
    let ghost th = choose|th: nat|
        #[trigger] pow2(th) >= 0 && num_layers <= th && th + 3 <= usize::BITS && (index as nat)
            < pow2((th - level) as nat);
    let ghost l = num_layers as nat;
    let ghost lv = level as nat;
    proof {
        lemma_usize_pow2_no_overflow(th);
        if lv > 0 {
            lemma_pow2_strictly_increases((th - lv) as nat, th);
        }
        // index * pow2(level) < pow2(th)
        lemma_pow2_pos(lv);
        lemma_pow2_adds((th - lv) as nat, lv);
        lemma_mul_strict_inequality(
            index as int,
            pow2((th - lv) as nat) as int,
            pow2(lv) as int,
        );
        lemma_mul_is_commutative(index as int, pow2(lv) as int);
        lemma_usize_shl_is_mul(index, level);
    }
    let leaf_index = index << level;

    proof {
        if l < th {
            lemma_pow2_strictly_increases(l, th);
        }
        lemma_usize_shl_is_mul(1, num_layers);
    }
    let mask = (1usize << num_layers) - 1;

    proof {
        lemma_usize_shr_is_div(index, (num_layers - level) as usize);
    }
    let tree_index = index >> (num_layers - level);

    proof {
        assert(mask == low_bits_mask(l));
        lemma_usize_low_bits_mask_is_mod(leaf_index, l);
        lemma_usize_shr_is_div(leaf_index & mask, level as usize);
        // (index * pow2(level)) % pow2(num_layers), divided back down by
        // pow2(level), is index % pow2(num_layers - level).
        lemma_pow2_pos((l - lv) as nat);
        lemma_pow2_adds(lv, (l - lv) as nat);
        lemma_truncate_middle(index as int, pow2(lv) as int, pow2((l - lv) as nat) as int);
        assert(pow2(lv) as int * index as int == leaf_index as int) by {
            lemma_mul_is_commutative(index as int, pow2(lv) as int);
        };
        lemma_div_multiples_vanish((index as int) % (pow2((l - lv) as nat) as int), pow2(lv) as int);
    }
    let pair_pos = (leaf_index & mask) >> level;
    assert(pair_pos == (index as nat) % pow2((l - lv) as nat));

    proof {
        lemma_usize_low_bits_mask_is_mod(pair_pos, 1);
        assert(low_bits_mask(1) == 1) by {
            lemma2_to64();
        };
        assert(pow2(1) == 2) by {
            lemma2_to64();
        };
    }
    let parity = pair_pos & 1;
    proof {
        lemma_usize_shr_is_div(pair_pos, 1);
    }
    let pair = pair_pos >> 1;

    proof {
        // pair < pow2(num_layers - level - 1), so the shifted value stays
        // within pow2(num_layers) <= pow2(th).
        lemma_mod_bound(index as int, pow2((l - lv) as nat) as int);
        lemma_pow2_unfold((l - lv) as nat);
        lemma_multiply_divide_lt(
            pair_pos as int,
            2,
            pow2((l - lv - 1) as nat) as int,
        );
        lemma_pow2_pos((lv + 1) as nat);
        lemma_mul_strict_inequality(
            pair as int,
            pow2((l - lv - 1) as nat) as int,
            pow2((lv + 1) as nat) as int,
        );
        lemma_pow2_adds((l - lv - 1) as nat, (lv + 1) as nat);
        if l < th {
            lemma_pow2_strictly_increases(l, th);
        }
        lemma_mul_is_commutative(pair as int, pow2((lv + 1) as nat) as int);
        lemma_usize_shl_is_mul(pair, (level + 1) as usize);
        lemma_pow2_strictly_increases(lv, l);
        lemma_usize_shl_is_mul(1, level);
        lemma_pow2_pos(lv);
    }
    let siblings_index = (pair << (level + 1)) + (1usize << level) - 1;

    proof {
        // The in-block offset 2 * siblings_index + parity stays below
        // tree_length, and the sub-block base below pow2(th + 1) minus one
        // block, so the sum fits the word.
        lemma_pow2_unfold((lv + 1) as nat);
        lemma_pow2_unfold((lv + 2) as nat);
        assert(2 * (pair as int * pow2((lv + 1) as nat) as int) == pair as int * pow2(
            (lv + 2) as nat,
        ) as int) by (nonlinear_arith)
            requires pow2((lv + 2) as nat) == 2 * pow2((lv + 1) as nat);
        lemma_mod_bound(index as int, pow2((l - lv) as nat) as int);
        lemma_block_offset_bound(l, lv, pair_pos as nat);
        // tree_index bound:
        lemma_pow2_adds((th - l) as nat, (l - lv) as nat);
        lemma_pow2_pos((l - lv) as nat);
        lemma_mul_is_commutative(pow2((th - l) as nat) as int, pow2((l - lv) as nat) as int);
        lemma_multiply_divide_lt(
            index as int,
            pow2((l - lv) as nat) as int,
            pow2((th - l) as nat) as int,
        );
        lemma_mul_inequality(
            tree_index as int,
            pow2((th - l) as nat) as int - 1,
            tree_length as int,
        );
        lemma_pow2_adds((th - l) as nat, (l + 1) as nat);
        lemma_pow2_pos((th - l) as nat);
        lemma_pow2_pos(l);
        lemma_pow2_unfold((l + 1) as nat);
        assert((pow2((th - l) as nat) - 1) as int * tree_length as int + tree_length <= pow2(
            (th + 1) as nat,
        )) by (nonlinear_arith)
            requires
                tree_length == 2 * (pow2(l) - 1),
                pow2(l) >= 1,
                pow2((th - l) as nat) >= 1,
                pow2((th - l) as nat) * pow2((l + 1) as nat) == pow2((th + 1) as nat),
                pow2((l + 1) as nat) == 2 * pow2(l),
        ;
        lemma_usize_pow2_no_overflow((th + 1) as nat);
    }
    let d_index = 2 * siblings_index + parity;
    let r = d_index + tree_index * tree_length;
    proof {
        assert(r == node_offset(l, tree_length as nat, lv, index as nat)) by {
            lemma_pow2_unfold((lv + 1) as nat);
            lemma_pow2_unfold((lv + 2) as nat);
            assert(2 * (pair as int * pow2((lv + 1) as nat) as int) == pair as int * pow2(
                (lv + 2) as nat,
            ) as int) by (nonlinear_arith)
                requires pow2((lv + 2) as nat) == 2 * pow2((lv + 1) as nat);
        };
    }
    r
}

/// Offset computation driven by a build's layout record; the record's
/// well-formedness supplies every bound the raw mapping needs.
pub fn node_digest_offset(p: &TreeParams, level: usize, index: usize) -> (r: usize)
    requires
        p.wf(),
        in_domain(*p, level as nat, index as nat),
    ensures
        r == node_offset(p.num_layers as nat, p.tree_length as nat, level as nat, index as nat),
        r < p.total_digests,
{
    proof {
        let th = p.tree_height as nat;
        assert(pow2(th) >= 0 && p.num_layers <= th && th + 3 <= usize::BITS && (index as nat)
            < pow2((th - level) as nat));
        lemma_node_offset_in_range(*p, level as nat, index as nat);
    }
    get_node_hash_index_in_digests(p.num_layers, p.tree_length, level, index)
}

} // verus!
