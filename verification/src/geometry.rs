use vstd::prelude::*;
use vstd::arithmetic::power2::{pow2, lemma_pow2_unfold, lemma_pow2_pos,
    lemma_pow2_strictly_increases, lemma2_to64};

verus! {

/// Number of parents one level above `n` nodes: `ceil(n / 2)`.
pub open spec fn half_up(n: nat) -> nat {
    ((n + 1) / 2) as nat
}

/// `ceil(log2(n))`: the depth of the root of a tree over `n` leaves
/// (0 when `n <= 1`).
pub open spec fn clog2(n: nat) -> nat
    decreases n,
{
    if n <= 1 {
        0
    } else {
        1 + clog2(half_up(n))
    }
}

/// Number of real nodes at depth `d` of a tree over `n` leaves: `n` halved
/// (rounding up) `d` times, i.e. `ceil(n / 2^d)`.
pub open spec fn count_at(n: nat, d: nat) -> nat
    decreases d,
{
    if d == 0 {
        n
    } else {
        half_up(count_at(n, (d - 1) as nat))
    }
}

/// Number of stream slots reserved at depth `d`: the real node count, plus
/// one padding slot where that count is odd below the root, mirroring the
/// duplication rule applied at finalize.
pub open spec fn padded_count(n: nat, d: nat) -> nat {
    if d < clog2(n) && count_at(n, d) % 2 == 1 {
        count_at(n, d) + 1
    } else {
        count_at(n, d)
    }
}

/// Slot index at which depth `d` begins: slots of all shallower depths.
pub open spec fn prefix_count(n: nat, d: nat) -> nat
    decreases d,
{
    if d == 0 {
        0
    } else {
        prefix_count(n, (d - 1) as nat) + padded_count(n, (d - 1) as nat)
    }
}

/// Flat stream position of the node `(depth, index)`.
pub open spec fn slot_of(n: nat, depth: nat, index: nat) -> nat {
    prefix_count(n, depth) + index
}

/// Total number of slots of the persisted node region.
pub open spec fn total_slots(n: nat) -> nat {
    prefix_count(n, clog2(n)) + 1
}

/// Index of the sibling of node `i` within its depth: the right neighbour
/// of an even index, the left neighbour of an odd one.
pub open spec fn sibling_of(i: nat) -> nat {
    if i % 2 == 0 {
        i + 1
    } else {
        (i - 1) as nat
    }
}

/// Index, within depth `d`, of the ancestor of leaf `leaf`.
pub open spec fn path_index(leaf: nat, d: nat) -> nat {
    leaf / pow2(d)
}

/// `clog2` really is the ceiling of the base-2 logarithm: `n` fits under
/// `2^clog2(n)`, and no smaller exponent suffices.
pub proof fn lemma_clog2_bounds(n: nat)
    requires
        n >= 1,
    ensures
        n <= pow2(clog2(n)),
        n >= 2 ==> pow2((clog2(n) - 1) as nat) < n,
    decreases n,
{
    if n >= 2 {
        let m = half_up(n);
        lemma_clog2_bounds(m);
        lemma_pow2_unfold(clog2(n));
        assert(pow2(clog2(n)) == 2 * pow2(clog2(m)));
        assert(2 * m >= n);
        if m >= 2 {
            lemma_pow2_unfold(clog2(m));
            assert(pow2((clog2(m) - 1) as nat) < m);
            assert(pow2(clog2(m)) <= 2 * m - 2);
            assert(2 * m - 2 < n) by {
                assert(m <= (n + 1) / 2);
            }
        } else {
            assert(m == 1);
            assert(clog2(m) == 0);
            assert(pow2(0) == 1) by {
                lemma2_to64();
            }
            assert(n <= 2);
        }
    } else {
        assert(clog2(1) == 0);
        assert(pow2(0) == 1) by {
            lemma2_to64();
        }
    }
}

/// `clog2(n)` is the least exponent whose power of two reaches `n`.
pub proof fn lemma_clog2_le(n: nat, k: nat)
    requires
        n >= 1,
    ensures
        (n <= pow2(k)) <==> (clog2(n) <= k),
{
    lemma_clog2_bounds(n);
    if clog2(n) <= k {
        if clog2(n) < k {
            lemma_pow2_strictly_increases(clog2(n), k);
        }
        assert(n <= pow2(k));
    }
    if n <= pow2(k) && clog2(n) > k {
        assert(n >= 2) by {
            if n == 1 {
                assert(clog2(n) == 0);
            }
        }
        assert(k <= clog2(n) - 1);
        if k < clog2(n) - 1 {
            lemma_pow2_strictly_increases(k, (clog2(n) - 1) as nat);
        }
        assert(pow2(k) <= pow2((clog2(n) - 1) as nat));
        assert(false);
    }
}

/// The power of two of its own ceiling logarithm is exact.
pub proof fn lemma_clog2_pow2(k: nat)
    ensures
        clog2(pow2(k)) == k,
{
    lemma_pow2_pos(k);
    lemma_clog2_le(pow2(k), k);
    if k >= 1 {
        let c = clog2(pow2(k));
        lemma_clog2_bounds(pow2(k));
        lemma_pow2_unfold(k);
        assert(pow2(k) >= 2) by {
            lemma_pow2_pos((k - 1) as nat);
        }
        if c < k {
            assert(c <= k - 1);
            if c < k - 1 {
                lemma_pow2_strictly_increases(c, (k - 1) as nat);
            }
            assert(pow2(c) <= pow2((k - 1) as nat));
            assert(pow2((c - 1) as nat) < pow2(k) <= pow2(c)) by {
                lemma_clog2_bounds(pow2(k));
            }
            assert(pow2(k) <= pow2((k - 1) as nat));
            lemma_pow2_strictly_increases((k - 1) as nat, k);
            assert(false);
        }
    }
}

/// The real node count at depth `d` brackets `n`: `d` halvings leave the
/// least count whose subtrees of `2^d` leaves cover all `n` leaves.
pub proof fn lemma_count_at_bounds(n: nat, d: nat)
    requires
        n >= 1,
    ensures
        1 <= count_at(n, d) <= n,
        (count_at(n, d) - 1) * pow2(d) < n,
        n <= count_at(n, d) * pow2(d),
    decreases d,
{
    if d == 0 {
        lemma2_to64();
        assert(pow2(0) == 1);
    } else {
        let dm = (d - 1) as nat;
        lemma_count_at_bounds(n, dm);
        let c = count_at(n, dm);
        let c2 = count_at(n, d);
        assert(c2 == half_up(c));
        lemma_pow2_unfold(d);
        assert(pow2(d) == 2 * pow2(dm));
        lemma_pow2_pos(dm);
        assert(2 * c2 >= c);
        assert(2 * c2 <= c + 1);
        assert(n <= c2 * pow2(d)) by {
            assert(c * pow2(dm) <= 2 * c2 * pow2(dm)) by (nonlinear_arith)
                requires
                    c <= 2 * c2,
                    pow2(dm) >= 0,
            ;
            assert(2 * c2 * pow2(dm) == c2 * pow2(d)) by (nonlinear_arith)
                requires
                    pow2(d) == 2 * pow2(dm),
            ;
        }
        assert((c2 - 1) * pow2(d) < n) by {
            assert((2 * c2 - 2) * pow2(dm) <= (c - 1) * pow2(dm)) by (nonlinear_arith)
                requires
                    2 * c2 <= c + 1,
                    pow2(dm) >= 0,
            ;
            assert((c2 - 1) * pow2(d) == (2 * c2 - 2) * pow2(dm)) by (nonlinear_arith)
                requires
                    pow2(d) == 2 * pow2(dm),
            ;
        }
        assert(c2 <= n) by {
            assert(c2 <= c);
        }
        assert(c2 >= 1);
    }
}

/// At the root depth exactly one node remains.
pub proof fn lemma_count_at_root(n: nat)
    requires
        n >= 1,
    ensures
        count_at(n, clog2(n)) == 1,
{
    let cd = clog2(n);
    let c = count_at(n, cd);
    lemma_count_at_bounds(n, cd);
    lemma_clog2_bounds(n);
    lemma_pow2_pos(cd);
    assert((c - 1) * pow2(cd) < pow2(cd));
    assert(c - 1 < 1) by (nonlinear_arith)
        requires
            (c - 1) * pow2(cd) < pow2(cd),
            pow2(cd) > 0,
            c >= 1,
    ;
}

/// Below the root, at least two real nodes stand at every depth.
pub proof fn lemma_count_at_ge2(n: nat, d: nat)
    requires
        n >= 1,
        d < clog2(n),
    ensures
        count_at(n, d) >= 2,
{
    lemma_count_at_bounds(n, d);
    if count_at(n, d) < 2 {
        assert(count_at(n, d) == 1);
        assert(n <= pow2(d));
        lemma_clog2_le(n, d);
        assert(false);
    }
}

/// Counts shrink as the depth grows.
pub proof fn lemma_count_at_mono(n: nat, d1: nat, d2: nat)
    requires
        d1 <= d2,
    ensures
        count_at(n, d2) <= count_at(n, d1),
    decreases d2 - d1,
{
    if d1 < d2 {
        lemma_count_at_mono(n, d1, (d2 - 1) as nat);
    }
}

/// The slot total stays linear in the leaf count: every depth adds at most
/// its real nodes plus one padding slot.
pub proof fn lemma_prefix_bound(n: nat, d: nat)
    requires
        n >= 1,
    ensures
        prefix_count(n, d) + 2 * count_at(n, d) <= 2 * n + 2 * d,
    decreases d,
{
    if d > 0 {
        let dm = (d - 1) as nat;
        lemma_prefix_bound(n, dm);
        let c = count_at(n, dm);
        let c2 = count_at(n, d);
        assert(padded_count(n, dm) <= c + 1);
        assert(2 * c2 <= c + 1);
    }
}

/// Prefix sums grow with the depth.
pub proof fn lemma_prefix_mono(n: nat, d1: nat, d2: nat)
    requires
        d1 <= d2,
    ensures
        prefix_count(n, d1) <= prefix_count(n, d2),
    decreases d2 - d1,
{
    if d1 < d2 {
        lemma_prefix_mono(n, d1, (d2 - 1) as nat);
    }
}

/// A complete subtree of depth `d` lying inside the leaves is one of the
/// real nodes of its depth, and its depth does not pass the root's.
pub proof fn lemma_complete_index_bound(n: nat, d: nat, idx: nat)
    requires
        n >= 1,
        idx * pow2(d) + pow2(d) <= n,
    ensures
        idx < count_at(n, d),
        d <= clog2(n),
        idx < padded_count(n, d),
{
    lemma_pow2_pos(d);
    lemma_count_at_bounds(n, d);
    if idx >= count_at(n, d) {
        assert(idx * pow2(d) >= count_at(n, d) * pow2(d)) by (nonlinear_arith)
            requires
                idx >= count_at(n, d),
                pow2(d) > 0,
        ;
        assert(false);
    }
    if d > clog2(n) {
        lemma_clog2_bounds(n);
        lemma_pow2_strictly_increases(clog2(n), d);
        assert(pow2(d) > pow2(clog2(n)) >= n);
        assert(idx * pow2(d) >= 0) by (nonlinear_arith);
        assert(false);
    }
}

/// A non-leftmost subtree whose start lies inside the leaves is one of the
/// real nodes of its depth, which therefore lies below the root.
pub proof fn lemma_partial_index_bound(n: nat, d: nat, idx: nat)
    requires
        n >= 1,
        idx >= 1,
        idx * pow2(d) < n,
    ensures
        idx < count_at(n, d),
        d < clog2(n),
{
    lemma_pow2_pos(d);
    lemma_count_at_bounds(n, d);
    if idx >= count_at(n, d) {
        assert(idx * pow2(d) >= count_at(n, d) * pow2(d)) by (nonlinear_arith)
            requires
                idx >= count_at(n, d),
                pow2(d) > 0,
        ;
        assert(false);
    }
    if d >= clog2(n) {
        lemma_count_at_mono(n, clog2(n), d);
        lemma_count_at_root(n);
        assert(count_at(n, d) <= 1);
        assert(false);
    }
}

/// A larger leaf count never has a smaller root depth.
pub proof fn lemma_clog2_mono(a: nat, b: nat)
    requires
        1 <= a <= b,
    ensures
        clog2(a) <= clog2(b),
{
    lemma_clog2_bounds(b);
    lemma_clog2_le(a, clog2(b));
}

/// Every slot of a depth lies below the next depth's first slot.
pub proof fn lemma_slot_in_depth(n: nat, d: nat, i: nat)
    requires
        n >= 1,
        i < padded_count(n, d),
    ensures
        slot_of(n, d, i) < prefix_count(n, (d + 1) as nat),
{
}

} // verus!
