use vstd::prelude::*;
use vstd::arithmetic::power2::{pow2, lemma2_to64, lemma2_to64_rest};
use crate::error::{NdnError, NdnResult};
use crate::geometry::{clog2, count_at, padded_count, prefix_count, slot_of, total_slots,
    sibling_of, path_index, half_up, lemma_clog2_le, lemma_count_at_bounds, lemma_count_at_root,
    lemma_count_at_ge2, lemma_prefix_bound, lemma_prefix_mono, lemma_slot_in_depth};

verus! {

/// Largest leaf count the engine accepts; keeps every slot index and byte
/// offset comfortably inside `u64` arithmetic.
pub const MAX_LEAF_COUNT: u64 = 0x100_0000_0000_0000;

/// `MAX_LEAF_COUNT` is `2^56`, so depths stay at or below 56 and slot
/// totals below `2^57 + 128`.
pub proof fn lemma_max_leaf_count()
    ensures
        MAX_LEAF_COUNT == pow2(56),
        forall|n: nat| 1 <= n <= MAX_LEAF_COUNT ==> #[trigger] clog2(n) <= 56,
        forall|n: nat| 1 <= n <= MAX_LEAF_COUNT ==> #[trigger] total_slots(n) < 0x200_0000_0000_0000 + 130,
{
    lemma2_to64();
    lemma2_to64_rest();
    assert forall|n: nat| 1 <= n <= MAX_LEAF_COUNT implies #[trigger] clog2(n) <= 56 by {
        lemma_clog2_le(n, 56);
    }
    assert forall|n: nat| 1 <= n <= MAX_LEAF_COUNT implies #[trigger] total_slots(n) < 0x200_0000_0000_0000
        + 130 by {
        lemma_prefix_bound(n, clog2(n));
        lemma_clog2_le(n, 56);
    }
}

/// Pure geometry over a declared leaf count: the tree's total depth and,
/// per depth, the slot index at which that depth begins in the persisted
/// stream.
pub struct HashNodeLocator {
    leaf_count: u64,
    total_depth: u32,
    prev_count_per_depth: Vec<u64>,
}

impl HashNodeLocator {
    /// Declared leaf count, as a specification value.
    pub closed spec fn spec_leaf_count(&self) -> u64 {
        self.leaf_count
    }

    /// Root depth, as a specification value.
    pub closed spec fn spec_total_depth(&self) -> u32 {
        self.total_depth
    }

    /// Stored per-depth slot origins, as a specification value.
    pub closed spec fn spec_prev(&self) -> Seq<u64> {
        self.prev_count_per_depth@
    }

    /// The locator describes its leaf count faithfully: the depth is the
    /// ceiling logarithm and the stored prefix sums are the per-depth slot
    /// origins.
    pub open spec fn wf(&self) -> bool {
        &&& 1 <= self.spec_leaf_count() <= MAX_LEAF_COUNT
        &&& self.spec_total_depth() == clog2(self.spec_leaf_count() as nat)
        &&& self.spec_prev().len() == self.spec_total_depth() + 1
        &&& forall|d: int|
            0 <= d <= self.spec_total_depth() ==> self.spec_prev()[d] == prefix_count(
                self.spec_leaf_count() as nat,
                d as nat,
            )
    }

    /// Root depth of a tree over `leaf_count` leaves: `ceil(log2(n))`,
    /// 0 for a single leaf (and for a leaf count of 0).
    pub fn calc_depth(leaf_count: u64) -> (r: u32)
        ensures
            r == clog2(leaf_count as nat),
    {
        if leaf_count <= 1 {
            return 0;
        }
        let mut c: u64 = leaf_count;
        let mut d: u32 = 0;
        proof {
            lemma2_to64();
            lemma2_to64_rest();
            lemma_clog2_le(leaf_count as nat, 64);
        }
        while c > 1
            invariant
                clog2(leaf_count as nat) == d + clog2(c as nat),
                clog2(leaf_count as nat) <= 64,
                1 <= c <= leaf_count,
            decreases c,
        {
            assert(clog2(c as nat) == 1 + clog2(half_up(c as nat)));
            assert(d + 1 <= 64) by {
                assert(clog2(c as nat) >= 1);
            }
            c = c / 2 + c % 2;
            d = d + 1;
        }
        d
    }

    /// Number of stream slots at every depth, leaves first: each odd count
    /// below the root is rounded up by the reserved padding slot, and the
    /// last entry is always exactly 1 (the root). Fails with
    /// `InvalidParam` for a leaf count of zero or beyond the supported
    /// maximum.
    pub fn calc_count_per_depth(leaf_count: u64) -> (r: NdnResult<Vec<u64>>)
        ensures
            match r {
                Ok(v) => {
                    &&& 1 <= leaf_count <= MAX_LEAF_COUNT
                    &&& v@.len() == clog2(leaf_count as nat) + 1
                    &&& forall|d: int|
                        0 <= d < v@.len() ==> v@[d] == padded_count(leaf_count as nat, d as nat)
                    &&& v@[v@.len() - 1] == 1
                },
                Err(e) => {
                    &&& e == NdnError::InvalidParam
                    &&& (leaf_count == 0 || leaf_count > MAX_LEAF_COUNT)
                },
            },
    {
        if leaf_count == 0 || leaf_count > MAX_LEAF_COUNT {
            return Err(NdnError::InvalidParam);
        }
        let total_depth = Self::calc_depth(leaf_count);
        let ghost n = leaf_count as nat;
        proof {
            lemma_max_leaf_count();
        }
        let mut v: Vec<u64> = Vec::new();
        let mut c: u64 = leaf_count;
        let mut d: u32 = 0;
        while d <= total_depth
            invariant
                total_depth == clog2(n),
                total_depth <= 56,
                1 <= leaf_count <= MAX_LEAF_COUNT,
                n == leaf_count as nat,
                d <= total_depth + 1,
                c == count_at(n, d as nat),
                v@.len() == d,
                forall|k: int| 0 <= k < d ==> v@[k] == padded_count(n, k as nat),
            decreases total_depth + 1 - d,
        {
            proof {
                lemma_count_at_bounds(n, d as nat);
            }
            if d != total_depth && c % 2 == 1 {
                v.push(c + 1);
            } else {
                v.push(c);
            }
            assert(v@[d as int] == padded_count(n, d as nat));
            c = c / 2 + c % 2;
            assert(c == count_at(n, (d + 1) as nat));
            d = d + 1;
        }
        proof {
            lemma_count_at_root(n);
        }
        Ok(v)
    }

    /// Slot index at which every depth begins: the running sum of the
    /// per-depth slot counts, starting at 0 for the leaves. Fails as
    /// `calc_count_per_depth` does.
    pub fn calc_prev_count_per_depth(leaf_count: u64) -> (r: NdnResult<Vec<u64>>)
        ensures
            match r {
                Ok(v) => {
                    &&& 1 <= leaf_count <= MAX_LEAF_COUNT
                    &&& v@.len() == clog2(leaf_count as nat) + 1
                    &&& forall|d: int|
                        0 <= d < v@.len() ==> v@[d] == prefix_count(leaf_count as nat, d as nat)
                },
                Err(e) => {
                    &&& e == NdnError::InvalidParam
                    &&& (leaf_count == 0 || leaf_count > MAX_LEAF_COUNT)
                },
            },
    {
        let counts = match Self::calc_count_per_depth(leaf_count) {
            Ok(v) => v,
            Err(e) => {
                return Err(e);
            },
        };
        let ghost n = leaf_count as nat;
        let mut v: Vec<u64> = Vec::new();
        let mut acc: u64 = 0;
        let mut d: usize = 0;
        while d < counts.len()
            invariant
                1 <= leaf_count <= MAX_LEAF_COUNT,
                n == leaf_count as nat,
                counts@.len() == clog2(n) + 1,
                forall|k: int| 0 <= k < counts@.len() ==> counts@[k] == padded_count(n, k as nat),
                d <= counts@.len(),
                acc == prefix_count(n, d as nat),
                v@.len() == d,
                forall|k: int| 0 <= k < d ==> v@[k] == prefix_count(n, k as nat),
            decreases counts@.len() - d,
        {
            v.push(acc);
            proof {
                lemma_prefix_bound(n, d as nat);
                lemma_count_at_bounds(n, d as nat);
                lemma_max_leaf_count();
                assert(padded_count(n, d as nat) <= count_at(n, d as nat) + 1);
            }
            acc = acc + counts[d];
            d = d + 1;
        }
        Ok(v)
    }

    /// Builds the locator for a tree over `leaf_count` leaves; fails with
    /// `InvalidParam` for a leaf count of zero or beyond the supported
    /// maximum.
    pub fn new(leaf_count: u64) -> (r: NdnResult<Self>)
        ensures
            match r {
                Ok(l) => {
                    &&& 1 <= leaf_count <= MAX_LEAF_COUNT
                    &&& l.wf()
                    &&& l.spec_leaf_count() == leaf_count
                },
                Err(e) => {
                    &&& e == NdnError::InvalidParam
                    &&& (leaf_count == 0 || leaf_count > MAX_LEAF_COUNT)
                },
            },
    {
        let prev = match Self::calc_prev_count_per_depth(leaf_count) {
            Ok(v) => v,
            Err(e) => {
                return Err(e);
            },
        };
        Ok(HashNodeLocator {
            leaf_count,
            total_depth: Self::calc_depth(leaf_count),
            prev_count_per_depth: prev,
        })
    }

    /// Declared leaf count.
    pub fn leaf_count(&self) -> (r: u64)
        ensures
            r == self.spec_leaf_count(),
    {
        self.leaf_count
    }

    /// Root depth of the tree.
    pub fn total_depth(&self) -> (r: u32)
        requires
            self.wf(),
        ensures
            r == clog2(self.spec_leaf_count() as nat),
    {
        self.total_depth
    }

    /// Total number of slots of the persisted node region.
    pub fn num_slots(&self) -> (r: u64)
        requires
            self.wf(),
        ensures
            r == total_slots(self.spec_leaf_count() as nat),
    {
        let ghost n = self.spec_leaf_count() as nat;
        proof {
            lemma_max_leaf_count();
            assert(self.spec_prev()[self.spec_total_depth() as int] == prefix_count(n, clog2(n)));
            assert(total_slots(n) == prefix_count(n, clog2(n)) + 1);
        }
        self.prev_count_per_depth[self.total_depth as usize] + 1
    }

    /// Flat stream position of the node `(depth, index)`; fails with
    /// `InvalidParam` where the pair names no slot of this tree.
    pub fn calc_index_in_stream(&self, depth: u32, index: u64) -> (r: NdnResult<u64>)
        requires
            self.wf(),
        ensures
            match r {
                Ok(s) => {
                    &&& depth <= self.spec_total_depth()
                    &&& index < padded_count(self.spec_leaf_count() as nat, depth as nat)
                    &&& s == slot_of(self.spec_leaf_count() as nat, depth as nat, index as nat)
                    &&& s < total_slots(self.spec_leaf_count() as nat)
                },
                Err(e) => {
                    &&& e == NdnError::InvalidParam
                    &&& (depth > self.spec_total_depth() || index >= padded_count(
                        self.spec_leaf_count() as nat,
                        depth as nat,
                    ))
                },
            },
    {
        let ghost n = self.leaf_count as nat;
        if depth > self.total_depth {
            return Err(NdnError::InvalidParam);
        }
        let counts = match Self::calc_count_per_depth(self.leaf_count) {
            Ok(v) => v,
            Err(e) => {
                return Err(e);
            },
        };
        if index >= counts[depth as usize] {
            return Err(NdnError::InvalidParam);
        }
        proof {
            lemma_prefix_bound(n, depth as nat);
            lemma_count_at_bounds(n, depth as nat);
            lemma_max_leaf_count();
            lemma_slot_in_depth(n, depth as nat, index as nat);
            if depth < self.total_depth {
                lemma_prefix_mono(n, (depth + 1) as nat, clog2(n));
            } else {
                lemma_count_at_root(n);
            }
            assert(prefix_count(n, depth as nat) + index < total_slots(n));
        }
        Ok(self.prev_count_per_depth[depth as usize] + index)
    }

    /// Verification path of a leaf: per depth below the root the stream slot
    /// of the sibling of the leaf's ancestor, then the root's slot. Always
    /// `total_depth + 1` entries; fails with `InvalidParam` where the leaf
    /// index is outside the tree.
    pub fn get_verify_path_by_leaf_index(&self, leaf_index: u64) -> (r: NdnResult<Vec<(u32, u64)>>)
        requires
            self.wf(),
        ensures
            match r {
                Ok(v) => {
                    &&& leaf_index < self.spec_leaf_count()
                    &&& v@.len() == self.spec_total_depth() + 1
                    &&& forall|j: int|
                        0 <= j < self.spec_total_depth() ==> (#[trigger] v@[j]).0 == j && v@[j].1
                            == slot_of(
                            self.spec_leaf_count() as nat,
                            j as nat,
                            sibling_of(path_index(leaf_index as nat, j as nat)),
                        )
                    &&& v@[v@.len() - 1].0 == self.spec_total_depth()
                    &&& v@[v@.len() - 1].1 == slot_of(
                        self.spec_leaf_count() as nat,
                        self.spec_total_depth() as nat,
                        0,
                    )
                    &&& forall|j: int|
                        0 <= j < v@.len() ==> (#[trigger] v@[j]).1 < total_slots(
                            self.spec_leaf_count() as nat,
                        )
                },
                Err(e) => {
                    &&& e == NdnError::InvalidParam
                    &&& leaf_index >= self.spec_leaf_count()
                },
            },
    {
        if leaf_index >= self.leaf_count {
            return Err(NdnError::InvalidParam);
        }
        let ghost n = self.leaf_count as nat;
        let total = self.total_depth;
        let mut ret: Vec<(u32, u64)> = Vec::new();
        let mut index: u64 = leaf_index;
        let mut depth: u32 = 0;
        proof {
            lemma2_to64();
            assert(pow2(0) == 1);
            assert(path_index(leaf_index as nat, 0) == leaf_index as nat);
        }
        while depth < total
            invariant
                self.wf(),
                n == self.spec_leaf_count() as nat,
                total == self.spec_total_depth(),
                leaf_index < self.spec_leaf_count(),
                depth <= total,
                index == path_index(leaf_index as nat, depth as nat),
                ret@.len() == depth,
                forall|j: int|
                    0 <= j < depth ==> (#[trigger] ret@[j]).0 == j && ret@[j].1 == slot_of(
                        n,
                        j as nat,
                        sibling_of(path_index(leaf_index as nat, j as nat)),
                    ),
                forall|j: int|
                    0 <= j < ret@.len() ==> (#[trigger] ret@[j]).1 < total_slots(n),
            decreases total - depth,
        {
            proof {
                lemma_count_at_bounds(n, depth as nat);
                lemma_count_at_ge2(n, depth as nat);
                assert(index < count_at(n, depth as nat)) by {
                    assert(path_index(leaf_index as nat, depth as nat) * pow2(depth as nat) + (
                    leaf_index as nat) % pow2(depth as nat) == leaf_index as nat) by {
                        vstd::arithmetic::div_mod::lemma_fundamental_div_mod(
                            leaf_index as int,
                            pow2(depth as nat) as int,
                        );
                        vstd::arithmetic::power2::lemma_pow2_pos(depth as nat);
                    }
                    if index >= count_at(n, depth as nat) {
                        assert(index as nat * pow2(depth as nat) >= count_at(n, depth as nat) * pow2(
                            depth as nat,
                        )) by (nonlinear_arith)
                            requires
                                index as nat >= count_at(n, depth as nat),
                                pow2(depth as nat) > 0,
                        ;
                        assert(false);
                    }
                }
                assert(sibling_of(index as nat) < padded_count(n, depth as nat)) by {
                    let c = count_at(n, depth as nat);
                    if index % 2 == 0 {
                        if index as nat + 1 >= c {
                            assert(index as nat == c - 1);
                            assert(c % 2 == 1) by {
                                assert(index % 2 == 0);
                            }
                        }
                    }
                }
            }
            let sibling_index = if index % 2 == 0 {
                index + 1
            } else {
                index - 1
            };
            let stream_index = match self.calc_index_in_stream(depth, sibling_index) {
                Ok(s) => s,
                Err(e) => {
                    proof {
                        assert(false);
                    }
                    return Err(e);
                },
            };
            ret.push((depth, stream_index));
            index = index / 2;
            proof {
                assert(index == path_index(leaf_index as nat, (depth + 1) as nat)) by {
                    vstd::arithmetic::power2::lemma_pow2_unfold((depth + 1) as nat);
                    vstd::arithmetic::power2::lemma_pow2_pos(depth as nat);
                    vstd::arithmetic::div_mod::lemma_div_denominator(
                        leaf_index as int,
                        pow2(depth as nat) as int,
                        2,
                    );
                    assert(leaf_index as int / pow2(depth as nat) as int / 2 == leaf_index as int
                        / ((pow2(depth as nat) * 2) as int));
                }
            }
            depth = depth + 1;
        }
        proof {
            lemma_count_at_root(n);
        }
        let root_slot = match self.calc_index_in_stream(total, 0) {
            Ok(s) => s,
            Err(e) => {
                proof {
                    assert(false);
                }
                return Err(e);
            },
        };
        ret.push((total, root_slot));
        Ok(ret)
    }
}

} // verus!
