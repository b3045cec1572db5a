use vstd::prelude::*;
use vstd::arithmetic::power2::{pow2, lemma_pow2_unfold, lemma_pow2_pos, lemma_pow2_adds,
    lemma2_to64};
use crate::error::{NdnError, NdnResult};
use crate::geometry::{clog2, count_at, padded_count, prefix_count, slot_of, total_slots,
    lemma_clog2_le, lemma_clog2_pow2, lemma_count_at_root, lemma_complete_index_bound,
    lemma_partial_index_bound, lemma_clog2_mono};
use crate::hash::{HashMethod, hash_pair_of};
use crate::locator::{HashNodeLocator, MAX_LEAF_COUNT, lemma_max_leaf_count};
use crate::stream::MemStream;

verus! {

/// Hash of the subtree of depth `d` that stands over the leaf slice `s`,
/// under this engine's duplication rule: a parent whose right half holds no
/// leaf at all repeats its left child, and otherwise the slice splits at
/// `2^(d-1)`.
pub open spec fn pad_root(m: HashMethod, s: Seq<Seq<u8>>, d: nat) -> Seq<u8>
    decreases d,
{
    if d == 0 {
        if s.len() >= 1 {
            s[0]
        } else {
            Seq::empty()
        }
    } else {
        let h = pow2((d - 1) as nat) as int;
        if s.len() <= h {
            let x = pad_root(m, s, (d - 1) as nat);
            hash_pair_of(m, x, x)
        } else {
            hash_pair_of(
                m,
                pad_root(m, s.subrange(0, h), (d - 1) as nat),
                pad_root(m, s.subrange(h, s.len() as int), (d - 1) as nat),
            )
        }
    }
}

/// Root hash of the tree over a non-empty leaf sequence: the subtree hash
/// at depth `ceil(log2(n))` over all of it.
pub open spec fn merkle_root_of(m: HashMethod, leaves: Seq<Seq<u8>>) -> Seq<u8> {
    pad_root(m, leaves, clog2(leaves.len()))
}

/// A node of the tree while it is being built: its hash, its depth
/// (0 = leaf) and its index within that depth, left to right.
pub(crate) struct HashNode {
    pub hash: Vec<u8>,
    pub depth: u32,
    pub index: u64,
}

/// Number of leaves covered by the first `j` pending nodes: each node of
/// depth `d` covers `2^d` consecutive leaves.
pub(crate) open spec fn node_start(stack: Seq<HashNode>, j: int) -> nat
    decreases j,
{
    if j <= 0 {
        0
    } else {
        node_start(stack, j - 1) + pow2(stack[j - 1].depth as nat)
    }
}

/// Pending node `j` is a complete subtree: aligned to its own size, inside
/// the appended leaves, and its hash is the subtree hash of exactly the
/// `2^depth` leaves it covers.
pub(crate) open spec fn node_complete_ok(
    m: HashMethod,
    stack: Seq<HashNode>,
    leaves: Seq<Seq<u8>>,
    j: int,
) -> bool {
    let st = node_start(stack, j);
    let d = stack[j].depth as nat;
    &&& stack[j].depth <= 60
    &&& stack[j].index as nat * pow2(d) == st
    &&& st + pow2(d) <= leaves.len()
    &&& stack[j].hash@.len() == m.spec_hash_bytes()
    &&& stack[j].hash@ == pad_root(m, leaves.subrange(st as int, (st + pow2(d)) as int), d)
}

/// The pending stack during the append phase: complete subtrees, jointly
/// covering all appended leaves, their depths strictly decreasing from the
/// bottom of the stack to its top.
pub(crate) open spec fn stack_wf(m: HashMethod, stack: Seq<HashNode>, leaves: Seq<Seq<u8>>) -> bool {
    &&& node_start(stack, stack.len() as int) == leaves.len()
    &&& forall|j: int| 0 <= j < stack.len() ==> node_complete_ok(m, stack, leaves, j)
    &&& forall|j: int|
        0 <= j < stack.len() - 1 ==> (#[trigger] stack[j].depth) > stack[j + 1].depth
}

/// Like `stack_wf`, but the top two entries may share a depth: the state
/// between pushing a node and collapsing completed sibling pairs.
pub(crate) open spec fn stack_wf_merge(
    m: HashMethod,
    stack: Seq<HashNode>,
    leaves: Seq<Seq<u8>>,
) -> bool {
    &&& node_start(stack, stack.len() as int) == leaves.len()
    &&& forall|j: int| 0 <= j < stack.len() ==> node_complete_ok(m, stack, leaves, j)
    &&& forall|j: int|
        0 <= j < stack.len() - 2 ==> (#[trigger] stack[j].depth) > stack[j + 1].depth
    &&& stack.len() >= 2 ==> stack[stack.len() - 2].depth >= stack[stack.len() - 1].depth
}

/// The pending stack during finalize: all entries but the top are complete
/// subtrees with strictly decreasing depths; the top covers every leaf from
/// its start to the end, possibly short of its nominal `2^depth` size. Once
/// a single node remains, its depth is exactly the root depth.
pub(crate) open spec fn stack_wf_final(
    m: HashMethod,
    stack: Seq<HashNode>,
    leaves: Seq<Seq<u8>>,
) -> bool {
    let top = stack.len() - 1;
    let st = node_start(stack, top);
    let d = stack[top].depth as nat;
    &&& stack.len() >= 1
    &&& leaves.len() >= 1
    &&& forall|j: int| 0 <= j < top ==> node_complete_ok(m, stack, leaves, j)
    &&& forall|j: int| 0 <= j < top - 1 ==> (#[trigger] stack[j].depth) > stack[j + 1].depth
    &&& stack.len() >= 2 ==> stack[top - 1].depth >= stack[top].depth
    &&& stack[top].depth <= 60
    &&& stack[top].index as nat * pow2(d) == st
    &&& st < leaves.len()
    &&& leaves.len() <= st + pow2(d)
    &&& stack[top].hash@.len() == m.spec_hash_bytes()
    &&& stack[top].hash@ == pad_root(m, leaves.subrange(st as int, leaves.len() as int), d)
    &&& stack.len() == 1 ==> d == clog2(leaves.len())
}

/// Two stacks that agree below `j` count the same covered leaves there.
pub(crate) proof fn lemma_node_start_agree(s1: Seq<HashNode>, s2: Seq<HashNode>, j: int)
    requires
        0 <= j <= s1.len(),
        j <= s2.len(),
        forall|l: int| 0 <= l < j ==> s1[l].depth == s2[l].depth,
    ensures
        node_start(s1, j) == node_start(s2, j),
    decreases j,
{
    if j > 0 {
        lemma_node_start_agree(s1, s2, j - 1);
    }
}

/// Along a run of strictly decreasing depths, an earlier node is deeper
/// than a later one by at least their distance.
pub(crate) proof fn lemma_depth_chain(stack: Seq<HashNode>, a: int, b: int, hi: int)
    requires
        0 <= a <= b <= hi,
        hi < stack.len(),
        forall|j: int| a <= j < hi ==> (#[trigger] stack[j].depth) > stack[j + 1].depth,
    ensures
        stack[a].depth as int >= stack[b].depth as int + (b - a),
    decreases b - a,
{
    if a < b {
        lemma_depth_chain(stack, a + 1, b, hi);
    }
}

/// Where every node below `j` has depth at least `dd`, the leaves they
/// jointly cover are a multiple of `2^dd`.
pub(crate) proof fn lemma_node_start_aligned(stack: Seq<HashNode>, j: int, dd: nat)
    requires
        0 <= j <= stack.len(),
        forall|l: int| 0 <= l < j ==> stack[l].depth as nat >= dd,
    ensures
        exists|q: nat| node_start(stack, j) == #[trigger] (q * pow2(dd)),
    decreases j,
{
    if j == 0 {
        assert(node_start(stack, 0) == 0);
        assert(0 == 0 * pow2(dd));
    } else {
        lemma_node_start_aligned(stack, j - 1, dd);
        let q0 = choose|q: nat| node_start(stack, j - 1) == #[trigger] (q * pow2(dd));
        let d = stack[j - 1].depth as nat;
        lemma_pow2_adds(dd, (d - dd) as nat);
        let e = pow2((d - dd) as nat);
        assert(pow2(d) == pow2(dd) * e);
        assert(node_start(stack, j) == q0 * pow2(dd) + pow2(dd) * e);
        assert(q0 * pow2(dd) + pow2(dd) * e == (q0 + e) * pow2(dd)) by (nonlinear_arith);
        assert(node_start(stack, j) == (q0 + e) * pow2(dd));
    }
}

/// A subtree slice of a longer leaf sequence is unchanged by the growth.
pub(crate) proof fn lemma_subrange_stable(l1: Seq<Seq<u8>>, l2: Seq<Seq<u8>>, a: int, b: int)
    requires
        0 <= a <= b <= l1.len(),
        l1.len() <= l2.len(),
        forall|i: int| 0 <= i < l1.len() ==> l1[i] == l2[i],
    ensures
        l1.subrange(a, b) == l2.subrange(a, b),
{
    assert(l1.subrange(a, b) =~= l2.subrange(a, b));
}

/// Merging two complete sibling subtrees of depth `d` gives the complete
/// subtree of depth `d + 1` over their joint range, hashed left then right.
pub(crate) proof fn lemma_merge_complete(m: HashMethod, leaves: Seq<Seq<u8>>, st: nat, d: nat)
    requires
        st + 2 * pow2(d) <= leaves.len(),
    ensures
        pad_root(m, leaves.subrange(st as int, (st + 2 * pow2(d)) as int), (d + 1) as nat)
            == hash_pair_of(
            m,
            pad_root(m, leaves.subrange(st as int, (st + pow2(d)) as int), d),
            pad_root(m, leaves.subrange((st + pow2(d)) as int, (st + 2 * pow2(d)) as int), d),
        ),
{
    lemma_pow2_pos(d);
    lemma_pow2_unfold((d + 1) as nat);
    let s = leaves.subrange(st as int, (st + 2 * pow2(d)) as int);
    assert(s.len() == 2 * pow2(d) > pow2(d));
    assert(s.subrange(0, pow2(d) as int) =~= leaves.subrange(st as int, (st + pow2(d)) as int));
    assert(s.subrange(pow2(d) as int, s.len() as int) =~= leaves.subrange(
        (st + pow2(d)) as int,
        (st + 2 * pow2(d)) as int,
    ));
}

/// Merging a complete subtree of depth `d` with the partial subtree to its
/// right that reaches the last leaf gives the partial subtree of depth
/// `d + 1` over their joint range.
pub(crate) proof fn lemma_merge_partial(m: HashMethod, leaves: Seq<Seq<u8>>, st: nat, d: nat)
    requires
        st + pow2(d) < leaves.len(),
        leaves.len() <= st + 2 * pow2(d),
    ensures
        pad_root(m, leaves.subrange(st as int, leaves.len() as int), (d + 1) as nat)
            == hash_pair_of(
            m,
            pad_root(m, leaves.subrange(st as int, (st + pow2(d)) as int), d),
            pad_root(m, leaves.subrange((st + pow2(d)) as int, leaves.len() as int), d),
        ),
{
    lemma_pow2_pos(d);
    lemma_pow2_unfold((d + 1) as nat);
    let s = leaves.subrange(st as int, leaves.len() as int);
    assert(s.len() > pow2(d));
    assert(s.subrange(0, pow2(d) as int) =~= leaves.subrange(st as int, (st + pow2(d)) as int));
    assert(s.subrange(pow2(d) as int, s.len() as int) =~= leaves.subrange(
        (st + pow2(d)) as int,
        leaves.len() as int,
    ));
}

/// A partial subtree no wider than half its parent is promoted one level by
/// pairing it with a repetition of itself.
pub(crate) proof fn lemma_clone_partial(m: HashMethod, leaves: Seq<Seq<u8>>, st: nat, d: nat)
    requires
        st < leaves.len(),
        leaves.len() <= st + pow2(d),
    ensures
        pad_root(m, leaves.subrange(st as int, leaves.len() as int), (d + 1) as nat)
            == hash_pair_of(
            m,
            pad_root(m, leaves.subrange(st as int, leaves.len() as int), d),
            pad_root(m, leaves.subrange(st as int, leaves.len() as int), d),
        ),
{
    lemma_pow2_pos(d);
    lemma_pow2_unfold((d + 1) as nat);
}

/// The sink holds value `v` in slot `slot` of a node region that starts
/// at `base` and stores `hb` bytes per slot.
pub open spec fn slot_holds(w: Seq<u8>, base: nat, hb: nat, slot: nat, v: Seq<u8>) -> bool {
    &&& base + (slot + 1) * hb <= w.len()
    &&& w.subrange((base + slot * hb) as int, (base + slot * hb + hb) as int) == v
}

/// The two byte sequences agree on every position below `n`.
pub open spec fn agree_below(w1: Seq<u8>, w2: Seq<u8>, n: int) -> bool {
    forall|j: int| 0 <= j < n && j < w1.len() && j < w2.len() ==> w1[j] == w2[j]
}

/// Leaf `i`'s sibling pair is fully appended once `k` leaves are in: the
/// moment the builder merges the pair and persists both leaves.
pub open spec fn leaf_pair_complete(i: int, k: int) -> bool {
    2 * (i / 2) + 2 <= k
}

/// A write to one slot leaves every other slot's bytes, and everything
/// before the region, exactly as they were.
pub(crate) proof fn lemma_slot_write_preserves(
    w: Seq<u8>,
    base: nat,
    hb: nat,
    slot: nat,
    v: Seq<u8>,
    other: nat,
    ov: Seq<u8>,
)
    requires
        v.len() == hb,
        other != slot,
        slot_holds(w, base, hb, other, ov),
    ensures
        slot_holds(
            crate::stream::stream_write(w, (base + slot * hb) as nat, v),
            base,
            hb,
            other,
            ov,
        ),
{
    let pos = (base + slot * hb) as int;
    let w2 = crate::stream::stream_write(w, (base + slot * hb) as nat, v);
    let lo = (base + other * hb) as int;
    assert(w2.len() >= w.len());
    assert(other * hb + hb == (other + 1) * hb) by (nonlinear_arith);
    assert forall|j: int| 0 <= j < hb implies w2[lo + j] == ov[j] by {
        if other < slot {
            assert((other + 1) * hb <= slot * hb) by (nonlinear_arith)
                requires
                    other + 1 <= slot,
                    hb >= 0,
            ;
            assert(lo + j < pos);
        } else {
            assert((slot + 1) * hb <= other * hb) by (nonlinear_arith)
                requires
                    slot + 1 <= other,
                    hb >= 0,
            ;
            assert(slot * hb + hb == (slot + 1) * hb) by (nonlinear_arith);
            assert(lo + j >= pos + hb);
        }
        assert(lo + j < w.len());
        assert(w2[lo + j] == w[lo + j]);
        assert(w[lo + j] == w.subrange(lo, lo + hb)[j]);
    }
    assert(w2.subrange(lo, lo + hb as int) =~= ov);
}

/// A write to a slot puts exactly its value there.
pub(crate) proof fn lemma_slot_write_holds(w: Seq<u8>, base: nat, hb: nat, slot: nat, v: Seq<u8>)
    requires
        v.len() == hb,
    ensures
        slot_holds(crate::stream::stream_write(w, (base + slot * hb) as nat, v), base, hb, slot, v),
{
    let pos = (base + slot * hb) as int;
    let w2 = crate::stream::stream_write(w, (base + slot * hb) as nat, v);
    assert(slot * hb + hb == (slot + 1) * hb) by (nonlinear_arith);
    assert(w2.len() >= pos + hb);
    assert(w2.subrange(pos, pos + hb as int) =~= v);
}

/// A write inside the node region leaves everything before it untouched,
/// and never shrinks the sink.
pub(crate) proof fn lemma_slot_write_agree(w: Seq<u8>, base: nat, hb: nat, slot: nat, v: Seq<u8>)
    ensures
        agree_below(w, crate::stream::stream_write(w, (base + slot * hb) as nat, v), base as int),
        crate::stream::stream_write(w, (base + slot * hb) as nat, v).len() >= w.len(),
        crate::stream::stream_write(w, (base + slot * hb) as nat, v).len() == if w.len() >= base
            + slot * hb + v.len() {
            w.len() as int
        } else {
            (base + slot * hb + v.len()) as int
        },
{
}

/// Batch-invariance of appending: one batch `a + b` and the two
/// consecutive batches `a` then `b` leave a builder with the same appended
/// leaf sequence, so `finalize` returns the same root for both, byte for
/// byte.
pub proof fn lemma_append_batching(lv: Seq<Seq<u8>>, a: Seq<Seq<u8>>, b: Seq<Seq<u8>>)
    ensures
        lv + (a + b) == (lv + a) + b,
{
    assert(lv + (a + b) =~= (lv + a) + b);
}

/// The incremental tree builder: consumes leaf hashes in any batching,
/// keeps a logarithmic stack of pending complete subtrees, collapses
/// completed sibling pairs eagerly, and, where a sink is attached, persists
/// every node at its locator-determined slot offset.
pub struct SerializeHashCalculator {
    hash_method: HashMethod,
    leaf_count: u64,
    append_count: u64,
    locator: HashNodeLocator,
    stack: Vec<HashNode>,
    writer: Option<MemStream>,
    node_region_start: u64,
    finalized: bool,
    leaves: Ghost<Seq<Seq<u8>>>,
}

impl SerializeHashCalculator {
    /// Digest algorithm in use, as a specification value.
    pub closed spec fn spec_method(&self) -> HashMethod {
        self.hash_method
    }

    /// Declared leaf count, as a specification value.
    pub closed spec fn spec_leaf_count(&self) -> u64 {
        self.leaf_count
    }

    /// Number of leaves appended so far, as a specification value.
    pub closed spec fn spec_append_count(&self) -> u64 {
        self.append_count
    }

    /// The leaf hashes appended so far, in order.
    pub closed spec fn spec_leaves(&self) -> Seq<Seq<u8>> {
        self.leaves@
    }

    /// Whether `finalize` has already run to completion (or failure).
    pub closed spec fn spec_finalized(&self) -> bool {
        self.finalized
    }

    /// Whether a byte sink is attached.
    pub closed spec fn spec_has_writer(&self) -> bool {
        self.writer is Some
    }

    /// Bytes of the attached sink; empty where none is attached.
    pub closed spec fn spec_writer_bytes(&self) -> Seq<u8> {
        match self.writer {
            Some(w) => w@,
            None => Seq::empty(),
        }
    }

    /// Byte offset at which the node region starts in the attached sink.
    pub closed spec fn spec_region_start(&self) -> u64 {
        self.node_region_start
    }

    closed spec fn writer_fits(&self) -> bool {
        self.spec_has_writer() ==> self.node_region_start as nat + total_slots(
            self.leaf_count as nat,
        ) * self.hash_method.spec_hash_bytes() <= usize::MAX as nat
    }

    /// The sink already holds every leaf whose sibling pair is complete,
    /// each at its own slot, and does not reach past the node region.
    closed spec fn writer_leaves_ok(&self) -> bool {
        match self.writer {
            None => true,
            Some(w) => {
                let base = self.node_region_start as nat;
                let hb = self.hash_method.spec_hash_bytes();
                &&& base <= w@.len() <= base + total_slots(self.leaf_count as nat) * hb
                &&& forall|i: int|
                    0 <= i < self.leaves@.len() && leaf_pair_complete(i, self.leaves@.len() as int)
                        ==> slot_holds(w@, base, hb, i as nat, #[trigger] self.leaves@[i])
            },
        }
    }

    /// Like `writer_leaves_ok`, but the pair the top two pending leaves
    /// form, not yet collapsed, may still be missing from the sink.
    closed spec fn writer_leaves_ok_except_pending(&self) -> bool {
        match self.writer {
            None => true,
            Some(w) => {
                let base = self.node_region_start as nat;
                let hb = self.hash_method.spec_hash_bytes();
                let st = self.stack@;
                let pending_pair = st.len() >= 2 && st[st.len() - 1].depth == 0 && st[st.len()
                    - 2].depth == 0;
                &&& base <= w@.len() <= base + total_slots(self.leaf_count as nat) * hb
                &&& forall|i: int|
                    0 <= i < self.leaves@.len() && leaf_pair_complete(i, self.leaves@.len() as int)
                        && !(pending_pair && (i == st[st.len() - 1].index || i == st[st.len()
                        - 2].index)) ==> slot_holds(
                        w@,
                        base,
                        hb,
                        i as nat,
                        #[trigger] self.leaves@[i],
                    )
            },
        }
    }

    /// Internal consistency: the locator matches the declared leaf count,
    /// the appended leaves fit the declaration, every appended hash has the
    /// digest size, and the pending stack is exactly the complete subtrees
    /// of the appended leaves (empty once finalized).
    pub closed spec fn wf(&self) -> bool {
        &&& 1 <= self.leaf_count <= MAX_LEAF_COUNT
        &&& self.locator.wf()
        &&& self.locator.spec_leaf_count() == self.leaf_count
        &&& self.append_count == self.leaves@.len()
        &&& self.leaves@.len() <= self.leaf_count
        &&& forall|i: int|
            0 <= i < self.leaves@.len() ==> (#[trigger] self.leaves@[i]).len()
                == self.hash_method.spec_hash_bytes()
        &&& if self.finalized {
            self.stack@.len() == 0
        } else {
            stack_wf(self.hash_method, self.stack@, self.leaves@)
        }
        &&& self.writer_fits()
        &&& self.writer_leaves_ok()
    }

    /// Facts the consistency predicate guarantees, for callers outside
    /// this module.
    pub proof fn lemma_wf(&self)
        requires
            self.wf(),
        ensures
            self.spec_append_count() == self.spec_leaves().len(),
            self.spec_leaves().len() <= self.spec_leaf_count(),
            1 <= self.spec_leaf_count() <= MAX_LEAF_COUNT,
            forall|i: int|
                0 <= i < self.spec_leaves().len() ==> (#[trigger] self.spec_leaves()[i]).len()
                    == self.spec_method().spec_hash_bytes(),
    {
    }

    /// Builds a calculator for `leaf_count` leaves, hashing with
    /// `hash_method` and persisting nodes to `writer` where one is given;
    /// nodes land at slot offsets counted from the writer's position at
    /// construction. Fails with `InvalidParam` for a leaf count of zero or
    /// beyond the supported maximum, or where the node region would end
    /// past what the sink can address.
    pub fn new(leaf_count: u64, hash_method: HashMethod, writer: Option<MemStream>) -> (r:
        NdnResult<Self>)
        ensures
            match r {
                Ok(c) => {
                    &&& 1 <= leaf_count <= MAX_LEAF_COUNT
                    &&& c.wf()
                    &&& c.spec_method() == hash_method
                    &&& c.spec_leaf_count() == leaf_count
                    &&& c.spec_append_count() == 0
                    &&& c.spec_leaves() == Seq::<Seq<u8>>::empty()
                    &&& !c.spec_finalized()
                    &&& c.spec_has_writer() == (writer is Some)
                    &&& (writer is Some ==> {
                        &&& c.spec_writer_bytes() == writer.unwrap()@
                        &&& c.spec_region_start() == writer.unwrap().spec_pos()
                    })
                },
                Err(e) => {
                    &&& e == NdnError::InvalidParam
                    &&& (leaf_count == 0 || leaf_count > MAX_LEAF_COUNT || (writer is Some
                        && (writer.unwrap().spec_pos() + total_slots(leaf_count as nat)
                            * hash_method.spec_hash_bytes() > usize::MAX || writer.unwrap()@.len()
                            != writer.unwrap().spec_pos())))
                },
            },
    {
        let locator = match HashNodeLocator::new(leaf_count) {
            Ok(l) => l,
            Err(e) => {
                return Err(e);
            },
        };
        let ghost n = leaf_count as nat;
        let slots = locator.num_slots();
        let hb = hash_method.hash_bytes();
        proof {
            lemma_max_leaf_count();
            assert(slots as nat * hb as nat <= slots as nat * 64) by (nonlinear_arith)
                requires
                    hb <= 64,
                    slots >= 0,
            ;
            assert(slots as nat * 64 < (0x200_0000_0000_0000 + 130) * 64);
        }
        let region_bytes: u64 = slots * (hb as u64);
        let (writer, node_region_start) = match writer {
            Some(w) => {
                let pos = w.pos();
                if (pos as u64) > u64::MAX - region_bytes || (pos as u64) + region_bytes
                    > usize::MAX as u64 {
                    return Err(NdnError::InvalidParam);
                }
                if w.len() != pos {
                    return Err(NdnError::InvalidParam);
                }
                (Some(w), pos as u64)
            },
            None => (None, 0u64),
        };
        Ok(SerializeHashCalculator {
            hash_method,
            leaf_count,
            append_count: 0,
            locator,
            stack: Vec::new(),
            writer,
            node_region_start,
            finalized: false,
            leaves: Ghost(Seq::empty()),
        })
    }

    /// Declared leaf count.
    pub fn get_leaf_count(&self) -> (r: u64)
        ensures
            r == self.spec_leaf_count(),
    {
        self.leaf_count
    }

    /// Number of leaves appended so far.
    pub fn get_append_count(&self) -> (r: u64)
        ensures
            r == self.spec_append_count(),
    {
        self.append_count
    }

    /// Hands the locator of this tree's geometry out, consuming the
    /// calculator.
    pub fn into_locator(self) -> (r: HashNodeLocator)
        requires
            self.wf(),
        ensures
            r.wf(),
            r.spec_leaf_count() == self.spec_leaf_count(),
    {
        self.locator
    }

    /// Hands the attached sink back, consuming the calculator.
    pub fn into_writer(self) -> (r: Option<MemStream>)
        ensures
            r is Some <==> self.spec_has_writer(),
            r is Some ==> r.unwrap()@ == self.spec_writer_bytes(),
    {
        self.writer
    }

    /// Persists one hash at the byte offset of a slot, where a sink is
    /// attached; the write never fails, the region end being addressable.
    fn write_hash(&mut self, slot: u64, hash: &Vec<u8>) -> (r: NdnResult<()>)
        requires
            old(self).writer_fits(),
            1 <= old(self).leaf_count <= MAX_LEAF_COUNT,
            slot < total_slots(old(self).leaf_count as nat),
            hash@.len() == old(self).hash_method.spec_hash_bytes(),
        ensures
            r == NdnResult::<()>::Ok(()),
            final(self).hash_method == old(self).hash_method,
            final(self).leaf_count == old(self).leaf_count,
            final(self).append_count == old(self).append_count,
            final(self).locator == old(self).locator,
            final(self).stack == old(self).stack,
            final(self).node_region_start == old(self).node_region_start,
            final(self).finalized == old(self).finalized,
            final(self).leaves == old(self).leaves,
            final(self).writer is Some <==> old(self).writer is Some,
            final(self).writer_fits(),
            old(self).writer is None ==> final(self).spec_writer_bytes() == old(
                self,
            ).spec_writer_bytes(),
            old(self).writer is Some ==> final(self).spec_writer_bytes()
                == crate::stream::stream_write(
                old(self).spec_writer_bytes(),
                (old(self).node_region_start as nat + slot as nat
                    * old(self).hash_method.spec_hash_bytes()),
                hash@,
            ),
    {
        let ghost n = self.leaf_count as nat;
        let hb = self.hash_method.hash_bytes();
        let base = self.node_region_start;
        proof {
            lemma_max_leaf_count();
            assert((slot as nat + 1) * hb as nat <= total_slots(n) * hb as nat) by (nonlinear_arith)
                requires
                    slot as nat + 1 <= total_slots(n),
                    hb as nat >= 0,
            ;
        }
        match &mut self.writer {
            None => Ok(()),
            Some(w) => {
                let pos = base + slot * (hb as u64);
                match w.seek_to(pos) {
                    Ok(()) => {},
                    Err(e) => {
                        proof {
                            assert(false);
                        }
                        return Err(e);
                    },
                }
                match w.write_all(hash.as_slice()) {
                    Ok(()) => Ok(()),
                    Err(e) => {
                        proof {
                            assert(false);
                        }
                        Err(e)
                    },
                }
            },
        }
    }

    /// Persists one pending node at its locator-determined slot, where a
    /// sink is attached.
    fn write_node(&mut self, node: &HashNode) -> (r: NdnResult<()>)
        requires
            old(self).writer_fits(),
            1 <= old(self).leaf_count <= MAX_LEAF_COUNT,
            old(self).locator.wf(),
            old(self).locator.spec_leaf_count() == old(self).leaf_count,
            node.depth <= clog2(old(self).leaf_count as nat),
            node.index < padded_count(old(self).leaf_count as nat, node.depth as nat),
            node.hash@.len() == old(self).hash_method.spec_hash_bytes(),
        ensures
            r == NdnResult::<()>::Ok(()),
            final(self).hash_method == old(self).hash_method,
            final(self).leaf_count == old(self).leaf_count,
            final(self).append_count == old(self).append_count,
            final(self).locator == old(self).locator,
            final(self).stack == old(self).stack,
            final(self).node_region_start == old(self).node_region_start,
            final(self).finalized == old(self).finalized,
            final(self).leaves == old(self).leaves,
            final(self).writer is Some <==> old(self).writer is Some,
            final(self).writer_fits(),
            old(self).writer is None ==> final(self).spec_writer_bytes() == old(
                self,
            ).spec_writer_bytes(),
            old(self).writer is Some ==> final(self).spec_writer_bytes()
                == crate::stream::stream_write(
                old(self).spec_writer_bytes(),
                (old(self).node_region_start as nat + slot_of(
                    old(self).leaf_count as nat,
                    node.depth as nat,
                    node.index as nat,
                ) * old(self).hash_method.spec_hash_bytes()),
                node.hash@,
            ),
    {
        let slot = match self.locator.calc_index_in_stream(node.depth, node.index) {
            Ok(s) => s,
            Err(e) => {
                proof {
                    assert(false);
                }
                return Err(e);
            },
        };
        self.write_hash(slot, &node.hash)
    }

    /// Collapses completed sibling pairs at the top of the pending stack:
    /// while the top two entries share a depth, they are replaced by their
    /// parent (earlier entry hashed first) and both are persisted.
    #[verifier::rlimit(100)]
    fn check_and_merge(&mut self) -> (r: NdnResult<()>)
        requires
            1 <= old(self).leaf_count <= MAX_LEAF_COUNT,
            old(self).locator.wf(),
            old(self).locator.spec_leaf_count() == old(self).leaf_count,
            old(self).writer_fits(),
            old(self).append_count == old(self).leaves@.len(),
            old(self).leaves@.len() <= old(self).leaf_count,
            forall|i: int|
                0 <= i < old(self).leaves@.len() ==> (#[trigger] old(self).leaves@[i]).len()
                    == old(self).hash_method.spec_hash_bytes(),
            stack_wf_merge(old(self).hash_method, old(self).stack@, old(self).leaves@),
            old(self).writer_leaves_ok_except_pending(),
        ensures
            r == NdnResult::<()>::Ok(()),
            final(self).hash_method == old(self).hash_method,
            final(self).leaf_count == old(self).leaf_count,
            final(self).append_count == old(self).append_count,
            final(self).locator == old(self).locator,
            final(self).node_region_start == old(self).node_region_start,
            final(self).finalized == old(self).finalized,
            final(self).leaves == old(self).leaves,
            final(self).writer is Some <==> old(self).writer is Some,
            final(self).writer_fits(),
            stack_wf(final(self).hash_method, final(self).stack@, final(self).leaves@),
            final(self).writer_leaves_ok(),
            agree_below(
                old(self).spec_writer_bytes(),
                final(self).spec_writer_bytes(),
                old(self).node_region_start as int,
            ),
            agree_below(
                final(self).spec_writer_bytes(),
                old(self).spec_writer_bytes(),
                old(self).node_region_start as int,
            ),
            final(self).spec_writer_bytes().len() >= old(self).spec_writer_bytes().len(),
    {
        let ghost m = self.hash_method;
        let ghost lv = self.leaves@;
        let ghost w0 = self.spec_writer_bytes();
        while self.stack.len() > 1 && self.stack[self.stack.len() - 1].depth
            == self.stack[self.stack.len() - 2].depth
            invariant
                self.writer_leaves_ok_except_pending(),
                agree_below(self.spec_writer_bytes(), w0, self.node_region_start as int) &&
                    agree_below(w0, self.spec_writer_bytes(), self.node_region_start as int),
                self.spec_writer_bytes().len() >= w0.len(),
                1 <= self.leaf_count <= MAX_LEAF_COUNT,
                self.locator.wf(),
                self.locator.spec_leaf_count() == self.leaf_count,
                self.writer_fits(),
                self.hash_method == m,
                self.leaves@ == lv,
                self.hash_method == old(self).hash_method,
                self.leaf_count == old(self).leaf_count,
                self.append_count == old(self).append_count,
                self.locator == old(self).locator,
                self.node_region_start == old(self).node_region_start,
                self.finalized == old(self).finalized,
                self.leaves == old(self).leaves,
                self.writer is Some <==> old(self).writer is Some,
                lv.len() <= self.leaf_count,
                forall|i: int|
                    0 <= i < lv.len() ==> (#[trigger] lv[i]).len() == m.spec_hash_bytes(),
                stack_wf_merge(m, self.stack@, lv),
            decreases self.stack@.len(),
        {
            let ghost pre = self.stack@;
            let ghost plen = pre.len() as int;
            let n1 = self.stack.pop().unwrap();
            let n2 = self.stack.pop().unwrap();
            let ghost d = n1.depth as nat;
            let ghost st2 = node_start(pre, plen - 2);
            let ghost st1 = node_start(pre, plen - 1);
            proof {
                assert(node_complete_ok(m, pre, lv, plen - 1));
                assert(node_complete_ok(m, pre, lv, plen - 2));
                assert(st1 == st2 + pow2(d));
                lemma_pow2_pos(d);
                // Everything below the pair is strictly deeper, so the
                // pair's start is aligned to the parent's size.
                assert forall|l: int| 0 <= l < plen - 2 implies pre[l].depth as nat >= d + 1 by {
                    lemma_depth_chain(pre, l, plen - 2, plen - 2);
                }
                lemma_node_start_aligned(pre, plen - 2, d + 1);
            }
            let ghost q = choose|q: nat| st2 == #[trigger] (q * pow2((d + 1) as nat));
            proof {
                lemma_pow2_unfold((d + 1) as nat);
                assert(n2.index as nat * pow2(d) == st2);
                assert(n2.index as nat == 2 * q) by (nonlinear_arith)
                    requires
                        n2.index as nat * pow2(d) == q * (2 * pow2(d)),
                        pow2(d) > 0,
                ;
                assert(st2 + 2 * pow2(d) <= lv.len());
                lemma_merge_complete(m, lv, st2, d);
            }
            let method = self.hash_method;
            let parent_hash = method.hash_pair(n2.hash.as_slice(), n1.hash.as_slice());
            let parent = HashNode { hash: parent_hash, depth: n2.depth + 1, index: n2.index / 2 };
            self.stack.push(parent);
            proof {
                let post = self.stack@;
                assert(post.len() == plen - 1);
                assert forall|l: int| 0 <= l < plen - 2 implies post[l] == pre[l] by {}
                assert forall|j: int| 0 <= j <= plen - 2 implies node_start(post, j) == node_start(
                    pre,
                    j,
                ) by {
                    lemma_node_start_agree(post, pre, j);
                }
                assert(node_start(post, plen - 2) == st2);
                assert(parent.index as nat * pow2((d + 1) as nat) == st2) by (nonlinear_arith)
                    requires
                        parent.index as nat == q,
                        st2 == q * pow2((d + 1) as nat),
                ;
                assert(node_complete_ok(m, post, lv, plen - 2)) by {
                    assert(post[plen - 2].depth as nat == d + 1);
                    assert(d + 1 <= 60) by {
                        lemma_complete_index_bound(
                            self.leaf_count as nat,
                            (d + 1) as nat,
                            parent.index as nat,
                        );
                        lemma_max_leaf_count();
                    }
                    assert(post[plen - 2].hash@ == pad_root(
                        m,
                        lv.subrange(st2 as int, (st2 + pow2((d + 1) as nat)) as int),
                        (d + 1) as nat,
                    ));
                }
                assert forall|j: int| 0 <= j < plen - 2 implies node_complete_ok(m, post, lv, j) by {
                    assert(node_complete_ok(m, pre, lv, j));
                }
                assert(node_start(post, plen - 1) == lv.len());
                assert(stack_wf_merge(m, post, lv));
            }
            // The parent is in the tree, so both children have valid slots.
            proof {
                lemma_complete_index_bound(self.leaf_count as nat, d, n1.index as nat);
                lemma_complete_index_bound(self.leaf_count as nat, d, n2.index as nat);
            }
            let ghost wa = self.spec_writer_bytes();
            let ghost base = self.node_region_start as nat;
            let ghost hb = self.hash_method.spec_hash_bytes();
            let ghost lc = self.leaf_count as nat;
            let ghost slot1 = slot_of(lc, d, n1.index as nat);
            let ghost slot2 = slot_of(lc, d, n2.index as nat);
            match self.write_node(&n1) {
                Ok(()) => {},
                Err(e) => {
                    proof {
                        assert(false);
                    }
                    return Err(e);
                },
            }
            match self.write_node(&n2) {
                Ok(()) => {},
                Err(e) => {
                    proof {
                        assert(false);
                    }
                    return Err(e);
                },
            }
            proof {
                if self.writer is Some {
                    let wb = crate::stream::stream_write(wa, (base + slot1 * hb) as nat, n1.hash@);
                    let wc = self.spec_writer_bytes();
                    assert(wc == crate::stream::stream_write(
                        wb,
                        (base + slot2 * hb) as nat,
                        n2.hash@,
                    ));
                    lemma_slot_write_agree(wa, base, hb, slot1, n1.hash@);
                    lemma_slot_write_agree(wb, base, hb, slot2, n2.hash@);
                    assert(slot1 != slot2);
                    let top = self.stack@[self.stack@.len() - 1];
                    assert(node_complete_ok(m, self.stack@, lv, self.stack@.len() - 1));
                    assert(top.depth as nat == d + 1);
                    lemma_complete_index_bound(lc, (d + 1) as nat, top.index as nat);
                    // Both writes stay inside the node region.
                    assert(slot1 < total_slots(lc) && slot2 < total_slots(lc)) by {
                        crate::geometry::lemma_slot_in_depth(lc, d, n1.index as nat);
                        crate::geometry::lemma_slot_in_depth(lc, d, n2.index as nat);
                        crate::geometry::lemma_prefix_mono(lc, (d + 1) as nat, clog2(lc));
                    }
                    assert((slot1 + 1) * hb <= total_slots(lc) * hb && (slot2 + 1) * hb
                        <= total_slots(lc) * hb) by (nonlinear_arith)
                        requires
                            slot1 + 1 <= total_slots(lc),
                            slot2 + 1 <= total_slots(lc),
                            hb >= 0,
                    ;
                    assert(n1.hash@.len() == hb && n2.hash@.len() == hb);
                    assert(slot1 * hb + hb == (slot1 + 1) * hb) by (nonlinear_arith);
                    assert(slot2 * hb + hb == (slot2 + 1) * hb) by (nonlinear_arith);
                    assert(wc.len() <= base + total_slots(lc) * hb);
                    if d == 0 {
                        // The pair being collapsed is the pending leaf pair:
                        // both leaves now stand in their slots.
                        lemma2_to64();
                        assert(pow2(0) == 1);
                        assert(node_complete_ok(m, pre, lv, plen - 1));
                        assert(node_complete_ok(m, pre, lv, plen - 2));
                        assert(n1.index as nat * pow2(0) == node_start(pre, plen - 1));
                        assert(n1.index as nat * 1 == n1.index as nat) by (nonlinear_arith);
                        assert(n2.index as nat * pow2(0) == node_start(pre, plen - 2));
                        assert(n2.index as nat * 1 == n2.index as nat) by (nonlinear_arith);
                        assert(n1.index as nat == node_start(pre, plen - 1));
                        assert(n2.index as nat == node_start(pre, plen - 2));
                        assert(prefix_count(lc, 0) == 0);
                        assert(slot1 == n1.index as nat && slot2 == n2.index as nat);
                        assert(n1.hash@ == lv[n1.index as int]) by {
                            assert(n1.hash@ == pad_root(
                                m,
                                lv.subrange(n1.index as int, n1.index as int + 1),
                                0,
                            ));
                            assert(lv.subrange(n1.index as int, n1.index as int + 1)[0] == lv[
                            n1.index as int]);
                        }
                        assert(n2.hash@ == lv[n2.index as int]) by {
                            assert(n2.hash@ == pad_root(
                                m,
                                lv.subrange(n2.index as int, n2.index as int + 1),
                                0,
                            ));
                            assert(lv.subrange(n2.index as int, n2.index as int + 1)[0] == lv[
                            n2.index as int]);
                        }
                        lemma_slot_write_holds(wa, base, hb, slot1, n1.hash@);
                        lemma_slot_write_preserves(wb, base, hb, slot2, n2.hash@, slot1, n1.hash@);
                        lemma_slot_write_holds(wb, base, hb, slot2, n2.hash@);
                        assert forall|i: int|
                            0 <= i < lv.len() && leaf_pair_complete(i, lv.len() as int) && i
                                != n1.index as int && i != n2.index as int implies slot_holds(
                            wc,
                            base,
                            hb,
                            i as nat,
                            lv[i],
                        ) by {
                            assert(slot_holds(wa, base, hb, i as nat, lv[i]));
                            lemma_slot_write_preserves(wa, base, hb, slot1, n1.hash@, i as nat, lv[i]);
                            lemma_slot_write_preserves(wb, base, hb, slot2, n2.hash@, i as nat, lv[i]);
                        }
                    } else {
                        // Internal nodes land past every leaf slot.
                        assert(prefix_count(lc, 1) >= lc) by {
                            assert(padded_count(lc, 0) >= count_at(lc, 0));
                        }
                        assert(slot1 >= prefix_count(lc, 1) && slot2 >= prefix_count(lc, 1)) by {
                            crate::geometry::lemma_prefix_mono(lc, 1, d);
                        }
                        assert forall|i: int|
                            0 <= i < lv.len() && leaf_pair_complete(i, lv.len() as int)
                                implies slot_holds(wc, base, hb, i as nat, lv[i]) by {
                            assert(slot_holds(wa, base, hb, i as nat, lv[i]));
                            assert(i < lc);
                            lemma_slot_write_preserves(wa, base, hb, slot1, n1.hash@, i as nat, lv[i]);
                            lemma_slot_write_preserves(wb, base, hb, slot2, n2.hash@, i as nat, lv[i]);
                        }
                    }
                }
            }
        }
        proof {
            let s = self.stack@;
            if s.len() > 1 {
                assert(s[s.len() - 2].depth > s[s.len() - 1].depth);
            }
        }
        Ok(())
    }

    /// Appends a batch of leaf hashes, in order, merging completed sibling
    /// pairs eagerly. The whole batch is rejected with `InvalidParam`, and
    /// nothing changes, where it would pass the declared leaf count; a
    /// finalized calculator rejects any batch with `InvalidState`.
    pub fn append_leaf_hashes(&mut self, leaf_hashes: &Vec<Vec<u8>>) -> (r: NdnResult<()>)
        requires
            old(self).wf(),
            forall|i: int|
                0 <= i < leaf_hashes@.len() ==> (#[trigger] leaf_hashes@[i])@.len()
                    == old(self).spec_method().spec_hash_bytes(),
        ensures
            final(self).wf(),
            final(self).spec_method() == old(self).spec_method(),
            final(self).spec_leaf_count() == old(self).spec_leaf_count(),
            final(self).spec_finalized() == old(self).spec_finalized(),
            final(self).spec_has_writer() == old(self).spec_has_writer(),
            final(self).spec_region_start() == old(self).spec_region_start(),
            agree_below(
                old(self).spec_writer_bytes(),
                final(self).spec_writer_bytes(),
                old(self).spec_region_start() as int,
            ),
            final(self).spec_writer_bytes().len() >= old(self).spec_writer_bytes().len(),
            match r {
                Ok(()) => {
                    &&& !old(self).spec_finalized()
                    &&& old(self).spec_leaves().len() + leaf_hashes@.len()
                        <= old(self).spec_leaf_count()
                    &&& final(self).spec_leaves() == old(self).spec_leaves()
                        + leaf_hashes.deep_view()
                    &&& final(self).spec_append_count() == old(self).spec_append_count()
                        + leaf_hashes@.len()
                },
                Err(e) => {
                    &&& *final(self) == *old(self)
                    &&& if old(self).spec_finalized() {
                        e == NdnError::InvalidState
                    } else {
                        &&& e == NdnError::InvalidParam
                        &&& old(self).spec_leaves().len() + leaf_hashes@.len() > old(
                            self,
                        ).spec_leaf_count()
                    }
                },
            },
    {
        if self.finalized {
            return Err(NdnError::InvalidState);
        }
        let len = leaf_hashes.len();
        if len as u64 > self.leaf_count - self.append_count {
            return Err(NdnError::InvalidParam);
        }
        let ghost m = self.hash_method;
        let ghost lv0 = self.leaves@;
        let ghost wstart = self.spec_writer_bytes();
        let mut i: usize = 0;
        while i < len
            invariant
                agree_below(wstart, self.spec_writer_bytes(), self.node_region_start as int)
                    && agree_below(self.spec_writer_bytes(), wstart, self.node_region_start as int),
                self.spec_writer_bytes().len() >= wstart.len(),
                self.wf(),
                !self.finalized,
                self.hash_method == old(self).hash_method,
                self.leaf_count == old(self).leaf_count,
                self.locator == old(self).locator,
                self.node_region_start == old(self).node_region_start,
                self.finalized == old(self).finalized,
                self.writer is Some <==> old(self).writer is Some,
                m == self.hash_method,
                lv0 == old(self).leaves@,
                i <= len,
                len == leaf_hashes@.len(),
                lv0.len() + len <= self.leaf_count,
                self.leaves@ == lv0 + leaf_hashes.deep_view().take(i as int),
                self.append_count == lv0.len() + i,
                forall|k: int|
                    0 <= k < leaf_hashes@.len() ==> (#[trigger] leaf_hashes@[k])@.len()
                        == m.spec_hash_bytes(),
            decreases len - i,
        {
            let ghost pre = self.stack@;
            let ghost lv_pre = self.leaves@;
            let hash = leaf_hashes[i].clone();
            proof {
                assert(hash@ == leaf_hashes@[i as int]@);
            }
            let node = HashNode { hash, depth: 0, index: self.append_count };
            self.stack.push(node);
            self.leaves = Ghost(self.leaves@.push(leaf_hashes.deep_view()[i as int]));
            self.append_count = self.append_count + 1;
            proof {
                let post = self.stack@;
                let lv = self.leaves@;
                let plen = post.len() as int;
                assert(lv.len() == lv_pre.len() + 1);
                assert(leaf_hashes.deep_view().take(i + 1) =~= leaf_hashes.deep_view().take(
                    i as int,
                ).push(leaf_hashes.deep_view()[i as int]));
                assert(lv == lv0 + leaf_hashes.deep_view().take(i + 1));
                assert forall|j: int| 0 <= j <= plen - 1 implies node_start(post, j) == node_start(
                    pre,
                    j,
                ) by {
                    lemma_node_start_agree(post, pre, j);
                }
                lemma2_to64();
                assert(pow2(0) == 1);
                assert(node_start(post, plen) == lv_pre.len() + 1 == lv.len());
                // Nodes already on the stack keep their meaning under the
                // longer leaf sequence.
                assert forall|j: int| 0 <= j < plen - 1 implies node_complete_ok(m, post, lv, j) by {
                    assert(node_complete_ok(m, pre, lv_pre, j));
                    let st = node_start(pre, j);
                    let dj = pre[j].depth as nat;
                    lemma_subrange_stable(lv_pre, lv, st as int, (st + pow2(dj)) as int);
                }
                // The new leaf node covers exactly the appended leaf.
                assert(node_complete_ok(m, post, lv, plen - 1)) by {
                    let st = node_start(post, plen - 1);
                    assert(st == lv_pre.len());
                    assert(post[plen - 1].index as nat * pow2(0) == st) by (nonlinear_arith)
                        requires
                            post[plen - 1].index as nat == st,
                            pow2(0) == 1,
                    ;
                    assert(lv.subrange(st as int, st as int + 1)[0] == lv[st as int]);
                    assert(post[plen - 1].hash@ == pad_root(
                        m,
                        lv.subrange(st as int, st as int + 1),
                        0,
                    ));
                }
                assert(stack_wf_merge(m, post, lv)) by {
                    assert(forall|j: int|
                        0 <= j < plen - 2 ==> (#[trigger] post[j].depth) > post[j + 1].depth);
                }
                // The sink still holds every completed pair: a pair newly
                // completed by this push is exactly the pending top pair.
                if self.writer is Some {
                    let k = lv.len() as int;
                    if k % 2 == 0 {
                        assert(pre.len() >= 1);
                        if pre[pre.len() - 1].depth >= 1 {
                            assert forall|l: int| 0 <= l < pre.len() implies pre[l].depth as nat
                                >= 1 by {
                                if l < pre.len() - 1 {
                                    lemma_depth_chain(pre, l, pre.len() - 1, pre.len() - 1);
                                }
                            }
                            lemma_node_start_aligned(pre, pre.len() as int, 1);
                            let q = choose|q: nat|
                                node_start(pre, pre.len() as int) == #[trigger] (q * pow2(1));
                            assert(pow2(1) == 2) by {
                                lemma_pow2_unfold(1);
                            }
                            assert(lv_pre.len() == 2 * q);
                            assert(false);
                        }
                        assert(pre[pre.len() - 1].depth == 0);
                        assert(node_complete_ok(m, pre, lv_pre, pre.len() - 1));
                        assert(pre[pre.len() - 1].index as nat * pow2(0) == node_start(
                            pre,
                            pre.len() - 1,
                        ));
                        assert(pre[pre.len() - 1].index as nat * 1 == pre[pre.len()
                            - 1].index as nat) by (nonlinear_arith);
                        assert(pre[pre.len() - 1].index as int == k - 2);
                        assert(post[plen - 1].index as int == k - 1);
                        assert(post[plen - 2] == pre[pre.len() - 1]);
                    }
                    assert forall|i: int|
                        0 <= i < k && leaf_pair_complete(i, k) && !(plen >= 2 && post[plen
                            - 1].depth == 0 && post[plen - 2].depth == 0 && (i == post[plen
                            - 1].index || i == post[plen - 2].index)) implies slot_holds(
                        self.spec_writer_bytes(),
                        self.node_region_start as nat,
                        m.spec_hash_bytes(),
                        i as nat,
                        lv[i],
                    ) by {
                        if 2 * (i / 2) + 2 <= k - 1 {
                            assert(i <= 2 * (i / 2) + 1);
                            assert(i < k - 1);
                            assert(lv[i] == lv_pre[i]);
                            assert(slot_holds(
                                self.spec_writer_bytes(),
                                self.node_region_start as nat,
                                m.spec_hash_bytes(),
                                i as nat,
                                lv_pre[i],
                            ));
                        } else {
                            assert(2 * (i / 2) + 2 == k);
                            assert(k % 2 == 0) by (nonlinear_arith)
                                requires
                                    2 * (i / 2) + 2 == k,
                            ;
                            assert(i == k - 2 || i == k - 1);
                            assert(false);
                        }
                    }
                    assert(self.writer_leaves_ok_except_pending());
                }
            }
            match self.check_and_merge() {
                Ok(()) => {},
                Err(e) => {
                    proof {
                        assert(false);
                    }
                    return Err(e);
                },
            }
            i += 1;
        }
        proof {
            assert(leaf_hashes.deep_view().take(len as int) =~= leaf_hashes.deep_view());
        }
        Ok(())
    }

    /// Collapses the whole pending stack to the root and returns its hash,
    /// persisting every remaining node (a rightmost unpaired node is paired
    /// with a duplicate of itself). Fails with `InvalidState` where no leaf
    /// was ever appended or the calculator is already finalized, and with
    /// `InvalidData` where the leaves appended stop short of (or pass) the
    /// declared tree's depth.
    #[verifier::rlimit(100)]
    pub fn finalize(&mut self) -> (r: NdnResult<Vec<u8>>)
        requires
            old(self).wf(),
        ensures
            final(self).wf(),
            final(self).spec_method() == old(self).spec_method(),
            final(self).spec_leaf_count() == old(self).spec_leaf_count(),
            final(self).spec_leaves() == old(self).spec_leaves(),
            final(self).spec_append_count() == old(self).spec_append_count(),
            final(self).spec_has_writer() == old(self).spec_has_writer(),
            final(self).spec_region_start() == old(self).spec_region_start(),
            agree_below(
                old(self).spec_writer_bytes(),
                final(self).spec_writer_bytes(),
                old(self).spec_region_start() as int,
            ),
            final(self).spec_writer_bytes().len() >= old(self).spec_writer_bytes().len(),
            match r {
                Ok(root) => {
                    &&& !old(self).spec_finalized()
                    &&& old(self).spec_leaves().len() >= 1
                    &&& clog2(old(self).spec_leaves().len()) == clog2(
                        old(self).spec_leaf_count() as nat,
                    )
                    &&& root@ == merkle_root_of(
                        old(self).spec_method(),
                        old(self).spec_leaves(),
                    )
                    &&& root@.len() == old(self).spec_method().spec_hash_bytes()
                    &&& final(self).spec_finalized()
                    &&& (old(self).spec_has_writer() && old(self).spec_append_count() == old(
                        self,
                    ).spec_leaf_count() ==> {
                        let w2 = final(self).spec_writer_bytes();
                        let base = old(self).spec_region_start() as nat;
                        let hb = old(self).spec_method().spec_hash_bytes();
                        let lc = old(self).spec_leaf_count() as nat;
                        &&& w2.len() == base + total_slots(lc) * hb
                        &&& forall|i: int|
                            0 <= i < lc ==> slot_holds(
                                w2,
                                base,
                                hb,
                                i as nat,
                                #[trigger] old(self).spec_leaves()[i],
                            )
                        &&& (lc % 2 == 1 && lc > 1 ==> slot_holds(
                            w2,
                            base,
                            hb,
                            lc,
                            old(self).spec_leaves()[lc - 1],
                        ))
                        &&& agree_below(old(self).spec_writer_bytes(), w2, base as int)
                    })
                },
                Err(e) => {
                    if old(self).spec_finalized() || old(self).spec_leaves().len() == 0 {
                        &&& e == NdnError::InvalidState
                        &&& *final(self) == *old(self)
                    } else {
                        &&& e == NdnError::InvalidData
                        &&& clog2(old(self).spec_leaves().len()) != clog2(
                            old(self).spec_leaf_count() as nat,
                        )
                        &&& final(self).spec_finalized()
                    }
                },
            },
    {
        if self.finalized {
            return Err(NdnError::InvalidState);
        }
        if self.stack.len() == 0 {
            proof {
                assert(node_start(self.stack@, 0) == 0);
            }
            return Err(NdnError::InvalidState);
        }
        let ghost m = self.hash_method;
        let ghost lv = self.leaves@;
        let ghost w0 = self.spec_writer_bytes();
        let ghost base = self.node_region_start as nat;
        let ghost hb = self.hash_method.spec_hash_bytes();
        let ghost lc = self.leaf_count as nat;
        proof {
            let s = self.stack@;
            let top = s.len() - 1;
            lemma_pow2_pos(s[top].depth as nat);
            assert(node_start(s, top + 1) == node_start(s, top) + pow2(s[top].depth as nat));
            assert(lv.len() >= 1);
            assert(node_complete_ok(m, s, lv, top));
            if s.len() == 1 {
                assert(node_start(s, 0) == 0);
                assert(pow2(s[0].depth as nat) == lv.len());
                lemma_clog2_pow2(s[0].depth as nat);
            }
            assert(stack_wf_final(m, s, lv));
            if lv.len() % 2 == 1 && s[s.len() - 1].depth >= 1 {
                assert forall|l: int| 0 <= l < s.len() implies s[l].depth as nat >= 1 by {
                    if l < s.len() - 1 {
                        lemma_depth_chain(s, l, s.len() - 1, s.len() - 1);
                    }
                }
                lemma_node_start_aligned(s, s.len() as int, 1);
                let q0 = choose|q0: nat| node_start(s, s.len() as int) == #[trigger] (q0 * pow2(1));
                assert(pow2(1) == 2) by {
                    lemma2_to64();
                }
                assert(lv.len() == 2 * q0);
                assert(false);
            }
        }
        while self.stack.len() > 1
            invariant
                self.writer_leaves_ok(),
                base == self.node_region_start as nat,
                hb == self.hash_method.spec_hash_bytes(),
                lc == self.leaf_count as nat,
                agree_below(self.spec_writer_bytes(), w0, base as int) && agree_below(
                    w0,
                    self.spec_writer_bytes(),
                    base as int,
                ),
                self.spec_writer_bytes().len() >= w0.len(),
                self.writer is Some && lv.len() % 2 == 1 && lv.len() > 1 && self.stack@[
                self.stack@.len() - 1].depth >= 1 ==> slot_holds(
                    self.spec_writer_bytes(),
                    base,
                    hb,
                    (lv.len() - 1) as nat,
                    lv[lv.len() - 1],
                ) && slot_holds(self.spec_writer_bytes(), base, hb, lv.len(), lv[lv.len() - 1]),
                1 <= self.leaf_count <= MAX_LEAF_COUNT,
                self.locator.wf(),
                self.locator.spec_leaf_count() == self.leaf_count,
                self.writer_fits(),
                self.hash_method == old(self).hash_method,
                self.leaf_count == old(self).leaf_count,
                self.append_count == old(self).append_count,
                self.locator == old(self).locator,
                self.node_region_start == old(self).node_region_start,
                self.finalized == false,
                self.leaves == old(self).leaves,
                self.writer is Some <==> old(self).writer is Some,
                m == self.hash_method,
                lv == self.leaves@,
                lv.len() == self.append_count <= self.leaf_count,
                forall|i: int|
                    0 <= i < lv.len() ==> (#[trigger] lv[i]).len() == m.spec_hash_bytes(),
                stack_wf_final(m, self.stack@, lv),
            decreases 64 * self.stack@.len() + 64 - self.stack@[self.stack@.len()
                - 1].depth as int,
        {
            let ghost pre = self.stack@;
            let ghost plen = pre.len() as int;
            let n1 = self.stack.pop().unwrap();
            let ghost d = n1.depth as nat;
            let ghost st1 = node_start(pre, plen - 1);
            proof {
                lemma_pow2_pos(d);
                assert(node_complete_ok(m, pre, lv, plen - 2));
            }
            let same_depth = self.stack[self.stack.len() - 1].depth == n1.depth;
            let method = self.hash_method;
            if same_depth {
                // A real sibling completes the pair: the earlier node is
                // hashed first.
                let n2 = self.stack.pop().unwrap();
                let ghost st2 = node_start(pre, plen - 2);
                proof {
                    assert(st1 == st2 + pow2(d));
                    assert forall|l: int| 0 <= l < plen - 2 implies pre[l].depth as nat >= d
                        + 1 by {
                        lemma_depth_chain(pre, l, plen - 2, plen - 2);
                    }
                    lemma_node_start_aligned(pre, plen - 2, d + 1);
                }
                let ghost q = choose|q: nat| st2 == #[trigger] (q * pow2((d + 1) as nat));
                proof {
                    lemma_pow2_unfold((d + 1) as nat);
                    assert(n2.index as nat == 2 * q) by (nonlinear_arith)
                        requires
                            n2.index as nat * pow2(d) == q * (2 * pow2(d)),
                            pow2(d) > 0,
                    ;
                    assert(n1.index as nat == 2 * q + 1) by (nonlinear_arith)
                        requires
                            n1.index as nat * pow2(d) == (q * (2 * pow2(d)) + pow2(d)),
                            pow2(d) > 0,
                    ;
                    lemma_merge_partial(m, lv, st2, d);
                }
                let parent_hash = method.hash_pair(n2.hash.as_slice(), n1.hash.as_slice());
                let parent = HashNode {
                    hash: parent_hash,
                    depth: n1.depth + 1,
                    index: n1.index / 2,
                };
                self.stack.push(parent);
                proof {
                    let post = self.stack@;
                    assert(post.len() == plen - 2 + 1);
                    assert forall|j: int| 0 <= j <= plen - 2 implies node_start(post, j)
                        == node_start(pre, j) by {
                        lemma_node_start_agree(post, pre, j);
                    }
                    assert(parent.index as nat == q);
                    assert(parent.index as nat * pow2((d + 1) as nat) == st2) by (nonlinear_arith)
                        requires
                            parent.index as nat == q,
                            st2 == q * pow2((d + 1) as nat),
                    ;
                    assert(d + 1 <= 60) by {
                        if plen - 2 > 0 {
                            assert(node_complete_ok(m, pre, lv, plen - 3));
                            assert(pre[plen - 3].depth as nat >= d + 1) by {
                                lemma_depth_chain(pre, plen - 3, plen - 2, plen - 2);
                            }
                            assert(pre[plen - 3].depth <= 60);
                        } else {
                            assert(st2 == 0);
                            assert(lv.len() <= pow2((d + 1) as nat));
                            lemma_max_leaf_count();
                            if d + 1 > 60 {
                                vstd::arithmetic::power2::lemma_pow2_strictly_increases(56, d + 1);
                                lemma_clog2_le(lv.len(), 56);
                                lemma_clog2_le(lv.len(), (d + 1) as nat);
                                assert(clog2(lv.len()) <= 56);
                                assert(pow2(d) < lv.len()) by {
                                    assert(st1 < lv.len());
                                }
                                lemma_clog2_le(lv.len(), d);
                                vstd::arithmetic::power2::lemma_pow2_strictly_increases(56, d);
                                assert(false);
                            }
                        }
                    }
                    if post.len() == 1 {
                        assert(st2 == 0);
                        assert(pow2(d) < lv.len() <= pow2((d + 1) as nat));
                        lemma_clog2_le(lv.len(), (d + 1) as nat);
                        if clog2(lv.len()) <= d {
                            lemma_clog2_le(lv.len(), d);
                            assert(false);
                        }
                        assert(clog2(lv.len()) == d + 1);
                    }
                    assert(stack_wf_final(m, post, lv)) by {
                        assert forall|j: int| 0 <= j < post.len() - 1 implies node_complete_ok(
                            m,
                            post,
                            lv,
                            j,
                        ) by {
                            assert(node_complete_ok(m, pre, lv, j));
                        }
                    }
                }
                proof {
                    lemma_complete_index_bound(self.leaf_count as nat, d, n2.index as nat);
                    lemma_partial_index_bound(self.leaf_count as nat, d, n1.index as nat);
                }
                let ghost wa = self.spec_writer_bytes();
                let ghost slot1 = slot_of(lc, d, n1.index as nat);
                let ghost slot2 = slot_of(lc, d, n2.index as nat);
                match self.write_node(&n1) {
                    Ok(()) => {},
                    Err(e) => {
                        proof {
                            assert(false);
                        }
                        return Err(e);
                    },
                }
                match self.write_node(&n2) {
                    Ok(()) => {},
                    Err(e) => {
                        proof {
                            assert(false);
                        }
                        return Err(e);
                    },
                }
                proof {
                    if self.writer is Some {
                        let k = lv.len() as int;
                        let wb = crate::stream::stream_write(
                            wa,
                            (base + slot1 * hb) as nat,
                            n1.hash@,
                        );
                        let wc = self.spec_writer_bytes();
                        lemma_slot_write_agree(wa, base, hb, slot1, n1.hash@);
                        lemma_slot_write_agree(wb, base, hb, slot2, n2.hash@);
                        assert(slot1 != slot2);
                        assert(d + 1 <= clog2(lc)) by {
                            if plen - 2 > 0 {
                                assert(node_start(pre, plen - 2) == node_start(pre, plen - 3)
                                    + pow2(pre[plen - 3].depth as nat));
                                lemma_pow2_pos(pre[plen - 3].depth as nat);
                                assert(st2 >= 1);
                                assert(q >= 1) by (nonlinear_arith)
                                    requires
                                        st2 == q * pow2((d + 1) as nat),
                                        st2 >= 1,
                                ;
                                lemma_partial_index_bound(lc, (d + 1) as nat, q);
                            } else {
                                assert(clog2(lv.len()) == d + 1);
                                lemma_clog2_mono(lv.len(), lc);
                            }
                        }
                        assert(slot1 < total_slots(lc) && slot2 < total_slots(lc)) by {
                            crate::geometry::lemma_slot_in_depth(lc, d, n1.index as nat);
                            crate::geometry::lemma_slot_in_depth(lc, d, n2.index as nat);
                            crate::geometry::lemma_prefix_mono(lc, (d + 1) as nat, clog2(lc));
                        }
                        assert((slot1 + 1) * hb <= total_slots(lc) * hb && (slot2 + 1) * hb
                            <= total_slots(lc) * hb) by (nonlinear_arith)
                            requires
                                slot1 + 1 <= total_slots(lc),
                                slot2 + 1 <= total_slots(lc),
                                hb >= 0,
                        ;
                        if d == 0 {
                            lemma2_to64();
                            assert(pow2(0) == 1);
                            assert(n1.index as nat * 1 == n1.index as nat) by (nonlinear_arith);
                            assert(n2.index as nat * 1 == n2.index as nat) by (nonlinear_arith);
                            assert(n1.index as int == k - 1);
                            assert(n2.index as int == k - 2);
                            assert(k % 2 == 0) by (nonlinear_arith)
                                requires
                                    n1.index as nat == 2 * q + 1,
                                    n1.index as int == k - 1,
                            ;
                            assert(prefix_count(lc, 0) == 0);
                            assert(n1.hash@ == lv[k - 1]) by {
                                assert(lv.subrange(k - 1, k)[0] == lv[k - 1]);
                            }
                            assert(n2.hash@ == lv[k - 2]) by {
                                assert(lv.subrange(k - 2, k - 1)[0] == lv[k - 2]);
                            }
                            lemma_slot_write_holds(wa, base, hb, slot1, n1.hash@);
                            lemma_slot_write_preserves(
                                wb,
                                base,
                                hb,
                                slot2,
                                n2.hash@,
                                slot1,
                                n1.hash@,
                            );
                            lemma_slot_write_holds(wb, base, hb, slot2, n2.hash@);
                            assert forall|i: int|
                                0 <= i < k && leaf_pair_complete(i, k) && i != k - 1 && i != k
                                    - 2 implies slot_holds(wc, base, hb, i as nat, lv[i]) by {
                                lemma_slot_write_preserves(
                                    wa,
                                    base,
                                    hb,
                                    slot1,
                                    n1.hash@,
                                    i as nat,
                                    lv[i],
                                );
                                lemma_slot_write_preserves(
                                    wb,
                                    base,
                                    hb,
                                    slot2,
                                    n2.hash@,
                                    i as nat,
                                    lv[i],
                                );
                            }
                        } else {
                            assert(prefix_count(lc, 1) >= lc) by {
                                assert(padded_count(lc, 0) >= count_at(lc, 0));
                            }
                            assert(slot1 >= prefix_count(lc, 1) && slot2 >= prefix_count(lc, 1))
                                by {
                                crate::geometry::lemma_prefix_mono(lc, 1, d);
                            }
                            assert forall|i: int|
                                0 <= i < k && leaf_pair_complete(i, k) implies slot_holds(
                                wc,
                                base,
                                hb,
                                i as nat,
                                lv[i],
                            ) by {
                                assert(i < lc);
                                lemma_slot_write_preserves(
                                    wa,
                                    base,
                                    hb,
                                    slot1,
                                    n1.hash@,
                                    i as nat,
                                    lv[i],
                                );
                                lemma_slot_write_preserves(
                                    wb,
                                    base,
                                    hb,
                                    slot2,
                                    n2.hash@,
                                    i as nat,
                                    lv[i],
                                );
                            }
                            if lv.len() % 2 == 1 && lv.len() > 1 {
                                assert(lv.len() < prefix_count(lc, 1)) by {
                                    if lv.len() == lc {
                                        assert(count_at(lc, 0) == lc);
                                        lemma2_to64();
                                        lemma_clog2_le(lc, 0);
                                        assert(clog2(lc) >= 1);
                                        assert(padded_count(lc, 0) == lc + 1);
                                    }
                                }
                                lemma_slot_write_preserves(
                                    wa,
                                    base,
                                    hb,
                                    slot1,
                                    n1.hash@,
                                    (lv.len() - 1) as nat,
                                    lv[k - 1],
                                );
                                lemma_slot_write_preserves(
                                    wb,
                                    base,
                                    hb,
                                    slot2,
                                    n2.hash@,
                                    (lv.len() - 1) as nat,
                                    lv[k - 1],
                                );
                                lemma_slot_write_preserves(
                                    wa,
                                    base,
                                    hb,
                                    slot1,
                                    n1.hash@,
                                    lv.len(),
                                    lv[k - 1],
                                );
                                lemma_slot_write_preserves(
                                    wb,
                                    base,
                                    hb,
                                    slot2,
                                    n2.hash@,
                                    lv.len(),
                                    lv[k - 1],
                                );
                            }
                        }
                    }
                }
            } else {
                // A lone dangling node: pair it with a duplicate of itself
                // standing in the reserved padding slot to its right.
                proof {
                    assert forall|l: int| 0 <= l < plen - 1 implies pre[l].depth as nat >= d
                        + 1 by {
                        if l < plen - 2 {
                            lemma_depth_chain(pre, l, plen - 2, plen - 2);
                        }
                        assert(pre[plen - 2].depth as nat >= d);
                        assert(pre[plen - 2].depth as nat != d);
                    }
                    lemma_node_start_aligned(pre, plen - 1, d + 1);
                }
                let ghost q = choose|q: nat| st1 == #[trigger] (q * pow2((d + 1) as nat));
                proof {
                    lemma_pow2_unfold((d + 1) as nat);
                    assert(n1.index as nat == 2 * q) by (nonlinear_arith)
                        requires
                            n1.index as nat * pow2(d) == q * (2 * pow2(d)),
                            pow2(d) > 0,
                    ;
                    assert(n1.index >= 1) by {
                        lemma_pow2_pos(pre[plen - 2].depth as nat);
                        assert(node_start(pre, plen - 1) >= pow2(pre[plen - 2].depth as nat));
                        if n1.index == 0 {
                            assert(st1 == 0) by (nonlinear_arith)
                                requires
                                    n1.index as nat * pow2(d) == st1,
                                    n1.index == 0,
                            ;
                            assert(false);
                        }
                    }
                    lemma_clone_partial(m, lv, st1, d);
                }
                let dup_hash = n1.hash.clone();
                proof {
                    assert(dup_hash@ =~= n1.hash@);
                }
                let n2 = HashNode { hash: dup_hash, depth: n1.depth, index: n1.index + 1 };
                let parent_hash = method.hash_pair(n1.hash.as_slice(), n2.hash.as_slice());
                let parent = HashNode {
                    hash: parent_hash,
                    depth: n1.depth + 1,
                    index: n1.index / 2,
                };
                self.stack.push(parent);
                proof {
                    let post = self.stack@;
                    assert(post.len() == plen);
                    assert forall|j: int| 0 <= j <= plen - 1 implies node_start(post, j)
                        == node_start(pre, j) by {
                        lemma_node_start_agree(post, pre, j);
                    }
                    assert(parent.index as nat == q);
                    assert(parent.index as nat * pow2((d + 1) as nat) == st1) by (nonlinear_arith)
                        requires
                            parent.index as nat == q,
                            st1 == q * pow2((d + 1) as nat),
                    ;
                    assert(d + 1 <= 60) by {
                        assert(node_complete_ok(m, pre, lv, plen - 2));
                        assert(pre[plen - 2].depth <= 60);
                        assert(pre[plen - 2].depth as nat >= d + 1);
                    }
                    assert(stack_wf_final(m, post, lv)) by {
                        assert forall|j: int| 0 <= j < post.len() - 1 implies node_complete_ok(
                            m,
                            post,
                            lv,
                            j,
                        ) by {
                            assert(node_complete_ok(m, pre, lv, j));
                        }
                    }
                }
                proof {
                    lemma_partial_index_bound(self.leaf_count as nat, d, n1.index as nat);
                    // The duplicate stands in a real or padding slot: where
                    // it is the very next index after the last real node,
                    // that count is odd and the padding slot is reserved.
                    let c = count_at(self.leaf_count as nat, d);
                    if n1.index as nat + 1 == c {
                        assert(c % 2 == 1);
                    }
                    assert(n1.index as nat + 1 < padded_count(self.leaf_count as nat, d));
                }
                let ghost wa = self.spec_writer_bytes();
                let ghost slot1 = slot_of(lc, d, n1.index as nat);
                let ghost slot2 = slot_of(lc, d, n1.index as nat + 1);
                match self.write_node(&n1) {
                    Ok(()) => {},
                    Err(e) => {
                        proof {
                            assert(false);
                        }
                        return Err(e);
                    },
                }
                let n2b = n2;
                match self.write_node(&n2b) {
                    Ok(()) => {},
                    Err(e) => {
                        proof {
                            assert(false);
                        }
                        return Err(e);
                    },
                }
                proof {
                    if self.writer is Some {
                        let k = lv.len() as int;
                        let wb = crate::stream::stream_write(
                            wa,
                            (base + slot1 * hb) as nat,
                            n1.hash@,
                        );
                        let wc = self.spec_writer_bytes();
                        lemma_slot_write_agree(wa, base, hb, slot1, n1.hash@);
                        lemma_slot_write_agree(wb, base, hb, slot2, n2b.hash@);
                        assert(slot1 != slot2);
                        assert(d + 1 <= clog2(lc)) by {
                            if plen - 1 > 0 {
                                assert(node_start(pre, plen - 1) == node_start(pre, plen - 2)
                                    + pow2(pre[plen - 2].depth as nat));
                                lemma_pow2_pos(pre[plen - 2].depth as nat);
                                assert(st1 >= 1);
                                assert(q >= 1) by (nonlinear_arith)
                                    requires
                                        st1 == q * pow2((d + 1) as nat),
                                        st1 >= 1,
                                ;
                                lemma_partial_index_bound(lc, (d + 1) as nat, q);
                            }
                        }
                        assert(slot1 < total_slots(lc) && slot2 < total_slots(lc)) by {
                            crate::geometry::lemma_slot_in_depth(lc, d, n1.index as nat);
                            crate::geometry::lemma_slot_in_depth(lc, d, n1.index as nat + 1);
                            crate::geometry::lemma_prefix_mono(lc, (d + 1) as nat, clog2(lc));
                        }
                        assert((slot1 + 1) * hb <= total_slots(lc) * hb && (slot2 + 1) * hb
                            <= total_slots(lc) * hb) by (nonlinear_arith)
                            requires
                                slot1 + 1 <= total_slots(lc),
                                slot2 + 1 <= total_slots(lc),
                                hb >= 0,
                        ;
                        assert(n2b.hash@ == n1.hash@);
                        if d == 0 {
                            lemma2_to64();
                            assert(pow2(0) == 1);
                            assert(n1.index as nat * 1 == n1.index as nat) by (nonlinear_arith);
                            assert(n1.index as int == k - 1);
                            assert(k % 2 == 1) by (nonlinear_arith)
                                requires
                                    n1.index as nat == 2 * q,
                                    n1.index as int == k - 1,
                            ;
                            assert(k > 1) by {
                                assert(n1.index >= 1);
                            }
                            assert(prefix_count(lc, 0) == 0);
                            assert(slot1 == k - 1 && slot2 == k);
                            assert(n1.hash@ == lv[k - 1]) by {
                                assert(lv.subrange(k - 1, k)[0] == lv[k - 1]);
                            }
                            lemma_slot_write_holds(wa, base, hb, slot1, n1.hash@);
                            lemma_slot_write_preserves(
                                wb,
                                base,
                                hb,
                                slot2,
                                n2b.hash@,
                                slot1,
                                n1.hash@,
                            );
                            lemma_slot_write_holds(wb, base, hb, slot2, n2b.hash@);
                            assert forall|i: int|
                                0 <= i < k && leaf_pair_complete(i, k) implies slot_holds(
                                wc,
                                base,
                                hb,
                                i as nat,
                                lv[i],
                            ) by {
                                assert(i <= 2 * (i / 2) + 1);
                                assert(i < k - 1);
                                lemma_slot_write_preserves(
                                    wa,
                                    base,
                                    hb,
                                    slot1,
                                    n1.hash@,
                                    i as nat,
                                    lv[i],
                                );
                                lemma_slot_write_preserves(
                                    wb,
                                    base,
                                    hb,
                                    slot2,
                                    n2b.hash@,
                                    i as nat,
                                    lv[i],
                                );
                            }
                        } else {
                            assert(prefix_count(lc, 1) >= lc) by {
                                assert(padded_count(lc, 0) >= count_at(lc, 0));
                            }
                            assert(slot1 >= prefix_count(lc, 1) && slot2 >= prefix_count(lc, 1))
                                by {
                                crate::geometry::lemma_prefix_mono(lc, 1, d);
                            }
                            assert forall|i: int|
                                0 <= i < k && leaf_pair_complete(i, k) implies slot_holds(
                                wc,
                                base,
                                hb,
                                i as nat,
                                lv[i],
                            ) by {
                                assert(i < lc);
                                lemma_slot_write_preserves(
                                    wa,
                                    base,
                                    hb,
                                    slot1,
                                    n1.hash@,
                                    i as nat,
                                    lv[i],
                                );
                                lemma_slot_write_preserves(
                                    wb,
                                    base,
                                    hb,
                                    slot2,
                                    n2b.hash@,
                                    i as nat,
                                    lv[i],
                                );
                            }
                            if lv.len() % 2 == 1 && lv.len() > 1 {
                                assert(lv.len() < prefix_count(lc, 1)) by {
                                    if lv.len() == lc {
                                        assert(count_at(lc, 0) == lc);
                                        lemma2_to64();
                                        lemma_clog2_le(lc, 0);
                                        assert(clog2(lc) >= 1);
                                        assert(padded_count(lc, 0) == lc + 1);
                                    }
                                }
                                lemma_slot_write_preserves(
                                    wa,
                                    base,
                                    hb,
                                    slot1,
                                    n1.hash@,
                                    (lv.len() - 1) as nat,
                                    lv[k - 1],
                                );
                                lemma_slot_write_preserves(
                                    wb,
                                    base,
                                    hb,
                                    slot2,
                                    n2b.hash@,
                                    (lv.len() - 1) as nat,
                                    lv[k - 1],
                                );
                                lemma_slot_write_preserves(
                                    wa,
                                    base,
                                    hb,
                                    slot1,
                                    n1.hash@,
                                    lv.len(),
                                    lv[k - 1],
                                );
                                lemma_slot_write_preserves(
                                    wb,
                                    base,
                                    hb,
                                    slot2,
                                    n2b.hash@,
                                    lv.len(),
                                    lv[k - 1],
                                );
                            }
                        }
                    }
                }
            }
        }
        let ghost w_exit = self.spec_writer_bytes();
        proof {
            if self.writer is Some && lv.len() % 2 == 1 && lv.len() > 1 {
                assert(self.stack@[0].depth as nat == clog2(lv.len()));
                lemma2_to64();
                lemma_clog2_le(lv.len(), 0);
                assert(clog2(lv.len()) >= 1);
                assert(slot_holds(w_exit, base, hb, (lv.len() - 1) as nat, lv[lv.len() - 1]));
                assert(slot_holds(w_exit, base, hb, lv.len(), lv[lv.len() - 1]));
            }
        }
        let root = match self.stack.pop() {
            Some(n) => n,
            None => {
                proof {
                    assert(false);
                }
                return Err(NdnError::InvalidState);
            },
        };
        proof {
            assert(node_start(self.stack@, 0) == 0);
            assert(root.depth as nat == clog2(lv.len()));
            assert(lv.subrange(0, lv.len() as int) =~= lv);
            assert(root.hash@ == merkle_root_of(m, lv));
            assert(root.index as nat * pow2(root.depth as nat) == 0);
            assert(root.index == 0) by (nonlinear_arith)
                requires
                    root.index as nat * pow2(root.depth as nat) == 0,
                    pow2(root.depth as nat) > 0,
            ;
        }
        let total = self.locator.total_depth();
        if root.depth != total || root.index != 0 {
            self.finalized = true;
            return Err(NdnError::InvalidData);
        }
        proof {
            lemma_count_at_root(self.leaf_count as nat);
            assert(padded_count(self.leaf_count as nat, clog2(self.leaf_count as nat)) == 1);
        }
        let ghost wr = self.spec_writer_bytes();
        let ghost rslot = slot_of(lc, clog2(lc), 0);
        match self.write_node(&root) {
            Ok(()) => {},
            Err(e) => {
                proof {
                    assert(false);
                }
                return Err(e);
            },
        }
        proof {
            if self.writer is Some {
                let k = lv.len() as int;
                let wfin = self.spec_writer_bytes();
                lemma_slot_write_agree(wr, base, hb, rslot, root.hash@);
                assert(rslot + 1 == total_slots(lc));
                assert(rslot * hb + hb == (rslot + 1) * hb) by (nonlinear_arith);
                assert(root.hash@.len() == hb);
                assert(wfin.len() == base + total_slots(lc) * hb);
                assert forall|i: int|
                    0 <= i < k && leaf_pair_complete(i, k) implies slot_holds(
                    wfin,
                    base,
                    hb,
                    i as nat,
                    lv[i],
                ) by {
                    assert(2 * (i / 2) + 2 <= k);
                    assert(k >= 2);
                    assert(clog2(lc) >= 1) by {
                        lemma2_to64();
                        lemma_clog2_le(lc, 0);
                        assert(lc >= 2) by {
                            assert(k <= lc);
                        }
                    }
                    assert(rslot >= prefix_count(lc, 1)) by {
                        crate::geometry::lemma_prefix_mono(lc, 1, clog2(lc));
                    }
                    assert(prefix_count(lc, 1) >= lc) by {
                        assert(padded_count(lc, 0) >= count_at(lc, 0));
                    }
                    assert(slot_holds(wr, base, hb, i as nat, lv[i]));
                    lemma_slot_write_preserves(wr, base, hb, rslot, root.hash@, i as nat, lv[i]);
                }
                if lv.len() == lc {
                    if k == 1 {
                        assert(clog2(1) == 0);
                        assert(rslot == 0);
                        assert(root.hash@ == pad_root(m, lv, 0));
                        assert(root.hash@ == lv[0]);
                        lemma_slot_write_holds(wr, base, hb, 0, root.hash@);
                        assert forall|i: int| 0 <= i < lc implies slot_holds(
                            wfin,
                            base,
                            hb,
                            i as nat,
                            lv[i],
                        ) by {
                            assert(i == 0);
                        }
                    } else {
                        assert(clog2(lc) >= 1) by {
                            lemma2_to64();
                            lemma_clog2_le(lc, 0);
                        }
                        assert(rslot >= prefix_count(lc, 1)) by {
                            crate::geometry::lemma_prefix_mono(lc, 1, clog2(lc));
                        }
                        assert(prefix_count(lc, 1) >= lc) by {
                            assert(padded_count(lc, 0) >= count_at(lc, 0));
                        }
                        assert forall|i: int| 0 <= i < lc implies slot_holds(
                            wfin,
                            base,
                            hb,
                            i as nat,
                            lv[i],
                        ) by {
                            if k % 2 == 0 {
                                assert(leaf_pair_complete(i, k)) by {
                                    if i % 2 == 0 {
                                        assert(2 * (i / 2) + 2 == i + 2) by (nonlinear_arith)
                                            requires
                                                i % 2 == 0,
                                        ;
                                    } else {
                                        assert(2 * (i / 2) + 2 == i + 1) by (nonlinear_arith)
                                            requires
                                                i % 2 == 1,
                                        ;
                                    }
                                }
                                assert(slot_holds(wr, base, hb, i as nat, lv[i]));
                            } else {
                                if i < k - 1 {
                                    assert(leaf_pair_complete(i, k)) by {
                                        if i % 2 == 0 {
                                            assert(2 * (i / 2) + 2 == i + 2) by (nonlinear_arith)
                                                requires
                                                    i % 2 == 0,
                                            ;
                                            assert(i + 2 <= k) by {
                                                assert(i != k - 1 && i != k - 2 || i == k - 2);
                                                if i == k - 2 {
                                                    assert(k % 2 == 1 && i % 2 == 0);
                                                }
                                            }
                                        } else {
                                            assert(2 * (i / 2) + 2 == i + 1) by (nonlinear_arith)
                                                requires
                                                    i % 2 == 1,
                                            ;
                                        }
                                    }
                                    assert(slot_holds(wr, base, hb, i as nat, lv[i]));
                                } else {
                                    assert(slot_holds(wr, base, hb, i as nat, lv[i])) by {
                                        assert(slot_holds(w_exit, base, hb, (k - 1) as nat, lv[k
                                            - 1]));
                                        assert(wr == w_exit);
                                    }
                                }
                            }
                            lemma_slot_write_preserves(
                                wr,
                                base,
                                hb,
                                rslot,
                                root.hash@,
                                i as nat,
                                lv[i],
                            );
                            assert(i as nat != rslot);
                        }
                        if lc % 2 == 1 {
                            assert(slot_holds(wr, base, hb, lc, lv[k - 1]));
                            assert(lc < prefix_count(lc, 1)) by {
                                assert(count_at(lc, 0) == lc);
                                assert(padded_count(lc, 0) == lc + 1);
                            }
                            lemma_slot_write_preserves(
                                wr,
                                base,
                                hb,
                                rslot,
                                root.hash@,
                                lc,
                                lv[k - 1],
                            );
                        }
                    }
                }
                assert(agree_below(w0, wfin, base as int));
            }
        }
        self.finalized = true;
        Ok(root.hash)
    }
}

} // verus!
