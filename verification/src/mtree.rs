use vstd::prelude::*;
use vstd::bytes::{spec_u32_to_le_bytes, spec_u32_from_le_bytes, u32_to_le_bytes, u32_from_le_bytes,
    lemma_auto_spec_u32_to_from_le_bytes, lemma_auto_spec_u64_to_from_le_bytes};
use crate::calculator::{SerializeHashCalculator, merkle_root_of};
use crate::error::{NdnError, NdnResult};
use crate::geometry::{clog2, slot_of, total_slots, sibling_of, path_index};
use crate::hash::HashMethod;
use crate::locator::{HashNodeLocator, MAX_LEAF_COUNT, lemma_max_leaf_count};
use crate::meta::{MerkleTreeMetaData, leaf_count_of, name_bytes, spec_encode_meta, spec_parse_meta,
    lemma_meta_roundtrip};
use crate::hash::method_of_name;
use crate::obj_id::{ObjId, OBJ_TYPE_MTREE};
use crate::stream::MemStream;

verus! {

/// Leaf hashes read off a byte stream: `count` digests of `hb` bytes each,
/// laid out back to back from `start`.
pub open spec fn leaves_of(b: Seq<u8>, start: int, count: nat, hb: nat) -> Seq<Seq<u8>> {
    Seq::new(count, |i: int| b.subrange(start + i * hb, start + (i + 1) * hb))
}

/// Digest algorithm denoted by the raw name bytes of a parsed metadata
/// record (the default where none is present); meaningful for records that
/// passed decoding.
pub open spec fn method_of_name_bytes(nb: Option<Seq<u8>>) -> HashMethod {
    match nb {
        None => HashMethod::Sha256,
        Some(x) => if x == name_bytes("sha256"@) {
            HashMethod::Sha256
        } else {
            HashMethod::Sha512
        },
    }
}

/// Complete stream header: a 4-byte little-endian record length followed by
/// the metadata record itself.
pub open spec fn spec_header(data_size: u64, leaf_size: u64, name: Option<Seq<char>>) -> Seq<u8> {
    spec_u32_to_le_bytes(spec_encode_meta(data_size, leaf_size, name).len() as u32)
        + spec_encode_meta(data_size, leaf_size, name)
}

/// The persisted tree as the read path sees it: the metadata, the root hash
/// recomputed from the stream's leaves, the geometry, and the retained
/// byte source answering random verification-path queries.
pub struct MerkleTreeObject {
    meta: MerkleTreeMetaData,
    root_hash: Vec<u8>,
    body_reader: MemStream,
    locator: HashNodeLocator,
    header_size: u64,
}

impl MerkleTreeObject {
    /// Total object size, as a specification value.
    pub closed spec fn spec_data_size(&self) -> u64 {
        self.meta.spec_data_size()
    }

    /// Leaf chunk size, as a specification value.
    pub closed spec fn spec_leaf_size(&self) -> u64 {
        self.meta.spec_leaf_size()
    }

    /// Leaf count, as a specification value.
    pub closed spec fn spec_leaf_count(&self) -> nat {
        self.meta.spec_leaf_count()
    }

    /// Digest algorithm, as a specification value.
    pub closed spec fn spec_method(&self) -> HashMethod {
        self.meta.spec_method()
    }

    /// Stored algorithm name, as a specification value.
    pub closed spec fn spec_name(&self) -> Option<Seq<char>> {
        self.meta.spec_name()
    }

    /// Root hash, as a specification value.
    pub closed spec fn spec_root(&self) -> Seq<u8> {
        self.root_hash@
    }

    /// Bytes of the retained source, as a specification value.
    pub closed spec fn spec_stream(&self) -> Seq<u8> {
        self.body_reader@
    }

    /// Byte offset at which the node region starts: the header's size.
    pub closed spec fn spec_header_size(&self) -> u64 {
        self.header_size
    }

    /// Internal consistency of a loaded object.
    pub closed spec fn wf(&self) -> bool {
        &&& self.meta.wf()
        &&& 1 <= self.spec_leaf_count() <= MAX_LEAF_COUNT
        &&& self.locator.wf()
        &&& self.locator.spec_leaf_count() == self.spec_leaf_count()
        &&& self.root_hash@.len() == self.spec_method().spec_hash_bytes()
        &&& self.header_size <= 0x1_0000_0004
    }

    /// Loads a tree from the start of a byte source: reads the header,
    /// then exactly `leaf_count` leaf digests, and rebuilds the root by the
    /// same streaming algorithm the write path uses. Fails with `IoError`
    /// where the source ends early, `InvalidData` where the header is
    /// malformed or names an unsupported shape, and `InvalidParam` where
    /// the algorithm name is unknown or the tree has no leaves.
    #[verifier::loop_isolation(false)]
    pub fn load_from_reader(body_reader: MemStream) -> (r: NdnResult<Self>)
        requires
            body_reader.spec_pos() == 0,
        ensures
            ({
                let b = body_reader@;
                match r {
                    Ok(obj) => {
                        &&& b.len() >= 4
                        &&& {
                            let ml = spec_u32_from_le_bytes(b.subrange(0, 4)) as int;
                            &&& b.len() >= 4 + ml
                            &&& spec_parse_meta(b.subrange(4, 4 + ml)) is Some
                            &&& {
                                let (ds, ls, nb) = spec_parse_meta(b.subrange(4, 4 + ml))->Some_0;
                                let lc = leaf_count_of(ds, ls);
                                let hb = obj.spec_method().spec_hash_bytes();
                                &&& obj.wf()
                                &&& obj.spec_data_size() == ds
                                &&& obj.spec_leaf_size() == ls
                                &&& obj.spec_method() == method_of_name_bytes(nb)
                                &&& 1 <= lc <= MAX_LEAF_COUNT
                                &&& obj.spec_header_size() == 4 + ml
                                &&& obj.spec_stream() == b
                                &&& b.len() >= 4 + ml + lc * hb
                                &&& obj.spec_root() == merkle_root_of(
                                    obj.spec_method(),
                                    leaves_of(b, 4 + ml, lc, hb),
                                )
                            }
                        }
                    },
                    Err(e) => {
                        if b.len() < 4 {
                            e == NdnError::IoError
                        } else {
                            let ml = spec_u32_from_le_bytes(b.subrange(0, 4)) as int;
                            if b.len() < 4 + ml {
                                e == NdnError::IoError
                            } else {
                                match spec_parse_meta(b.subrange(4, 4 + ml)) {
                                    None => e == NdnError::InvalidData,
                                    Some((ds, ls, nb)) => {
                                        let lc = leaf_count_of(ds, ls);
                                        let hb = method_of_name_bytes(nb).spec_hash_bytes();
                                        if ls == 0 || lc > MAX_LEAF_COUNT {
                                            e == NdnError::InvalidData
                                        } else if nb is Some && nb->Some_0 != name_bytes("sha256"@)
                                            && nb->Some_0 != name_bytes("sha512"@) {
                                            e == NdnError::InvalidParam
                                        } else if lc == 0 {
                                            e == NdnError::InvalidParam
                                        } else {
                                            e == NdnError::IoError && b.len() < 4 + ml + lc * hb
                                        }
                                    },
                                }
                            }
                        }
                    },
                }
            }),
    {
        let ghost b = body_reader@;
        let mut stream = body_reader;
        let lenb = match stream.read_exact(4) {
            Ok(v) => v,
            Err(e) => {
                return Err(e);
            },
        };
        let ml = u32_from_le_bytes(lenb.as_slice());
        let rec = match stream.read_exact(ml as usize) {
            Ok(v) => v,
            Err(e) => {
                return Err(e);
            },
        };
        proof {
            assert(rec@ == b.subrange(4, 4 + ml as int));
        }
        let meta = match MerkleTreeMetaData::decode(rec.as_slice()) {
            Ok(m) => m,
            Err(e) => {
                return Err(e);
            },
        };
        proof {
            reveal_strlit("sha256");
            reveal_strlit("sha512");
            match meta.spec_name() {
                None => {},
                Some(nm) => {
                    assert(nm == "sha256"@ || nm == "sha512"@);
                    if nm == "sha512"@ {
                        assert(name_bytes(nm) != name_bytes("sha256"@)) by {
                            assert(name_bytes(nm)[3] != name_bytes("sha256"@)[3]);
                        }
                    }
                },
            }
            assert(meta.spec_method() == method_of_name_bytes(
                spec_parse_meta(b.subrange(4, 4 + spec_u32_from_le_bytes(b.subrange(0, 4)) as int))
                    ->Some_0.2,
            ));
        }
        let lc = meta.leaf_count();
        let method = meta.hash_method();
        let hb = method.hash_bytes();
        let mut calc = match SerializeHashCalculator::new(lc, method, None) {
            Ok(c) => c,
            Err(e) => {
                proof {
                    assert(lc == 0);
                }
                return Err(e);
            },
        };
        let ghost start = 4 + ml as int;
        let mut i: u64 = 0;
        while i < lc
            invariant
                calc.wf(),
                !calc.spec_finalized(),
                calc.spec_method() == method,
                calc.spec_leaf_count() == lc,
                !calc.spec_has_writer(),
                1 <= lc <= MAX_LEAF_COUNT,
                i <= lc,
                hb == method.spec_hash_bytes(),
                lc == meta.spec_leaf_count(),
                method == meta.spec_method(),
                meta.wf(),
                stream@ == b,
                stream.spec_pos() == start + i * hb,
                stream.spec_pos() <= b.len(),
                start == 4 + spec_u32_from_le_bytes(b.subrange(0, 4)) as int,
                b.len() >= start,
                calc.spec_leaves() == leaves_of(b, start, i as nat, hb as nat),
                calc.spec_append_count() == i,
            decreases lc - i,
        {
            let h = match stream.read_exact(hb) {
                Ok(v) => v,
                Err(e) => {
                    proof {
                        assert((i + 1) as int * hb as int <= lc as int * hb as int)
                            by (nonlinear_arith)
                            requires
                                i as int + 1 <= lc as int,
                                hb as int >= 0,
                        ;
                        assert(i as int * hb as int + hb as int == (i + 1) as int * hb as int)
                            by (nonlinear_arith);
                        assert(b.len() < start + lc as int * hb as int);
                    }
                    return Err(e);
                },
            };
            let batch = vec![h];
            proof {
                assert(batch.deep_view().len() == 1);
                assert(batch.deep_view()[0] =~= b.subrange(
                    start + i as int * hb as int,
                    start + i as int * hb as int + hb as int,
                ));
                assert(batch.deep_view() =~= seq![b.subrange(
                    start + i as int * hb as int,
                    start + i as int * hb as int + hb as int,
                )]);
            }
            match calc.append_leaf_hashes(&batch) {
                Ok(()) => {},
                Err(e) => {
                    proof {
                        assert(false);
                    }
                    return Err(e);
                },
            }
            proof {
                assert(calc.spec_leaves() =~= leaves_of(b, start, (i + 1) as nat, hb as nat)) by {
                    assert(leaves_of(b, start, (i + 1) as nat, hb as nat) =~= leaves_of(
                        b,
                        start,
                        i as nat,
                        hb as nat,
                    ).push(b.subrange(
                        start + i as int * hb as int,
                        start + (i as int + 1) * hb as int,
                    )));
                }
            }
            i = i + 1;
        }
        let root_hash = match calc.finalize() {
            Ok(v) => v,
            Err(e) => {
                proof {
                    assert(false);
                }
                return Err(e);
            },
        };
        let locator = match HashNodeLocator::new(lc) {
            Ok(l) => l,
            Err(e) => {
                proof {
                    assert(false);
                }
                return Err(e);
            },
        };
        proof {
            lemma_auto_spec_u32_to_from_le_bytes();
        }
        Ok(MerkleTreeObject {
            meta,
            root_hash,
            body_reader: stream,
            locator,
            header_size: 4 + ml as u64,
        })
    }

    /// Verification path of a leaf, with the digest stored at each slot:
    /// per depth the sibling of the leaf's ancestor, then the root, each
    /// read from `header_size + slot * digest_size`. Fails with
    /// `InvalidParam` where the index is outside the tree and `IoError`
    /// where the source does not hold the whole node region.
    #[verifier::loop_isolation(false)]
    pub fn get_verify_path_by_leaf_index(&mut self, leaf_index: u64) -> (r: NdnResult<
        Vec<(u64, Vec<u8>)>,
    >)
        requires
            old(self).wf(),
        ensures
            final(self).wf(),
            final(self).spec_stream() == old(self).spec_stream(),
            final(self).spec_root() == old(self).spec_root(),
            final(self).spec_data_size() == old(self).spec_data_size(),
            final(self).spec_leaf_size() == old(self).spec_leaf_size(),
            final(self).spec_method() == old(self).spec_method(),
            final(self).spec_header_size() == old(self).spec_header_size(),
            ({
                let n = old(self).spec_leaf_count();
                let hb = old(self).spec_method().spec_hash_bytes();
                let b = old(self).spec_stream();
                let hs = old(self).spec_header_size() as int;
                let total = clog2(n);
                match r {
                    Ok(v) => {
                        &&& leaf_index < n
                        &&& v@.len() == total + 1
                        &&& forall|j: int|
                            0 <= j < total ==> {
                                let slot = slot_of(
                                    n,
                                    j as nat,
                                    sibling_of(path_index(leaf_index as nat, j as nat)),
                                );
                                &&& (#[trigger] v@[j]).0 == slot as u64
                                &&& v@[j].1@ == b.subrange(
                                    hs + slot * hb,
                                    hs + slot * hb + hb,
                                )
                            }
                        &&& v@[total as int].0 == slot_of(n, total, 0) as u64
                        &&& v@[total as int].1@ == b.subrange(
                            hs + slot_of(n, total, 0) * hb,
                            hs + slot_of(n, total, 0) * hb + hb,
                        )
                    },
                    Err(e) => {
                        if leaf_index >= n {
                            e == NdnError::InvalidParam
                        } else {
                            &&& e == NdnError::IoError
                            &&& b.len() < hs + total_slots(n) * hb
                        }
                    },
                }
            }),
    {
        let ghost n = self.spec_leaf_count();
        let ghost b = self.spec_stream();
        let ghost hs = self.header_size as int;
        let _stream_len = self.body_reader.len();
        proof {
            assert(b.len() <= usize::MAX);
        }
        let path = match self.locator.get_verify_path_by_leaf_index(leaf_index) {
            Ok(p) => p,
            Err(e) => {
                return Err(e);
            },
        };
        let hb = self.meta.hash_method().hash_bytes();
        let ghost total = clog2(n);
        let mut ret: Vec<(u64, Vec<u8>)> = Vec::new();
        let mut j: usize = 0;
        while j < path.len()
            invariant
                self.wf(),
                self.spec_root() == old(self).spec_root(),
                self.spec_data_size() == old(self).spec_data_size(),
                self.spec_leaf_size() == old(self).spec_leaf_size(),
                self.spec_method() == old(self).spec_method(),
                self.spec_name() == old(self).spec_name(),
                self.spec_header_size() == old(self).spec_header_size(),
                self.spec_stream() == old(self).spec_stream(),
                n == self.spec_leaf_count(),
                b == self.spec_stream(),
                hs == self.header_size as int,
                hb == self.spec_method().spec_hash_bytes(),
                total == clog2(n),
                leaf_index < n,
                path@.len() == total + 1,
                forall|k: int|
                    0 <= k < total ==> (#[trigger] path@[k]).0 == k && path@[k].1 == slot_of(
                        n,
                        k as nat,
                        sibling_of(path_index(leaf_index as nat, k as nat)),
                    ),
                path@[total as int].0 == total && path@[total as int].1 == slot_of(n, total, 0),
                forall|k: int|
                    0 <= k < path@.len() ==> (#[trigger] path@[k]).1 < total_slots(n),
                j <= path@.len(),
                ret@.len() == j,
                forall|k: int|
                    0 <= k < j ==> (#[trigger] ret@[k]).0 == path@[k].1 && ret@[k].1@
                        == b.subrange(
                        hs + path@[k].1 * hb,
                        hs + path@[k].1 * hb + hb,
                    ),
            decreases path@.len() - j,
        {
            let slot = path[j].1;
            proof {
                lemma_max_leaf_count();
                assert(slot as int * hb as int + hb as int <= total_slots(n) * hb as int)
                    by (nonlinear_arith)
                    requires
                        slot as int + 1 <= total_slots(n),
                        hb as int >= 0,
                ;
                assert(total_slots(n) * hb as int <= total_slots(n) * 64) by (nonlinear_arith)
                    requires
                        hb as int <= 64,
                        total_slots(n) >= 0,
                ;
                assert(total_slots(n) < 0x200_0000_0000_0000 + 130);
                assert(total_slots(n) * 64 <= (0x200_0000_0000_0000 + 129) * 64)
                    by (nonlinear_arith)
                    requires
                        total_slots(n) <= 0x200_0000_0000_0000 + 129,
                ;
            }
            let pos = self.header_size + slot * (hb as u64);
            match self.body_reader.seek_to(pos) {
                Ok(()) => {},
                Err(e) => {
                    proof {
                        assert(b.len() <= usize::MAX);
                        assert(b.len() < hs + total_slots(n) * hb as int) by {
                            assert(hs + slot as int * hb as int > usize::MAX as int);
                            assert(slot as int * hb as int <= (total_slots(n) - 1) * hb as int)
                                by (nonlinear_arith)
                                requires
                                    slot as int <= total_slots(n) - 1,
                                    hb as int >= 0,
                            ;
                        }
                    }
                    return Err(e);
                },
            }
            let h = match self.body_reader.read_exact(hb) {
                Ok(v) => v,
                Err(e) => {
                    proof {
                        assert(b.len() < hs + total_slots(n) * hb as int) by {
                            assert(b.len() < hs + slot as int * hb as int + hb as int);
                            assert((slot as int + 1) * hb as int <= total_slots(n) * hb as int)
                                by (nonlinear_arith)
                                requires
                                    slot as int + 1 <= total_slots(n),
                                    hb as int >= 0,
                            ;
                            assert(slot as int * hb as int + hb as int == (slot as int + 1) * hb
                                as int) by (nonlinear_arith);
                        }
                    }
                    return Err(e);
                },
            };
            ret.push((slot, h));
            j += 1;
        }
        proof {
            assert forall|k: int| 0 <= k < total implies {
                let slot = slot_of(n, k as nat, sibling_of(path_index(leaf_index as nat, k as nat)));
                (#[trigger] ret@[k]).0 == slot as u64 && ret@[k].1@ == b.subrange(
                    hs + slot * hb,
                    hs + slot * hb + hb,
                )
            } by {
                assert(path@[k].1 == slot_of(
                    n,
                    k as nat,
                    sibling_of(path_index(leaf_index as nat, k as nat)),
                ));
            }
            assert(ret@[total as int].0 == slot_of(n, total, 0) as u64 && ret@[total as int].1@
                == b.subrange(
                hs + slot_of(n, total, 0) * hb,
                hs + slot_of(n, total, 0) * hb + hb,
            )) by {
                assert(path@[total as int].1 == slot_of(n, total, 0));
            }
        }
        Ok(ret)
    }

    /// Leaf count of the loaded tree.
    pub fn get_leaf_count(&self) -> (r: u64)
        requires
            self.wf(),
        ensures
            r == self.spec_leaf_count(),
    {
        self.meta.leaf_count()
    }

    /// Leaf chunk size of the loaded tree.
    pub fn get_leaf_size(&self) -> (r: u64)
        ensures
            r == self.spec_leaf_size(),
    {
        self.meta.leaf_size()
    }

    /// Root hash of the loaded tree.
    pub fn get_root_hash(&self) -> (r: Vec<u8>)
        ensures
            r@ == self.spec_root(),
    {
        let mut v: Vec<u8> = Vec::new();
        v.extend_from_slice(self.root_hash.as_slice());
        proof {
            assert(v@ =~= self.root_hash@);
        }
        v
    }

    /// Total object size of the loaded tree.
    pub fn get_data_size(&self) -> (r: u64)
        ensures
            r == self.spec_data_size(),
    {
        self.meta.data_size()
    }

    /// Content identifier of the loaded tree: the fixed tree tag over the
    /// root hash.
    pub fn get_obj_id(&self) -> (r: ObjId)
        ensures
            r.obj_type@ == OBJ_TYPE_MTREE@,
            r.obj_hash@ == self.spec_root(),
    {
        ObjId::new_by_raw(String::from_str(OBJ_TYPE_MTREE), self.get_root_hash())
    }
}

/// The write path: writes the length-prefixed metadata header, then drives
/// the streaming builder so every node lands at its slot offset behind the
/// header, and finally hands the root hash out.
pub struct MerkleTreeObjectGenerator {
    meta: MerkleTreeMetaData,
    calc: SerializeHashCalculator,
}

impl MerkleTreeObjectGenerator {
    /// Total object size, as a specification value.
    pub closed spec fn spec_data_size(&self) -> u64 {
        self.meta.spec_data_size()
    }

    /// Leaf chunk size, as a specification value.
    pub closed spec fn spec_leaf_size(&self) -> u64 {
        self.meta.spec_leaf_size()
    }

    /// Stored algorithm name, as a specification value.
    pub closed spec fn spec_name(&self) -> Option<Seq<char>> {
        self.meta.spec_name()
    }

    /// Digest algorithm, as a specification value.
    pub closed spec fn spec_method(&self) -> HashMethod {
        self.meta.spec_method()
    }

    /// Declared leaf count, as a specification value.
    pub closed spec fn spec_leaf_count(&self) -> nat {
        self.meta.spec_leaf_count()
    }

    /// The leaf hashes appended so far, in order.
    pub closed spec fn spec_leaves(&self) -> Seq<Seq<u8>> {
        self.calc.spec_leaves()
    }

    /// Whether `finalize` has already run.
    pub closed spec fn spec_finalized(&self) -> bool {
        self.calc.spec_finalized()
    }

    /// Bytes of the attached sink, as a specification value.
    pub closed spec fn spec_writer_bytes(&self) -> Seq<u8> {
        self.calc.spec_writer_bytes()
    }

    /// Internal consistency of a generator.
    pub closed spec fn wf(&self) -> bool {
        &&& self.meta.wf()
        &&& self.calc.wf()
        &&& 1 <= self.spec_leaf_count() <= MAX_LEAF_COUNT
        &&& self.calc.spec_leaf_count() == self.spec_leaf_count()
        &&& self.calc.spec_method() == self.spec_method()
        &&& self.calc.spec_has_writer()
        &&& (self.calc.spec_finalized() ==> self.calc.spec_leaves().len()
            == self.spec_leaf_count())
        &&& self.calc.spec_region_start() as int == spec_header(
            self.spec_data_size(),
            self.spec_leaf_size(),
            self.spec_name(),
        ).len()
        &&& self.calc.spec_writer_bytes().len() >= self.calc.spec_region_start()
        &&& self.calc.spec_writer_bytes().subrange(
            0,
            self.calc.spec_region_start() as int,
        ) == spec_header(self.spec_data_size(), self.spec_leaf_size(), self.spec_name())
    }

    /// Opens a tree for writing: validates the shape, writes the header to
    /// the start of the empty sink, and binds the builder to the bytes that
    /// follow it. Fails with `InvalidParam` where the leaf size is zero,
    /// the algorithm name unknown, the implied leaf count zero or beyond
    /// the supported maximum, or the node region not addressable.
    pub fn new(data_size: u64, leaf_size: u64, body_writer: MemStream, hash_type: Option<String>)
        -> (r: NdnResult<Self>)
        requires
            body_writer@.len() == 0,
            body_writer.spec_pos() == 0,
        ensures
            match r {
                Ok(g) => {
                    &&& g.wf()
                    &&& g.spec_data_size() == data_size
                    &&& g.spec_leaf_size() == leaf_size
                    &&& g.spec_name() == match hash_type {
                        None => None::<Seq<char>>,
                        Some(s) => Some(s@),
                    }
                    &&& g.spec_leaf_count() == leaf_count_of(data_size, leaf_size)
                    &&& g.spec_leaves() == Seq::<Seq<u8>>::empty()
                    &&& !g.spec_finalized()
                    &&& g.spec_writer_bytes() == spec_header(
                        data_size,
                        leaf_size,
                        g.spec_name(),
                    )
                },
                Err(e) => {
                    &&& e == NdnError::InvalidParam
                    &&& {
                        let name = match hash_type {
                            None => None::<Seq<char>>,
                            Some(s) => Some(s@),
                        };
                        let lc = leaf_count_of(data_size, leaf_size);
                        ||| leaf_size == 0
                        ||| (name is Some && method_of_name(name->Some_0) is None)
                        ||| lc == 0
                        ||| lc > MAX_LEAF_COUNT
                        ||| spec_header(data_size, leaf_size, name).len() + total_slots(lc)
                            * (match name {
                            None => HashMethod::Sha256,
                            Some(nm) => method_of_name(nm)->Some_0,
                        }).spec_hash_bytes() > usize::MAX
                    }
                },
            },
    {
        let meta = match MerkleTreeMetaData::new(data_size, leaf_size, hash_type) {
            Ok(m) => m,
            Err(e) => {
                return Err(e);
            },
        };
        let mut stream = body_writer;
        let record = meta.encode();
        let lenb = u32_to_le_bytes(record.len() as u32);
        match stream.write_all(lenb.as_slice()) {
            Ok(()) => {},
            Err(e) => {
                proof {
                    assert(false);
                }
                return Err(NdnError::InvalidParam);
            },
        }
        match stream.write_all(record.as_slice()) {
            Ok(()) => {},
            Err(e) => {
                proof {
                    assert(false);
                }
                return Err(NdnError::InvalidParam);
            },
        }
        proof {
            assert(stream@ =~= spec_header(data_size, leaf_size, meta.spec_name()));
        }
        let lc = meta.leaf_count();
        let method = meta.hash_method();
        let calc = match SerializeHashCalculator::new(lc, method, Some(stream)) {
            Ok(c) => c,
            Err(e) => {
                return Err(e);
            },
        };
        proof {
            assert(calc.spec_writer_bytes().subrange(0, calc.spec_region_start() as int)
                =~= spec_header(data_size, leaf_size, meta.spec_name()));
        }
        Ok(MerkleTreeObjectGenerator { meta, calc })
    }

    /// Appends a batch of leaf hashes, forwarding to the streaming builder:
    /// the whole batch is rejected with `InvalidParam`, and nothing
    /// changes, where it would pass the declared leaf count, and with
    /// `InvalidState` after finalize.
    pub fn append_leaf_hashes(&mut self, leaf_hashes: &Vec<Vec<u8>>) -> (r: NdnResult<()>)
        requires
            old(self).wf(),
            forall|i: int|
                0 <= i < leaf_hashes@.len() ==> (#[trigger] leaf_hashes@[i])@.len()
                    == old(self).spec_method().spec_hash_bytes(),
        ensures
            final(self).wf(),
            final(self).spec_data_size() == old(self).spec_data_size(),
            final(self).spec_leaf_size() == old(self).spec_leaf_size(),
            final(self).spec_name() == old(self).spec_name(),
            final(self).spec_finalized() == old(self).spec_finalized(),
            match r {
                Ok(()) => {
                    &&& !old(self).spec_finalized()
                    &&& old(self).spec_leaves().len() + leaf_hashes@.len()
                        <= old(self).spec_leaf_count()
                    &&& final(self).spec_leaves() == old(self).spec_leaves()
                        + leaf_hashes.deep_view()
                },
                Err(e) => {
                    &&& final(self).spec_leaves() == old(self).spec_leaves()
                    &&& final(self).spec_writer_bytes() == old(self).spec_writer_bytes()
                    &&& if old(self).spec_finalized() {
                        e == NdnError::InvalidState
                    } else {
                        &&& e == NdnError::InvalidParam
                        &&& old(self).spec_leaves().len() + leaf_hashes@.len() > old(
                            self,
                        ).spec_leaf_count()
                    }
                },
            },
    {
        let ghost base = self.calc.spec_region_start() as int;
        let ghost wpre = self.calc.spec_writer_bytes();
        let r = self.calc.append_leaf_hashes(leaf_hashes);
        proof {
            assert(self.calc.spec_writer_bytes().subrange(0, base) =~= wpre.subrange(0, base));
        }
        r
    }

    /// Verifies that exactly the declared number of leaves was appended
    /// (failing with `InvalidData` on a mismatch, changing nothing), then
    /// collapses the tree and returns the root hash; a second finalize
    /// fails with `InvalidState`.
    pub fn finalize(&mut self) -> (r: NdnResult<Vec<u8>>)
        requires
            old(self).wf(),
        ensures
            final(self).wf(),
            final(self).spec_data_size() == old(self).spec_data_size(),
            final(self).spec_leaf_size() == old(self).spec_leaf_size(),
            final(self).spec_name() == old(self).spec_name(),
            final(self).spec_leaves() == old(self).spec_leaves(),
            match r {
                Ok(root) => {
                    &&& !old(self).spec_finalized()
                    &&& old(self).spec_leaves().len() == old(self).spec_leaf_count()
                    &&& root@ == merkle_root_of(old(self).spec_method(), old(self).spec_leaves())
                    &&& root@.len() == old(self).spec_method().spec_hash_bytes()
                    &&& final(self).spec_finalized()
                    &&& {
                        let w2 = final(self).spec_writer_bytes();
                        let hs = spec_header(
                            old(self).spec_data_size(),
                            old(self).spec_leaf_size(),
                            old(self).spec_name(),
                        ).len() as int;
                        let hb = old(self).spec_method().spec_hash_bytes();
                        let lc = old(self).spec_leaf_count();
                        &&& w2.len() == hs + total_slots(lc) * hb
                        &&& w2.subrange(0, hs) == spec_header(
                            old(self).spec_data_size(),
                            old(self).spec_leaf_size(),
                            old(self).spec_name(),
                        )
                        &&& forall|i: int|
                            0 <= i < lc ==> w2.subrange(hs + i * hb, hs + (i + 1) * hb)
                                == #[trigger] old(self).spec_leaves()[i]
                    }
                },
                Err(e) => {
                    if old(self).spec_finalized() {
                        &&& e == NdnError::InvalidState
                        &&& final(self).spec_writer_bytes() == old(self).spec_writer_bytes()
                    } else {
                        &&& e == NdnError::InvalidData
                        &&& old(self).spec_leaves().len() != old(self).spec_leaf_count()
                        &&& final(self).spec_finalized() == old(self).spec_finalized()
                        &&& final(self).spec_writer_bytes() == old(self).spec_writer_bytes()
                    }
                },
            },
    {
        proof {
            self.calc.lemma_wf();
        }
        let leaf_count = self.calc.get_append_count();
        if leaf_count != self.meta.leaf_count() {
            return Err(NdnError::InvalidData);
        }
        match self.calc.finalize() {
            Ok(root) => {
                proof {
                    let w2 = self.calc.spec_writer_bytes();
                    let base = self.calc.spec_region_start() as nat;
                    let hb = self.meta.spec_method().spec_hash_bytes();
                    let lc = self.meta.spec_leaf_count();
                    assert(crate::calculator::agree_below(
                        old(self).spec_writer_bytes(),
                        w2,
                        base as int,
                    ));
                    assert(w2.subrange(0, base as int) =~= spec_header(
                        self.meta.spec_data_size(),
                        self.meta.spec_leaf_size(),
                        self.meta.spec_name(),
                    ));
                    assert forall|i: int|
                        0 <= i < lc implies w2.subrange(
                        base + i * hb,
                        base as int + (i + 1) * hb,
                    ) == #[trigger] old(self).spec_leaves()[i] by {
                        assert(crate::calculator::slot_holds(
                            w2,
                            base,
                            hb,
                            i as nat,
                            old(self).spec_leaves()[i],
                        ));
                        assert(i * hb + hb == (i + 1) * hb) by (nonlinear_arith);
                    }
                }
                Ok(root)
            },
            Err(e) => {
                proof {
                    assert(old(self).spec_finalized());
                    assert(e == NdnError::InvalidState);
                }
                Err(e)
            },
        }
    }

    /// Hands the sink back, consuming the generator; useful once finalize
    /// has persisted the whole tree.
    pub fn into_writer(self) -> (r: MemStream)
        requires
            self.wf(),
        ensures
            r@ == self.spec_writer_bytes(),
    {
        match self.calc.into_writer() {
            Some(w) => w,
            None => MemStream::new(),
        }
    }
}

/// Round-trip law: a stream the write path produced — its header followed
/// by the declared number of leaf digests — parses back to the same sizes,
/// the same algorithm and the same leaves. Together with the contract of
/// `load_from_reader`, whose failure cases all contradict these facts, any
/// load of such a stream returns the root `merkle_root_of` gives for the
/// very leaves the writer consumed — the writer's own result.
pub proof fn lemma_round_trip(
    m: HashMethod,
    data_size: u64,
    leaf_size: u64,
    name: Option<Seq<char>>,
    leaves: Seq<Seq<u8>>,
    w: Seq<u8>,
)
    requires
        match name {
            None => m == HashMethod::Sha256,
            Some(nm) => method_of_name(nm) == Some(m) && nm.len() < 0x100,
        },
        leaf_size >= 1,
        leaf_count_of(data_size, leaf_size) == leaves.len(),
        1 <= leaves.len() <= MAX_LEAF_COUNT,
        forall|i: int|
            0 <= i < leaves.len() ==> (#[trigger] leaves[i]).len() == m.spec_hash_bytes(),
        w.len() >= spec_header(data_size, leaf_size, name).len() + leaves.len()
            * m.spec_hash_bytes(),
        w.subrange(0, spec_header(data_size, leaf_size, name).len() as int) == spec_header(
            data_size,
            leaf_size,
            name,
        ),
        forall|i: int|
            0 <= i < leaves.len() ==> w.subrange(
                spec_header(data_size, leaf_size, name).len() + i * m.spec_hash_bytes(),
                spec_header(data_size, leaf_size, name).len() as int + (i + 1)
                    * m.spec_hash_bytes(),
            ) == #[trigger] leaves[i],
    ensures
        w.len() >= 4,
        4 + spec_u32_from_le_bytes(w.subrange(0, 4)) == spec_header(
            data_size,
            leaf_size,
            name,
        ).len(),
        spec_parse_meta(
            w.subrange(4, spec_header(data_size, leaf_size, name).len() as int),
        ) == Some(
            (
                data_size,
                leaf_size,
                match name {
                    None => None::<Seq<u8>>,
                    Some(nm) => Some(name_bytes(nm)),
                },
            ),
        ),
        method_of_name_bytes(
            match name {
                None => None::<Seq<u8>>,
                Some(nm) => Some(name_bytes(nm)),
            },
        ) == m,
        leaves_of(
            w,
            spec_header(data_size, leaf_size, name).len() as int,
            leaves.len(),
            m.spec_hash_bytes(),
        ) == leaves,
{
    let rec = spec_encode_meta(data_size, leaf_size, name);
    let h = spec_header(data_size, leaf_size, name);
    let hs = h.len() as int;
    let hb = m.spec_hash_bytes();
    lemma_auto_spec_u32_to_from_le_bytes();
    lemma_auto_spec_u64_to_from_le_bytes();
    assert(rec.len() < 0x1000) by {
        match name {
            None => {},
            Some(nm) => {
                assert(rec.len() == 21 + nm.len());
            },
        }
    }
    assert(w.subrange(0, 4) =~= spec_u32_to_le_bytes(rec.len() as u32)) by {
        assert forall|j: int| 0 <= j < 4 implies w.subrange(0, 4)[j] == spec_u32_to_le_bytes(
            rec.len() as u32,
        )[j] by {
            assert(w.subrange(0, hs)[j] == h[j]);
        }
    }
    assert(spec_u32_from_le_bytes(w.subrange(0, 4)) == rec.len());
    assert(w.subrange(4, hs) =~= rec) by {
        assert forall|j: int| 0 <= j < rec.len() implies w.subrange(4, hs)[j] == rec[j] by {
            assert(w.subrange(0, hs)[4 + j] == h[4 + j]);
        }
    }
    lemma_meta_roundtrip(data_size, leaf_size, name);
    reveal_strlit("sha256");
    reveal_strlit("sha512");
    match name {
        None => {},
        Some(nm) => {
            assert(nm == "sha256"@ || nm == "sha512"@);
            if nm == "sha512"@ {
                assert(name_bytes(nm) != name_bytes("sha256"@)) by {
                    assert(name_bytes(nm)[3] != name_bytes("sha256"@)[3]);
                }
            }
        },
    }
    assert(leaves_of(w, hs, leaves.len(), hb) =~= leaves);
}

} // verus!
