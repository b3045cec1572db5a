use vstd::prelude::*;
use vstd::bytes::{spec_u32_to_le_bytes, spec_u32_from_le_bytes, spec_u64_to_le_bytes,
    spec_u64_from_le_bytes, u32_to_le_bytes, u32_from_le_bytes, u64_to_le_bytes, u64_from_le_bytes,
    lemma_auto_spec_u32_to_from_le_bytes, lemma_auto_spec_u64_to_from_le_bytes};
use vstd::slice::slice_subrange;
use vstd::string::*;
use crate::error::{NdnError, NdnResult};
use crate::hash::{HashMethod, method_of_name};
use crate::locator::MAX_LEAF_COUNT;
use crate::strutil::bytes_eq;

verus! {

broadcast use vstd::string::group_string_axioms;

/// Leaf count implied by an object's size and its leaf chunk size:
/// `ceil(data_size / leaf_size)`.
pub open spec fn leaf_count_of(data_size: u64, leaf_size: u64) -> nat
    recommends
        leaf_size >= 1,
{
    if data_size as nat % leaf_size as nat != 0 {
        data_size as nat / leaf_size as nat + 1
    } else {
        data_size as nat / leaf_size as nat
    }
}

/// Bytes of an ASCII algorithm name.
pub open spec fn name_bytes(name: Seq<char>) -> Seq<u8> {
    Seq::new(name.len(), |i: int| name[i] as u8)
}

/// The fixed binary encoding of a metadata record: `u64` data size and
/// `u64` leaf size, both little-endian, then one tag byte for the optional
/// algorithm name (0 absent, 1 present), then, where present, a `u32`
/// little-endian length and the name's UTF-8 bytes.
pub open spec fn spec_encode_meta(data_size: u64, leaf_size: u64, name: Option<Seq<char>>) -> Seq<
    u8,
> {
    spec_u64_to_le_bytes(data_size) + spec_u64_to_le_bytes(leaf_size) + match name {
        None => seq![0u8],
        Some(nm) => seq![1u8] + spec_u32_to_le_bytes(nm.len() as u32) + name_bytes(nm),
    }
}

/// Structural parse of a metadata record: the two sizes, then the optional
/// name's raw bytes; `None` where the bytes do not have exactly the
/// encoding's shape.
pub open spec fn spec_parse_meta(b: Seq<u8>) -> Option<(u64, u64, Option<Seq<u8>>)> {
    if b.len() < 17 {
        None
    } else {
        let ds = spec_u64_from_le_bytes(b.subrange(0, 8));
        let ls = spec_u64_from_le_bytes(b.subrange(8, 16));
        if b[16] == 0 {
            if b.len() == 17 {
                Some((ds, ls, None))
            } else {
                None
            }
        } else if b[16] == 1 {
            if b.len() < 21 {
                None
            } else {
                let nl = spec_u32_from_le_bytes(b.subrange(17, 21));
                if b.len() == 21 + nl {
                    Some((ds, ls, Some(b.subrange(21, 21 + nl))))
                } else {
                    None
                }
            }
        } else {
            None
        }
    }
}

/// Shape of a tree: total object size, leaf chunk size (never zero) and an
/// optional algorithm name; immutable once constructed.
#[derive(Debug, Clone)]
pub struct MerkleTreeMetaData {
    data_size: u64,
    leaf_size: u64,
    hash_type: Option<String>,
}

impl MerkleTreeMetaData {
    /// Total object size, as a specification value.
    pub closed spec fn spec_data_size(&self) -> u64 {
        self.data_size
    }

    /// Leaf chunk size, as a specification value.
    pub closed spec fn spec_leaf_size(&self) -> u64 {
        self.leaf_size
    }

    /// Stored algorithm name, as a specification value.
    pub closed spec fn spec_name(&self) -> Option<Seq<char>> {
        match self.hash_type {
            None => None,
            Some(s) => Some(s@),
        }
    }

    /// Leaf count this metadata implies.
    pub open spec fn spec_leaf_count(&self) -> nat {
        leaf_count_of(self.spec_data_size(), self.spec_leaf_size())
    }

    /// Digest algorithm this metadata names (the default where none is
    /// named).
    pub open spec fn spec_method(&self) -> HashMethod {
        match self.spec_name() {
            None => HashMethod::Sha256,
            Some(nm) => method_of_name(nm)->Some_0,
        }
    }

    /// The record is usable: a positive leaf size, a leaf count the engine
    /// supports, and a known algorithm name where one is named.
    pub open spec fn wf(&self) -> bool {
        &&& self.spec_leaf_size() >= 1
        &&& self.spec_leaf_count() <= MAX_LEAF_COUNT
        &&& match self.spec_name() {
            None => true,
            Some(nm) => method_of_name(nm) is Some,
        }
    }

    /// Builds a metadata record, rejecting with `InvalidParam` a zero leaf
    /// size, an unknown algorithm name, or sizes implying a leaf count
    /// beyond the supported maximum.
    pub fn new(data_size: u64, leaf_size: u64, hash_type: Option<String>) -> (r: NdnResult<Self>)
        ensures
            match r {
                Ok(m) => {
                    &&& m.wf()
                    &&& m.spec_data_size() == data_size
                    &&& m.spec_leaf_size() == leaf_size
                    &&& m.spec_name() == match hash_type {
                        None => None::<Seq<char>>,
                        Some(s) => Some(s@),
                    }
                },
                Err(e) => {
                    &&& e == NdnError::InvalidParam
                    &&& (leaf_size == 0 || leaf_count_of(data_size, leaf_size) > MAX_LEAF_COUNT
                        || match hash_type {
                        None => false,
                        Some(s) => method_of_name(s@) is None,
                    })
                },
            },
    {
        if leaf_size == 0 {
            return Err(NdnError::InvalidParam);
        }
        match &hash_type {
            None => {},
            Some(s) => {
                match HashMethod::from_str(s.as_str()) {
                    Ok(_) => {},
                    Err(e) => {
                        return Err(e);
                    },
                }
            },
        }
        let m = MerkleTreeMetaData { data_size, leaf_size, hash_type };
        if m.leaf_count_unchecked() > MAX_LEAF_COUNT {
            return Err(NdnError::InvalidParam);
        }
        Ok(m)
    }

    /// Leaf count before the record is known to be well formed.
    fn leaf_count_unchecked(&self) -> (r: u64)
        requires
            self.spec_leaf_size() >= 1,
        ensures
            r == self.spec_leaf_count(),
    {
        let q = self.data_size / self.leaf_size;
        if self.data_size % self.leaf_size != 0 {
            proof {
                vstd::arithmetic::div_mod::lemma_fundamental_div_mod(
                    self.data_size as int,
                    self.leaf_size as int,
                );
                assert(q as int * self.leaf_size as int >= q) by (nonlinear_arith)
                    requires
                        self.leaf_size >= 1,
                        q >= 0,
                ;
            }
            q + 1
        } else {
            q
        }
    }

    /// Number of leaves the object splits into: `ceil(data_size /
    /// leaf_size)`.
    pub fn leaf_count(&self) -> (r: u64)
        requires
            self.wf(),
        ensures
            r == self.spec_leaf_count(),
            r <= MAX_LEAF_COUNT,
    {
        self.leaf_count_unchecked()
    }

    /// Total object size.
    pub fn data_size(&self) -> (r: u64)
        ensures
            r == self.spec_data_size(),
    {
        self.data_size
    }

    /// Leaf chunk size.
    pub fn leaf_size(&self) -> (r: u64)
        ensures
            r == self.spec_leaf_size(),
    {
        self.leaf_size
    }

    /// Digest algorithm this metadata names.
    pub fn hash_method(&self) -> (r: HashMethod)
        requires
            self.wf(),
        ensures
            r == self.spec_method(),
    {
        match &self.hash_type {
            None => HashMethod::Sha256,
            Some(s) => match HashMethod::from_str(s.as_str()) {
                Ok(m) => m,
                Err(e) => {
                    proof {
                        assert(false);
                    }
                    HashMethod::Sha256
                },
            },
        }
    }

    /// Serializes the record into its fixed binary encoding.
    pub fn encode(&self) -> (r: Vec<u8>)
        requires
            self.wf(),
        ensures
            r@ == spec_encode_meta(self.spec_data_size(), self.spec_leaf_size(), self.spec_name()),
            r@.len() < 0x1000,
    {
        proof {
            lemma_auto_spec_u32_to_from_le_bytes();
            lemma_auto_spec_u64_to_from_le_bytes();
        }
        let mut out = u64_to_le_bytes(self.data_size);
        let mut ls = u64_to_le_bytes(self.leaf_size);
        out.append(&mut ls);
        match &self.hash_type {
            None => {
                out.push(0u8);
                assert(out@ =~= spec_encode_meta(
                    self.spec_data_size(),
                    self.spec_leaf_size(),
                    self.spec_name(),
                ));
            },
            Some(s) => {
                proof {
                    reveal_strlit("sha256");
                    reveal_strlit("sha512");
                    assert(s@.len() == 6);
                    assert(s.is_ascii()) by {
                        assert(forall|i: int| 0 <= i < s@.len() ==> (#[trigger] s@[i]) < 128);
                    }
                }
                out.push(1u8);
                let nb = s.as_str().as_bytes_vec();
                proof {
                    vstd::utf8::is_ascii_chars_encode_utf8(s@);
                    assert(nb@ =~= name_bytes(s@));
                }
                let mut nl = u32_to_le_bytes(nb.len() as u32);
                out.append(&mut nl);
                let mut nbv = nb;
                out.append(&mut nbv);
                assert(out@ =~= spec_encode_meta(
                    self.spec_data_size(),
                    self.spec_leaf_size(),
                    self.spec_name(),
                ));
            },
        }
        out
    }

    /// Deserializes a record, rejecting with `InvalidData` bytes that do
    /// not have the encoding's exact shape, a zero leaf size, or sizes
    /// implying an unsupported leaf count, and with `InvalidParam` an
    /// unknown algorithm name.
    pub fn decode(bytes: &[u8]) -> (r: NdnResult<Self>)
        ensures
            match r {
                Ok(m) => {
                    &&& spec_parse_meta(bytes@) is Some
                    &&& m.wf()
                    &&& {
                        let (ds, ls, nb) = spec_parse_meta(bytes@)->Some_0;
                        &&& m.spec_data_size() == ds
                        &&& m.spec_leaf_size() == ls
                        &&& match nb {
                            None => m.spec_name() is None,
                            Some(nbs) => m.spec_name() is Some && nbs == name_bytes(
                                m.spec_name()->Some_0,
                            ),
                        }
                    }
                },
                Err(e) => match spec_parse_meta(bytes@) {
                    None => e == NdnError::InvalidData,
                    Some((ds, ls, nb)) => {
                        if ls == 0 || leaf_count_of(ds, ls) > MAX_LEAF_COUNT {
                            e == NdnError::InvalidData
                        } else {
                            &&& e == NdnError::InvalidParam
                            &&& nb is Some
                            &&& method_of_name("sha256"@) == Some(HashMethod::Sha256)
                            &&& nb->Some_0 != name_bytes("sha256"@)
                            &&& nb->Some_0 != name_bytes("sha512"@)
                        }
                    },
                },
            },
    {
        proof {
            lemma_auto_spec_u32_to_from_le_bytes();
            lemma_auto_spec_u64_to_from_le_bytes();
        }
        if bytes.len() < 17 {
            return Err(NdnError::InvalidData);
        }
        let ds = u64_from_le_bytes(slice_subrange(bytes, 0, 8));
        let ls = u64_from_le_bytes(slice_subrange(bytes, 8, 16));
        let tag = bytes[16];
        let hash_type: Option<String>;
        if tag == 0 {
            if bytes.len() != 17 {
                return Err(NdnError::InvalidData);
            }
            hash_type = None;
        } else if tag == 1 {
            if bytes.len() < 21 {
                return Err(NdnError::InvalidData);
            }
            let nl = u32_from_le_bytes(slice_subrange(bytes, 17, 21));
            if bytes.len() - 21 != nl as usize {
                return Err(NdnError::InvalidData);
            }
            let nb = slice_subrange(bytes, 21, bytes.len());
            proof {
                reveal_strlit("sha256");
                reveal_strlit("sha512");
                assert("sha256".is_ascii()) by {
                    assert(forall|i: int|
                        0 <= i < "sha256"@.len() ==> (#[trigger] "sha256"@[i]) < 128);
                }
                assert("sha512".is_ascii()) by {
                    assert(forall|i: int|
                        0 <= i < "sha512"@.len() ==> (#[trigger] "sha512"@[i]) < 128);
                }
            }
            let n256 = "sha256".as_bytes_vec();
            let n512 = "sha512".as_bytes_vec();
            proof {
                assert(n256@ =~= name_bytes("sha256"@));
                assert(n512@ =~= name_bytes("sha512"@));
            }
            if bytes_eq(nb, n256.as_slice()) {
                let nm = String::from_str("sha256");
                proof {
                    assert(method_of_name(nm@) is Some);
                }
                hash_type = Some(nm);
            } else if bytes_eq(nb, n512.as_slice()) {
                let nm = String::from_str("sha512");
                proof {
                    assert(method_of_name(nm@) is Some);
                    assert(nm@ != "sha256"@) by {
                        assert(nm@[3] != "sha256"@[3]);
                    }
                }
                hash_type = Some(nm);
            } else {
                if ls == 0 {
                    return Err(NdnError::InvalidData);
                }
                let probe = MerkleTreeMetaData { data_size: ds, leaf_size: ls, hash_type: None };
                if probe.leaf_count_unchecked() > MAX_LEAF_COUNT {
                    return Err(NdnError::InvalidData);
                }
                return Err(NdnError::InvalidParam);
            }
        } else {
            return Err(NdnError::InvalidData);
        }
        if ls == 0 {
            return Err(NdnError::InvalidData);
        }
        let m = MerkleTreeMetaData { data_size: ds, leaf_size: ls, hash_type };
        if m.leaf_count_unchecked() > MAX_LEAF_COUNT {
            return Err(NdnError::InvalidData);
        }
        Ok(m)
    }
}

/// Encoding and structural parse are mutual inverses on well-formed
/// records.
pub proof fn lemma_meta_roundtrip(data_size: u64, leaf_size: u64, name: Option<Seq<char>>)
    requires
        match name {
            None => true,
            Some(nm) => nm.len() < 0x100,
        },
    ensures
        spec_parse_meta(spec_encode_meta(data_size, leaf_size, name)) == Some(
            (
                data_size,
                leaf_size,
                match name {
                    None => None::<Seq<u8>>,
                    Some(nm) => Some(name_bytes(nm)),
                },
            ),
        ),
{
    lemma_auto_spec_u32_to_from_le_bytes();
    lemma_auto_spec_u64_to_from_le_bytes();
    let b = spec_encode_meta(data_size, leaf_size, name);
    assert(b.subrange(0, 8) =~= spec_u64_to_le_bytes(data_size));
    assert(b.subrange(8, 16) =~= spec_u64_to_le_bytes(leaf_size));
    match name {
        None => {
            assert(b.len() == 17);
            assert(b[16] == 0);
        },
        Some(nm) => {
            assert(b.len() == 21 + nm.len());
            assert(b[16] == 1);
            assert(b.subrange(17, 21) =~= spec_u32_to_le_bytes(nm.len() as u32));
            assert(spec_u32_from_le_bytes(b.subrange(17, 21)) == nm.len());
            assert(b.subrange(21, 21 + nm.len() as int) =~= name_bytes(nm));
        },
    }
}

} // verus!
