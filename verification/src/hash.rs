use vstd::prelude::*;
use crate::error::{NdnError, NdnResult};
use crate::strutil::str_eq;
use sha2::Digest;

verus! {

/// Digest of a byte sequence under SHA-256; named, not written out.
pub uninterp spec fn sha256_of(bytes: Seq<u8>) -> Seq<u8>;

/// Digest of a byte sequence under SHA-512; named, not written out.
pub uninterp spec fn sha512_of(bytes: Seq<u8>) -> Seq<u8>;

/// Relies on sha2::Sha256::digest: a 32-byte digest that depends on the
/// input bytes alone.
#[verifier::external_body]
fn sha256_digest(input: &[u8]) -> (r: Vec<u8>)
    ensures
        r@ == sha256_of(input@),
        r@.len() == 32,
{
    sha2::Sha256::digest(input).to_vec()
}

/// Relies on sha2::Sha512::digest: a 64-byte digest that depends on the
/// input bytes alone.
#[verifier::external_body]
fn sha512_digest(input: &[u8]) -> (r: Vec<u8>)
    ensures
        r@ == sha512_of(input@),
        r@.len() == 64,
{
    sha2::Sha512::digest(input).to_vec()
}

/// Pluggable digest algorithm of the tree engine; the digest size is a
/// property of the variant.
#[derive(Clone, Copy, Debug, PartialEq, Eq, Structural)]
pub enum HashMethod {
    Sha256,
    Sha512,
}

/// The variant a case-exact algorithm name denotes, if any.
pub open spec fn method_of_name(name: Seq<char>) -> Option<HashMethod> {
    if name == "sha256"@ {
        Some(HashMethod::Sha256)
    } else if name == "sha512"@ {
        Some(HashMethod::Sha512)
    } else {
        None
    }
}

/// Parent digest: the hash of the concatenation `left || right`, in that
/// order, under the chosen algorithm.
pub open spec fn hash_pair_of(m: HashMethod, left: Seq<u8>, right: Seq<u8>) -> Seq<u8> {
    match m {
        HashMethod::Sha256 => sha256_of(left + right),
        HashMethod::Sha512 => sha512_of(left + right),
    }
}

impl HashMethod {
    /// Output length in bytes of this digest algorithm.
    pub open spec fn spec_hash_bytes(self) -> nat {
        match self {
            HashMethod::Sha256 => 32,
            HashMethod::Sha512 => 64,
        }
    }

    /// Output length in bytes of this digest algorithm.
    pub fn hash_bytes(&self) -> (r: usize)
        ensures
            r == self.spec_hash_bytes(),
    {
        match self {
            HashMethod::Sha256 => 32,
            HashMethod::Sha512 => 64,
        }
    }

    /// Maps a case-exact algorithm name to its variant; unknown names are
    /// rejected with `InvalidParam`.
    pub fn from_str(name: &str) -> (r: NdnResult<HashMethod>)
        ensures
            r == match method_of_name(name@) {
                Some(m) => NdnResult::<HashMethod>::Ok(m),
                None => NdnResult::<HashMethod>::Err(NdnError::InvalidParam),
            },
    {
        if str_eq(name, "sha256") {
            Ok(HashMethod::Sha256)
        } else if str_eq(name, "sha512") {
            Ok(HashMethod::Sha512)
        } else {
            Err(NdnError::InvalidParam)
        }
    }

    /// Computes the parent digest of two sibling hashes: the digest of
    /// `left || right` with no prefixes or separators.
    pub fn hash_pair(&self, left: &[u8], right: &[u8]) -> (r: Vec<u8>)
        ensures
            r@ == hash_pair_of(*self, left@, right@),
            r@.len() == self.spec_hash_bytes(),
    {
        let mut buf: Vec<u8> = Vec::new();
        buf.extend_from_slice(left);
        buf.extend_from_slice(right);
        assert(buf@ == left@ + right@);
        match self {
            HashMethod::Sha256 => sha256_digest(buf.as_slice()),
            HashMethod::Sha512 => sha512_digest(buf.as_slice()),
        }
    }
}

impl Default for HashMethod {
    /// The variant used whenever no algorithm name is given.
    fn default() -> (r: Self)
        ensures
            r == HashMethod::Sha256,
    {
        HashMethod::Sha256
    }
}

} // verus!
