use vstd::prelude::*;

verus! {

/// Object-type discriminator marking a content identifier as the root of a
/// Merkle hash tree.
pub const OBJ_TYPE_MTREE: &'static str = "MTREE";

/// Content identifier: an object-type tag together with the raw bytes that
/// identify the object (here, a tree's root hash).
pub struct ObjId {
    pub obj_type: String,
    pub obj_hash: Vec<u8>,
}

impl ObjId {
    /// Builds an identifier directly from a type tag and raw hash bytes.
    pub fn new_by_raw(obj_type: String, obj_hash: Vec<u8>) -> (r: Self)
        ensures
            r.obj_type@ == obj_type@,
            r.obj_hash@ == obj_hash@,
    {
        ObjId { obj_type, obj_hash }
    }
}

} // verus!
