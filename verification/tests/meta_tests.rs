use buckyos_core::error::NdnError;
use buckyos_core::meta::MerkleTreeMetaData;
use buckyos_core::mtree::MerkleTreeObject;
use buckyos_core::obj_id::OBJ_TYPE_MTREE;
use buckyos_core::stream::MemStream;

#[test]
fn meta_encode_decode_round_trip() {
    let meta = MerkleTreeMetaData::new(4096, 1024, None).unwrap();
    let bytes = meta.encode();
    assert_eq!(bytes.len(), 17);
    let back = MerkleTreeMetaData::decode(&bytes).unwrap();
    assert_eq!(back.data_size(), 4096);
    assert_eq!(back.leaf_size(), 1024);
    assert_eq!(back.leaf_count(), 4);

    let named = MerkleTreeMetaData::new(4097, 1024, Some("sha512".to_string())).unwrap();
    let bytes = named.encode();
    assert_eq!(bytes.len(), 17 + 4 + 6);
    let back = MerkleTreeMetaData::decode(&bytes).unwrap();
    assert_eq!(back.data_size(), 4097);
    assert_eq!(back.leaf_count(), 5);
}

#[test]
fn meta_leaf_count_rounds_up() {
    let meta = MerkleTreeMetaData::new(1, 1024, None).unwrap();
    assert_eq!(meta.leaf_count(), 1);
    let meta = MerkleTreeMetaData::new(0, 1024, None).unwrap();
    assert_eq!(meta.leaf_count(), 0);
    let meta = MerkleTreeMetaData::new(2048, 1024, None).unwrap();
    assert_eq!(meta.leaf_count(), 2);
}

#[test]
fn meta_rejects_bad_parameters() {
    assert_eq!(
        MerkleTreeMetaData::new(10, 0, None).unwrap_err(),
        NdnError::InvalidParam
    );
    assert_eq!(
        MerkleTreeMetaData::new(10, 5, Some("sha1".to_string())).unwrap_err(),
        NdnError::InvalidParam
    );
}

#[test]
fn meta_decode_rejects_malformed_bytes() {
    // Too short for the fixed fields.
    assert_eq!(
        MerkleTreeMetaData::decode(&[0u8; 10]).unwrap_err(),
        NdnError::InvalidData
    );
    // Unknown option tag.
    let mut bytes = vec![0u8; 17];
    bytes[16] = 7;
    assert_eq!(
        MerkleTreeMetaData::decode(&bytes).unwrap_err(),
        NdnError::InvalidData
    );
    // Trailing bytes after a nameless record.
    let mut bytes = vec![0u8; 18];
    bytes[16] = 0;
    assert_eq!(
        MerkleTreeMetaData::decode(&bytes).unwrap_err(),
        NdnError::InvalidData
    );
    // Zero leaf size.
    let bytes = vec![0u8; 17];
    assert_eq!(
        MerkleTreeMetaData::decode(&bytes).unwrap_err(),
        NdnError::InvalidData
    );
    // A well-shaped record with an unknown algorithm name.
    let good = MerkleTreeMetaData::new(1024, 512, Some("sha256".to_string())).unwrap();
    let mut bytes = good.encode();
    let at = bytes.len() - 6;
    bytes[at..].copy_from_slice(b"sha999");
    assert_eq!(
        MerkleTreeMetaData::decode(&bytes).unwrap_err(),
        NdnError::InvalidParam
    );
}

#[test]
fn loader_rejects_empty_trees() {
    let meta = MerkleTreeMetaData::new(0, 1024, None).unwrap();
    let record = meta.encode();
    let mut bytes = (record.len() as u32).to_le_bytes().to_vec();
    bytes.extend_from_slice(&record);
    let r = MerkleTreeObject::load_from_reader(MemStream::from_vec(bytes));
    assert_eq!(r.err().unwrap(), NdnError::InvalidParam);
}

#[test]
fn object_id_carries_tree_tag_and_root() {
    let mut gen = buckyos_core::mtree::MerkleTreeObjectGenerator::new(
        1024,
        1024,
        MemStream::new(),
        None,
    )
    .unwrap();
    gen.append_leaf_hashes(&vec![vec![0x42u8; 32]]).unwrap();
    let root = gen.finalize().unwrap();
    let bytes = gen.into_writer().into_vec();
    let obj = MerkleTreeObject::load_from_reader(MemStream::from_vec(bytes)).unwrap();
    let id = obj.get_obj_id();
    assert_eq!(id.obj_type, OBJ_TYPE_MTREE);
    assert_eq!(id.obj_hash, root);
}
