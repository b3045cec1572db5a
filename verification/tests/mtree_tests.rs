use buckyos_core::calculator::SerializeHashCalculator;
use buckyos_core::error::NdnError;
use buckyos_core::hash::HashMethod;
use buckyos_core::locator::HashNodeLocator;
use buckyos_core::mtree::{MerkleTreeObject, MerkleTreeObjectGenerator};
use buckyos_core::stream::MemStream;
use sha2::{Digest, Sha256, Sha512};

fn pair(left: &[u8], right: &[u8]) -> Vec<u8> {
    let mut h = Sha256::new();
    h.update(left);
    h.update(right);
    h.finalize().to_vec()
}

fn fixed_digest(tag: u8) -> Vec<u8> {
    vec![tag; 32]
}

fn pseudo_random_digests(count: usize) -> Vec<Vec<u8>> {
    let mut state: u64 = 0x2545F4914F6CDD1D;
    let mut out = Vec::new();
    for _ in 0..count {
        let mut d = Vec::with_capacity(32);
        for _ in 0..32 {
            state = state.wrapping_mul(6364136223846793005).wrapping_add(1442695040888963407);
            d.push((state >> 56) as u8);
        }
        out.push(d);
    }
    out
}

#[test]
fn test_generator() {
    let total_depth = HashNodeLocator::calc_depth(6);
    println!("Total depth: {}", total_depth);
    assert!(total_depth == 3);

    let total_depth = HashNodeLocator::calc_depth(5);
    println!("Total depth: {}", total_depth);
    assert!(total_depth == 3);

    let total_depth = HashNodeLocator::calc_depth(4);
    println!("Total depth: {}", total_depth);
    assert!(total_depth == 2);

    let total_depth = HashNodeLocator::calc_depth(2);
    println!("Total depth: {}", total_depth);
    assert!(total_depth == 1);

    let counts = HashNodeLocator::calc_count_per_depth(3).unwrap();
    println!("Counts: {:?}", counts);

    let counts = HashNodeLocator::calc_count_per_depth(6).unwrap();
    println!("Counts: {:?}", counts);

    let counts = HashNodeLocator::calc_prev_count_per_depth(6).unwrap();
    println!("Prev counts: {:?}", counts);

    let counts = HashNodeLocator::calc_count_per_depth(10).unwrap();
    println!("Counts: {:?}", counts);

    let counts = HashNodeLocator::calc_prev_count_per_depth(10).unwrap();
    println!("Prev counts: {:?}", counts);

    let locator = HashNodeLocator::new(6).unwrap();
    let indexes = locator.get_verify_path_by_leaf_index(0).unwrap();
    println!("Indexes: {:?}", indexes);

    let indexes = locator.get_verify_path_by_leaf_index(5).unwrap();
    println!("Indexes: {:?}", indexes);
}

#[test]
fn depth_and_last_count_for_small_trees() {
    let cases: [(u64, u32); 10] = [
        (1, 0),
        (2, 1),
        (3, 2),
        (4, 2),
        (5, 3),
        (6, 3),
        (7, 3),
        (8, 3),
        (10, 4),
        (16, 4),
    ];
    for (leaf_count, expected_depth) in cases {
        assert_eq!(HashNodeLocator::calc_depth(leaf_count), expected_depth);
        let counts = HashNodeLocator::calc_count_per_depth(leaf_count).unwrap();
        assert_eq!(counts.len() as u32, expected_depth + 1);
        assert_eq!(*counts.last().unwrap(), 1);
    }
}

#[test]
fn round_trip_writer_to_reader() {
    let leaves = pseudo_random_digests(10);
    let mut gen =
        MerkleTreeObjectGenerator::new(10 * 1024, 1024, MemStream::new(), None).unwrap();
    gen.append_leaf_hashes(&leaves).unwrap();
    let root1 = gen.finalize().unwrap();
    let stream = gen.into_writer();

    let obj = MerkleTreeObject::load_from_reader(MemStream::from_vec(stream.into_vec())).unwrap();
    assert_eq!(obj.get_root_hash(), root1);
    assert_eq!(obj.get_leaf_count(), 10);
    assert_eq!(obj.get_leaf_size(), 1024);
    assert_eq!(obj.get_data_size(), 10 * 1024);
}

#[test]
fn batch_invariance_of_append() {
    let leaves: Vec<Vec<u8>> = (1..=10u8).map(fixed_digest).collect();

    let mut one = SerializeHashCalculator::new(10, HashMethod::Sha256, None).unwrap();
    one.append_leaf_hashes(&leaves).unwrap();
    let root_one = one.finalize().unwrap();

    let mut many = SerializeHashCalculator::new(10, HashMethod::Sha256, None).unwrap();
    for leaf in &leaves {
        many.append_leaf_hashes(&vec![leaf.clone()]).unwrap();
    }
    let root_many = many.finalize().unwrap();

    assert_eq!(root_one, root_many);
}

#[test]
fn verify_path_shape() {
    let locator = HashNodeLocator::new(5).unwrap();
    let total_depth = locator.total_depth();
    assert_eq!(total_depth, 3);
    let root_slot = locator.calc_index_in_stream(total_depth, 0).unwrap();
    for leaf_index in 0..5u64 {
        let path = locator.get_verify_path_by_leaf_index(leaf_index).unwrap();
        assert_eq!(path.len() as u32, total_depth + 1);
        let last = path.last().unwrap();
        assert_eq!(last.0, total_depth);
        assert_eq!(last.1, root_slot);
    }
}

#[test]
fn verify_path_out_of_range() {
    let locator = HashNodeLocator::new(5).unwrap();
    assert_eq!(
        locator.get_verify_path_by_leaf_index(5).unwrap_err(),
        NdnError::InvalidParam
    );
}

#[test]
fn odd_count_duplicates_last_leaf() {
    let a = fixed_digest(0xa1);
    let b = fixed_digest(0xb2);
    let c = fixed_digest(0xc3);
    let mut gen =
        MerkleTreeObjectGenerator::new(3 * 1024, 1024, MemStream::new(), None).unwrap();
    gen.append_leaf_hashes(&vec![a.clone(), b.clone(), c.clone()]).unwrap();
    let root = gen.finalize().unwrap();
    let bytes = gen.into_writer().into_vec();

    // Header: 4-byte length prefix + 17-byte record (no algorithm name).
    let header = 21usize;
    // Slots per depth for 3 leaves: 4 (one padding slot), 2, 1.
    assert_eq!(bytes.len(), header + 7 * 32);

    // The slot reserved for the duplicate sibling of `c` holds `c` itself.
    assert_eq!(&bytes[header + 3 * 32..header + 4 * 32], c.as_slice());
    // The level-1 parent covering `c` hashes `c` with itself.
    assert_eq!(&bytes[header + 5 * 32..header + 6 * 32], pair(&c, &c).as_slice());
    // The root covers both level-1 parents, earlier sibling first.
    let expected_root = pair(&pair(&a, &b), &pair(&c, &c));
    assert_eq!(&bytes[header + 6 * 32..header + 7 * 32], expected_root.as_slice());
    assert_eq!(root, expected_root);
}

#[test]
fn append_past_declared_count_is_rejected() {
    let leaves: Vec<Vec<u8>> = (1..=4u8).map(fixed_digest).collect();
    let mut calc = SerializeHashCalculator::new(4, HashMethod::Sha256, None).unwrap();
    for leaf in &leaves {
        calc.append_leaf_hashes(&vec![leaf.clone()]).unwrap();
    }
    let fifth = vec![fixed_digest(5)];
    assert_eq!(calc.append_leaf_hashes(&fifth).unwrap_err(), NdnError::InvalidParam);

    // Prior state is untouched: the root is still the root of the 4 leaves.
    let root = calc.finalize().unwrap();
    let expected = pair(
        &pair(&leaves[0], &leaves[1]),
        &pair(&leaves[2], &leaves[3]),
    );
    assert_eq!(root, expected);
}

#[test]
fn finalize_without_leaves_is_invalid_state() {
    let mut calc = SerializeHashCalculator::new(4, HashMethod::Sha256, None).unwrap();
    assert_eq!(calc.finalize().unwrap_err(), NdnError::InvalidState);
}

#[test]
fn finalize_twice_is_invalid_state() {
    let mut gen = MerkleTreeObjectGenerator::new(1024, 1024, MemStream::new(), None).unwrap();
    gen.append_leaf_hashes(&vec![fixed_digest(9)]).unwrap();
    gen.finalize().unwrap();
    assert_eq!(gen.finalize().unwrap_err(), NdnError::InvalidState);
    assert_eq!(
        gen.append_leaf_hashes(&vec![fixed_digest(9)]).unwrap_err(),
        NdnError::InvalidState
    );
}

#[test]
fn finalize_with_missing_leaves_is_invalid_data() {
    let mut gen =
        MerkleTreeObjectGenerator::new(4 * 1024, 1024, MemStream::new(), None).unwrap();
    gen.append_leaf_hashes(&vec![fixed_digest(1), fixed_digest(2)]).unwrap();
    assert_eq!(gen.finalize().unwrap_err(), NdnError::InvalidData);
}

#[test]
fn generator_rejects_zero_leaf_size() {
    assert_eq!(
        MerkleTreeObjectGenerator::new(1024, 0, MemStream::new(), None).err().unwrap(),
        NdnError::InvalidParam
    );
}

#[test]
fn generator_rejects_unknown_hash_name() {
    assert_eq!(
        MerkleTreeObjectGenerator::new(1024, 1024, MemStream::new(), Some("md5".to_string()))
            .err()
            .unwrap(),
        NdnError::InvalidParam
    );
}

#[test]
fn single_leaf_tree_root_is_the_leaf() {
    let a = fixed_digest(0x7f);
    let mut gen = MerkleTreeObjectGenerator::new(100, 1024, MemStream::new(), None).unwrap();
    gen.append_leaf_hashes(&vec![a.clone()]).unwrap();
    let root = gen.finalize().unwrap();
    assert_eq!(root, a);
}

#[test]
fn sha512_tree_uses_sha512_digests() {
    let a = vec![0x11u8; 64];
    let b = vec![0x22u8; 64];
    let mut calc = SerializeHashCalculator::new(2, HashMethod::Sha512, None).unwrap();
    calc.append_leaf_hashes(&vec![a.clone(), b.clone()]).unwrap();
    let root = calc.finalize().unwrap();
    let mut h = Sha512::new();
    h.update(&a);
    h.update(&b);
    assert_eq!(root, h.finalize().to_vec());
}

#[test]
fn reader_verify_path_reads_stored_slots() {
    let leaves = pseudo_random_digests(5);
    let mut gen =
        MerkleTreeObjectGenerator::new(5 * 1024, 1024, MemStream::new(), None).unwrap();
    gen.append_leaf_hashes(&leaves).unwrap();
    let root = gen.finalize().unwrap();
    let bytes = gen.into_writer().into_vec();

    let mut obj = MerkleTreeObject::load_from_reader(MemStream::from_vec(bytes.clone())).unwrap();
    assert_eq!(obj.get_root_hash(), root);

    assert_eq!(
        obj.get_verify_path_by_leaf_index(5).unwrap_err(),
        NdnError::InvalidParam
    );

    let path = obj.get_verify_path_by_leaf_index(2).unwrap();
    // ceil(log2(5)) == 3, plus the root entry.
    assert_eq!(path.len(), 4);
    let header = 21usize;
    for (slot, hash) in &path {
        let at = header + (*slot as usize) * 32;
        assert_eq!(&bytes[at..at + 32], hash.as_slice());
    }
    // The last entry is the stored root.
    assert_eq!(path.last().unwrap().1, root);

    // The proof recomputes the root: an even ancestor index hashes the
    // stored sibling on the right, an odd one on the left.
    let mut acc = leaves[2].clone();
    let mut index = 2u64;
    for (_slot, sibling) in path.iter().take(3) {
        acc = if index % 2 == 0 {
            pair(&acc, sibling)
        } else {
            pair(sibling, &acc)
        };
        index /= 2;
    }
    assert_eq!(acc, root);
}

#[test]
fn loader_rejects_truncated_streams() {
    let leaves = pseudo_random_digests(3);
    let mut gen =
        MerkleTreeObjectGenerator::new(3 * 1024, 1024, MemStream::new(), None).unwrap();
    gen.append_leaf_hashes(&leaves).unwrap();
    gen.finalize().unwrap();
    let bytes = gen.into_writer().into_vec();

    // Too short for the length prefix.
    let r = MerkleTreeObject::load_from_reader(MemStream::from_vec(vec![1, 2]));
    assert_eq!(r.err().unwrap(), NdnError::IoError);

    // Header present but the leaf region cut off.
    let cut = bytes[..21 + 2 * 32].to_vec();
    let r = MerkleTreeObject::load_from_reader(MemStream::from_vec(cut));
    assert_eq!(r.err().unwrap(), NdnError::IoError);
}

#[test]
fn round_trip_with_named_algorithm() {
    let leaves: Vec<Vec<u8>> = (1..=3u8).map(|t| vec![t; 64]).collect();
    let mut gen = MerkleTreeObjectGenerator::new(
        3 * 512,
        512,
        MemStream::new(),
        Some("sha512".to_string()),
    )
    .unwrap();
    gen.append_leaf_hashes(&leaves).unwrap();
    let root = gen.finalize().unwrap();
    assert_eq!(root.len(), 64);
    let bytes = gen.into_writer().into_vec();
    // Header: 4-byte length prefix + 17-byte record + tag/length/name.
    assert_eq!(bytes.len(), 4 + 27 + 7 * 64);
    let obj = MerkleTreeObject::load_from_reader(MemStream::from_vec(bytes)).unwrap();
    assert_eq!(obj.get_root_hash(), root);
    assert_eq!(obj.get_leaf_count(), 3);
}
