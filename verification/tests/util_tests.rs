use buckyos_core::did::DID;
use buckyos_core::error::NdnError;
use buckyos_core::hash::HashMethod;
use buckyos_core::pathutil::get_relative_path;
use buckyos_core::stream::MemStream;
use sha2::{Digest, Sha256};

#[test]
fn test_get_relative_path() {
    let base_path = "/opt/buckyos/data/chunk";
    let full_path = "/opt/buckyos/data/chunk/1234567890";
    let relative_path = get_relative_path(base_path, full_path);
    assert_eq!(relative_path, "/1234567890");

    let base_path = "/opt/buckyos/data/chunk/";
    let full_path = "/opt/buckyos/data/chunk/1234567890/asdf?a=1&b=2";
    let relative_path = get_relative_path(base_path, full_path);
    assert_eq!(relative_path, "/1234567890/asdf?a=1&b=2");
}

#[test]
fn relative_path_of_unrelated_base_is_unchanged() {
    assert_eq!(get_relative_path("/data", "/other/file"), "/other/file");
    assert_eq!(get_relative_path("", "abc"), "abc");
}

#[test]
fn did_round_trip() {
    let did = DID::new("dev", "abcdef123");
    assert_eq!(did.to_string(), "did:dev:abcdef123");
    assert_eq!(did.to_host_name(), "abcdef123.dev.did");

    let parsed = DID::from_str("did:dev:abcdef123").unwrap();
    assert_eq!(parsed.method, "dev");
    assert_eq!(parsed.id, "abcdef123");

    let parsed = DID::from_host_name("abcdef123.dev.did").unwrap();
    assert_eq!(parsed.method, "dev");
    assert_eq!(parsed.id, "abcdef123");
}

#[test]
fn did_rejects_malformed_strings() {
    assert!(DID::from_str("dev:abc").is_none());
    assert!(DID::from_str("did:dev").is_none());
    assert!(DID::from_str("did:dev:abc:extra").is_none());
    assert!(DID::from_str("web:did:abc").is_none());
    assert!(DID::from_host_name("abc.dev").is_none());
    assert!(DID::from_host_name("abc.dev.net").is_none());
    assert!(DID::from_host_name("a.b.c.did").is_none());
}

#[test]
fn hash_method_parsing_and_sizes() {
    assert_eq!(HashMethod::from_str("sha256").unwrap(), HashMethod::Sha256);
    assert_eq!(HashMethod::from_str("sha512").unwrap(), HashMethod::Sha512);
    assert_eq!(HashMethod::from_str("SHA256").unwrap_err(), NdnError::InvalidParam);
    assert_eq!(HashMethod::from_str("blake3").unwrap_err(), NdnError::InvalidParam);
    assert_eq!(HashMethod::default(), HashMethod::Sha256);
    assert_eq!(HashMethod::Sha256.hash_bytes(), 32);
    assert_eq!(HashMethod::Sha512.hash_bytes(), 64);
}

#[test]
fn hash_pair_is_digest_of_concatenation() {
    let left = vec![0xaau8; 32];
    let right = vec![0x55u8; 32];
    let got = HashMethod::Sha256.hash_pair(&left, &right);
    let mut h = Sha256::new();
    h.update(&left);
    h.update(&right);
    let expected = h.finalize().to_vec();
    assert_eq!(got, expected);
    assert_ne!(got, left);
    assert_ne!(got, right);
}

#[test]
fn mem_stream_read_write_seek() {
    let mut s = MemStream::new();
    s.write_all(&[1, 2, 3, 4]).unwrap();
    s.seek_to(6).unwrap();
    s.write_all(&[9, 9]).unwrap();
    assert_eq!(s.len(), 8);
    s.seek_to(0).unwrap();
    let head = s.read_exact(4).unwrap();
    assert_eq!(head, vec![1, 2, 3, 4]);
    // The seek past the end zero-filled the gap.
    let rest = s.read_exact(4).unwrap();
    assert_eq!(rest, vec![0, 0, 9, 9]);
    // Reading past the end fails and moves nothing.
    assert_eq!(s.read_exact(1).unwrap_err(), NdnError::IoError);
    assert_eq!(s.into_vec(), vec![1, 2, 3, 4, 0, 0, 9, 9]);
}
