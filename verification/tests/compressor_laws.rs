use vinf::hash::basic_hash;
use vinf::{Coordinate, Error, Vinf, compress, decompress};

fn with_byte(h: [u8; 32], i: usize) -> [u8; 32] {
  let mut k = h;
  k[i] ^= 0xff;
  k
}

#[test]
fn candidates_best_match_first() {
  let h = basic_hash(b"x");
  let k3 = h;
  let k2 = with_byte(h, 20);
  let k1 = with_byte(h, 10);
  let k0 = with_byte(h, 0);
  let mut v = Vinf::new();
  v.register_known_hash(k1);
  v.register_known_hash(k0);
  v.register_known_hash(k3);
  v.register_known_hash(k2);
  let blob = v.compress(b"x").expect("compress ok");
  assert_eq!(v.last_candidates(), vec![k3, k2, k1]);
  assert_eq!(blob.len(), 50 + 3 * 32);
  assert_eq!(u16::from_le_bytes([blob[48], blob[49]]), 3);
  assert_eq!(&blob[50..82], &k3[..]);
  assert_eq!(&blob[82..114], &k2[..]);
  assert_eq!(&blob[114..146], &k1[..]);
}

#[test]
fn blob_header_fields() {
  let blob = compress(b"hello").expect("compress ok");
  assert_eq!(blob.len(), 50);
  assert_eq!(&blob[0..8], &[b'V', b'I', b'N', b'F', 1, 0, 0, 0]);
  assert_eq!(&blob[8..16], &5u64.to_le_bytes());
  assert_eq!(&blob[16..48], &basic_hash(b"hello")[..]);
  assert_eq!(&blob[48..50], &[0, 0]);
}

#[test]
fn decompress_of_non_blobs_is_empty() {
  let mut v = Vinf::new();
  v.register_known_data(b"hello");
  assert_eq!(v.decompress(b"short").expect("decompress ok"), Vec::<u8>::new());
  let mut blob = compress(b"hello").expect("compress ok");
  blob[0] = b'X';
  assert!(v.decompress(&blob).expect("decompress ok").is_empty());
  let mut blob = compress(b"hello").expect("compress ok");
  blob[4] = 2;
  assert!(v.decompress(&blob).expect("decompress ok").is_empty());
  let mut blob = compress(b"hello").expect("compress ok");
  blob.push(0);
  assert!(v.decompress(&blob).expect("decompress ok").is_empty());
  let blob = compress(b"hello").expect("compress ok");
  assert_eq!(v.decompress(&blob).expect("decompress ok"), b"hello".to_vec());
  assert!(decompress(&[]).expect("decompress ok").is_empty());
}

#[test]
fn decompress_of_unknown_data_is_empty() {
  let blob = compress(b"unknown").expect("compress ok");
  assert!(decompress(&blob).expect("decompress ok").is_empty());
  let mut v = Vinf::new();
  v.register_known_data(b"other");
  assert!(v.decompress(&blob).expect("decompress ok").is_empty());
}

#[test]
fn compress_then_decompress_gives_the_registered_data() {
  let mut v = Vinf::new();
  v.register_known_data(b"first");
  v.register_known_data(b"second");
  v.register_known_data(b"");
  for d in [&b"first"[..], &b"second"[..], &b""[..]] {
    let blob = v.compress(d).expect("compress ok");
    assert_eq!(v.decompress(&blob).expect("decompress ok"), d.to_vec());
  }
}

#[test]
fn register_known_data_registers_its_digest() {
  let mut v = Vinf::new();
  v.register_known_data(b"abc");
  let blob = v.compress(b"abc").expect("compress ok");
  assert_eq!(v.last_candidates(), vec![basic_hash(b"abc")]);
  assert_eq!(v.last_hash(), Some(basic_hash(b"abc")));
  assert_eq!(blob.len(), 82);
}

#[test]
fn vhash_bytes_roundtrip() {
  let mut v = Vinf::new();
  v.register_known_hash(basic_hash(b"a"));
  v.register_known_hash(basic_hash(b"b"));
  let saved = v.to_vhash_bytes();
  assert_eq!(saved.len(), 64);
  let mut v2 = Vinf::new();
  v2.load_vhash_bytes(&saved).expect("load ok");
  assert_eq!(v2.to_vhash_bytes(), saved);
  v2.compress(b"b").expect("compress ok");
  assert_eq!(v2.last_candidates(), vec![basic_hash(b"b")]);
}

#[test]
fn vhash_bytes_of_wrong_length_are_refused() {
  let mut v = Vinf::new();
  v.register_known_hash(basic_hash(b"a"));
  assert!(matches!(v.load_vhash_bytes(&[0u8; 31]), Err(Error::InvalidFormat)));
  assert_eq!(v.to_vhash_bytes().len(), 32);
}

#[test]
fn fresh_compressor_state() {
  let v = Vinf::default();
  assert_eq!(v.last_hash(), None);
  assert!(v.last_candidates().is_empty());
  assert!(v.to_vhash_bytes().is_empty());
}

#[test]
fn error_messages() {
  assert_eq!(Error::NotImplemented.message(), "not implemented");
  assert_eq!(Error::InvalidFormat.message(), "invalid VINF format");
  assert_eq!(Error::Other("custom".to_string()).message(), "custom");
  let io = std::io::Error::new(std::io::ErrorKind::Other, "boom");
  let text = io.to_string();
  let m = Error::from(io).message();
  assert_eq!(m, format!("io error: {}", text));
  assert_eq!(m, "io error: boom");
}

#[test]
fn coordinates_compare_by_value() {
  let a = Coordinate { x: 12, y: 34, z: 56 };
  let b = a.clone();
  assert_eq!(a, b);
  assert_ne!(a, Coordinate { x: 12, y: 34, z: 57 });
}
