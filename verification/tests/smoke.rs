use vinf::Vinf;

#[test]
fn smoke() {
  let mut v = Vinf::new();
  let data = b"hello";
  let enc = v.compress(data).expect("compress should succeed");
  let dec = v.decompress(&enc).expect("decompress should succeed");

  assert!(dec.is_empty());
}
