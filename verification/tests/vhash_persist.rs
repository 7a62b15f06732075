use vinf::Vinf;
use vinf::basic_hash;

#[test]
fn save_and_load_vhash_roundtrip() {
  let mut v = Vinf::new();

  v.register_known_hash(basic_hash(b"candidate"));
  v.compress(b"candidate").expect("compress ok");

  let saved = v.to_vhash_bytes();

  let mut v2 = Vinf::new();
  v2.load_vhash_bytes(&saved).expect("load ok");
  v2.compress(b"candidate").expect("compress ok");
  let cands = v2.last_candidates();
  assert!(!cands.is_empty());
}
