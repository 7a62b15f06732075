use vinf::hash::{
  absorb,
  Edge, Graph, Node, basic_hash, build_vinf_hash, encode_u64_le, gen_round_constants, h_node,
  vinf_p, xof_bytes,
};

fn hex(bytes: &[u8]) -> String {
  bytes.iter().map(|b| format!("{:02x}", b)).collect()
}

#[test]
fn first_round_constant() {
  let rc = gen_round_constants();
  assert_eq!(rc[0][0], 0x5ec897ab4b1c0485u64);
}

#[test]
fn permutation_of_zero_state() {
  let rc = gen_round_constants();
  let mut s = [0u64; 8];
  vinf_p(&mut s, &rc);
  assert_eq!(
    s,
    [
      0x8bebff6fbf68fb5e,
      0x1fe663d4e4c1bd2f,
      0xd97cd6cde181a900,
      0x824abf69a75ba9c4,
      0x5172e07afb98c5c6,
      0x17220d63205b86c7,
      0x226cb4744520aa59,
      0x2f6ed14ca7f83deb,
    ]
  );
}

#[test]
fn permutation_depends_on_constants() {
  let rc = gen_round_constants();
  let zero_rc = [[0u64; 8]; 12];
  let mut a = [1u64, 2, 3, 4, 5, 6, 7, 8];
  let mut b = a;
  vinf_p(&mut a, &rc);
  vinf_p(&mut b, &zero_rc);
  assert_ne!(a, b);
}

#[test]
fn permutation_keeps_distinct_states_distinct() {
  let rc = gen_round_constants();
  let mut a = [0u64; 8];
  let mut b = [0u64; 8];
  b[7] = 1;
  vinf_p(&mut a, &rc);
  vinf_p(&mut b, &rc);
  assert_ne!(a, b);
}

#[test]
fn basic_hash_vectors() {
  assert_eq!(
    hex(&basic_hash(b"hello world")),
    "09a8e710a713b6a82b928a9cd05c5d11a2c05b29ad4b323a5a81dc9149b75e42"
  );
  assert_eq!(
    hex(&basic_hash(b"hello")),
    "483a3b30a66aa6d4d7c9bafbdf66eb883acbee9289327d1d1764766ae5fc9d11"
  );
  assert_eq!(
    hex(&basic_hash(b"")),
    "90a0825c389faebd65097f4db676d774c18ce44dc8373cd72eef1e9ce55e04f9"
  );
}

#[test]
fn h_node_with_standard_constants_is_basic_hash() {
  let rc = gen_round_constants();
  assert_eq!(h_node(b"abc", &rc), basic_hash(b"abc"));
  let zero_rc = [[0u64; 8]; 12];
  assert_ne!(h_node(b"abc", &zero_rc), basic_hash(b"abc"));
}

#[test]
fn xof_vectors() {
  let x = xof_bytes(b"hello world", 48).expect("xof ok");
  assert_eq!(
    hex(&x),
    "079579e2183fa8568cf8b83523b7573c83d6342b6d34befb6bda0b7c03f75d6f183fa2db79e8f6f67e45c53b0273c00d"
  );
  assert!(xof_bytes(b"", 0).expect("xof ok").is_empty());
}

#[test]
fn xof_shorter_output_is_prefix() {
  let long = xof_bytes(b"stream", 100).expect("xof ok");
  for n in [0usize, 1, 10, 31, 32, 33, 64, 99, 100] {
    let short = xof_bytes(b"stream", n).expect("xof ok");
    assert_eq!(short.len(), n);
    assert_eq!(&short[..], &long[..n]);
  }
}

#[test]
fn encode_u64_le_bytes() {
  assert_eq!(encode_u64_le(0x0102030405060708), [8, 7, 6, 5, 4, 3, 2, 1]);
}

fn one_node_graph(meta: &[u8]) -> Graph {
  let mut g = Graph::new();
  g.meta = meta.to_vec();
  g.nodes.push(Node::new(1, b"text/plain".to_vec(), b"abc".to_vec()));
  g
}

fn graph_hex(g: &mut Graph, rounds: usize, out_len: usize) -> String {
  let mut out = Vec::new();
  build_vinf_hash(g, rounds, out_len, &mut out);
  assert_eq!(out.len(), out_len);
  hex(&out)
}

#[test]
fn graph_vectors() {
  assert_eq!(
    graph_hex(&mut one_node_graph(b"example-meta"), 1, 64),
    "9cafe71f122a33a62c2133a8a534f8c01a9c3b9d3aa9d73a84cf30bc8a934eccef03edb9203000eca1fcfca323dea8588dbc264db3c39497424716048aa9a64d"
  );
  assert_eq!(
    graph_hex(&mut one_node_graph(b"meta"), 1, 64),
    "ad1765647fa49efe27f6f5d6b9f6754307ba1253a110946c5fdc0bf198054b88459eaee6580379228d1753be6777b53bce8ea38e87b68feef1b7275d75510cc7"
  );
  assert_eq!(
    graph_hex(&mut one_node_graph(b"meta"), 2, 64),
    "c1820df167d37b62069c46fd41079fa0e480f5a00be330f6a3dfb9a388c39d7587eb2cee305d6e3cd116840c5d1fe155342b356238ee38dbf0247a6ec771fea5"
  );
  assert_eq!(
    graph_hex(&mut Graph::new(), 0, 32),
    "fd3f6fb3859d0b128347309c95cdecfb9587b715016bb8fd659295a51dad78fe"
  );
}

fn two_node_graph(edges_of_1: Vec<Edge>, edges_of_2: Vec<Edge>) -> Graph {
  let mut g = Graph::new();
  g.meta = b"m".to_vec();
  g.nodes.push(Node::new(2, b"a".to_vec(), b"x".to_vec()));
  g.nodes.push(Node::new(1, b"b".to_vec(), b"y".to_vec()));
  g.edges.insert(1, edges_of_1);
  g.edges.insert(2, edges_of_2);
  g
}

#[test]
fn graph_with_edges_vector() {
  let mut g = two_node_graph(
    vec![Edge { ty: 0, to: 2 }, Edge { ty: 1, to: 2 }],
    vec![Edge { ty: 2, to: 1 }, Edge { ty: 0, to: 1 }],
  );
  assert_eq!(
    graph_hex(&mut g, 2, 40),
    "ca61fef3703944ad9854e2f9c5ad892ca523ff0fb1cf3e3c6c54991f462ee88353973ed7dc02780a"
  );
}

#[test]
fn graph_edge_order_does_not_matter() {
  let mut g1 = two_node_graph(
    vec![Edge { ty: 0, to: 2 }, Edge { ty: 1, to: 2 }],
    vec![Edge { ty: 2, to: 1 }, Edge { ty: 0, to: 1 }],
  );
  let mut g2 = two_node_graph(
    vec![Edge { ty: 1, to: 2 }, Edge { ty: 0, to: 2 }],
    vec![Edge { ty: 0, to: 1 }, Edge { ty: 2, to: 1 }],
  );
  assert_eq!(graph_hex(&mut g1, 3, 48), graph_hex(&mut g2, 3, 48));
}

#[test]
fn graph_shorter_output_is_prefix() {
  let long = graph_hex(&mut one_node_graph(b"meta"), 2, 96);
  let short = graph_hex(&mut one_node_graph(b"meta"), 2, 20);
  assert_eq!(&long[..40], &short[..]);
}

#[test]
fn graph_appends_one_digest_per_round_after_the_first() {
  let mut g = one_node_graph(b"meta");
  let mut out = Vec::new();
  build_vinf_hash(&mut g, 3, 8, &mut out);
  assert_eq!(g.nodes[0].hashs.len(), 4);
  let mut input = Vec::new();
  input.extend_from_slice(&1u64.to_le_bytes());
  input.extend_from_slice(&10u64.to_le_bytes());
  input.extend_from_slice(b"text/plain");
  input.extend_from_slice(&3u64.to_le_bytes());
  input.extend_from_slice(b"abc");
  assert_eq!(g.nodes[0].hashs[0], basic_hash(&input));
  assert_eq!(g.nodes[0].id, 1);
  assert_eq!(g.meta, b"meta".to_vec());
}

#[test]
fn graph_node_order_does_not_matter() {
  let mut g1 = two_node_graph(
    vec![Edge { ty: 0, to: 2 }, Edge { ty: 1, to: 2 }],
    vec![Edge { ty: 2, to: 1 }, Edge { ty: 0, to: 1 }],
  );
  let mut g2 = two_node_graph(
    vec![Edge { ty: 0, to: 2 }, Edge { ty: 1, to: 2 }],
    vec![Edge { ty: 2, to: 1 }, Edge { ty: 0, to: 1 }],
  );
  g2.nodes.swap(0, 1);
  assert_eq!(graph_hex(&mut g1, 3, 48), graph_hex(&mut g2, 3, 48));
  assert_eq!(g1.nodes[0].hashs, g2.nodes[1].hashs);
  assert_eq!(g1.nodes[1].hashs, g2.nodes[0].hashs);
}

#[test]
fn short_last_block_is_padded_with_one_then_zeros() {
  let rc = gen_round_constants();
  for len in [0usize, 5, 30, 32, 40] {
    let data: Vec<u8> = (0..len as u8).collect();
    let stream_len = 1 + len;
    if stream_len % 32 == 0 {
      continue;
    }
    let mut padded = data.clone();
    padded.push(1);
    padded.extend(std::iter::repeat(0u8).take(31 - stream_len % 32));
    let mut s1 = [3u64; 8];
    let mut s2 = [3u64; 8];
    absorb(&mut s1, 0x4E, &data, &rc);
    absorb(&mut s2, 0x4E, &padded, &rc);
    assert_eq!(s1, s2);
  }
}
