use std::collections::BTreeMap;
use vstd::prelude::*;

use super::encoding::{append_bytes, encode_u64_le, le_bytes_u64};
use super::permutation::constants_view;
use super::sorting::{
    is_sorted, lemma_sort_pairs, lemma_sort_pairs_order_free, sort_pairs, sort_pairs_exec,
};
use super::sponge::{
    absorb, gen_round_constants, h_node, spec_absorb, spec_h_node, spec_round_constants,
    lemma_squeeze_prefix, spec_squeeze, squeeze, zero_state, DOMAIN_FINAL, DOMAIN_MIX, DOMAIN_NONE,
};

verus! {

/// A node of a VINF graph with the digests computed for it, one per round.
#[derive(Debug, Clone)]
pub struct Node {
    pub id: u64,
    pub metadata: Vec<u8>,
    pub content: Vec<u8>,
    pub hashs: Vec<[u8; 32]>,
}

/// A typed edge to the node with id `to`.
#[derive(Debug, Clone, Copy)]
pub struct Edge {
    pub ty: u8,
    pub to: u64,
}

/// A VINF graph: its nodes, the edges leaving each node id, and graph metadata.
#[derive(Debug, Clone)]
pub struct Graph {
    pub nodes: Vec<Node>,
    pub edges: BTreeMap<u64, Vec<Edge>>,
    pub meta: Vec<u8>,
}

impl Node {
    /// A node with no digests yet.
    pub fn new(id: u64, metadata: Vec<u8>, content: Vec<u8>) -> (n: Node)
        ensures
            n.id == id,
            n.metadata@ == metadata@,
            n.content@ == content@,
            n.hashs@ == Seq::<[u8; 32]>::empty(),
    {
        Node { id, metadata, content, hashs: Vec::new() }
    }
}

impl Graph {
    /// A graph with no nodes, no edges and empty metadata.
    pub fn new() -> (g: Graph)
        ensures
            g.nodes@ == Seq::<Node>::empty(),
            g.edges@ == Map::<u64, Vec<Edge>>::empty(),
            g.meta@ == Seq::<u8>::empty(),
    {
        Graph { nodes: Vec::new(), edges: BTreeMap::new(), meta: Vec::new() }
    }
}

/// The ids of the nodes, in node order.
pub open spec fn node_ids(nodes: Seq<Node>) -> Seq<u64> {
    nodes.map_values(|n: Node| n.id)
}

/// The digests of a node as byte sequences.
pub open spec fn digest_list(n: Node) -> Seq<Seq<u8>> {
    n.hashs@.map_values(|a: [u8; 32]| a@)
}

/// The digests of every node, in node order.
pub open spec fn digest_lists(nodes: Seq<Node>) -> Seq<Seq<Seq<u8>>> {
    nodes.map_values(|n: Node| digest_list(n))
}

/// `a` and `b` have the same id, metadata and content.
pub open spec fn same_node_data(a: Node, b: Node) -> bool {
    &&& a.id == b.id
    &&& a.metadata@ == b.metadata@
    &&& a.content@ == b.content@
}

/// The bytes a node's first digest is taken of: id, metadata length, metadata,
/// content length, content (integers as u64 little-endian).
pub open spec fn node_input(n: Node) -> Seq<u8> {
    le_bytes_u64(n.id) + le_bytes_u64(n.metadata@.len() as u64) + n.metadata@ + le_bytes_u64(
        n.content@.len() as u64,
    ) + n.content@
}

/// The digest lists after the first digest of each node is appended.
pub open spec fn initial_lists(nodes: Seq<Node>, rc: Seq<Seq<u64>>) -> Seq<Seq<Seq<u8>>> {
    Seq::new(nodes.len(), |k: int| digest_list(nodes[k]).push(spec_h_node(node_input(nodes[k]), rc)))
}

/// An edge as the pair it is ordered by: (type, target id).
pub open spec fn edge_key(e: Edge) -> (u64, u64) {
    (e.ty as u64, e.to)
}

/// The edges leaving `id`; none when the map has no entry for it.
pub open spec fn edges_of(edges: Map<u64, Vec<Edge>>, id: u64) -> Seq<Edge> {
    if edges.contains_key(id) {
        edges[id]@
    } else {
        Seq::empty()
    }
}

/// The edges leaving `id` as (type, target id) pairs, in the order they are listed.
pub open spec fn edge_keys_of(edges: Map<u64, Vec<Edge>>, id: u64) -> Seq<(u64, u64)> {
    edges_of(edges, id).map_values(|e: Edge| edge_key(e))
}

/// The neighbors of `id` as (type, target id) pairs, sorted.
pub open spec fn sorted_neighbors(edges: Map<u64, Vec<Edge>>, id: u64) -> Seq<(u64, u64)> {
    sort_pairs(edge_keys_of(edges, id))
}

/// The first index at or after `j` whose id is `id`.
pub open spec fn find_first_from(ids: Seq<u64>, id: u64, j: int) -> Option<int>
    decreases ids.len() - j,
{
    if j < 0 || j >= ids.len() {
        None
    } else if ids[j] == id {
        Some(j)
    } else {
        find_first_from(ids, id, j + 1)
    }
}

/// The first node with id `id`.
pub open spec fn find_first(ids: Seq<u64>, id: u64) -> Option<int> {
    find_first_from(ids, id, 0)
}

/// The last index below `n` whose id is `id`, or -1.
pub open spec fn last_index_below(ids: Seq<u64>, id: u64, n: int) -> int
    decreases n,
{
    if n <= 0 {
        -1
    } else if ids[n - 1] == id {
        n - 1
    } else {
        last_index_below(ids, id, n - 1)
    }
}

/// The last node with id `id`, or -1.
pub open spec fn last_index(ids: Seq<u64>, id: u64) -> int {
    last_index_below(ids, id, ids.len() as int)
}

/// The round-`r` digest of the first node with id `to`, when there is such a node
/// and it has one; nothing otherwise.
pub open spec fn neighbor_digest(ids: Seq<u64>, lists: Seq<Seq<Seq<u8>>>, to: u64, r: int) -> Seq<
    u8,
> {
    match find_first(ids, to) {
        Some(j) => if 0 <= r < lists[j].len() {
            lists[j][r]
        } else {
            Seq::empty()
        },
        None => Seq::empty(),
    }
}

/// The round-`r` digests of the neighbors, one after another.
pub open spec fn neighbor_concat(
    ids: Seq<u64>,
    lists: Seq<Seq<Seq<u8>>>,
    nbrs: Seq<(u64, u64)>,
    r: int,
) -> Seq<u8>
    decreases nbrs.len(),
{
    if nbrs.len() == 0 {
        Seq::empty()
    } else {
        neighbor_concat(ids, lists, nbrs.drop_last(), r) + neighbor_digest(
            ids,
            lists,
            nbrs.last().1,
            r,
        )
    }
}

/// The bytes a round-`r + 1` digest is taken of: the mixing domain byte, the node's
/// round-`r` digest, the length of the neighbor bytes, those bytes, and `r`.
pub open spec fn mix_input(own: Seq<u8>, concat: Seq<u8>, r: int) -> Seq<u8> {
    seq![DOMAIN_MIX] + own + le_bytes_u64(concat.len() as u64) + concat + le_bytes_u64(r as u64)
}

/// The round-`r + 1` digest computed for node `k`.
pub open spec fn next_digest(
    ids: Seq<u64>,
    lists: Seq<Seq<Seq<u8>>>,
    edges: Map<u64, Vec<Edge>>,
    k: int,
    r: int,
    rc: Seq<Seq<u64>>,
) -> Seq<u8> {
    spec_h_node(
        mix_input(lists[k][r], neighbor_concat(ids, lists, sorted_neighbors(edges, ids[k]), r), r),
        rc,
    )
}

/// The digest lists after mixing round `r`: each node gets the digest computed
/// for the last node that has its id.
pub open spec fn round_lists(
    ids: Seq<u64>,
    lists: Seq<Seq<Seq<u8>>>,
    edges: Map<u64, Vec<Edge>>,
    r: int,
    rc: Seq<Seq<u64>>,
) -> Seq<Seq<Seq<u8>>> {
    Seq::new(
        ids.len(),
        |k: int| lists[k].push(next_digest(ids, lists, edges, last_index(ids, ids[k]), r, rc)),
    )
}

/// The digest lists after mixing rounds `0..n`.
pub open spec fn mixed_lists(
    ids: Seq<u64>,
    lists0: Seq<Seq<Seq<u8>>>,
    edges: Map<u64, Vec<Edge>>,
    n: nat,
    rc: Seq<Seq<u64>>,
) -> Seq<Seq<Seq<u8>>>
    decreases n,
{
    if n == 0 {
        lists0
    } else {
        round_lists(ids, mixed_lists(ids, lists0, edges, (n - 1) as nat, rc), edges, n - 1, rc)
    }
}

/// The digest lists after `build_vinf_hash` with `rounds` rounds.
pub open spec fn built_lists(
    nodes: Seq<Node>,
    edges: Map<u64, Vec<Edge>>,
    rounds: nat,
    rc: Seq<Seq<u64>>,
) -> Seq<Seq<Seq<u8>>> {
    mixed_lists(node_ids(nodes), initial_lists(nodes, rc), edges, rounds, rc)
}

/// The order nodes are absorbed in at the end: by id, ties by position.
pub open spec fn final_order(ids: Seq<u64>) -> Seq<(u64, u64)> {
    sort_pairs(Seq::new(ids.len(), |k: int| (ids[k], k as u64)))
}

/// The digest at index `rounds` of node `k`, or 32 zero bytes when it has none.
pub open spec fn final_digest(lists: Seq<Seq<Seq<u8>>>, k: int, rounds: nat) -> Seq<u8> {
    if rounds < lists[k].len() {
        lists[k][rounds as int]
    } else {
        Seq::new(32, |i: int| 0u8)
    }
}

/// The final digests in absorption order.
pub open spec fn final_digests(ids: Seq<u64>, lists: Seq<Seq<Seq<u8>>>, rounds: nat) -> Seq<
    Seq<u8>,
> {
    final_order(ids).map_values(|p: (u64, u64)| final_digest(lists, p.1 as int, rounds))
}

/// Each digest absorbed in turn under `DOMAIN_NONE`.
pub open spec fn absorb_digests(s: Seq<u64>, ds: Seq<Seq<u8>>, rc: Seq<Seq<u64>>) -> Seq<u64>
    decreases ds.len(),
{
    if ds.len() == 0 {
        s
    } else {
        spec_absorb(absorb_digests(s, ds.drop_last(), rc), DOMAIN_NONE, ds.last(), rc)
    }
}

/// The graph fingerprint: the metadata (length-prefixed) absorbed under
/// `DOMAIN_FINAL`, then the final digests, then `out_len` bytes squeezed.
pub open spec fn graph_output(
    ids: Seq<u64>,
    lists: Seq<Seq<Seq<u8>>>,
    meta: Seq<u8>,
    rounds: nat,
    out_len: nat,
    rc: Seq<Seq<u64>>,
) -> Seq<u8> {
    let s0 = spec_absorb(zero_state(), DOMAIN_FINAL, le_bytes_u64(meta.len() as u64) + meta, rc);
    spec_squeeze(absorb_digests(s0, final_digests(ids, lists, rounds), rc), out_len, rc)
}

fn node_input_bytes(n: &Node) -> (r: Vec<u8>)
    ensures
        r@ == node_input(*n),
{
    let mut input: Vec<u8> = Vec::new();
    append_bytes(&mut input, &encode_u64_le(n.id));
    append_bytes(&mut input, &encode_u64_le(n.metadata.len() as u64));
    append_bytes(&mut input, n.metadata.as_slice());
    append_bytes(&mut input, &encode_u64_le(n.content.len() as u64));
    append_bytes(&mut input, n.content.as_slice());
    input
}

fn find_first_exec(nodes: &Vec<Node>, id: u64) -> (r: Option<usize>)
    ensures
        r matches Some(j) ==> j < nodes@.len() && find_first(node_ids(nodes@), id) == Some(
            j as int,
        ),
        r is None ==> find_first(node_ids(nodes@), id) is None,
{
    let ghost ids = node_ids(nodes@);
    let mut j: usize = 0;
    while j < nodes.len()
        invariant
            ids == node_ids(nodes@),
            0 <= j <= nodes@.len(),
            find_first(ids, id) == find_first_from(ids, id, j as int),
        decreases nodes@.len() - j,
    {
        if nodes[j].id == id {
            return Some(j);
        }
        j += 1;
    }
    None
}

fn last_index_exec(nodes: &Vec<Node>, id: u64, k: usize) -> (r: usize)
    requires
        k < nodes@.len(),
        nodes@[k as int].id == id,
    ensures
        r as int == last_index(node_ids(nodes@), id),
        k <= r < nodes@.len(),
{
    let ghost ids = node_ids(nodes@);
    let mut j = nodes.len();
    while nodes[j - 1].id != id
        invariant
            ids == node_ids(nodes@),
            k < j <= nodes@.len(),
            nodes@[k as int].id == id,
            last_index(ids, id) == last_index_below(ids, id, j as int),
        decreases j,
    {
        j -= 1;
    }
    j - 1
}

fn lookup_edges(edges: &BTreeMap<u64, Vec<Edge>>, id: u64) -> (r: Option<&Vec<Edge>>)
    ensures
        match r {
            Some(list) => edges@.contains_key(id) && *list == edges@[id],
            None => !edges@.contains_key(id),
        },
{
    broadcast use vstd::laws_cmp::group_laws_cmp;
    broadcast use vstd::std_specs::btree::axiom_maps_deref_key_to_value;
    broadcast use vstd::std_specs::btree::axiom_contains_deref_key;

    edges.get(&id)
}

fn sorted_neighbor_keys(edges: &BTreeMap<u64, Vec<Edge>>, id: u64) -> (r: Vec<(u64, u64)>)
    ensures
        r@ == sorted_neighbors(edges@, id),
{
    let mut keys: Vec<(u64, u64)> = Vec::new();
    let ghost es = edges_of(edges@, id);
    match lookup_edges(edges, id) {
        Some(list) => {
            assert(list@ == es);
            let mut i: usize = 0;
            while i < list.len()
                invariant
                    list@ == es,
                    0 <= i <= es.len(),
                    keys@ == es.take(i as int).map_values(|e: Edge| edge_key(e)),
                decreases es.len() - i,
            {
                let e = list[i];
                keys.push((e.ty as u64, e.to));
                i += 1;
                assert(keys@ =~= es.take(i as int).map_values(|e: Edge| edge_key(e)));
            }
            assert(es.take(es.len() as int) =~= es);
        },
        None => {
            assert(es =~= Seq::<Edge>::empty());
            assert(keys@ =~= es.map_values(|e: Edge| edge_key(e)));
        },
    }
    sort_pairs_exec(&keys)
}

fn neighbor_concat_exec(nodes: &Vec<Node>, nbrs: &Vec<(u64, u64)>, r: usize) -> (c: Vec<u8>)
    ensures
        c@ == neighbor_concat(node_ids(nodes@), digest_lists(nodes@), nbrs@, r as int),
{
    let ghost ids = node_ids(nodes@);
    let ghost lists = digest_lists(nodes@);
    let mut c: Vec<u8> = Vec::new();
    let mut i: usize = 0;
    assert(nbrs@.take(0) =~= Seq::<(u64, u64)>::empty());
    while i < nbrs.len()
        invariant
            ids == node_ids(nodes@),
            lists == digest_lists(nodes@),
            0 <= i <= nbrs@.len(),
            c@ == neighbor_concat(ids, lists, nbrs@.take(i as int), r as int),
        decreases nbrs@.len() - i,
    {
        let to = nbrs[i].1;
        let ghost before = c@;
        let found = find_first_exec(nodes, to);
        match found {
            Some(j) => {
                assert(lists[j as int] == digest_list(nodes@[j as int]));
                assert(lists[j as int].len() == nodes@[j as int].hashs@.len());
                assert(find_first(ids, to) == Some(j as int));
                if r < nodes[j].hashs.len() {
                    append_bytes(&mut c, &nodes[j].hashs[r]);
                    assert(lists[j as int][r as int] == nodes@[j as int].hashs@[r as int]@);
                    assert(neighbor_digest(ids, lists, to, r as int) == lists[j as int][r as int]);
                } else {
                    assert(neighbor_digest(ids, lists, to, r as int) == Seq::<u8>::empty());
                }
            },
            None => {
                assert(neighbor_digest(ids, lists, to, r as int) == Seq::<u8>::empty());
            },
        }
        proof {
            assert(nbrs@.take(i + 1).drop_last() =~= nbrs@.take(i as int));
            assert(nbrs@.take(i + 1).last() == nbrs@[i as int]);
            assert(c@ =~= before + neighbor_digest(ids, lists, to, r as int));
        }
        i += 1;
    }
    assert(nbrs@.take(nbrs@.len() as int) =~= nbrs@);
    c
}

/// The round-`r + 1` digest of node `k`.
fn next_digest_exec(
    nodes: &Vec<Node>,
    edges: &BTreeMap<u64, Vec<Edge>>,
    k: usize,
    r: usize,
    rc: &[[u64; 8]; 12],
) -> (d: [u8; 32])
    requires
        k < nodes@.len(),
        r < nodes@[k as int].hashs@.len(),
    ensures
        d@ == next_digest(
            node_ids(nodes@),
            digest_lists(nodes@),
            edges@,
            k as int,
            r as int,
            constants_view(rc),
        ),
{
    let nbrs = sorted_neighbor_keys(edges, nodes[k].id);
    let concat = neighbor_concat_exec(nodes, &nbrs, r);
    let mut full: Vec<u8> = Vec::new();
    full.push(DOMAIN_MIX);
    append_bytes(&mut full, &nodes[k].hashs[r]);
    append_bytes(&mut full, &encode_u64_le(concat.len() as u64));
    append_bytes(&mut full, concat.as_slice());
    append_bytes(&mut full, &encode_u64_le(r as u64));
    proof {
        let lists = digest_lists(nodes@);
        assert(lists[k as int][r as int] == nodes@[k as int].hashs@[r as int]@);
        assert(node_ids(nodes@)[k as int] == nodes@[k as int].id);
        assert(full@ =~= mix_input(lists[k as int][r as int], concat@, r as int));
    }
    h_node(full.as_slice(), rc)
}

/// Appends to every node the digest of its `node_input`.
fn add_initial_digests(nodes: &mut Vec<Node>, rc: &[[u64; 8]; 12])
    ensures
        final(nodes)@.len() == old(nodes)@.len(),
        forall|q: int|
            0 <= q < old(nodes)@.len() ==> same_node_data(#[trigger] final(nodes)@[q], old(nodes)@[q]),
        digest_lists(final(nodes)@) == initial_lists(old(nodes)@, constants_view(rc)),
{
    let ghost start = nodes@;
    let ghost target = initial_lists(start, constants_view(rc));
    let n = nodes.len();
    let mut k: usize = 0;
    while k < n
        invariant
            n == start.len(),
            target == initial_lists(start, constants_view(rc)),
            nodes@.len() == n,
            0 <= k <= n,
            forall|q: int| 0 <= q < n ==> same_node_data(#[trigger] nodes@[q], start[q]),
            forall|q: int| 0 <= q < k ==> digest_list(#[trigger] nodes@[q]) == target[q],
            forall|q: int| k <= q < n ==> digest_list(#[trigger] nodes@[q]) == digest_list(start[q]),
        decreases n - k,
    {
        let input = node_input_bytes(&nodes[k]);
        let h0 = h_node(input.as_slice(), rc);
        let ghost before = nodes@;
        assert(node_input(before[k as int]) == node_input(start[k as int]));
        nodes[k].hashs.push(h0);
        proof {
            assert(nodes@[k as int].hashs@ == before[k as int].hashs@.push(h0));
            assert(digest_list(nodes@[k as int]) =~= digest_list(before[k as int]).push(h0@));
            assert forall|q: int| 0 <= q < n && q != k implies nodes@[q] == before[q] by {}
        }
        k += 1;
    }
    assert(digest_lists(nodes@) =~= target);
}

/// The round-`r + 1` digest of every node, in node order.
fn round_digests(
    nodes: &Vec<Node>,
    edges: &BTreeMap<u64, Vec<Edge>>,
    r: usize,
    rc: &[[u64; 8]; 12],
) -> (nxt: Vec<[u8; 32]>)
    requires
        forall|q: int| 0 <= q < nodes@.len() ==> r < (#[trigger] nodes@[q]).hashs@.len(),
    ensures
        nxt@.len() == nodes@.len(),
        forall|q: int|
            0 <= q < nodes@.len() ==> (#[trigger] nxt@[q])@ == next_digest(
                node_ids(nodes@),
                digest_lists(nodes@),
                edges@,
                q,
                r as int,
                constants_view(rc),
            ),
{
    let mut nxt: Vec<[u8; 32]> = Vec::new();
    let mut k: usize = 0;
    while k < nodes.len()
        invariant
            forall|q: int| 0 <= q < nodes@.len() ==> r < (#[trigger] nodes@[q]).hashs@.len(),
            0 <= k <= nodes@.len(),
            nxt@.len() == k,
            forall|q: int|
                0 <= q < k ==> (#[trigger] nxt@[q])@ == next_digest(
                    node_ids(nodes@),
                    digest_lists(nodes@),
                    edges@,
                    q,
                    r as int,
                    constants_view(rc),
                ),
        decreases nodes@.len() - k,
    {
        let d = next_digest_exec(nodes, edges, k, r, rc);
        nxt.push(d);
        k += 1;
    }
    nxt
}

/// Appends to every node the new digest of the last node that has its id.
fn apply_round(nodes: &mut Vec<Node>, nxt: &Vec<[u8; 32]>)
    requires
        nxt@.len() == old(nodes)@.len(),
    ensures
        final(nodes)@.len() == old(nodes)@.len(),
        forall|q: int|
            0 <= q < old(nodes)@.len() ==> same_node_data(#[trigger] final(nodes)@[q], old(nodes)@[q]),
        forall|q: int|
            0 <= q < old(nodes)@.len() ==> #[trigger] digest_list(final(nodes)@[q]) == digest_list(
                old(nodes)@[q],
            ).push(nxt@[last_index(node_ids(old(nodes)@), old(nodes)@[q].id)]@),
{
    let ghost start = nodes@;
    let ghost ids = node_ids(start);
    let n = nodes.len();
    let mut k: usize = 0;
    while k < n
        invariant
            n == start.len(),
            ids == node_ids(start),
            nxt@.len() == n,
            nodes@.len() == n,
            0 <= k <= n,
            forall|q: int| 0 <= q < n ==> same_node_data(#[trigger] nodes@[q], start[q]),
            forall|q: int|
                0 <= q < k ==> #[trigger] digest_list(nodes@[q]) == digest_list(start[q]).push(
                    nxt@[last_index(ids, start[q].id)]@,
                ),
            forall|q: int| k <= q < n ==> digest_list(#[trigger] nodes@[q]) == digest_list(start[q]),
        decreases n - k,
    {
        let id = nodes[k].id;
        let ghost cur = nodes@;
        proof {
            assert forall|q: int| 0 <= q < n implies #[trigger] node_ids(cur)[q] == ids[q] by {
                assert(same_node_data(cur[q], start[q]));
            }
            assert(node_ids(cur) =~= ids);
        }
        let j = last_index_exec(nodes, id, k);
        let d = nxt[j];
        let ghost before = nodes@;
        nodes[k].hashs.push(d);
        proof {
            assert(nodes@[k as int].hashs@ == before[k as int].hashs@.push(d));
            assert(digest_list(nodes@[k as int]) =~= digest_list(before[k as int]).push(d@));
            assert forall|q: int| 0 <= q < n && q != k implies nodes@[q] == before[q] by {}
        }
        k += 1;
    }
}

/// Absorbs the metadata and the final digests, then appends `out_len` output bytes.
fn write_final(
    nodes: &Vec<Node>,
    meta: &Vec<u8>,
    rounds: usize,
    out_len: usize,
    rc: &[[u64; 8]; 12],
    out: &mut Vec<u8>,
)
    ensures
        final(out)@ == old(out)@ + graph_output(
            node_ids(nodes@),
            digest_lists(nodes@),
            meta@,
            rounds as nat,
            out_len as nat,
            constants_view(rc),
        ),
{
    let ghost rcv = constants_view(rc);
    let ghost ids = node_ids(nodes@);
    let ghost lists = digest_lists(nodes@);
    let n = nodes.len();
    let mut order_in: Vec<(u64, u64)> = Vec::new();
    let mut k: usize = 0;
    while k < n
        invariant
            n == nodes@.len(),
            ids == node_ids(nodes@),
            0 <= k <= n,
            order_in@ == Seq::new(k as nat, |q: int| (ids[q], q as u64)),
        decreases n - k,
    {
        order_in.push((nodes[k].id, k as u64));
        k += 1;
        assert(order_in@ =~= Seq::new(k as nat, |q: int| (ids[q], q as u64)));
    }
    let order = sort_pairs_exec(&order_in);
    proof {
        broadcast use vstd::seq_lib::group_to_multiset_ensures;

        lemma_sort_pairs(order_in@);
        assert forall|i: int| 0 <= i < order@.len() implies (#[trigger] order@[i]).1 < n by {
            assert(order@.contains(order@[i]));
            assert(order@.to_multiset().count(order@[i]) > 0);
            assert(order_in@.contains(order@[i]));
        }
    }
    let ghost ds = final_digests(ids, lists, rounds as nat);
    let mut state = [0u64; 8];
    assert(state@ =~= zero_state());
    let mut meta_blob: Vec<u8> = Vec::new();
    append_bytes(&mut meta_blob, &encode_u64_le(meta.len() as u64));
    append_bytes(&mut meta_blob, meta.as_slice());
    absorb(&mut state, DOMAIN_FINAL, meta_blob.as_slice(), rc);
    let ghost s0 = state@;
    let mut i: usize = 0;
    assert(ds.take(0) =~= Seq::<Seq<u8>>::empty());
    while i < order.len()
        invariant
            rcv == constants_view(rc),
            ids == node_ids(nodes@),
            lists == digest_lists(nodes@),
            n == nodes@.len(),
            order@ == final_order(ids),
            ds == final_digests(ids, lists, rounds as nat),
            ds.len() == order@.len(),
            forall|q: int| 0 <= q < order@.len() ==> (#[trigger] order@[q]).1 < n,
            0 <= i <= order@.len(),
            state@ == absorb_digests(s0, ds.take(i as int), rcv),
        decreases order@.len() - i,
    {
        let k = order[i].1 as usize;
        let ghost before = state@;
        assert(lists[k as int] == digest_list(nodes@[k as int]));
        if rounds < nodes[k].hashs.len() {
            absorb(&mut state, DOMAIN_NONE, &nodes[k].hashs[rounds], rc);
            assert(nodes@[k as int].hashs@[rounds as int]@ == ds[i as int]);
        } else {
            let zeros = [0u8; 32];
            absorb(&mut state, DOMAIN_NONE, &zeros, rc);
            assert(zeros@ =~= ds[i as int]);
        }
        proof {
            assert(ds.take(i + 1).drop_last() =~= ds.take(i as int));
            assert(ds.take(i + 1).last() == ds[i as int]);
        }
        i += 1;
    }
    assert(ds.take(ds.len() as int) =~= ds);
    squeeze(&mut state, out_len, rc, out);
}

/// Computes the VINF graph fingerprint of `graph` with `rounds` mixing rounds and
/// appends its first `out_len` bytes to `out`. Each node gets its first digest and
/// then one digest per round appended to `hashs`; nothing else in the graph changes.
pub fn build_vinf_hash(graph: &mut Graph, rounds: usize, out_len: usize, out: &mut Vec<u8>)
    ensures
        final(graph).nodes@.len() == old(graph).nodes@.len(),
        forall|q: int|
            0 <= q < old(graph).nodes@.len() ==> same_node_data(
                #[trigger] final(graph).nodes@[q],
                old(graph).nodes@[q],
            ),
        final(graph).edges@ == old(graph).edges@,
        final(graph).meta@ == old(graph).meta@,
        digest_lists(final(graph).nodes@) == built_lists(
            old(graph).nodes@,
            old(graph).edges@,
            rounds as nat,
            spec_round_constants(),
        ),
        final(out)@ == old(out)@ + graph_output(
            node_ids(old(graph).nodes@),
            digest_lists(final(graph).nodes@),
            old(graph).meta@,
            rounds as nat,
            out_len as nat,
            spec_round_constants(),
        ),
{
    let rc = gen_round_constants();
    let ghost rcv = constants_view(&rc);
    let ghost start = graph.nodes@;
    let ghost ids = node_ids(start);
    let ghost edges = graph.edges@;
    add_initial_digests(&mut graph.nodes, &rc);
    let ghost lists0 = digest_lists(graph.nodes@);
    proof {
        assert forall|q: int| 0 <= q < start.len() implies #[trigger] graph.nodes@[q].hashs@.len()
            >= 1 by {
            assert(digest_lists(graph.nodes@)[q] == digest_list(graph.nodes@[q]));
            assert(initial_lists(start, rcv)[q].len() >= 1);
        }
    }
    let mut r: usize = 0;
    while r < rounds
        invariant
            rcv == constants_view(&rc),
            rcv == spec_round_constants(),
            ids == node_ids(start),
            edges == graph.edges@,
            lists0 == initial_lists(start, rcv),
            graph.nodes@.len() == start.len(),
            forall|q: int| 0 <= q < start.len() ==> same_node_data(#[trigger] graph.nodes@[q], start[q]),
            forall|q: int| 0 <= q < start.len() ==> #[trigger] graph.nodes@[q].hashs@.len() >= r + 1,
            digest_lists(graph.nodes@) == mixed_lists(ids, lists0, edges, r as nat, rcv),
            graph.meta@ == old(graph).meta@,
            0 <= r <= rounds,
        decreases rounds - r,
    {
        let ghost cur = graph.nodes@;
        proof {
            assert forall|q: int| 0 <= q < start.len() implies #[trigger] node_ids(cur)[q] == ids[q] by {
                assert(same_node_data(cur[q], start[q]));
            }
            assert(node_ids(cur) =~= ids);
        }
        let nxt = round_digests(&graph.nodes, &graph.edges, r, &rc);
        apply_round(&mut graph.nodes, &nxt);
        proof {
            let prev = mixed_lists(ids, lists0, edges, r as nat, rcv);
            assert forall|q: int| 0 <= q < start.len() implies #[trigger] digest_lists(graph.nodes@)[q]
                == round_lists(ids, prev, edges, r as int, rcv)[q] by {
                assert(digest_lists(graph.nodes@)[q] == digest_list(graph.nodes@[q]));
                assert(digest_lists(cur)[q] == digest_list(cur[q]));
                assert(cur[q].id == ids[q]);
                let j = last_index(ids, ids[q]);
                lemma_last_index_bounds(ids, ids[q], q);
                assert(nxt@[j]@ == next_digest(ids, prev, edges, j, r as int, rcv));
            }
            assert(digest_lists(graph.nodes@) =~= round_lists(ids, prev, edges, r as int, rcv));
            assert forall|q: int| 0 <= q < start.len() implies #[trigger] graph.nodes@[q].hashs@.len()
                >= r + 2 by {
                assert(digest_list(graph.nodes@[q]).len() == digest_list(cur[q]).len() + 1);
            }
        }
        r += 1;
    }
    let ghost fin = graph.nodes@;
    proof {
        assert forall|q: int| 0 <= q < start.len() implies #[trigger] node_ids(fin)[q] == ids[q] by {
            assert(same_node_data(fin[q], start[q]));
        }
        assert(node_ids(fin) =~= ids);
    }
    write_final(&graph.nodes, &graph.meta, rounds, out_len, &rc, out);
}

proof fn lemma_last_index_bounds(ids: Seq<u64>, id: u64, q: int)
    requires
        0 <= q < ids.len(),
        ids[q] == id,
    ensures
        q <= last_index(ids, id) < ids.len(),
        ids[last_index(ids, id)] == id,
{
    lemma_last_index_below(ids, id, q, ids.len() as int);
}

proof fn lemma_last_index_below(ids: Seq<u64>, id: u64, q: int, n: int)
    requires
        0 <= q < n <= ids.len(),
        ids[q] == id,
    ensures
        q <= last_index_below(ids, id, n) < n,
        ids[last_index_below(ids, id, n)] == id,
    decreases n,
{
    if ids[n - 1] != id {
        lemma_last_index_below(ids, id, q, n - 1);
    }
}

/// The neighbor list of a node is ordered by (edge type, target id) and holds
/// exactly the node's edges.
pub proof fn lemma_neighbors_sorted(edges: Map<u64, Vec<Edge>>, id: u64)
    ensures
        is_sorted(sorted_neighbors(edges, id)),
        sorted_neighbors(edges, id).to_multiset() == edge_keys_of(edges, id).to_multiset(),
{
    lemma_sort_pairs(edge_keys_of(edges, id));
}

/// The final digests are taken in order of node id, ties in node order, each node once.
pub proof fn lemma_final_order(ids: Seq<u64>)
    ensures
        is_sorted(final_order(ids)),
        final_order(ids).to_multiset() == Seq::new(ids.len(), |k: int| (ids[k], k as u64)).to_multiset(),
        final_order(ids).len() == ids.len(),
{
    lemma_sort_pairs(Seq::new(ids.len(), |k: int| (ids[k], k as u64)));
}

proof fn lemma_mixed_lists_len(
    ids: Seq<u64>,
    lists0: Seq<Seq<Seq<u8>>>,
    edges: Map<u64, Vec<Edge>>,
    n: nat,
    rc: Seq<Seq<u64>>,
)
    requires
        lists0.len() == ids.len(),
    ensures
        mixed_lists(ids, lists0, edges, n, rc).len() == ids.len(),
        forall|k: int|
            0 <= k < ids.len() ==> (#[trigger] mixed_lists(ids, lists0, edges, n, rc)[k]).len()
                == lists0[k].len() + n,
    decreases n,
{
    if n > 0 {
        lemma_mixed_lists_len(ids, lists0, edges, (n - 1) as nat, rc);
    }
}

/// Building appends `rounds + 1` digests to every node and keeps the ones it had;
/// the first one appended is the digest of the node's `node_input`.
pub proof fn lemma_built_lists(
    nodes: Seq<Node>,
    edges: Map<u64, Vec<Edge>>,
    rounds: nat,
    rc: Seq<Seq<u64>>,
)
    ensures
        built_lists(nodes, edges, rounds, rc).len() == nodes.len(),
        forall|k: int|
            0 <= k < nodes.len() ==> {
                let l = #[trigger] built_lists(nodes, edges, rounds, rc)[k];
                let old_len = nodes[k].hashs@.len();
                &&& l.len() == old_len + rounds + 1
                &&& l.take(old_len as int) == digest_list(nodes[k])
                &&& l[old_len as int] == spec_h_node(node_input(nodes[k]), rc)
            },
    decreases rounds,
{
    let ids = node_ids(nodes);
    let l0 = initial_lists(nodes, rc);
    lemma_mixed_lists_len(ids, l0, edges, rounds, rc);
    lemma_mixed_lists_prefix(ids, l0, edges, rounds, rc);
    assert forall|k: int| 0 <= k < nodes.len() implies {
        let l = #[trigger] built_lists(nodes, edges, rounds, rc)[k];
        let old_len = nodes[k].hashs@.len();
        &&& l.len() == old_len + rounds + 1
        &&& l.take(old_len as int) == digest_list(nodes[k])
        &&& l[old_len as int] == spec_h_node(node_input(nodes[k]), rc)
    } by {
        let l = built_lists(nodes, edges, rounds, rc)[k];
        let old_len = nodes[k].hashs@.len();
        assert(l.take(l0[k].len() as int) == l0[k]);
        assert(l0[k] == digest_list(nodes[k]).push(spec_h_node(node_input(nodes[k]), rc)));
        assert(l.take(old_len as int) =~= l0[k].take(old_len as int));
        assert(l0[k].take(old_len as int) =~= digest_list(nodes[k]));
        assert(l[old_len as int] == l0[k][old_len as int]);
    }
}

proof fn lemma_mixed_lists_prefix(
    ids: Seq<u64>,
    lists0: Seq<Seq<Seq<u8>>>,
    edges: Map<u64, Vec<Edge>>,
    n: nat,
    rc: Seq<Seq<u64>>,
)
    requires
        lists0.len() == ids.len(),
    ensures
        forall|k: int|
            0 <= k < ids.len() ==> (#[trigger] mixed_lists(ids, lists0, edges, n, rc)[k]).take(
                lists0[k].len() as int,
            ) == lists0[k],
    decreases n,
{
    if n == 0 {
        assert forall|k: int| 0 <= k < ids.len() implies (#[trigger] mixed_lists(
            ids,
            lists0,
            edges,
            n,
            rc,
        )[k]).take(lists0[k].len() as int) == lists0[k] by {
            assert(lists0[k].take(lists0[k].len() as int) =~= lists0[k]);
        }
    } else {
        lemma_mixed_lists_prefix(ids, lists0, edges, (n - 1) as nat, rc);
        lemma_mixed_lists_len(ids, lists0, edges, (n - 1) as nat, rc);
        let prev = mixed_lists(ids, lists0, edges, (n - 1) as nat, rc);
        assert forall|k: int| 0 <= k < ids.len() implies (#[trigger] mixed_lists(
            ids,
            lists0,
            edges,
            n,
            rc,
        )[k]).take(lists0[k].len() as int) == lists0[k] by {
            let cur = mixed_lists(ids, lists0, edges, n, rc)[k];
            assert(prev[k].take(lists0[k].len() as int) == lists0[k]);
            assert(cur.take(lists0[k].len() as int) =~= prev[k].take(lists0[k].len() as int));
        }
    }
}

/// The fingerprint is exactly `out_len` bytes, and a shorter fingerprint is the
/// beginning of a longer one of the same graph.
pub proof fn lemma_graph_output_prefix(
    ids: Seq<u64>,
    lists: Seq<Seq<Seq<u8>>>,
    meta: Seq<u8>,
    rounds: nat,
    n: nat,
    m: nat,
    rc: Seq<Seq<u64>>,
)
    requires
        n <= m,
    ensures
        graph_output(ids, lists, meta, rounds, n, rc).len() == n,
        graph_output(ids, lists, meta, rounds, n, rc) == graph_output(
            ids,
            lists,
            meta,
            rounds,
            m,
            rc,
        ).take(n as int),
{
    let s0 = spec_absorb(zero_state(), DOMAIN_FINAL, le_bytes_u64(meta.len() as u64) + meta, rc);
    lemma_squeeze_prefix(absorb_digests(s0, final_digests(ids, lists, rounds), rc), n, m, rc);
}

proof fn lemma_mixed_lists_same_neighbors(
    ids: Seq<u64>,
    lists0: Seq<Seq<Seq<u8>>>,
    e1: Map<u64, Vec<Edge>>,
    e2: Map<u64, Vec<Edge>>,
    n: nat,
    rc: Seq<Seq<u64>>,
)
    requires
        forall|id: u64| #[trigger] sorted_neighbors(e1, id) == sorted_neighbors(e2, id),
    ensures
        mixed_lists(ids, lists0, e1, n, rc) == mixed_lists(ids, lists0, e2, n, rc),
    decreases n,
{
    if n > 0 {
        lemma_mixed_lists_same_neighbors(ids, lists0, e1, e2, (n - 1) as nat, rc);
        let prev = mixed_lists(ids, lists0, e1, (n - 1) as nat, rc);
        assert forall|k: int| 0 <= k < ids.len() implies #[trigger] round_lists(
            ids,
            prev,
            e1,
            n - 1,
            rc,
        )[k] == round_lists(ids, prev, e2, n - 1, rc)[k] by {
            let j = last_index(ids, ids[k]);
            assert(sorted_neighbors(e1, ids[j]) == sorted_neighbors(e2, ids[j]));
        }
        assert(round_lists(ids, prev, e1, n - 1, rc) =~= round_lists(ids, prev, e2, n - 1, rc));
    }
}

/// The order in which a node's edges are listed does not matter: when every node has
/// the same (type, target) edges in both maps, building gives the same digests and the
/// same fingerprint.
pub proof fn lemma_edge_order_free(
    nodes: Seq<Node>,
    e1: Map<u64, Vec<Edge>>,
    e2: Map<u64, Vec<Edge>>,
    meta: Seq<u8>,
    rounds: nat,
    out_len: nat,
    rc: Seq<Seq<u64>>,
)
    requires
        forall|id: u64|
            #[trigger] edge_keys_of(e1, id).to_multiset() == edge_keys_of(e2, id).to_multiset(),
    ensures
        built_lists(nodes, e1, rounds, rc) == built_lists(nodes, e2, rounds, rc),
        graph_output(node_ids(nodes), built_lists(nodes, e1, rounds, rc), meta, rounds, out_len, rc)
            == graph_output(
            node_ids(nodes),
            built_lists(nodes, e2, rounds, rc),
            meta,
            rounds,
            out_len,
            rc,
        ),
{
    assert forall|id: u64| #[trigger] sorted_neighbors(e1, id) == sorted_neighbors(e2, id) by {
        assert(edge_keys_of(e1, id).to_multiset() == edge_keys_of(e2, id).to_multiset());
        lemma_sort_pairs_order_free(edge_keys_of(e1, id), edge_keys_of(e2, id));
    }
    lemma_mixed_lists_same_neighbors(
        node_ids(nodes),
        initial_lists(nodes, rc),
        e1,
        e2,
        rounds,
        rc,
    );
}

/// The neighbor bytes of a list of neighbors are the bytes of each neighbor in turn:
/// those of one neighbor are its round-`r` digest, and those of two lists one after
/// another are the bytes of the first list followed by those of the second.
pub proof fn lemma_neighbor_concat_splits(
    ids: Seq<u64>,
    lists: Seq<Seq<Seq<u8>>>,
    a: Seq<(u64, u64)>,
    b: Seq<(u64, u64)>,
    r: int,
)
    ensures
        a.len() == 1 ==> neighbor_concat(ids, lists, a, r) == neighbor_digest(ids, lists, a[0].1, r),
        neighbor_concat(ids, lists, a + b, r) == neighbor_concat(ids, lists, a, r) + neighbor_concat(
            ids,
            lists,
            b,
            r,
        ),
    decreases b.len(),
{
    if a.len() == 1 {
        assert(a.drop_last() =~= Seq::<(u64, u64)>::empty());
        assert(neighbor_concat(ids, lists, a.drop_last(), r) == Seq::<u8>::empty());
        assert(neighbor_concat(ids, lists, a, r) =~= neighbor_digest(ids, lists, a[0].1, r));
    }
    if b.len() == 0 {
        assert(a + b =~= a);
        assert(neighbor_concat(ids, lists, a, r) + Seq::<u8>::empty() =~= neighbor_concat(
            ids,
            lists,
            a,
            r,
        ));
    } else {
        lemma_neighbor_concat_splits(ids, lists, a, b.drop_last(), r);
        assert((a + b).drop_last() =~= a + b.drop_last());
        assert((a + b).last() == b.last());
        assert(neighbor_concat(ids, lists, a + b, r) =~= neighbor_concat(ids, lists, a, r)
            + neighbor_concat(ids, lists, b, r));
    }
}

/// The neighbor digest of `to` is the round-`r` digest of the first node with id `to`
/// when that node has one, and nothing when no node has id `to` or it has none.
pub proof fn lemma_neighbor_digest_is_first(
    ids: Seq<u64>,
    lists: Seq<Seq<Seq<u8>>>,
    to: u64,
    r: int,
)
    ensures
        forall|j: int|
            0 <= j < ids.len() && ids[j] == to && (forall|i: int| 0 <= i < j ==> ids[i] != to)
                ==> neighbor_digest(ids, lists, to, r) == if 0 <= r < lists[j].len() {
                lists[j][r]
            } else {
                Seq::<u8>::empty()
            },
        !ids.contains(to) ==> neighbor_digest(ids, lists, to, r) == Seq::<u8>::empty(),
{
    assert forall|j: int|
        0 <= j < ids.len() && ids[j] == to && (forall|i: int| 0 <= i < j ==> ids[i] != to)
            implies neighbor_digest(ids, lists, to, r) == if 0 <= r < lists[j].len() {
        lists[j][r]
    } else {
        Seq::<u8>::empty()
    } by {
        lemma_find_first_from_is(ids, to, 0, j);
    }
    if !ids.contains(to) {
        lemma_find_first_from_none(ids, to, 0);
    }
}

proof fn lemma_find_first_from_is(ids: Seq<u64>, to: u64, start: int, j: int)
    requires
        0 <= start <= j < ids.len(),
        ids[j] == to,
        forall|i: int| 0 <= i < j ==> ids[i] != to,
    ensures
        find_first_from(ids, to, start) == Some(j),
    decreases j - start,
{
    if start < j {
        lemma_find_first_from_is(ids, to, start + 1, j);
    }
}

proof fn lemma_find_first_from_none(ids: Seq<u64>, to: u64, start: int)
    requires
        0 <= start <= ids.len(),
        !ids.contains(to),
    ensures
        find_first_from(ids, to, start) is None,
    decreases ids.len() - start,
{
    if start < ids.len() {
        assert(ids[start] != to);
        lemma_find_first_from_none(ids, to, start + 1);
    }
}

/// The round-`r + 1` digest of node `k` is the digest of the message laid out as:
/// the mixing domain byte, the node's round-`r` digest, the length of the neighbor bytes
/// (u64 little-endian), all the neighbor bytes, and `r` (u64 little-endian).
pub proof fn lemma_next_digest_message(
    ids: Seq<u64>,
    lists: Seq<Seq<Seq<u8>>>,
    edges: Map<u64, Vec<Edge>>,
    k: int,
    r: int,
    rc: Seq<Seq<u64>>,
    m: Seq<u8>,
)
    requires
        ({
            let own = lists[k][r];
            let c = neighbor_concat(ids, lists, sorted_neighbors(edges, ids[k]), r);
            let o = own.len() as int;
            let n = c.len() as int;
            &&& m.len() == 1 + o + 8 + n + 8
            &&& m[0] == DOMAIN_MIX
            &&& m.subrange(1, 1 + o) == own
            &&& m.subrange(1 + o, 9 + o) == le_bytes_u64(c.len() as u64)
            &&& m.subrange(9 + o, 9 + o + n) == c
            &&& m.subrange(9 + o + n, m.len() as int) == le_bytes_u64(r as u64)
        }),
    ensures
        next_digest(ids, lists, edges, k, r, rc) == spec_h_node(m, rc),
{
    let own = lists[k][r];
    let c = neighbor_concat(ids, lists, sorted_neighbors(edges, ids[k]), r);
    let mi = mix_input(own, c, r);
    let o = own.len() as int;
    let n = c.len() as int;
    assert forall|i: int| 0 <= i < m.len() implies m[i] == mi[i] by {
        if 1 <= i < 1 + o {
            assert(m[i] == m.subrange(1, 1 + o)[i - 1]);
        } else if 1 + o <= i < 9 + o {
            assert(m[i] == m.subrange(1 + o, 9 + o)[i - 1 - o]);
        } else if 9 + o <= i < 9 + o + n {
            assert(m[i] == m.subrange(9 + o, 9 + o + n)[i - 9 - o]);
        } else if 9 + o + n <= i {
            assert(m[i] == m.subrange(9 + o + n, m.len() as int)[i - 9 - o - n]);
        }
    }
    assert(m =~= mi);
}

} // verus!
