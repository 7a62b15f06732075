use vstd::prelude::*;

use super::graph::{
    built_lists, digest_list, final_digest, final_digests, final_order, find_first,
    find_first_from, graph_output, initial_lists, last_index, last_index_below, lemma_final_order,
    mix_input, neighbor_concat, neighbor_digest, next_digest, node_ids, node_input, round_lists,
    mixed_lists, same_node_data, sorted_neighbors, Edge, Node,
};
use super::sorting::pair_lt;
use super::sponge::spec_h_node;

verus! {

/// The digest lists of a graph, keyed by node id.
pub type DigestMap = Map<u64, Seq<Seq<u8>>>;

/// The round-`r` digest of the node with id `to`, when there is one and it has one.
pub open spec fn keyed_digest(m: DigestMap, to: u64, r: int) -> Seq<u8> {
    if m.contains_key(to) && 0 <= r < m[to].len() {
        m[to][r]
    } else {
        Seq::empty()
    }
}

/// The round-`r` digests of the neighbors, one after another, looked up by id.
pub open spec fn keyed_concat(m: DigestMap, nbrs: Seq<(u64, u64)>, r: int) -> Seq<u8>
    decreases nbrs.len(),
{
    if nbrs.len() == 0 {
        Seq::empty()
    } else {
        keyed_concat(m, nbrs.drop_last(), r) + keyed_digest(m, nbrs.last().1, r)
    }
}

/// The round-`r + 1` digest of the node with id `x`, looked up by id.
pub open spec fn keyed_next(
    m: DigestMap,
    edges: Map<u64, Vec<Edge>>,
    x: u64,
    r: int,
    rc: Seq<Seq<u64>>,
) -> Seq<u8> {
    spec_h_node(mix_input(m[x][r], keyed_concat(m, sorted_neighbors(edges, x), r), r), rc)
}

/// One mixing round over digest lists keyed by id.
pub open spec fn keyed_round(
    m: DigestMap,
    edges: Map<u64, Vec<Edge>>,
    r: int,
    rc: Seq<Seq<u64>>,
) -> DigestMap {
    Map::new(|x: u64| m.contains_key(x), |x: u64| m[x].push(keyed_next(m, edges, x, r, rc)))
}

/// Mixing rounds `0..n` over digest lists keyed by id.
pub open spec fn keyed_mixed(
    m0: DigestMap,
    edges: Map<u64, Vec<Edge>>,
    n: nat,
    rc: Seq<Seq<u64>>,
) -> DigestMap
    decreases n,
{
    if n == 0 {
        m0
    } else {
        keyed_round(keyed_mixed(m0, edges, (n - 1) as nat, rc), edges, n - 1, rc)
    }
}

/// `lists`, in the order of `ids`, are the lists that `m` gives each id, and `m`
/// keys exactly those ids.
pub open spec fn represents(ids: Seq<u64>, lists: Seq<Seq<Seq<u8>>>, m: DigestMap) -> bool {
    &&& lists.len() == ids.len()
    &&& forall|x: u64| m.contains_key(x) <==> #[trigger] ids.contains(x)
    &&& forall|k: int| 0 <= k < ids.len() ==> #[trigger] lists[k] == m[ids[k]]
}

/// The lists keyed by the ids in `ids`.
pub open spec fn keyed_by_id(ids: Seq<u64>, lists: Seq<Seq<Seq<u8>>>) -> DigestMap {
    Map::new(|x: u64| ids.contains(x), |x: u64| lists[find_first(ids, x).unwrap()])
}

/// The ids in the order their final digests are absorbed.
pub open spec fn final_ids(ids: Seq<u64>) -> Seq<u64> {
    final_order(ids).map_values(|p: (u64, u64)| p.0)
}

/// The digest at index `rounds` of the list of id `x`, or 32 zero bytes.
pub open spec fn keyed_final(m: DigestMap, x: u64, rounds: nat) -> Seq<u8> {
    if rounds < m[x].len() {
        m[x][rounds as int]
    } else {
        Seq::new(32, |i: int| 0u8)
    }
}

proof fn lemma_find_from(ids: Seq<u64>, x: u64, j: int)
    requires
        0 <= j <= ids.len(),
        ids.no_duplicates(),
    ensures
        (exists|i: int| j <= i < ids.len() && ids[i] == x) ==> (find_first_from(ids, x, j) matches Some(
            m,
        ) && j <= m < ids.len() && ids[m] == x),
        !(exists|i: int| j <= i < ids.len() && ids[i] == x) ==> find_first_from(ids, x, j) is None,
    decreases ids.len() - j,
{
    if j < ids.len() && ids[j] != x {
        lemma_find_from(ids, x, j + 1);
        if exists|i: int| j <= i < ids.len() && ids[i] == x {
            let i = choose|i: int| j <= i < ids.len() && ids[i] == x;
            assert(j + 1 <= i);
        }
    }
}

proof fn lemma_find_first(ids: Seq<u64>, x: u64)
    requires
        ids.no_duplicates(),
    ensures
        ids.contains(x) ==> (find_first(ids, x) matches Some(m) && 0 <= m < ids.len() && ids[m]
            == x),
        !ids.contains(x) ==> find_first(ids, x) is None,
{
    lemma_find_from(ids, x, 0);
}

proof fn lemma_last_index_distinct(ids: Seq<u64>, k: int)
    requires
        ids.no_duplicates(),
        0 <= k < ids.len(),
    ensures
        last_index(ids, ids[k]) == k,
{
    lemma_last_index_below_distinct(ids, ids[k], k, ids.len() as int);
}

proof fn lemma_last_index_below_distinct(ids: Seq<u64>, id: u64, k: int, n: int)
    requires
        ids.no_duplicates(),
        0 <= k < n <= ids.len(),
        ids[k] == id,
    ensures
        last_index_below(ids, id, n) == k,
    decreases n,
{
    if n - 1 != k {
        assert(ids[n - 1] != id);
        lemma_last_index_below_distinct(ids, id, k, n - 1);
    }
}

proof fn lemma_concat_keyed(
    ids: Seq<u64>,
    lists: Seq<Seq<Seq<u8>>>,
    m: DigestMap,
    nbrs: Seq<(u64, u64)>,
    r: int,
)
    requires
        ids.no_duplicates(),
        represents(ids, lists, m),
    ensures
        neighbor_concat(ids, lists, nbrs, r) == keyed_concat(m, nbrs, r),
    decreases nbrs.len(),
{
    if nbrs.len() > 0 {
        lemma_concat_keyed(ids, lists, m, nbrs.drop_last(), r);
        let to = nbrs.last().1;
        lemma_find_first(ids, to);
        if ids.contains(to) {
            let j = find_first(ids, to).unwrap();
            assert(lists[j] == m[ids[j]]);
        }
        assert(neighbor_digest(ids, lists, to, r) == keyed_digest(m, to, r));
    }
}

proof fn lemma_round_keyed(
    ids: Seq<u64>,
    lists: Seq<Seq<Seq<u8>>>,
    m: DigestMap,
    edges: Map<u64, Vec<Edge>>,
    r: int,
    rc: Seq<Seq<u64>>,
)
    requires
        ids.no_duplicates(),
        represents(ids, lists, m),
    ensures
        represents(ids, round_lists(ids, lists, edges, r, rc), keyed_round(m, edges, r, rc)),
{
    let nl = round_lists(ids, lists, edges, r, rc);
    let nm = keyed_round(m, edges, r, rc);
    assert forall|k: int| 0 <= k < ids.len() implies #[trigger] nl[k] == nm[ids[k]] by {
        lemma_last_index_distinct(ids, k);
        assert(ids.contains(ids[k]));
        lemma_concat_keyed(ids, lists, m, sorted_neighbors(edges, ids[k]), r);
        assert(next_digest(ids, lists, edges, k, r, rc) == keyed_next(m, edges, ids[k], r, rc));
    }
}

proof fn lemma_mixed_keyed(
    ids: Seq<u64>,
    lists0: Seq<Seq<Seq<u8>>>,
    m0: DigestMap,
    edges: Map<u64, Vec<Edge>>,
    n: nat,
    rc: Seq<Seq<u64>>,
)
    requires
        ids.no_duplicates(),
        represents(ids, lists0, m0),
    ensures
        represents(ids, mixed_lists(ids, lists0, edges, n, rc), keyed_mixed(m0, edges, n, rc)),
    decreases n,
{
    if n > 0 {
        lemma_mixed_keyed(ids, lists0, m0, edges, (n - 1) as nat, rc);
        lemma_round_keyed(
            ids,
            mixed_lists(ids, lists0, edges, (n - 1) as nat, rc),
            keyed_mixed(m0, edges, (n - 1) as nat, rc),
            edges,
            n - 1,
            rc,
        );
    }
}

proof fn lemma_keyed_by_id(ids: Seq<u64>, lists: Seq<Seq<Seq<u8>>>)
    requires
        ids.no_duplicates(),
        lists.len() == ids.len(),
    ensures
        represents(ids, lists, keyed_by_id(ids, lists)),
{
    let m = keyed_by_id(ids, lists);
    assert forall|k: int| 0 <= k < ids.len() implies #[trigger] lists[k] == m[ids[k]] by {
        assert(ids.contains(ids[k]));
        lemma_find_first(ids, ids[k]);
    }
}

/// The pairs that the final order sorts, and facts about their sorted order.
proof fn lemma_final_ids(ids: Seq<u64>)
    requires
        ids.no_duplicates(),
        ids.len() <= u64::MAX,
    ensures
        final_order(ids).len() == ids.len(),
        forall|i: int|
            0 <= i < ids.len() ==> {
                let p = #[trigger] final_order(ids)[i];
                &&& 0 <= p.1 < ids.len()
                &&& ids[p.1 as int] == p.0
            },
        forall|i: int, j: int|
            0 <= i < j < ids.len() ==> #[trigger] final_ids(ids)[i] < #[trigger] final_ids(ids)[j],
        forall|x: u64| #[trigger] final_ids(ids).contains(x) <==> ids.contains(x),
{
    broadcast use vstd::seq_lib::group_to_multiset_ensures;

    let s = Seq::new(ids.len(), |k: int| (ids[k], k as u64));
    let order = final_order(ids);
    lemma_final_order(ids);
    assert(order.to_multiset() == s.to_multiset());
    assert forall|p: (u64, u64)| #[trigger] order.contains(p) <==> s.contains(p) by {
        assert(order.to_multiset().count(p) == s.to_multiset().count(p));
    }
    assert forall|i: int| 0 <= i < ids.len() implies {
        let p = #[trigger] order[i];
        &&& 0 <= p.1 < ids.len()
        &&& ids[p.1 as int] == p.0
    } by {
        assert(order.contains(order[i]));
        let k = choose|k: int| 0 <= k < s.len() && s[k] == order[i];
        assert(s[k] == (ids[k], k as u64));
    }
    assert(s.no_duplicates()) by {
        assert forall|a: int, b: int| 0 <= a < s.len() && 0 <= b < s.len() && a != b implies s[a]
            != s[b] by {
            assert(s[a].1 == a as u64);
            assert(s[b].1 == b as u64);
        }
    }
    s.lemma_multiset_has_no_duplicates();
    assert forall|p: (u64, u64)| order.to_multiset().contains(p) implies order.to_multiset().count(
        p,
    ) == 1 by {
        assert(s.to_multiset().contains(p));
    }
    order.lemma_multiset_has_no_duplicates_conv();
    let q = final_ids(ids);
    assert forall|i: int, j: int| 0 <= i < j < ids.len() implies #[trigger] q[i] < #[trigger] q[j] by {
        assert(!pair_lt(order[j], order[i]));
        assert(order[i] != order[j]);
        if order[i].0 == order[j].0 {
            let a = order[i].1 as int;
            let b = order[j].1 as int;
            assert(ids[a] == ids[b]);
            assert(a == b);
        }
    }
    assert forall|x: u64| #[trigger] q.contains(x) <==> ids.contains(x) by {
        if q.contains(x) {
            let i = choose|i: int| 0 <= i < q.len() && q[i] == x;
            let p = order[i];
            assert(ids[p.1 as int] == x);
        }
        if ids.contains(x) {
            let k = choose|k: int| 0 <= k < ids.len() && ids[k] == x;
            assert(s[k] == (x, k as u64));
            assert(s.contains(s[k]));
            assert(order.contains(s[k]));
            let i = choose|i: int| 0 <= i < order.len() && order[i] == s[k];
            assert(q[i] == x);
        }
    }
}

proof fn lemma_increasing_unique(a: Seq<u64>, b: Seq<u64>)
    requires
        forall|i: int, j: int| 0 <= i < j < a.len() ==> #[trigger] a[i] < #[trigger] a[j],
        forall|i: int, j: int| 0 <= i < j < b.len() ==> #[trigger] b[i] < #[trigger] b[j],
        forall|x: u64| #![trigger a.contains(x)] #![trigger b.contains(x)] a.contains(x) <==> b.contains(x),
    ensures
        a == b,
    decreases a.len(),
{
    if a.len() == 0 {
        if b.len() > 0 {
            assert(b.contains(b[0]));
            assert(a.contains(b[0]));
        }
        assert(a =~= b);
    } else {
        assert(a.contains(a.last()));
        assert(b.contains(a.last()));
        assert(b.len() > 0);
        assert(b.contains(b.last()));
        assert(a.contains(b.last()));
        let i = choose|i: int| 0 <= i < b.len() && b[i] == a.last();
        let j = choose|j: int| 0 <= j < a.len() && a[j] == b.last();
        if i < b.len() - 1 {
            assert(b[i] < b[b.len() - 1]);
        }
        if j < a.len() - 1 {
            assert(a[j] < a[a.len() - 1]);
        }
        assert(a.last() == b.last());
        let da = a.drop_last();
        let db = b.drop_last();
        assert forall|x: u64| #![trigger da.contains(x)] #![trigger db.contains(x)] da.contains(x) <==> db.contains(x) by {
            if da.contains(x) {
                let p = choose|p: int| 0 <= p < da.len() && da[p] == x;
                assert(a.contains(x));
                assert(x < a.last());
                let t = choose|t: int| 0 <= t < b.len() && b[t] == x;
                assert(t != b.len() - 1);
                assert(db[t] == x);
            }
            if db.contains(x) {
                let p = choose|p: int| 0 <= p < db.len() && db[p] == x;
                assert(b.contains(x));
                assert(x < b.last());
                let t = choose|t: int| 0 <= t < a.len() && a[t] == x;
                assert(t != a.len() - 1);
                assert(da[t] == x);
            }
        }
        lemma_increasing_unique(da, db);
        assert(a =~= da.push(a.last()));
        assert(b =~= db.push(b.last()));
    }
}

proof fn lemma_final_digests_keyed(
    ids: Seq<u64>,
    lists: Seq<Seq<Seq<u8>>>,
    m: DigestMap,
    rounds: nat,
)
    requires
        ids.no_duplicates(),
        ids.len() <= u64::MAX,
        represents(ids, lists, m),
    ensures
        final_digests(ids, lists, rounds) == final_ids(ids).map_values(
            |x: u64| keyed_final(m, x, rounds),
        ),
{
    lemma_final_ids(ids);
    let fd = final_digests(ids, lists, rounds);
    let kd = final_ids(ids).map_values(|x: u64| keyed_final(m, x, rounds));
    assert forall|i: int| 0 <= i < ids.len() implies #[trigger] fd[i] == kd[i] by {
        let p = final_order(ids)[i];
        assert(lists[p.1 as int] == m[ids[p.1 as int]]);
        assert(fd[i] == final_digest(lists, p.1 as int, rounds));
    }
    assert(fd =~= kd);
}

/// The order of the nodes does not matter: two graphs whose nodes have distinct ids,
/// the same ids, and for each id the same id, metadata, content and earlier digests,
/// get for each id the same digests and have the same fingerprint.
pub proof fn lemma_node_order_free(
    nodes1: Seq<Node>,
    nodes2: Seq<Node>,
    edges: Map<u64, Vec<Edge>>,
    meta: Seq<u8>,
    rounds: nat,
    out_len: nat,
    rc: Seq<Seq<u64>>,
)
    requires
        nodes1.len() <= u64::MAX,
        nodes2.len() <= u64::MAX,
        node_ids(nodes1).no_duplicates(),
        node_ids(nodes2).no_duplicates(),
        forall|x: u64| #[trigger] node_ids(nodes1).contains(x) <==> node_ids(nodes2).contains(x),
        forall|i: int, j: int|
            0 <= i < nodes1.len() && 0 <= j < nodes2.len() && #[trigger] nodes1[i].id
                == #[trigger] nodes2[j].id ==> same_node_data(nodes1[i], nodes2[j]) && digest_list(
                nodes1[i],
            ) == digest_list(nodes2[j]),
    ensures
        forall|i: int, j: int|
            0 <= i < nodes1.len() && 0 <= j < nodes2.len() && nodes1[i].id == nodes2[j].id
                ==> #[trigger] built_lists(nodes1, edges, rounds, rc)[i] == #[trigger] built_lists(
                nodes2,
                edges,
                rounds,
                rc,
            )[j],
        graph_output(
            node_ids(nodes1),
            built_lists(nodes1, edges, rounds, rc),
            meta,
            rounds,
            out_len,
            rc,
        ) == graph_output(
            node_ids(nodes2),
            built_lists(nodes2, edges, rounds, rc),
            meta,
            rounds,
            out_len,
            rc,
        ),
{
    let ids1 = node_ids(nodes1);
    let ids2 = node_ids(nodes2);
    let l1 = initial_lists(nodes1, rc);
    let l2 = initial_lists(nodes2, rc);
    let m1 = keyed_by_id(ids1, l1);
    let m2 = keyed_by_id(ids2, l2);
    lemma_keyed_by_id(ids1, l1);
    lemma_keyed_by_id(ids2, l2);
    assert forall|x: u64| #[trigger] m1.contains_key(x) implies m1[x] == m2[x] by {
        lemma_find_first(ids1, x);
        lemma_find_first(ids2, x);
        let i = find_first(ids1, x).unwrap();
        let j = find_first(ids2, x).unwrap();
        assert(nodes1[i].id == ids1[i]);
        assert(nodes2[j].id == ids2[j]);
        assert(same_node_data(nodes1[i], nodes2[j]));
        assert(node_input(nodes1[i]) == node_input(nodes2[j]));
    }
    assert(m1 =~= m2);
    lemma_mixed_keyed(ids1, l1, m1, edges, rounds, rc);
    lemma_mixed_keyed(ids2, l2, m1, edges, rounds, rc);
    let k = keyed_mixed(m1, edges, rounds, rc);
    let b1 = built_lists(nodes1, edges, rounds, rc);
    let b2 = built_lists(nodes2, edges, rounds, rc);
    assert forall|i: int, j: int|
        0 <= i < nodes1.len() && 0 <= j < nodes2.len() && nodes1[i].id == nodes2[j].id implies #[trigger] b1[i]
        == #[trigger] b2[j] by {
        assert(b1[i] == k[ids1[i]]);
        assert(b2[j] == k[ids2[j]]);
    }
    lemma_final_ids(ids1);
    lemma_final_ids(ids2);
    lemma_increasing_unique(final_ids(ids1), final_ids(ids2));
    lemma_final_digests_keyed(ids1, b1, k, rounds);
    lemma_final_digests_keyed(ids2, b2, k, rounds);
}

} // verus!
