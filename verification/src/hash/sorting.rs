use vstd::prelude::*;

verus! {

/// Lexicographic order on pairs: `a` comes strictly before `b`.
pub open spec fn pair_lt(a: (u64, u64), b: (u64, u64)) -> bool {
    a.0 < b.0 || (a.0 == b.0 && a.1 < b.1)
}

/// `s` is in non-decreasing lexicographic order.
pub open spec fn is_sorted(s: Seq<(u64, u64)>) -> bool {
    forall|i: int, j: int| 0 <= i < j < s.len() ==> !pair_lt(#[trigger] s[j], #[trigger] s[i])
}

/// Inserts `x` into `s` just after the last element that `x` does not come before.
pub open spec fn insert_sorted(s: Seq<(u64, u64)>, x: (u64, u64)) -> Seq<(u64, u64)>
    decreases s.len(),
{
    if s.len() == 0 {
        seq![x]
    } else if pair_lt(x, s.last()) {
        insert_sorted(s.drop_last(), x).push(s.last())
    } else {
        s.push(x)
    }
}

/// Insertion sort: the elements of `s` inserted one after another, first to last.
pub open spec fn sort_pairs(s: Seq<(u64, u64)>) -> Seq<(u64, u64)>
    decreases s.len(),
{
    if s.len() == 0 {
        s
    } else {
        insert_sorted(sort_pairs(s.drop_last()), s.last())
    }
}

proof fn lemma_insert_at(s: Seq<(u64, u64)>, x: (u64, u64), p: int)
    requires
        0 <= p <= s.len(),
        forall|q: int| p <= q < s.len() ==> pair_lt(x, #[trigger] s[q]),
        p > 0 ==> !pair_lt(x, s[p - 1]),
    ensures
        insert_sorted(s, x) == s.insert(p, x),
    decreases s.len(),
{
    if s.len() == 0 {
        assert(s.insert(p, x) =~= seq![x]);
    } else if p == s.len() {
        assert(s.insert(p, x) =~= s.push(x));
    } else {
        assert(pair_lt(x, s[s.len() - 1]));
        lemma_insert_at(s.drop_last(), x, p);
        assert(s.drop_last().insert(p, x).push(s.last()) =~= s.insert(p, x));
    }
}

proof fn lemma_insert_upper_bound(s: Seq<(u64, u64)>, x: (u64, u64), ub: (u64, u64))
    requires
        forall|i: int| 0 <= i < s.len() ==> !pair_lt(ub, #[trigger] s[i]),
        !pair_lt(ub, x),
    ensures
        forall|i: int|
            0 <= i < insert_sorted(s, x).len() ==> !pair_lt(ub, #[trigger] insert_sorted(s, x)[i]),
        insert_sorted(s, x).len() == s.len() + 1,
    decreases s.len(),
{
    if s.len() > 0 && pair_lt(x, s.last()) {
        lemma_insert_upper_bound(s.drop_last(), x, ub);
    }
}

proof fn lemma_insert_sorted(s: Seq<(u64, u64)>, x: (u64, u64))
    requires
        is_sorted(s),
    ensures
        is_sorted(insert_sorted(s, x)),
        insert_sorted(s, x).to_multiset() == s.to_multiset().insert(x),
        insert_sorted(s, x).len() == s.len() + 1,
    decreases s.len(),
{
    broadcast use vstd::seq_lib::to_multiset_build;

    if s.len() == 0 {
        assert(insert_sorted(s, x) =~= s.push(x));
    } else if pair_lt(x, s.last()) {
        let init = s.drop_last();
        assert(is_sorted(init));
        lemma_insert_sorted(init, x);
        lemma_insert_upper_bound(init, x, s.last());
        assert(init.push(s.last()) =~= s);
        assert(insert_sorted(s, x).to_multiset() =~= s.to_multiset().insert(x));
    }
}

/// Insertion sort orders its input and keeps exactly its elements.
pub proof fn lemma_sort_pairs(s: Seq<(u64, u64)>)
    ensures
        is_sorted(sort_pairs(s)),
        sort_pairs(s).to_multiset() == s.to_multiset(),
        sort_pairs(s).len() == s.len(),
    decreases s.len(),
{
    broadcast use vstd::seq_lib::to_multiset_build;

    if s.len() > 0 {
        lemma_sort_pairs(s.drop_last());
        lemma_insert_sorted(sort_pairs(s.drop_last()), s.last());
        assert(s.drop_last().push(s.last()) =~= s);
    }
    broadcast use vstd::seq_lib::group_to_multiset_ensures;

}

fn pair_lt_exec(a: (u64, u64), b: (u64, u64)) -> (r: bool)
    ensures
        r == pair_lt(a, b),
{
    a.0 < b.0 || (a.0 == b.0 && a.1 < b.1)
}

/// Sorts `v` lexicographically, keeping equal pairs in input order.
pub fn sort_pairs_exec(v: &Vec<(u64, u64)>) -> (r: Vec<(u64, u64)>)
    ensures
        r@ == sort_pairs(v@),
{
    let mut out: Vec<(u64, u64)> = Vec::new();
    let mut i: usize = 0;
    assert(v@.take(0) =~= Seq::<(u64, u64)>::empty());
    while i < v.len()
        invariant
            0 <= i <= v@.len(),
            out@ == sort_pairs(v@.take(i as int)),
        decreases v@.len() - i,
    {
        let x = v[i];
        let mut p = out.len();
        while p > 0 && pair_lt_exec(x, out[p - 1])
            invariant
                0 <= p <= out@.len(),
                forall|q: int| p <= q < out@.len() ==> pair_lt(x, #[trigger] out@[q]),
            decreases p,
        {
            p -= 1;
        }
        proof {
            lemma_insert_at(out@, x, p as int);
            assert(v@.take(i + 1).drop_last() =~= v@.take(i as int));
        }
        out.insert(p, x);
        i += 1;
    }
    assert(v@.take(v@.len() as int) =~= v@);
    out
}

/// A sorted sequence is fixed by its elements: two sorted sequences with the same
/// elements, counted with multiplicity, are equal.
pub proof fn lemma_sorted_unique(s1: Seq<(u64, u64)>, s2: Seq<(u64, u64)>)
    requires
        is_sorted(s1),
        is_sorted(s2),
        s1.to_multiset() == s2.to_multiset(),
    ensures
        s1 == s2,
    decreases s1.len(),
{
    broadcast use vstd::seq_lib::group_to_multiset_ensures;

    vstd::seq_lib::to_multiset_len(s1);
    vstd::seq_lib::to_multiset_len(s2);
    assert(s1.len() == s2.len());
    if s1.len() == 0 {
        assert(s1 =~= s2);
    } else {
        let a = s1.last();
        let b = s2.last();
        assert(s1[s1.len() - 1] == a);
        assert(s1.contains(a));
        assert(s1.to_multiset().count(a) > 0);
        assert(s2.to_multiset().count(a) > 0);
        assert(s2.contains(a));
        assert(s2[s2.len() - 1] == b);
        assert(s2.contains(b));
        assert(s2.to_multiset().count(b) > 0);
        assert(s1.to_multiset().count(b) > 0);
        assert(s1.contains(b));
        let i = choose|i: int| 0 <= i < s2.len() && s2[i] == a;
        let j = choose|j: int| 0 <= j < s1.len() && s1[j] == b;
        if i < s2.len() - 1 {
            assert(!pair_lt(s2[s2.len() - 1], s2[i]));
        }
        if j < s1.len() - 1 {
            assert(!pair_lt(s1[s1.len() - 1], s1[j]));
        }
        assert(a == b);
        let d1 = s1.drop_last();
        let d2 = s2.drop_last();
        assert(d1.push(a) =~= s1);
        assert(d2.push(a) =~= s2);
        vstd::seq_lib::to_multiset_build(d1, a);
        vstd::seq_lib::to_multiset_build(d2, a);
        assert(d1.to_multiset() =~= d2.to_multiset()) by {
            broadcast use vstd::multiset::group_multiset_axioms;

            assert forall|x: (u64, u64)| #[trigger] d1.to_multiset().count(x) == d2.to_multiset().count(x) by {
                assert(d1.to_multiset().insert(a).count(x) == d2.to_multiset().insert(a).count(x));
            }
        }
        lemma_sorted_unique(d1, d2);
        assert(s1 =~= s2);
    }
}

/// Sorting forgets the input order: inputs with the same elements sort alike.
pub proof fn lemma_sort_pairs_order_free(a: Seq<(u64, u64)>, b: Seq<(u64, u64)>)
    requires
        a.to_multiset() == b.to_multiset(),
    ensures
        sort_pairs(a) == sort_pairs(b),
{
    lemma_sort_pairs(a);
    lemma_sort_pairs(b);
    lemma_sorted_unique(sort_pairs(a), sort_pairs(b));
}

} // verus!
