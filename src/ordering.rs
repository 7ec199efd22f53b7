//! Orderings by a key, with ties kept in the order of position.
use vstd::prelude::*;
use vstd::relations::{sorted_by, total_ordering};
use vstd::seq_lib::lemma_sorted_unique;

verus! {

/// Ascending order on values.
pub open spec fn value_order() -> spec_fn(u64, u64) -> bool {
    |a: u64, b: u64| a <= b
}

/// Ascending order on (key, position) pairs: by key, then by position.
pub open spec fn pair_order() -> spec_fn((u64, usize), (u64, usize)) -> bool {
    |a: (u64, usize), b: (u64, usize)| a.0 < b.0 || (a.0 == b.0 && a.1 <= b.1)
}

/// Each key paired with its position.
pub open spec fn keyed(keys: Seq<u64>) -> Seq<(u64, usize)> {
    Seq::new(keys.len(), |i: int| (keys[i], i as usize))
}

/// The positions of `keys`, in ascending order of key; equal keys keep their order of position.
pub open spec fn ranking(keys: Seq<u64>) -> Seq<usize> {
    keyed(keys).sort_by(pair_order()).map_values(|p: (u64, usize)| p.1)
}

/// The items of `s` at the positions given by `order`.
pub open spec fn arrange<T>(s: Seq<T>, order: Seq<usize>) -> Seq<T> {
    order.map_values(|i: usize| s[i as int])
}

pub proof fn lemma_pair_order_total()
    ensures
        total_ordering(pair_order()),
{
}

pub proof fn lemma_value_order_total()
    ensures
        total_ordering(value_order()),
{
}

/// Relies on `slice::sort_unstable`: afterwards the items are in ascending order (tuples
/// compare lexicographically) and are the same items as before.
#[verifier::external_body]
fn sort_pairs(v: &mut Vec<(u64, usize)>)
    ensures
        final(v)@.to_multiset() == old(v)@.to_multiset(),
        sorted_by(final(v)@, pair_order()),
{
    v.sort_unstable();
}

/// Relies on `slice::sort`: afterwards the values are in ascending order and are the same
/// values as before.
#[verifier::external_body]
pub(crate) fn sort_values(v: &mut Vec<u64>)
    ensures
        final(v)@.to_multiset() == old(v)@.to_multiset(),
        sorted_by(final(v)@, value_order()),
{
    v.sort();
}

/// The ranking of the keys: each position once, each within bounds.
pub proof fn lemma_ranking_bounds(keys: Seq<u64>)
    requires
        keys.len() <= usize::MAX,
    ensures
        ranking(keys).len() == keys.len(),
        forall|i: int| 0 <= i < keys.len() ==> (#[trigger] ranking(keys)[i]) < keys.len(),
{
    let k = keyed(keys);
    k.lemma_sort_by_ensures(pair_order());
    let s = k.sort_by(pair_order());
    broadcast use vstd::seq_lib::group_to_multiset_ensures;

    assert(s.len() == k.len()) by {
        assert(s.to_multiset().len() == k.to_multiset().len());
    }
    assert forall|i: int| 0 <= i < keys.len() implies (#[trigger] ranking(keys)[i]) < keys.len() by {
        assert(s.to_multiset().count(s[i]) > 0);
        assert(k.contains(s[i]));
        let j = choose|j: int| 0 <= j < k.len() && k[j] == s[i];
        assert(k[j].1 == j as usize);
    }
}

/// Computes the ranking of the keys.
pub fn rank_by_key(keys: &Vec<u64>) -> (r: Vec<usize>)
    ensures
        r@ == ranking(keys@),
        r@.len() == keys@.len(),
        forall|i: int| 0 <= i < r@.len() ==> (#[trigger] r@[i]) < keys@.len(),
{
    let n = keys.len();
    let mut pairs: Vec<(u64, usize)> = Vec::with_capacity(n);
    let mut i: usize = 0;
    while i < n
        invariant
            n == keys@.len(),
            i <= n,
            pairs@ == keyed(keys@).subrange(0, i as int),
        decreases n - i,
    {
        pairs.push((keys[i], i));
        i = i + 1;
        proof {
            assert(pairs@ =~= keyed(keys@).subrange(0, i as int));
        }
    }
    proof {
        assert(pairs@ =~= keyed(keys@));
    }
    sort_pairs(&mut pairs);
    proof {
        keyed(keys@).lemma_sort_by_ensures(pair_order());
        lemma_pair_order_total();
        lemma_sorted_unique(pairs@, keyed(keys@).sort_by(pair_order()), pair_order());
        lemma_ranking_bounds(keys@);
    }
    let mut r: Vec<usize> = Vec::with_capacity(n);
    let mut j: usize = 0;
    while j < pairs.len()
        invariant
            pairs@ == keyed(keys@).sort_by(pair_order()),
            pairs@.len() == n,
            n == keys@.len(),
            j <= n,
            r@ == ranking(keys@).subrange(0, j as int),
        decreases n - j,
    {
        r.push(pairs[j].1);
        j = j + 1;
        proof {
            assert(r@ =~= ranking(keys@).subrange(0, j as int));
        }
    }
    proof {
        assert(r@ =~= ranking(keys@));
    }
    r
}

/// Keys already in ascending order are ranked as they stand.
pub proof fn lemma_ranking_of_sorted(keys: Seq<u64>)
    requires
        keys.len() <= usize::MAX,
        forall|i: int, j: int| 0 <= i <= j < keys.len() ==> keys[i] <= keys[j],
    ensures
        ranking(keys) == Seq::new(keys.len(), |i: int| i as usize),
{
    let k = keyed(keys);
    k.lemma_sort_by_ensures(pair_order());
    lemma_pair_order_total();
    assert(sorted_by(k, pair_order()));
    lemma_sorted_unique(k, k.sort_by(pair_order()), pair_order());
    assert(ranking(keys) =~= Seq::new(keys.len(), |i: int| i as usize));
}

/// The ranking lists the keys in ascending order.
pub proof fn lemma_ranking_sorted(keys: Seq<u64>)
    requires
        keys.len() <= usize::MAX,
    ensures
        forall|i: int, j: int|
            0 <= i <= j < keys.len() ==> keys[#[trigger] ranking(keys)[i] as int]
                <= keys[#[trigger] ranking(keys)[j] as int],
{
    let k = keyed(keys);
    let s = k.sort_by(pair_order());
    k.lemma_sort_by_ensures(pair_order());
    lemma_ranking_bounds(keys);
    broadcast use vstd::seq_lib::group_to_multiset_ensures;

    assert(s.len() == k.len()) by {
        assert(s.to_multiset().len() == k.to_multiset().len());
    }
    assert forall|i: int| 0 <= i < s.len() implies (#[trigger] s[i]).0 == keys[s[i].1 as int] by {
        assert(s.to_multiset().count(s[i]) > 0);
        assert(k.contains(s[i]));
        let j = choose|j: int| 0 <= j < k.len() && k[j] == s[i];
        assert(k[j].1 == j as usize);
    }
    assert forall|i: int, j: int|
        0 <= i <= j < keys.len() implies keys[#[trigger] ranking(keys)[i] as int]
            <= keys[#[trigger] ranking(keys)[j] as int] by {
        assert(s[i].0 == keys[s[i].1 as int]);
        assert(s[j].0 == keys[s[j].1 as int]);
        if i < j {
            assert(pair_order()(s[i], s[j]));
        }
    }
}

/// Mapping keeps permutations: sequences with the same items map to sequences with the same
/// items.
pub proof fn lemma_map_permutation<A, B>(a: Seq<A>, b: Seq<A>, f: spec_fn(A) -> B)
    requires
        a.to_multiset() == b.to_multiset(),
    ensures
        a.map_values(f).to_multiset() == b.map_values(f).to_multiset(),
    decreases a.len(),
{
    broadcast use vstd::seq_lib::group_to_multiset_ensures;
    broadcast use vstd::multiset::group_multiset_axioms;

    if a.len() == 0 {
        assert(b.to_multiset().len() == 0);
        assert(b =~= a);
    } else {
        let x = a.last();
        let rest = a.drop_last();
        assert(a =~= rest.push(x));
        assert(a.to_multiset() == rest.to_multiset().insert(x));
        assert(b.to_multiset().count(x) > 0);
        assert(b.contains(x));
        let i = choose|i: int| 0 <= i < b.len() && b[i] == x;
        let b2 = b.remove(i);
        assert(b2.to_multiset() == b.to_multiset().remove(x));
        assert(rest.to_multiset() =~= b2.to_multiset());
        lemma_map_permutation(rest, b2, f);
        assert(a.map_values(f) =~= rest.map_values(f).push(f(x)));
        let mb = b.map_values(f);
        assert(mb.remove(i) =~= b2.map_values(f));
        assert(mb[i] == f(x));
        assert(mb.remove(i).to_multiset() == mb.to_multiset().remove(f(x)));
        assert(mb.to_multiset().count(f(x)) > 0);
        assert(mb.to_multiset() =~= b2.map_values(f).to_multiset().insert(f(x)));
    }
}

/// Arranging by the ranking of any keys keeps every item: the result is a permutation.
pub proof fn lemma_arrange_by_ranking_permutes<T>(s: Seq<T>, keys: Seq<u64>)
    requires
        keys.len() == s.len(),
        s.len() <= usize::MAX,
    ensures
        arrange(s, ranking(keys)).to_multiset() == s.to_multiset(),
{
    let k = keyed(keys);
    let sorted = k.sort_by(pair_order());
    k.lemma_sort_by_ensures(pair_order());
    let pick = |q: (u64, usize)| s[q.1 as int];
    lemma_map_permutation(sorted, k, pick);
    assert(arrange(s, ranking(keys)) =~= sorted.map_values(pick));
    assert(s =~= k.map_values(pick));
}

} // verus!
