use vstd::prelude::*;
use vstd::arithmetic::power2::pow2;
use itertools::Itertools;

verus! {

/// `indices` climbs strictly and stays below `n`: it picks a subsequence out
/// of a sequence of length `n`.
pub open spec fn increasing_below(indices: Seq<usize>, n: nat) -> bool {
    &&& forall|i: int, j: int| 0 <= i < j < indices.len() ==> indices[i] < indices[j]
    &&& forall|i: int| 0 <= i < indices.len() ==> indices[i] < n
}

/// The product of the entries of `sizes`.
pub open spec fn product_of(sizes: Seq<usize>) -> nat
    decreases sizes.len(),
{
    if sizes.len() == 0 {
        1
    } else {
        product_of(sizes.drop_last()) * (sizes.last() as nat)
    }
}

/// `tuple` has one entry for each entry of `sizes`, each below its size.
pub open spec fn tuple_below(tuple: Seq<usize>, sizes: Seq<usize>) -> bool {
    &&& tuple.len() == sizes.len()
    &&& forall|j: int| 0 <= j < tuple.len() ==> tuple[j] < sizes[j]
}

/// `a` comes before `b` in the order of a dictionary: where they first
/// differ, `a` has the smaller entry.
pub open spec fn lex_less(a: Seq<usize>, b: Seq<usize>) -> bool {
    exists|k: int|
        0 <= k < a.len() && k < b.len() && a.take(k) == b.take(k) && #[trigger] a[k] < b[k]
}

/// `a` comes before `b` among subsets: it is shorter, or as long and before
/// `b` in the order of a dictionary.
pub open spec fn shorter_or_less(a: Seq<usize>, b: Seq<usize>) -> bool {
    a.len() < b.len() || (a.len() == b.len() && lex_less(a, b))
}

/// The lists come in the order of a dictionary.
pub open spec fn in_dictionary_order(lists: Seq<Seq<usize>>) -> bool {
    forall|k: int, l: int|
        0 <= k < l < lists.len() ==> lex_less(#[trigger] lists[k], #[trigger] lists[l])
}

/// The lists come by their lengths, and lists of one length in the order of
/// a dictionary.
pub open spec fn by_length_then_dictionary(lists: Seq<Seq<usize>>) -> bool {
    forall|k: int, l: int|
        0 <= k < l < lists.len() ==> shorter_or_less(#[trigger] lists[k], #[trigger] lists[l])
}

/// The order of pairs: by the first entry, then by the second.
pub open spec fn pair_le(a: (u64, usize), b: (u64, usize)) -> bool {
    a.0 < b.0 || (a.0 == b.0 && a.1 <= b.1)
}

/// The subsets of `0..n` in the order in which `Itertools::powerset` yields
/// them.
pub uninterp spec fn powerset_of(n: usize) -> Seq<Seq<usize>>;

/// The tuples below `sizes` in the order in which
/// `Itertools::multi_cartesian_product` yields them.
pub uninterp spec fn cartesian_of(sizes: Seq<usize>) -> Seq<Seq<usize>>;

/// Calls `Itertools::powerset` on the range `0..n` and collects what it
/// yields. Trusted: there are `2^n` subsets, each lists its members in
/// climbing order, every subset of `0..n` is among them, and they come by
/// their lengths, subsets of one length in the order of a dictionary.
#[verifier::external_body]
pub(crate) fn index_subsets(n: usize) -> (subsets: Vec<Vec<usize>>)
    requires
        pow2(n as nat) <= usize::MAX,
    ensures
        subsets.len() == powerset_of(n).len(),
        forall|i: int| 0 <= i < subsets.len() ==> (#[trigger] subsets[i])@ == powerset_of(n)[i],
        subsets.len() == pow2(n as nat),
        forall|i: int|
            0 <= i < subsets.len() ==> increasing_below((#[trigger] subsets[i])@, n as nat),
        forall|s: Seq<usize>| #[trigger]
            increasing_below(s, n as nat) ==> exists|i: int|
                0 <= i < subsets.len() && (#[trigger] subsets[i])@ == s,
        forall|i: int, j: int|
            0 <= i < j < subsets.len() ==> shorter_or_less(
                (#[trigger] subsets[i])@,
                (#[trigger] subsets[j])@,
            ),
{
    (0..n).powerset().collect()
}

/// Calls `Itertools::multi_cartesian_product` on the ranges `0..sizes[j]`
/// and collects what it yields. Trusted: the result is the cartesian product
/// of the ranges, each tuple once, in the order of a dictionary.
#[verifier::external_body]
pub(crate) fn index_tuples(sizes: &Vec<usize>) -> (tuples: Vec<Vec<usize>>)
    requires
        product_of(sizes@) <= usize::MAX,
    ensures
        tuples.len() == cartesian_of(sizes@).len(),
        forall|k: int|
            0 <= k < tuples.len() ==> (#[trigger] tuples[k])@ == cartesian_of(sizes@)[k],
        tuples.len() == product_of(sizes@),
        forall|k: int| 0 <= k < tuples.len() ==> tuple_below((#[trigger] tuples[k])@, sizes@),
        forall|t: Seq<usize>| #[trigger]
            tuple_below(t, sizes@) ==> exists|k: int|
                0 <= k < tuples.len() && (#[trigger] tuples[k])@ == t,
        forall|k: int, l: int|
            0 <= k < l < tuples.len() ==> (#[trigger] tuples[k])@ != (#[trigger] tuples[l])@,
        forall|k: int, l: int|
            0 <= k < l < tuples.len() ==> lex_less((#[trigger] tuples[k])@, (#[trigger] tuples[l])@),
{
    sizes.iter().map(|&n| 0..n).multi_cartesian_product().collect()
}

/// Calls `Itertools::sorted` on the pairs. Trusted: the result holds the
/// same pairs, each as often as before, in ascending order; tuples compare
/// by their first entry, then by their second.
#[verifier::external_body]
pub(crate) fn sorted_pairs(pairs: Vec<(u64, usize)>) -> (sorted: Vec<(u64, usize)>)
    ensures
        sorted@.to_multiset() == pairs@.to_multiset(),
        forall|i: int, j: int|
            0 <= i <= j < sorted.len() ==> pair_le(#[trigger] sorted[i], #[trigger] sorted[j]),
{
    pairs.into_iter().sorted().collect()
}

/// Each key with its position.
pub open spec fn keyed(keys: Seq<u64>) -> Seq<(u64, usize)> {
    Seq::new(keys.len(), |i: int| (keys[i], i as usize))
}

/// The positions of `keys`, ordered by key; positions with the same key keep
/// their order.
pub open spec fn ranking(keys: Seq<u64>) -> Seq<usize> {
    let sorted = keyed(keys).sort_by(|a: (u64, usize), b: (u64, usize)| pair_le(a, b));
    Seq::new(sorted.len(), |k: int| sorted[k].1)
}

/// `order` lists every position of `keys` once, by ascending key, and
/// positions with the same key in ascending order.
pub open spec fn is_ranking(order: Seq<usize>, keys: Seq<u64>) -> bool {
    &&& order.len() == keys.len()
    &&& forall|k: int| 0 <= k < order.len() ==> (#[trigger] order[k]) < keys.len()
    &&& forall|i: usize| i < keys.len() ==> #[trigger] order.contains(i)
    &&& forall|k: int, l: int|
        0 <= k < l < order.len() ==> {
            let a = #[trigger] order[k] as int;
            let b = #[trigger] order[l] as int;
            keys[a] < keys[b] || (keys[a] == keys[b] && a < b)
        }
}

/// The positions of `keys` in ascending order of their keys. Positions with
/// the same key keep their order.
pub fn order_by_key(keys: &Vec<u64>) -> (order: Vec<usize>)
    ensures
        order@ == ranking(keys@),
        is_ranking(order@, keys@),
{
    broadcast use vstd::seq_lib::group_to_multiset_ensures;

    let n = keys.len();
    let mut pairs: Vec<(u64, usize)> = Vec::new();
    let mut i: usize = 0;
    while i < n
        invariant
            i <= n == keys.len(),
            pairs@ == keyed(keys@).take(i as int),
        decreases n - i,
    {
        pairs.push((keys[i], i));
        assert(pairs@ =~= keyed(keys@).take(i + 1));
        i += 1;
    }
    assert(pairs@ =~= keyed(keys@));
    let sorted = sorted_pairs(pairs);
    let ghost le = |a: (u64, usize), b: (u64, usize)| pair_le(a, b);
    proof {
        let all = keyed(keys@);
        assert(vstd::relations::total_ordering(le));
        all.lemma_sort_by_ensures(le);
        assert(vstd::relations::sorted_by(sorted@, le));
        vstd::seq_lib::lemma_sorted_unique(sorted@, all.sort_by(le), le);
        assert(sorted@.len() == all.len()) by {
            assert(sorted@.to_multiset().len() == sorted@.len());
            assert(all.to_multiset().len() == all.len());
        }
        assert(all.no_duplicates());
        all.lemma_multiset_has_no_duplicates();
        sorted@.lemma_multiset_has_no_duplicates_conv();
        assert forall|k: int| 0 <= k < sorted@.len() implies (#[trigger] sorted@[k]).1 < n
            && sorted@[k].0 == keys@[sorted@[k].1 as int] by {
            assert(sorted@.contains(sorted@[k]));
            assert(all.to_multiset().count(sorted@[k]) > 0);
            assert(all.contains(sorted@[k]));
        }
        assert forall|i: int| 0 <= i < n implies sorted@.contains(#[trigger] all[i]) by {
            assert(all.contains(all[i]));
            assert(sorted@.to_multiset().count(all[i]) > 0);
        }
    }
    let mut order: Vec<usize> = Vec::new();
    let mut k: usize = 0;
    while k < n
        invariant
            k <= n == sorted.len(),
            order.len() == k,
            forall|j: int| 0 <= j < k ==> order@[j] == sorted@[j].1,
        decreases n - k,
    {
        order.push(sorted[k].1);
        k += 1;
    }
    assert(order@ =~= ranking(keys@));
    proof {
        assert forall|i: usize| i < n implies #[trigger] order@.contains(i) by {
            assert(sorted@.contains(keyed(keys@)[i as int]));
            let k = choose|k: int|
                0 <= k < sorted@.len() && #[trigger] sorted@[k] == keyed(keys@)[i as int];
            assert(order@[k] == i);
        }
        assert forall|k: int, l: int| 0 <= k < l < order@.len() implies {
            let a = #[trigger] order@[k] as int;
            let b = #[trigger] order@[l] as int;
            keys@[a] < keys@[b] || (keys@[a] == keys@[b] && a < b)
        } by {
            assert(pair_le(sorted@[k], sorted@[l]));
            assert(sorted@[k] != sorted@[l]);
        }
    }
    order
}

/// A ranking lists positions of its keys, as many as there are keys.
pub proof fn lemma_ranking_in_range(keys: Seq<u64>)
    requires
        keys.len() <= usize::MAX,
    ensures
        ranking(keys).len() == keys.len(),
        forall|k: int| 0 <= k < keys.len() ==> (#[trigger] ranking(keys)[k]) < keys.len(),
{
    broadcast use vstd::seq_lib::group_to_multiset_ensures;

    let le = |a: (u64, usize), b: (u64, usize)| pair_le(a, b);
    let all = keyed(keys);
    let sorted = all.sort_by(le);
    assert(vstd::relations::total_ordering(le));
    all.lemma_sort_by_ensures(le);
    assert(sorted.len() == all.len()) by {
        assert(sorted.to_multiset().len() == sorted.len());
        assert(all.to_multiset().len() == all.len());
    }
    assert forall|k: int| 0 <= k < keys.len() implies (#[trigger] ranking(keys)[k])
        < keys.len() by {
        assert(sorted.contains(sorted[k]));
        assert(all.to_multiset().count(sorted[k]) > 0);
        assert(all.contains(sorted[k]));
        let i = choose|i: int| 0 <= i < all.len() && all[i] == sorted[k];
    }
}

} // verus!
