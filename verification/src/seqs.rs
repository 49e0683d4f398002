use vstd::prelude::*;

verus! {

broadcast use {vstd::seq_lib::group_seq_properties, vstd::seq::group_seq_axioms};

/// Pigeonhole principle: distinct values that all occur in `pool` are no more
/// numerous than `pool`.
pub proof fn lemma_pigeonhole<A>(values: Seq<A>, pool: Seq<A>)
    requires
        values.no_duplicates(),
        forall|i: int| 0 <= i < values.len() ==> pool.contains(#[trigger] values[i]),
    ensures
        values.len() <= pool.len(),
{
    broadcast use vstd::set::group_set_axioms;
    values.unique_seq_to_set();
    pool.lemma_cardinality_of_set();
    assert(values.to_set().subset_of(pool.to_set())) by {
        assert forall|a: A| values.to_set().contains(a) implies pool.to_set().contains(a) by {
            let i = choose|i: int| 0 <= i < values.len() && values[i] == a;
            assert(pool.contains(values[i]));
        }
    }
    vstd::set_lib::lemma_len_subset(values.to_set(), pool.to_set());
}

/// Mapping two sequences that are permutations of each other gives two
/// sequences that are permutations of each other.
pub proof fn lemma_permutation_map<A, B>(s1: Seq<A>, s2: Seq<A>, f: spec_fn(A) -> B)
    requires
        s1.to_multiset() == s2.to_multiset(),
    ensures
        s1.map_values(f).to_multiset() == s2.map_values(f).to_multiset(),
    decreases s1.len(),
{
    broadcast use {vstd::seq_lib::group_to_multiset_ensures, vstd::multiset::group_multiset_axioms};
    s1.to_multiset_ensures();
    s2.to_multiset_ensures();
    if s1.len() == 0 {
        assert(s2.len() == 0);
        assert(s1.map_values(f) =~= Seq::<B>::empty());
        assert(s2.map_values(f) =~= Seq::<B>::empty());
    } else {
        let x = s1.last();
        assert(s1.contains(x)) by {
            assert(s1[s1.len() - 1] == x);
        }
        lemma_permutation_contains(s1, s2, x);
        assert(s2.contains(x));
        let j = choose|j: int| 0 <= j < s2.len() && s2[j] == x;
        assert(s1.drop_last() =~= s1.remove(s1.len() - 1));
        assert(s1.drop_last().to_multiset() == s2.remove(j).to_multiset());
        lemma_permutation_map(s1.drop_last(), s2.remove(j), f);
        assert(s1.map_values(f) =~= s1.drop_last().map_values(f).push(f(x)));
        assert(s2.remove(j).map_values(f) =~= s2.map_values(f).remove(j));
        let m2 = s2.map_values(f);
        m2.to_multiset_ensures();
        s1.drop_last().map_values(f).to_multiset_ensures();
        assert(m2[j] == f(x));
        assert(m2.remove(j).to_multiset() == m2.to_multiset().remove(f(x)));
        assert(m2.to_multiset().count(f(x)) > 0) by {
            assert(m2.contains(f(x)));
        }
        assert(m2.to_multiset().remove(f(x)).insert(f(x)) =~= m2.to_multiset());
    }
}

/// The elements of a permutation of `s` are the elements of `s`.
pub proof fn lemma_permutation_contains<A>(s1: Seq<A>, s2: Seq<A>, a: A)
    requires
        s1.to_multiset() == s2.to_multiset(),
    ensures
        s1.contains(a) <==> s2.contains(a),
{
    s1.to_multiset_ensures();
    s2.to_multiset_ensures();
    assert(s1.contains(a) <==> s1.to_multiset().count(a) > 0);
    assert(s2.contains(a) <==> s2.to_multiset().count(a) > 0);
}

/// A permutation of a sequence without repeats has no repeats.
pub proof fn lemma_permutation_no_duplicates<A>(s1: Seq<A>, s2: Seq<A>)
    requires
        s1.to_multiset() == s2.to_multiset(),
        s2.no_duplicates(),
    ensures
        s1.no_duplicates(),
{
    s2.lemma_multiset_has_no_duplicates();
    s1.lemma_multiset_has_no_duplicates_conv();
}

/// A permutation has the length of what it permutes.
pub proof fn lemma_permutation_len<A>(s1: Seq<A>, s2: Seq<A>)
    requires
        s1.to_multiset() == s2.to_multiset(),
    ensures
        s1.len() == s2.len(),
{
    s1.to_multiset_ensures();
    s2.to_multiset_ensures();
}

} // verus!
