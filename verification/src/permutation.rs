use vstd::prelude::*;

verus! {

broadcast use vstd::seq_lib::group_to_multiset_ensures;

/// Sequences with the same multiset of elements hold the same elements.
pub proof fn lemma_same_elements<A>(a: Seq<A>, b: Seq<A>, x: A)
    requires
        a.to_multiset() == b.to_multiset(),
    ensures
        a.contains(x) <==> b.contains(x),
{
    vstd::seq_lib::to_multiset_contains(a, x);
    vstd::seq_lib::to_multiset_contains(b, x);
}

proof fn lemma_singleton_add_multiset<A>(x: A, s: Seq<A>)
    ensures
        (seq![x] + s).to_multiset() == s.to_multiset().insert(x),
{
    broadcast use vstd::multiset::group_multiset_axioms;

    vstd::seq_lib::lemma_multiset_commutative(seq![x], s);
    assert(seq![x].drop_first() =~= Seq::<A>::empty());
    assert(seq![x].to_multiset() =~= vstd::multiset::Multiset::empty().insert(x));
    assert((seq![x] + s).to_multiset() =~= s.to_multiset().insert(x));
}

/// A map on sequences that distributes over concatenation (such as
/// `map_values`, `filter`, `filter_map`) sends sequences with the same
/// elements to sequences with the same elements.
pub proof fn lemma_concat_preserving_multiset<A, B>(h: spec_fn(Seq<A>) -> Seq<B>, a: Seq<A>, b: Seq<A>)
    requires
        forall|s: Seq<A>, t: Seq<A>| #[trigger] h(s + t) == h(s) + h(t),
        a.to_multiset() == b.to_multiset(),
    ensures
        h(a).to_multiset() == h(b).to_multiset(),
    decreases a.len(),
{
    broadcast use vstd::multiset::group_multiset_axioms;

    if a.len() == 0 {
        assert(a.to_multiset().len() == a.len());
        assert(b.to_multiset().len() == b.len());
        assert(b.len() == 0);
        assert(a =~= b);
    } else {
        let x = a[0];
        assert(a.contains(x));
        lemma_same_elements(a, b, x);
        assert(b.contains(x));
        let j = choose|j: int| 0 <= j < b.len() && b[j] == x;
        let ta = a.drop_first();
        let b1 = b.take(j);
        let b2 = b.skip(j + 1);
        let tb = b1 + b2;
        assert(a =~= seq![x] + ta);
        assert(b =~= b1 + (seq![x] + b2));
        assert(tb =~= b.remove(j));
        assert(ta =~= a.remove(0));
        assert(ta.to_multiset() == tb.to_multiset());
        lemma_concat_preserving_multiset(h, ta, tb);
        assert(h(a) == h(seq![x]) + h(ta));
        assert(h(b) == h(b1) + h(seq![x] + b2));
        assert(h(seq![x] + b2) == h(seq![x]) + h(b2));
        assert(h(tb) == h(b1) + h(b2));
        vstd::seq_lib::lemma_multiset_commutative(h(seq![x]), h(ta));
        vstd::seq_lib::lemma_multiset_commutative(h(b1), h(seq![x]) + h(b2));
        vstd::seq_lib::lemma_multiset_commutative(h(seq![x]), h(b2));
        vstd::seq_lib::lemma_multiset_commutative(h(b1), h(b2));
        assert(h(a).to_multiset() =~= h(b).to_multiset());
    }
}

/// `map_values` keeps sequences with the same elements alike.
pub proof fn lemma_map_values_multiset<A, B>(f: spec_fn(A) -> B, a: Seq<A>, b: Seq<A>)
    requires
        a.to_multiset() == b.to_multiset(),
    ensures
        a.map_values(f).to_multiset() == b.map_values(f).to_multiset(),
{
    let h = |s: Seq<A>| s.map_values(f);
    assert forall|s: Seq<A>, t: Seq<A>| #[trigger] h(s + t) == h(s) + h(t) by {
        assert((s + t).map_values(f) =~= s.map_values(f) + t.map_values(f));
    }
    lemma_concat_preserving_multiset(h, a, b);
}

/// `filter` keeps sequences with the same elements alike.
pub proof fn lemma_filter_multiset<A>(p: spec_fn(A) -> bool, a: Seq<A>, b: Seq<A>)
    requires
        a.to_multiset() == b.to_multiset(),
    ensures
        a.filter(p).to_multiset() == b.filter(p).to_multiset(),
{
    let h = |s: Seq<A>| s.filter(p);
    assert forall|s: Seq<A>, t: Seq<A>| #[trigger] h(s + t) == h(s) + h(t) by {
        Seq::filter_distributes_over_add(s, t, p);
    }
    lemma_concat_preserving_multiset(h, a, b);
}

proof fn lemma_filter_map_add<A, B>(f: spec_fn(A) -> Option<B>, s: Seq<A>, t: Seq<A>)
    ensures
        (s + t).filter_map(f) == s.filter_map(f) + t.filter_map(f),
    decreases t.len(),
{
    if t.len() == 0 {
        assert(s + t =~= s);
        assert(s.filter_map(f) + t.filter_map(f) =~= s.filter_map(f));
    } else {
        lemma_filter_map_add(f, s, t.drop_last());
        assert((s + t).drop_last() =~= s + t.drop_last());
        assert((s + t).last() == t.last());
        match f(t.last()) {
            Some(y) => {
                assert((s + t).filter_map(f) =~= s.filter_map(f) + t.filter_map(f));
            },
            None => {},
        }
    }
}

/// `filter_map` keeps sequences with the same elements alike.
pub proof fn lemma_filter_map_multiset<A, B>(f: spec_fn(A) -> Option<B>, a: Seq<A>, b: Seq<A>)
    requires
        a.to_multiset() == b.to_multiset(),
    ensures
        a.filter_map(f).to_multiset() == b.filter_map(f).to_multiset(),
{
    let h = |s: Seq<A>| s.filter_map(f);
    assert forall|s: Seq<A>, t: Seq<A>| #[trigger] h(s + t) == h(s) + h(t) by {
        lemma_filter_map_add(f, s, t);
    }
    lemma_concat_preserving_multiset(h, a, b);
}

} // verus!
