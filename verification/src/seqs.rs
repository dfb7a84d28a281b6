//! Facts about `filter_map` over sequences: how it distributes over
//! concatenation, how long its output can be, and that reordering a sequence
//! only reorders what `filter_map` keeps.

use vstd::prelude::*;
use vstd::multiset::group_multiset_axioms;
use vstd::seq_lib::group_to_multiset_ensures;
use vstd::seq_lib::lemma_multiset_commutative;

verus! {

/// `filter_map` distributes over concatenation.
pub proof fn lemma_filter_map_concat<A, B>(a: Seq<A>, b: Seq<A>, f: spec_fn(A) -> Option<B>)
    ensures
        (a + b).filter_map(f) == a.filter_map(f) + b.filter_map(f),
    decreases b.len(),
{
    if b.len() == 0 {
        assert(a + b =~= a);
        assert(a.filter_map(f) + b.filter_map(f) =~= a.filter_map(f));
    } else {
        lemma_filter_map_concat(a, b.drop_last(), f);
        assert((a + b).drop_last() =~= a + b.drop_last());
        assert((a + b).last() == b.last());
        match f(b.last()) {
            Some(y) => {
                assert(a.filter_map(f) + b.filter_map(f) =~= a.filter_map(f) + b.drop_last()
                    .filter_map(f) + seq![y]);
            },
            None => {},
        }
    }
}

/// `filter_map` never lengthens a sequence.
pub proof fn lemma_filter_map_len<A, B>(s: Seq<A>, f: spec_fn(A) -> Option<B>)
    ensures
        s.filter_map(f).len() <= s.len(),
    decreases s.len(),
{
    if s.len() > 0 {
        lemma_filter_map_len(s.drop_last(), f);
    }
}

/// An element the function keeps appears in `filter_map`'s output.
pub proof fn lemma_filter_map_member<A, B>(s: Seq<A>, f: spec_fn(A) -> Option<B>, x: A, b: B)
    requires
        s.contains(x),
        f(x) == Some(b),
    ensures
        s.filter_map(f).contains(b),
    decreases s.len(),
{
    if s.len() > 0 {
        let rest = s.drop_last();
        if s.last() == x {
            assert(s.filter_map(f).last() == b);
        } else {
            let i = choose|i: int| 0 <= i < s.len() && s[i] == x;
            assert(rest[i] == x);
            lemma_filter_map_member(rest, f, x, b);
            let k = choose|k: int| 0 <= k < rest.filter_map(f).len() && rest.filter_map(f)[k] == b;
            assert(s.filter_map(f)[k] == b);
        }
    }
}

/// Sequences with the same elements (as a multiset) keep the same elements
/// under `filter_map`: only the order of the kept elements can differ.
pub proof fn lemma_filter_map_permutation<A, B>(s1: Seq<A>, s2: Seq<A>, f: spec_fn(A) -> Option<B>)
    requires
        s1.to_multiset() == s2.to_multiset(),
    ensures
        s1.filter_map(f).to_multiset() == s2.filter_map(f).to_multiset(),
    decreases s1.len(),
{
    broadcast use group_to_multiset_ensures, group_multiset_axioms;

    if s1.len() == 0 {
        assert(s2.len() == s2.to_multiset().len());
        assert(s2.len() == 0);
    } else {
        let a = s1.last();
        let rest1 = s1.drop_last();
        assert(s1 =~= rest1.push(a));
        assert(s1.to_multiset() == rest1.to_multiset().insert(a));
        assert(s2.to_multiset().count(a) > 0) by {
            vstd::multiset::lemma_insert_increases_count_by_1(rest1.to_multiset(), a);
        }
        assert(s2.contains(a));
        let i = choose|i: int| 0 <= i < s2.len() && s2[i] == a;
        let s2r = s2.remove(i);
        assert(s2r.to_multiset() == s2.to_multiset().remove(a));
        assert(rest1.to_multiset() =~= s2r.to_multiset());
        lemma_filter_map_permutation(rest1, s2r, f);
        // The first sequence splits off its last element by definition.
        let kept_a = match f(a) {
            Some(y) => seq![y],
            None => Seq::<B>::empty(),
        };
        assert(s1.filter_map(f) == rest1.filter_map(f) + kept_a) by {
            if f(a) is None {
                assert(rest1.filter_map(f) + kept_a =~= rest1.filter_map(f));
            }
        }
        // The second splits around position i.
        let pre = s2.take(i);
        let post = s2.skip(i + 1);
        assert(s2 =~= pre + seq![a] + post);
        assert(s2r =~= pre + post);
        lemma_filter_map_concat(pre + seq![a], post, f);
        lemma_filter_map_concat(pre, seq![a], f);
        lemma_filter_map_concat(pre, post, f);
        Seq::<A>::lemma_filter_map_singleton(a, f);
        assert(s2.filter_map(f) == pre.filter_map(f) + kept_a + post.filter_map(f));
        lemma_multiset_commutative(pre.filter_map(f) + kept_a, post.filter_map(f));
        lemma_multiset_commutative(pre.filter_map(f), kept_a);
        lemma_multiset_commutative(rest1.filter_map(f), kept_a);
        lemma_multiset_commutative(pre.filter_map(f), post.filter_map(f));
        assert(s1.filter_map(f).to_multiset() =~= s2.filter_map(f).to_multiset());
    }
}

} // verus!
