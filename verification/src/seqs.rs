//! Facts about filters over growing prefixes of sequences.
use vstd::prelude::*;
use vstd::multiset::Multiset;

verus! {

/// Unfolds one step of a filter over a growing prefix.
pub proof fn lemma_filter_take_step<A>(s: Seq<A>, p: spec_fn(A) -> bool, i: int)
    requires
        0 <= i < s.len(),
    ensures
        s.take(i + 1).filter(p) == if p(s[i]) {
            s.take(i).filter(p).push(s[i])
        } else {
            s.take(i).filter(p)
        },
{
    reveal_with_fuel(Seq::filter, 1);
    assert(s.take(i + 1).drop_last() =~= s.take(i));
}

/// A filter keeps something exactly when something satisfies the predicate.
pub proof fn lemma_filter_nonempty<A>(s: Seq<A>, p: spec_fn(A) -> bool)
    ensures
        s.filter(p).len() > 0 <==> exists|i: int| 0 <= i < s.len() && p(s[i]),
    decreases s.len(),
{
    reveal_with_fuel(Seq::filter, 1);
    if s.len() > 0 {
        lemma_filter_nonempty(s.drop_last(), p);
        if exists|i: int| 0 <= i < s.drop_last().len() && p(s.drop_last()[i]) {
            let i = choose|i: int| 0 <= i < s.drop_last().len() && p(s.drop_last()[i]);
            assert(p(s[i]));
        }
        if exists|i: int| 0 <= i < s.len() && p(s[i]) {
            let i = choose|i: int| 0 <= i < s.len() && p(s[i]);
            if i < s.len() - 1 {
                assert(p(s.drop_last()[i]));
            }
        }
    }
}

/// Filtering a prefix keeps no more than filtering the whole sequence.
pub proof fn lemma_filter_take_len<A>(s: Seq<A>, p: spec_fn(A) -> bool, i: int)
    requires
        0 <= i <= s.len(),
    ensures
        s.take(i).filter(p).len() <= s.filter(p).len(),
    decreases s.len() - i,
{
    if i == s.len() {
        assert(s.take(i) =~= s);
    } else {
        lemma_filter_take_step(s, p, i);
        lemma_filter_take_len(s, p, i + 1);
    }
}

/// Filtering a prefix gives a prefix of the filtered sequence.
pub proof fn lemma_filter_take_prefix<A>(s: Seq<A>, p: spec_fn(A) -> bool, k: int)
    requires
        0 <= k <= s.len(),
    ensures
        s.take(k).filter(p) == s.filter(p).take(s.take(k).filter(p).len() as int),
    decreases s.len() - k,
{
    let f = s.filter(p);
    if k == s.len() {
        assert(s.take(k) =~= s);
        assert(f.take(f.len() as int) =~= f);
    } else {
        lemma_filter_take_prefix(s, p, k + 1);
        lemma_filter_take_step(s, p, k);
        lemma_filter_take_len(s, p, k + 1);
        let a = s.take(k + 1).filter(p);
        if p(s[k]) {
            assert(a.drop_last() =~= s.take(k).filter(p));
            assert(f.take(a.len() as int).drop_last() =~= f.take(a.len() - 1));
        }
    }
}

/// The concatenation of `g(s[0])`, `g(s[1])`, ...
pub open spec fn flat<A, B>(s: Seq<A>, g: spec_fn(A) -> Seq<B>) -> Seq<B>
    decreases s.len(),
{
    if s.len() == 0 {
        Seq::empty()
    } else {
        flat(s.drop_last(), g) + g(s.last())
    }
}

/// One more element of `s` appends its image.
pub proof fn lemma_flat_take_step<A, B>(s: Seq<A>, g: spec_fn(A) -> Seq<B>, i: int)
    requires
        0 <= i < s.len(),
    ensures
        flat(s.take(i + 1), g) == flat(s.take(i), g) + g(s[i]),
{
    assert(s.take(i + 1).drop_last() =~= s.take(i));
}

/// The images of a prefix and of the next element fit within the whole.
pub proof fn lemma_flat_take_len<A, B>(s: Seq<A>, g: spec_fn(A) -> Seq<B>, i: int)
    requires
        0 <= i < s.len(),
    ensures
        flat(s.take(i), g).len() + g(s[i]).len() <= flat(s, g).len(),
    decreases s.len() - i,
{
    lemma_flat_take_step(s, g, i);
    if i + 1 == s.len() {
        assert(s.take(i + 1) =~= s);
    } else {
        lemma_flat_take_len(s, g, i + 1);
    }
}

/// Two strictly increasing sequences with the same elements are equal.
pub proof fn lemma_sorted_unique(s1: Seq<usize>, s2: Seq<usize>)
    requires
        forall|i: int, j: int| 0 <= i < j < s1.len() ==> s1[i] < s1[j],
        forall|i: int, j: int| 0 <= i < j < s2.len() ==> s2[i] < s2[j],
        forall|x: usize| s1.contains(x) <==> s2.contains(x),
    ensures
        s1 == s2,
    decreases s1.len(),
{
    if s1.len() == 0 {
        if s2.len() > 0 {
            assert(s2.contains(s2[0]));
        }
        assert(s1 =~= s2);
    } else {
        assert(s1.contains(s1[0]));
        assert(s2.len() > 0);
        assert(s2.contains(s2[0]));
        let j = choose|j: int| 0 <= j < s2.len() && s2[j] == s1[0];
        let i = choose|i: int| 0 <= i < s1.len() && s1[i] == s2[0];
        assert(s1[0] == s2[0]);
        let r1 = s1.drop_first();
        let r2 = s2.drop_first();
        assert forall|x: usize| r1.contains(x) <==> r2.contains(x) by {
            if r1.contains(x) {
                let k = choose|k: int| 0 <= k < r1.len() && r1[k] == x;
                assert(s1[k + 1] == x);
                assert(s2.contains(x));
                let l = choose|l: int| 0 <= l < s2.len() && s2[l] == x;
                assert(l != 0);
                assert(r2[l - 1] == x);
            }
            if r2.contains(x) {
                let k = choose|k: int| 0 <= k < r2.len() && r2[k] == x;
                assert(s2[k + 1] == x);
                assert(s1.contains(x));
                let l = choose|l: int| 0 <= l < s1.len() && s1[l] == x;
                assert(l != 0);
                assert(r1[l - 1] == x);
            }
        }
        lemma_sorted_unique(r1, r2);
        assert(s1.len() == s2.len());
        assert forall|k: int| 0 <= k < s1.len() implies s1[k] == s2[k] by {
            if k > 0 {
                assert(s1[k] == r1[k - 1]);
                assert(s2[k] == r2[k - 1]);
            }
        }
        assert(s1 =~= s2);
    }
}

/// Counting after a map: where `g` undoes `f` on the elements of `s`, `y`
/// occurs in the image as often as `g(y)` occurs in `s`, provided `y` is
/// the image of `g(y)`; otherwise not at all.
pub proof fn lemma_map_count<A, B>(s: Seq<A>, f: spec_fn(A) -> B, g: spec_fn(B) -> A, y: B)
    requires
        forall|i: int| 0 <= i < s.len() ==> g(f(#[trigger] s[i])) == s[i],
    ensures
        s.map_values(f).to_multiset().count(y) == if f(g(y)) == y {
            s.to_multiset().count(g(y))
        } else {
            0
        },
    decreases s.len(),
{
    broadcast use vstd::seq_lib::group_to_multiset_ensures;
    broadcast use vstd::multiset::group_multiset_axioms;

    if s.len() == 0 {
        assert(s.map_values(f) =~= Seq::empty());
        assert(s.to_multiset() =~= Multiset::empty());
        assert(s.map_values(f).to_multiset() =~= Multiset::empty());
    } else {
        let r = s.drop_last();
        let u = s.last();
        assert forall|i: int| 0 <= i < r.len() implies g(f(#[trigger] r[i])) == r[i] by {
            assert(r[i] == s[i]);
        }
        lemma_map_count(r, f, g, y);
        assert(s =~= r.push(u));
        assert(s.map_values(f) =~= r.map_values(f).push(f(u)));
        assert(g(f(s[s.len() - 1])) == s[s.len() - 1]);
    }
}

/// Counting after a filter: what passes keeps its count, the rest drops out.
pub proof fn lemma_filter_count<A>(s: Seq<A>, p: spec_fn(A) -> bool, x: A)
    ensures
        s.filter(p).to_multiset().count(x) == if p(x) { s.to_multiset().count(x) } else { 0 },
    decreases s.len(),
{
    broadcast use vstd::seq_lib::group_to_multiset_ensures;
    broadcast use vstd::multiset::group_multiset_axioms;

    reveal_with_fuel(Seq::filter, 1);
    if s.len() == 0 {
        assert(s.filter(p) =~= Seq::empty());
        assert(s.to_multiset() =~= Multiset::empty());
        assert(s.filter(p).to_multiset() =~= Multiset::empty());
    } else {
        let r = s.drop_last();
        lemma_filter_count(r, p, x);
        assert(s =~= r.push(s.last()));
    }
}

/// Mapping two sequences with the same elements gives sequences with the
/// same elements.
pub proof fn lemma_map_same_multiset<A, B>(s1: Seq<A>, s2: Seq<A>, f: spec_fn(A) -> B)
    requires
        s1.to_multiset() == s2.to_multiset(),
    ensures
        s1.map_values(f).to_multiset() == s2.map_values(f).to_multiset(),
    decreases s1.len(),
{
    broadcast use vstd::seq_lib::group_to_multiset_ensures;
    broadcast use vstd::multiset::group_multiset_axioms;

    if s1.len() == 0 {
        assert(s2.len() == s2.to_multiset().len());
        assert(s2.len() == 0);
        assert(s1.map_values(f) =~= s2.map_values(f));
    } else {
        let x = s1.last();
        let r1 = s1.drop_last();
        assert(s1 =~= r1.push(x));
        assert(s1.to_multiset().count(x) > 0);
        assert(s2.contains(x));
        let j = choose|j: int| 0 <= j < s2.len() && s2[j] == x;
        let r2 = s2.remove(j);
        assert(r1.to_multiset() =~= r2.to_multiset());
        lemma_map_same_multiset(r1, r2, f);
        let m2 = s2.map_values(f);
        assert(m2.remove(j) =~= r2.map_values(f));
        assert(m2[j] == f(x));
        assert(s1.map_values(f) =~= r1.map_values(f).push(f(x)));
        assert(m2.to_multiset().count(f(x)) > 0) by {
            assert(m2.contains(f(x)));
        }
        assert(s1.map_values(f).to_multiset() =~= m2.to_multiset());
    }
}

} // verus!
