//! Equi-joins of keyed slices, anti-joins and set intersection of node lists.
use std::collections::HashSet;
use std::hash::Hash;
use vstd::prelude::*;
use vstd::multiset::Multiset;
use crate::seqs::lemma_map_count;

verus! {

broadcast use vstd::std_specs::hash::group_hash_axioms;

/// The values of `s` whose key is `k`, in the order of `s`.
pub open spec fn values_for<K, B>(k: K, s: Seq<(K, B)>) -> Seq<B>
    decreases s.len(),
{
    if s.len() == 0 {
        Seq::empty()
    } else {
        let rest = values_for(k, s.drop_last());
        if s.last().0 == k {
            rest.push(s.last().1)
        } else {
            rest
        }
    }
}

/// Some row of `s` has key `k`.
pub open spec fn has_key<K, B>(s: Seq<(K, B)>, k: K) -> bool {
    exists|j: int| 0 <= j < s.len() && s[j].0 == k
}

/// The keys of the rows of `first` that no row of `second` shares, in order.
pub open spec fn anti_join_spec<K, A, B>(first: Seq<(K, A)>, second: Seq<(K, B)>) -> Seq<K> {
    first.map_values(|p: (K, A)| p.0).filter(|k: K| !has_key(second, k))
}

/// A key has values exactly when some row carries it.
pub proof fn lemma_values_for_nonempty<K, B>(k: K, s: Seq<(K, B)>)
    ensures
        values_for(k, s).len() > 0 <==> has_key(s, k),
    decreases s.len(),
{
    if s.len() > 0 {
        lemma_values_for_nonempty(k, s.drop_last());
        if has_key(s.drop_last(), k) {
            let j = choose|j: int| 0 <= j < s.drop_last().len() && s.drop_last()[j].0 == k;
            assert(s[j].0 == k);
        }
        if has_key(s, k) {
            let j = choose|j: int| 0 <= j < s.len() && s[j].0 == k;
            if j < s.len() - 1 {
                assert(s.drop_last()[j].0 == k);
            }
        }
    }
}

/// The joined triples that one row `(k, a)` of the left side contributes.
pub open spec fn matches_for<K, A, B>(k: K, a: A, s: Seq<(K, B)>) -> Seq<(A, K, B)> {
    values_for(k, s).map_values(|b: B| (a, k, b))
}

/// The equi-join of `first` and `second` on their keys: for each row of
/// `first` in order, every row of `second` with the same key, in order.
pub open spec fn join_spec<K, A, B>(first: Seq<(K, A)>, second: Seq<(K, B)>) -> Seq<(A, K, B)>
    decreases first.len(),
{
    if first.len() == 0 {
        Seq::empty()
    } else {
        join_spec(first.drop_last(), second) + matches_for(first.last().0, first.last().1, second)
    }
}

/// A value appears for key `k` as often as the row `(k, b)` does.
pub proof fn lemma_values_for_count<K, B>(k: K, s: Seq<(K, B)>, b: B)
    ensures
        values_for(k, s).to_multiset().count(b) == s.to_multiset().count((k, b)),
    decreases s.len(),
{
    broadcast use vstd::seq_lib::group_to_multiset_ensures;
    broadcast use vstd::multiset::group_multiset_axioms;

    if s.len() == 0 {
        assert(s.to_multiset() =~= Multiset::empty());
        assert(values_for(k, s).to_multiset() =~= Multiset::empty());
    } else {
        lemma_values_for_count(k, s.drop_last(), b);
        assert(s =~= s.drop_last().push(s.last()));
    }
}

/// A joined triple `(a, k, b)` appears as often as the row `(k, a)` of the
/// left side times the row `(k, b)` of the right side.
pub proof fn lemma_join_count<K, A, B>(first: Seq<(K, A)>, second: Seq<(K, B)>, t: (A, K, B))
    ensures
        join_spec(first, second).to_multiset().count(t)
            == first.to_multiset().count((t.1, t.0)) * second.to_multiset().count((t.1, t.2)),
    decreases first.len(),
{
    broadcast use vstd::seq_lib::group_to_multiset_ensures;
    broadcast use vstd::multiset::group_multiset_axioms;

    let d = second.to_multiset().count((t.1, t.2));
    if first.len() == 0 {
        assert(first.to_multiset() =~= Multiset::empty());
        assert(join_spec(first, second).to_multiset() =~= Multiset::empty());
    } else {
        let r = first.drop_last();
        let p = first.last();
        lemma_join_count(r, second, t);
        let f = |b: B| (p.1, p.0, b);
        let g = |u: (A, K, B)| u.2;
        let vs = values_for(p.0, second);
        assert(matches_for(p.0, p.1, second) =~= vs.map_values(f));
        lemma_map_count(vs, f, g, t);
        lemma_values_for_count(p.0, second, t.2);
        vstd::seq_lib::lemma_multiset_commutative(join_spec(r, second), matches_for(p.0, p.1, second));
        assert(first =~= r.push(p));
        let c = r.to_multiset().count((t.1, t.0));
        if p == (t.1, t.0) {
            assert(f(g(t)) == t);
            assert((c + 1) * d == c * d + d) by (nonlinear_arith);
        } else {
            assert(f(g(t)) != t);
        }
    }
}

/// One bucket of the build side: a key and its values in arrival order.
struct Bucket<K, B> {
    key: K,
    vals: Vec<B>,
}

/// The build table is valid for the prefix `s`: one bucket per distinct key,
/// each holding exactly that key's values in `s`.
spec fn table_ok<K, B>(t: Seq<Bucket<K, B>>, s: Seq<(K, B)>) -> bool {
    &&& forall|i: int, j: int| 0 <= i < j < t.len() ==> t[i].key != t[j].key
    &&& forall|i: int| 0 <= i < t.len() ==> #[trigger] t[i].vals@ == values_for(t[i].key, s)
    &&& forall|k: K| #![trigger values_for(k, s)]
            (forall|i: int| 0 <= i < t.len() ==> #[trigger] t[i].key != k)
            ==> values_for(k, s) == Seq::<B>::empty()
}

proof fn lemma_values_for_step<K, B>(k: K, s: Seq<(K, B)>, j: int)
    requires
        0 <= j < s.len(),
    ensures
        values_for(k, s.take(j + 1)) == if s[j].0 == k {
            values_for(k, s.take(j)).push(s[j].1)
        } else {
            values_for(k, s.take(j))
        },
{
    assert(s.take(j + 1).drop_last() =~= s.take(j));
}

/// Finds the bucket holding `key`, if any.
fn find_bucket<K: PartialEq + Copy, B>(t: &Vec<Bucket<K, B>>, key: &K) -> (r: Option<usize>)
    requires
        vstd::laws_eq::obeys_concrete_eq::<K>(),
    ensures
        match r {
            Some(i) => i < t@.len() && t@[i as int].key == *key,
            None => forall|i: int| 0 <= i < t@.len() ==> #[trigger] t@[i].key != *key,
        },
{
    let mut i: usize = 0;
    while i < t.len()
        invariant
            i <= t@.len(),
            vstd::laws_eq::obeys_concrete_eq::<K>(),
            forall|j: int| 0 <= j < i ==> #[trigger] t@[j].key != *key,
        decreases t@.len() - i,
    {
        proof {
            reveal(vstd::laws_eq::obeys_concrete_eq);
        }
        if t[i].key == *key {
            return Some(i);
        }
        i = i + 1;
    }
    None
}

/// Builds the table of buckets of `second`, one per distinct key.
fn build_table<K: PartialEq + Copy, B: Copy>(second: &[(K, B)]) -> (table: Vec<Bucket<K, B>>)
    requires
        vstd::laws_eq::obeys_concrete_eq::<K>(),
    ensures
        table_ok(table@, second@),
{
    let mut table: Vec<Bucket<K, B>> = Vec::new();
    let mut j: usize = 0;
    while j < second.len()
        invariant
            j <= second@.len(),
            vstd::laws_eq::obeys_concrete_eq::<K>(),
            table_ok(table@, second@.take(j as int)),
        decreases second@.len() - j,
    {
        let (key, val) = second[j];
        let ghost old_t = table@;
        proof {
            assert forall|k: K| #![trigger values_for(k, second@.take(j + 1))] true implies values_for(k, second@.take(j + 1)) == if second@[j as int].0 == k {
                values_for(k, second@.take(j as int)).push(second@[j as int].1)
            } else {
                values_for(k, second@.take(j as int))
            } by {
                lemma_values_for_step(k, second@, j as int);
            }
        }
        match find_bucket(&table, &key) {
            Some(i) => {
                let mut bucket = table.remove(i);
                bucket.vals.push(val);
                table.insert(i, bucket);
                proof {
                    assert(table@.len() == old_t.len());
                    assert forall|x: int| 0 <= x < table@.len() && x != i implies table@[x] == old_t[x] by {
                        if x < i {
                        } else {
                        }
                    }
                    assert(table@[i as int].key == key);
                    assert(old_t[i as int].key == key);
                    assert forall|x: int| 0 <= x < table@.len() implies #[trigger] table@[x].vals@
                        == values_for(table@[x].key, second@.take(j + 1)) by {
                        if x != i {
                            assert(table@[x] == old_t[x]);
                        }
                    }
                    assert forall|k: K| #![trigger values_for(k, second@.take(j + 1))] (forall|x: int| 0 <= x < table@.len() ==> #[trigger] table@[x].key != k)
                        implies values_for(k, second@.take(j + 1)) == Seq::<B>::empty() by {
                        assert forall|x: int| 0 <= x < old_t.len() implies #[trigger] old_t[x].key != k by {
                            if x != i {
                                assert(table@[x] == old_t[x]);
                            } else {
                                assert(table@[x].key == old_t[x].key);
                            }
                        }
                    }
                }
            },
            None => {
                let mut vals: Vec<B> = Vec::new();
                vals.push(val);
                table.push(Bucket { key, vals });
                proof {
                    assert(values_for(key, second@.take(j as int)) == Seq::<B>::empty());
                    assert(table@.len() == old_t.len() + 1);
                    assert forall|x: int| 0 <= x < old_t.len() implies table@[x] == old_t[x] by {}
                    assert(table@[old_t.len() as int].key == key);
                    assert forall|k: K| #![trigger values_for(k, second@.take(j + 1))] (forall|x: int| 0 <= x < table@.len() ==> #[trigger] table@[x].key != k)
                        implies values_for(k, second@.take(j + 1)) == Seq::<B>::empty() by {
                        assert forall|x: int| 0 <= x < old_t.len() implies #[trigger] old_t[x].key != k by {
                            assert(table@[x] == old_t[x]);
                        }
                        assert(table@[old_t.len() as int].key != k);
                    }
                    assert forall|x: int| 0 <= x < table@.len() implies #[trigger] table@[x].vals@
                        == values_for(table@[x].key, second@.take(j + 1)) by {
                        if x < old_t.len() {
                            assert(table@[x] == old_t[x]);
                        } else {
                            assert(table@[x].vals@ =~= Seq::<B>::empty().push(val));
                        }
                    }
                }
            },
        }
        j = j + 1;
    }
    assert(second@.take(second@.len() as int) =~= second@);
    table
}

// If you know one of the tables is smaller, it is best to make it the second parameter.
/// Joins `first` with `second` on equal keys. Every row `(k, b)` of `first`
/// is paired, in order, with every row `(k, a)` of `second` that has the same
/// key, giving `(b, k, a)`; rows are emitted in the order of `first`.
pub fn hash_join<A, B, K>(first: &[(K, A)], second: &[(K, B)]) -> (result: Vec<(A, K, B)>)
    where
        K: Hash + Eq + Copy,
        A: Copy,
        B: Copy,
    requires
        vstd::laws_eq::obeys_concrete_eq::<K>(),
    ensures
        result@ == join_spec(first@, second@),
{
    // hash phase
    let table = build_table(second);
    // join phase
    let mut result: Vec<(A, K, B)> = Vec::new();
    let mut i: usize = 0;
    while i < first.len()
        invariant
            i <= first@.len(),
            vstd::laws_eq::obeys_concrete_eq::<K>(),
            table_ok(table@, second@),
            result@ == join_spec(first@.take(i as int), second@),
        decreases first@.len() - i,
    {
        let (key, val_b) = first[i];
        let ghost before = result@;
        let ghost m = matches_for(key, val_b, second@);
        match find_bucket(&table, &key) {
            Some(bi) => {
                let vals = &table[bi].vals;
                let mut k: usize = 0;
                while k < vals.len()
                    invariant
                        k <= vals@.len(),
                        vals@ == values_for(key, second@),
                        m == matches_for(key, val_b, second@),
                        result@ == before + m.take(k as int),
                    decreases vals@.len() - k,
                {
                    result.push((val_b, key, vals[k]));
                    assert(m.take(k + 1) =~= m.take(k as int).push(m[k as int]));
                    k = k + 1;
                }
                assert(m.take(vals@.len() as int) =~= m);
            },
            None => {
                assert(m =~= Seq::<(A, K, B)>::empty());
            },
        }
        assert(first@.take(i + 1).drop_last() =~= first@.take(i as int));
        assert(result@ =~= join_spec(first@.take(i + 1), second@));
        i = i + 1;
    }
    assert(first@.take(first@.len() as int) =~= first@);
    result
}

/// The keys of the rows of `first` that have no partner in `second`, in the
/// order of `first` (a key repeats as often as its rows do).
fn anti_join<A, B, K>(first: &[(K, A)], second: &[(K, B)]) -> (result: Vec<K>)
    where
        K: Hash + Eq + Copy,
        A: Copy,
        B: Copy,
    requires
        vstd::laws_eq::obeys_concrete_eq::<K>(),
    ensures
        result@ == anti_join_spec(first@, second@),
{
    // hash phase
    let table = build_table(second);
    let ghost keys = first@.map_values(|p: (K, A)| p.0);
    let ghost pred = |k: K| !has_key(second@, k);
    let mut result: Vec<K> = Vec::new();
    let mut i: usize = 0;
    while i < first.len()
        invariant
            i <= first@.len(),
            vstd::laws_eq::obeys_concrete_eq::<K>(),
            table_ok(table@, second@),
            keys == first@.map_values(|p: (K, A)| p.0),
            pred == (|k: K| !has_key(second@, k)),
            result@ == keys.take(i as int).filter(pred),
        decreases first@.len() - i,
    {
        let (key, _) = first[i];
        proof {
            reveal_with_fuel(Seq::filter, 1);
            assert(keys.take(i + 1).drop_last() =~= keys.take(i as int));
            assert(keys[i as int] == key);
            lemma_values_for_nonempty(key, second@);
        }
        match find_bucket(&table, &key) {
            Some(bi) => {
                assert(table@[bi as int].vals@ == values_for(key, second@));
                if table[bi].vals.len() == 0 {
                    result.push(key);
                }
            },
            None => {
                result.push(key);
            },
        }
        i = i + 1;
    }
    assert(keys.take(first@.len() as int) =~= keys);
    result
}

/// The values that occur in both `a` and `b`, each once. The order in which
/// they come out is not part of the contract.
pub fn intersect(a: &Vec<usize>, b: &Vec<usize>) -> (r: Vec<usize>)
    ensures
        r@.no_duplicates(),
        forall|x: usize| r@.contains(x) <==> (a@.contains(x) && b@.contains(x)),
{
    let mut in_b: HashSet<usize> = HashSet::new();
    let mut j: usize = 0;
    while j < b.len()
        invariant
            j <= b@.len(),
            forall|x: usize| in_b@.contains(x) <==> b@.take(j as int).contains(x),
        decreases b@.len() - j,
    {
        in_b.insert(b[j]);
        proof {
            let t = b@.take(j + 1);
            let p = b@.take(j as int);
            assert forall|x: usize| in_b@.contains(x) <==> t.contains(x) by {
                if t.contains(x) {
                    let k = choose|k: int| 0 <= k < t.len() && t[k] == x;
                    if k < j {
                        assert(p[k] == x);
                    }
                }
                if p.contains(x) {
                    let k = choose|k: int| 0 <= k < p.len() && p[k] == x;
                    assert(t[k] == x);
                }
                assert(t[j as int] == b@[j as int]);
            }
        }
        j = j + 1;
    }
    assert(b@.take(b@.len() as int) =~= b@);
    let mut seen: HashSet<usize> = HashSet::new();
    let mut out: Vec<usize> = Vec::new();
    let mut i: usize = 0;
    while i < a.len()
        invariant
            i <= a@.len(),
            forall|x: usize| in_b@.contains(x) <==> b@.contains(x),
            forall|x: usize| seen@.contains(x) <==> out@.contains(x),
            out@.no_duplicates(),
            forall|x: usize| out@.contains(x) <==> (a@.take(i as int).contains(x) && b@.contains(x)),
        decreases a@.len() - i,
    {
        let x = a[i];
        let ghost before = out@;
        if in_b.contains(&x) && !seen.contains(&x) {
            out.push(x);
            seen.insert(x);
            proof {
                assert forall|y: usize| seen@.contains(y) <==> out@.contains(y) by {
                    if out@.contains(y) {
                        let k = choose|k: int| 0 <= k < out@.len() && out@[k] == y;
                        if k < before.len() {
                            assert(before[k] == y);
                        }
                    }
                    if before.contains(y) {
                        let k = choose|k: int| 0 <= k < before.len() && before[k] == y;
                        assert(out@[k] == y);
                    }
                    assert(out@[before.len() as int] == x);
                }
                assert forall|k: int, l: int| 0 <= k < l < out@.len() implies out@[k] != out@[l] by {
                    if l == out@.len() - 1 {
                        assert(before.contains(out@[k]));
                    }
                }
            }
        }
        proof {
            let t = a@.take(i + 1);
            let p = a@.take(i as int);
            assert forall|y: usize| out@.contains(y) <==> (t.contains(y) && b@.contains(y)) by {
                if t.contains(y) {
                    let k = choose|k: int| 0 <= k < t.len() && t[k] == y;
                    if k < i {
                        assert(p[k] == y);
                    }
                }
                if p.contains(y) {
                    let k = choose|k: int| 0 <= k < p.len() && p[k] == y;
                    assert(t[k] == y);
                }
                assert(t[i as int] == x);
                if out@.contains(y) && y != x {
                    let k = choose|k: int| 0 <= k < out@.len() && out@[k] == y;
                    if k < before.len() {
                        assert(before[k] == y);
                    }
                }
                if before.contains(y) {
                    let k = choose|k: int| 0 <= k < before.len() && before[k] == y;
                    assert(out@[k] == y);
                }
                if y == x && out@.len() > before.len() {
                    assert(out@[before.len() as int] == x);
                }
            }
        }
        i = i + 1;
    }
    assert(a@.take(a@.len() as int) =~= a@);
    out
}

} // verus!
