//! Adding edges to a graph: the incremental two-edge matchers, together with
//! the matchings of the old edges, find what matching the whole graph from
//! scratch finds, apart from the numbers the matchings carry.
use vstd::prelude::*;
use vstd::seq_lib::lemma_multiset_commutative;
use crate::edge::Edge;
use crate::join::{join_spec, lemma_join_count};
use crate::matching::{
    cycle_two_dm_spec, cycle_two_spec, dm_joins, dst_keyed, kept_pairs, numbered_pairs, pair_kept, pair_matching,
    path_two_dm_spec, path_two_spec, src_keyed, swapped_all, Matching, PairRule,
};
use crate::seqs::{lemma_filter_count, lemma_map_count, lemma_map_same_multiset};

verus! {

/// What a matching says apart from its number.
pub open spec fn unnumbered(m: Matching) -> Matching {
    Matching { mid: 0, ..m }
}

/// The unnumbered two-edge matching of a joined pair.
spec fn pair_of(t: (Edge, usize, Edge)) -> Matching {
    pair_matching(0, t.0, t.2)
}

/// The unnumbered two-edge matching of a joined pair, its edges swapped.
spec fn reversed_pair_of(t: (Edge, usize, Edge)) -> Matching {
    pair_matching(0, t.2, t.0)
}

/// The pair `y` then `x` for the pair `x` then `y` of a join on `x.dst`.
spec fn swap_pair(t: (Edge, usize, Edge)) -> (Edge, usize, Edge) {
    (t.2, t.2.dst, t.0)
}

/// The edges keyed by destination hold `(k, x)` once per copy of `x` when
/// `k` is the destination of `x`, and never otherwise.
proof fn lemma_dst_keyed_count(edges: Seq<Edge>, p: (usize, Edge))
    ensures
        dst_keyed(edges).to_multiset().count(p) == if p.0 == p.1.dst { edges.to_multiset().count(p.1) } else { 0 },
{
    let f = |x: Edge| (x.dst, x);
    let g = |q: (usize, Edge)| q.1;
    assert(dst_keyed(edges) =~= edges.map_values(f));
    lemma_map_count(edges, f, g, p);
}

/// The edges keyed by source hold `(k, x)` once per copy of `x` when `k` is
/// the source of `x`, and never otherwise.
proof fn lemma_src_keyed_count(edges: Seq<Edge>, p: (usize, Edge))
    ensures
        src_keyed(edges).to_multiset().count(p) == if p.0 == p.1.src { edges.to_multiset().count(p.1) } else { 0 },
{
    let f = |x: Edge| (x.src, x);
    let g = |q: (usize, Edge)| q.1;
    assert(src_keyed(edges) =~= edges.map_values(f));
    lemma_map_count(edges, f, g, p);
}

/// The joined pairs of the whole graph are those of the old edges and the
/// three kinds of pairs that use a new edge.
proof fn lemma_join_split(e: Seq<Edge>, de: Seq<Edge>)
    ensures
        ({
            let (j1, j2, j3) = dm_joins(e, de);
            join_spec(dst_keyed(e + de), src_keyed(e + de)).to_multiset()
                == (join_spec(dst_keyed(e), src_keyed(e)) + j1 + j2 + j3).to_multiset()
        }),
{
    broadcast use vstd::multiset::group_multiset_axioms;

    let (j1, j2, j3) = dm_joins(e, de);
    let j0 = join_spec(dst_keyed(e), src_keyed(e));
    let whole = join_spec(dst_keyed(e + de), src_keyed(e + de));
    assert(dst_keyed(e + de) =~= dst_keyed(e) + dst_keyed(de));
    assert(src_keyed(e + de) =~= src_keyed(e) + src_keyed(de));
    lemma_multiset_commutative(dst_keyed(e), dst_keyed(de));
    lemma_multiset_commutative(src_keyed(e), src_keyed(de));
    lemma_multiset_commutative(j0, j1);
    lemma_multiset_commutative(j0 + j1, j2);
    lemma_multiset_commutative(j0 + j1 + j2, j3);
    assert forall|t: (Edge, usize, Edge)| #[trigger] whole.to_multiset().count(t)
        == (j0 + j1 + j2 + j3).to_multiset().count(t) by {
        lemma_join_count(dst_keyed(e + de), src_keyed(e + de), t);
        lemma_join_count(dst_keyed(e), src_keyed(e), t);
        lemma_join_count(dst_keyed(e), src_keyed(de), t);
        lemma_join_count(dst_keyed(de), src_keyed(e), t);
        lemma_join_count(dst_keyed(de), src_keyed(de), t);
        let a1 = dst_keyed(e).to_multiset().count((t.1, t.0));
        let a2 = dst_keyed(de).to_multiset().count((t.1, t.0));
        let b1 = src_keyed(e).to_multiset().count((t.1, t.2));
        let b2 = src_keyed(de).to_multiset().count((t.1, t.2));
        assert((a1 + a2) * (b1 + b2) == a1 * b1 + a1 * b2 + a2 * b1 + a2 * b2) by (nonlinear_arith);
    }
    assert(whole.to_multiset() =~= (j0 + j1 + j2 + j3).to_multiset());
}

/// Mapping distributes over concatenation.
proof fn lemma_map_concat<A, B>(a: Seq<A>, b: Seq<A>, f: spec_fn(A) -> B)
    ensures
        (a + b).map_values(f) == a.map_values(f) + b.map_values(f),
{
    assert((a + b).map_values(f) =~= a.map_values(f) + b.map_values(f));
}

/// Numbered pairs, their numbers cleared, are the pairs themselves.
proof fn lemma_unnumbered_pairs(s: Seq<(Edge, usize, Edge)>, base: int)
    ensures
        numbered_pairs(s, base).map_values(|m: Matching| unnumbered(m)) == s.map_values(|t: (Edge, usize, Edge)| pair_of(t)),
{
    assert(numbered_pairs(s, base).map_values(|m: Matching| unnumbered(m))
        =~= s.map_values(|t: (Edge, usize, Edge)| pair_of(t)));
}

/// Adding the edges `de` to the edges `e`: the two-edge paths of the whole
/// graph are those of `e` together with those that the incremental matcher
/// finds for `de`, apart from the numbers of the matchings.
pub proof fn lemma_path_two_delta(eid: int, e: Seq<Edge>, de: Seq<Edge>)
    ensures
        path_two_spec(e + de).map_values(|m: Matching| unnumbered(m)).to_multiset()
            == (path_two_spec(e) + path_two_dm_spec(eid, e, de).1).map_values(|m: Matching| unnumbered(m)).to_multiset(),
{
    let u = |m: Matching| unnumbered(m);
    let g = |t: (Edge, usize, Edge)| pair_of(t);
    let (j1, j2, j3) = dm_joins(e, de);
    let j0 = join_spec(dst_keyed(e), src_keyed(e));
    let whole = join_spec(dst_keyed(e + de), src_keyed(e + de));
    lemma_join_split(e, de);
    lemma_map_same_multiset(whole, j0 + j1 + j2 + j3, g);
    lemma_unnumbered_pairs(whole, 0);
    let n1 = numbered_pairs(j1, eid);
    let n2 = numbered_pairs(j2, eid + j1.len());
    let n3 = numbered_pairs(j3, eid + j1.len() + j2.len());
    lemma_unnumbered_pairs(j0, 0);
    lemma_unnumbered_pairs(j1, eid);
    lemma_unnumbered_pairs(j2, eid + j1.len());
    lemma_unnumbered_pairs(j3, eid + j1.len() + j2.len());
    lemma_map_concat(path_two_spec(e), n1 + n2 + n3, u);
    lemma_map_concat(n1 + n2, n3, u);
    lemma_map_concat(n1, n2, u);
    lemma_map_concat(j0 + j1 + j2, j3, g);
    lemma_map_concat(j0 + j1, j2, g);
    lemma_map_concat(j0, j1, g);
    assert((path_two_spec(e) + path_two_dm_spec(eid, e, de).1).map_values(u)
        =~= (j0 + j1 + j2 + j3).map_values(g));
}

/// Every pair of a join of edges keyed by destination is keyed by the
/// destination of its first edge.
proof fn lemma_join_keyed_by_first(d: Seq<Edge>, s: Seq<(usize, Edge)>, rule: PairRule, i: int)
    requires
        0 <= i < kept_pairs(rule, join_spec(dst_keyed(d), s)).len(),
    ensures
        ({
            let t = kept_pairs(rule, join_spec(dst_keyed(d), s))[i];
            t.1 == t.0.dst
        }),
{
    broadcast use vstd::seq_lib::group_to_multiset_ensures;

    let k = kept_pairs(rule, join_spec(dst_keyed(d), s));
    let t = k[i];
    assert(k.contains(t));
    lemma_filter_count(join_spec(dst_keyed(d), s), |u: (Edge, usize, Edge)| pair_kept(rule, u), t);
    lemma_join_count(dst_keyed(d), s, t);
    lemma_dst_keyed_count(d, (t.1, t.0));
    if t.1 != t.0.dst {
        assert(join_spec(dst_keyed(d), s).to_multiset().count(t) == 0) by (nonlinear_arith)
            requires
                join_spec(dst_keyed(d), s).to_multiset().count(t)
                    == dst_keyed(d).to_multiset().count((t.1, t.0)) * s.to_multiset().count((t.1, t.2)),
                dst_keyed(d).to_multiset().count((t.1, t.0)) == 0;
    }
}

/// The cycles that a new edge closes after an old one, counted from the new
/// edge, are the cycles it closes before an old one, their edges swapped.
proof fn lemma_closing_pairs_swap(e: Seq<Edge>, de: Seq<Edge>)
    ensures
        ({
            let (j1, j2, j3) = dm_joins(e, de);
            kept_pairs(PairRule::Closes, j2).to_multiset()
                == kept_pairs(PairRule::Closes, j1).map_values(|t: (Edge, usize, Edge)| swap_pair(t)).to_multiset()
        }),
{
    broadcast use vstd::multiset::group_multiset_axioms;

    let (j1, j2, j3) = dm_joins(e, de);
    let k1 = kept_pairs(PairRule::Closes, j1);
    let k2 = kept_pairs(PairRule::Closes, j2);
    let sw = |t: (Edge, usize, Edge)| swap_pair(t);
    let back = |t: (Edge, usize, Edge)| (t.2, t.2.dst, t.0);
    let p = |u: (Edge, usize, Edge)| pair_kept(PairRule::Closes, u);
    assert forall|i: int| 0 <= i < k1.len() implies back(sw(#[trigger] k1[i])) == k1[i] by {
        lemma_join_keyed_by_first(e, src_keyed(de), PairRule::Closes, i);
    }
    assert forall|t: (Edge, usize, Edge)| #[trigger] k2.to_multiset().count(t)
        == k1.map_values(sw).to_multiset().count(t) by {
        lemma_map_count(k1, sw, back, t);
        let v = back(t);
        lemma_filter_count(j2, p, t);
        lemma_filter_count(j1, p, v);
        lemma_join_count(dst_keyed(de), src_keyed(e), t);
        lemma_join_count(dst_keyed(e), src_keyed(de), v);
        lemma_dst_keyed_count(de, (t.1, t.0));
        lemma_src_keyed_count(e, (t.1, t.2));
        lemma_dst_keyed_count(e, (v.1, v.0));
        lemma_src_keyed_count(de, (v.1, v.2));
        let x = de.to_multiset().count(t.0);
        let y = e.to_multiset().count(t.2);
        assert(x * y == y * x) by (nonlinear_arith);
        if !(t.1 == t.0.dst && t.1 == t.2.src && t.0.src == t.2.dst) {
            assert(k2.to_multiset().count(t) == 0) by (nonlinear_arith)
                requires
                    k2.to_multiset().count(t) == if p(t) { j2.to_multiset().count(t) } else { 0 },
                    j2.to_multiset().count(t)
                        == dst_keyed(de).to_multiset().count((t.1, t.0)) * src_keyed(e).to_multiset().count((t.1, t.2)),
                    p(t) <==> t.0.src == t.2.dst,
                    t.1 != t.0.dst ==> dst_keyed(de).to_multiset().count((t.1, t.0)) == 0,
                    t.1 != t.2.src ==> src_keyed(e).to_multiset().count((t.1, t.2)) == 0,
                    !(t.1 == t.0.dst && t.1 == t.2.src && t.0.src == t.2.dst);
        }
    }
    assert(k2.to_multiset() =~= k1.map_values(sw).to_multiset());
}

/// Adding the edges `de` to the edges `e`: the two-edge cycles of the whole
/// graph are those of `e` together with those that the incremental matcher
/// finds for `de`, apart from the numbers of the matchings.
pub proof fn lemma_cycle_two_delta(eid: int, e: Seq<Edge>, de: Seq<Edge>)
    ensures
        cycle_two_spec(e + de).map_values(|m: Matching| unnumbered(m)).to_multiset()
            == (cycle_two_spec(e) + cycle_two_dm_spec(eid, e, de).1).map_values(|m: Matching| unnumbered(m)).to_multiset(),
{
    broadcast use vstd::multiset::group_multiset_axioms;

    let u = |m: Matching| unnumbered(m);
    let g = |t: (Edge, usize, Edge)| pair_of(t);
    let h = |t: (Edge, usize, Edge)| reversed_pair_of(t);
    let sw = |t: (Edge, usize, Edge)| swap_pair(t);
    let p = |t: (Edge, usize, Edge)| pair_kept(PairRule::Closes, t);
    let (j1, j2, j3) = dm_joins(e, de);
    let j0 = join_spec(dst_keyed(e), src_keyed(e));
    let whole = join_spec(dst_keyed(e + de), src_keyed(e + de));
    let k0 = kept_pairs(PairRule::Closes, j0);
    let k1 = kept_pairs(PairRule::Closes, j1);
    let k2 = kept_pairs(PairRule::Closes, j2);
    let k3 = kept_pairs(PairRule::Closes, j3);
    let kw = kept_pairs(PairRule::Closes, whole);

    // The kept pairs of the whole graph split as the joined pairs do.
    lemma_join_split(e, de);
    lemma_multiset_commutative(k0, k1);
    lemma_multiset_commutative(k0 + k1, k2);
    lemma_multiset_commutative(k0 + k1 + k2, k3);
    lemma_multiset_commutative(j0, j1);
    lemma_multiset_commutative(j0 + j1, j2);
    lemma_multiset_commutative(j0 + j1 + j2, j3);
    assert forall|t: (Edge, usize, Edge)| #[trigger] kw.to_multiset().count(t)
        == (k0 + k1 + k2 + k3).to_multiset().count(t) by {
        lemma_filter_count(whole, p, t);
        lemma_filter_count(j0, p, t);
        lemma_filter_count(j1, p, t);
        lemma_filter_count(j2, p, t);
        lemma_filter_count(j3, p, t);
        assert(whole.to_multiset().count(t) == (j0 + j1 + j2 + j3).to_multiset().count(t));
    }
    assert(kw.to_multiset() =~= (k0 + k1 + k2 + k3).to_multiset());
    lemma_map_same_multiset(kw, k0 + k1 + k2 + k3, g);

    // The pairs closed by a new edge after an old one are the swapped pairs
    // closed before one.
    lemma_closing_pairs_swap(e, de);
    lemma_map_same_multiset(k2, k1.map_values(sw), g);
    assert(k1.map_values(sw).map_values(g) =~= k1.map_values(h));

    // Both sides, their numbers cleared.
    let n1 = numbered_pairs(k1, eid);
    let n2 = swapped_all(n1, eid + k1.len());
    let n3 = numbered_pairs(k3, eid + 2 * k1.len());
    lemma_unnumbered_pairs(kw, 0);
    lemma_unnumbered_pairs(k0, 0);
    lemma_unnumbered_pairs(k1, eid);
    lemma_unnumbered_pairs(k3, eid + 2 * k1.len());
    assert(n2.map_values(u) =~= k1.map_values(h));
    lemma_map_concat(cycle_two_spec(e), n1 + n2 + n3, u);
    lemma_map_concat(n1 + n2, n3, u);
    lemma_map_concat(n1, n2, u);
    let left = kw.map_values(g);
    let right = k0.map_values(g) + k1.map_values(g) + k1.map_values(h) + k3.map_values(g);
    assert((cycle_two_spec(e) + cycle_two_dm_spec(eid, e, de).1).map_values(u) =~= right);
    lemma_map_concat(k0 + k1 + k2, k3, g);
    lemma_map_concat(k0 + k1, k2, g);
    lemma_map_concat(k0, k1, g);
    let mid = k0.map_values(g) + k1.map_values(g) + k2.map_values(g) + k3.map_values(g);
    assert(left.to_multiset() == mid.to_multiset());
    lemma_multiset_commutative(k0.map_values(g), k1.map_values(g));
    lemma_multiset_commutative(k0.map_values(g) + k1.map_values(g), k2.map_values(g));
    lemma_multiset_commutative(k0.map_values(g) + k1.map_values(g) + k2.map_values(g), k3.map_values(g));
    lemma_multiset_commutative(k0.map_values(g) + k1.map_values(g), k1.map_values(h));
    lemma_multiset_commutative(k0.map_values(g) + k1.map_values(g) + k1.map_values(h), k3.map_values(g));
    assert(mid.to_multiset() =~= right.to_multiset());
}

/// The incremental two-edge path matcher numbers its matchings `eid + 1`,
/// `eid + 2`, ... in order, and returns the last number it gave out: its
/// matchings have distinct ids, all after `eid` and none after the number
/// it returns.
pub proof fn lemma_path_two_dm_numbers(eid: usize, e: Seq<Edge>, de: Seq<Edge>)
    requires
        path_two_dm_spec(eid as int, e, de).0 <= usize::MAX,
    ensures
        ({
            let (n, ms) = path_two_dm_spec(eid as int, e, de);
            &&& n == eid + ms.len()
            &&& forall|i: int| 0 <= i < ms.len() ==> (#[trigger] ms[i]).mid == eid + i + 1
            &&& forall|i: int, j: int| 0 <= i < j < ms.len() ==> ms[i].mid != ms[j].mid
            &&& forall|i: int| 0 <= i < ms.len() ==> eid < (#[trigger] ms[i]).mid <= n
        }),
{
    let (j1, j2, j3) = dm_joins(e, de);
    let (n, ms) = path_two_dm_spec(eid as int, e, de);
    let n1 = numbered_pairs(j1, eid as int);
    let n2 = numbered_pairs(j2, eid + j1.len());
    let n3 = numbered_pairs(j3, eid + j1.len() + j2.len());
    assert forall|i: int| 0 <= i < ms.len() implies (#[trigger] ms[i]).mid == eid + i + 1 by {
        if i < n1.len() {
            assert(ms[i] == n1[i]);
        } else if i < n1.len() + n2.len() {
            assert(ms[i] == n2[i - n1.len()]);
        } else {
            assert(ms[i] == n3[i - n1.len() - n2.len()]);
        }
    }
}

/// The incremental two-edge cycle matcher numbers its matchings `eid + 1`,
/// `eid + 2`, ... in order, and returns the last number it gave out: its
/// matchings have distinct ids, all after `eid` and none after the number
/// it returns.
pub proof fn lemma_cycle_two_dm_numbers(eid: usize, e: Seq<Edge>, de: Seq<Edge>)
    requires
        cycle_two_dm_spec(eid as int, e, de).0 <= usize::MAX,
    ensures
        ({
            let (n, ms) = cycle_two_dm_spec(eid as int, e, de);
            &&& n == eid + ms.len()
            &&& forall|i: int| 0 <= i < ms.len() ==> (#[trigger] ms[i]).mid == eid + i + 1
            &&& forall|i: int, j: int| 0 <= i < j < ms.len() ==> ms[i].mid != ms[j].mid
            &&& forall|i: int| 0 <= i < ms.len() ==> eid < (#[trigger] ms[i]).mid <= n
        }),
{
    let (j1, j2, j3) = dm_joins(e, de);
    let k1 = kept_pairs(PairRule::Closes, j1);
    let k3 = kept_pairs(PairRule::Closes, j3);
    let (n, ms) = cycle_two_dm_spec(eid as int, e, de);
    let p1 = numbered_pairs(k1, eid as int);
    let p2 = swapped_all(p1, eid + k1.len());
    let p3 = numbered_pairs(k3, eid + 2 * k1.len());
    assert forall|i: int| 0 <= i < ms.len() implies (#[trigger] ms[i]).mid == eid + i + 1 by {
        if i < p1.len() {
            assert(ms[i] == p1[i]);
        } else if i < p1.len() + p2.len() {
            assert(ms[i] == p2[i - p1.len()]);
        } else {
            assert(ms[i] == p3[i - p1.len() - p2.len()]);
        }
    }
}

} // verus!
