//! What the path, two-edge cycle and star matchers produce, stated over the
//! edges themselves: each matching is edges of the graph in the pattern's
//! shape, listed in pattern order, and spans exactly the times of those
//! edges.
use vstd::prelude::*;
use crate::edge::Edge;
use crate::join::join_spec;
use crate::laws::lemma_join_membership;
use crate::matching::{
    cycle_two_spec, dst_keyed, extend_entry, half_entry, halves_spec, in_star_three_spec, in_star_two_spec, kept_pairs,
    lemma_keep_all, numbered_pairs, numbered_triples, out_star_three_spec, out_star_two_spec, pair_kept, path_four_spec,
    path_halves, path_three_spec, path_two_spec, src_keyed, triple_matching, triple_ordered, Half2, Matching, PairRule,
};

verus! {

/// `m` is the earliest of the times `ts`: no later than any, and one of them.
pub open spec fn earliest(m: usize, ts: Seq<usize>) -> bool {
    &&& forall|i: int| 0 <= i < ts.len() ==> m <= #[trigger] ts[i]
    &&& exists|i: int| 0 <= i < ts.len() && m == ts[i]
}

/// `m` is the latest of the times `ts`: no earlier than any, and one of them.
pub open spec fn latest(m: usize, ts: Seq<usize>) -> bool {
    &&& forall|i: int| 0 <= i < ts.len() ==> #[trigger] ts[i] <= m
    &&& exists|i: int| 0 <= i < ts.len() && m == ts[i]
}

/// `m` is the three-edge path `edges[a] -> edges[b] -> edges[c]`: its edge
/// ids in path order, its first and last times the earliest and latest
/// times of the three edges.
pub open spec fn is_three_path(edges: Seq<Edge>, m: Matching, a: int, b: int, c: int) -> bool {
    &&& 0 <= a < edges.len() && 0 <= b < edges.len() && 0 <= c < edges.len()
    &&& edges[a].dst == edges[b].src
    &&& edges[b].dst == edges[c].src
    &&& m.eid == [edges[a].eid, edges[b].eid, edges[c].eid, 0usize, 0usize]
    &&& m.match_size == 3
    &&& earliest(m.first, seq![edges[a].first, edges[b].first, edges[c].first])
    &&& latest(m.last, seq![edges[a].first, edges[b].first, edges[c].first])
}

/// `m` is the four-edge path `edges[a] -> edges[b] -> edges[c] -> edges[d]`:
/// its edge ids in path order, its first and last times the earliest and
/// latest times of the four edges.
pub open spec fn is_four_path(edges: Seq<Edge>, m: Matching, a: int, b: int, c: int, d: int) -> bool {
    &&& 0 <= a < edges.len() && 0 <= b < edges.len() && 0 <= c < edges.len() && 0 <= d < edges.len()
    &&& edges[a].dst == edges[b].src
    &&& edges[b].dst == edges[c].src
    &&& edges[c].dst == edges[d].src
    &&& m.eid == [edges[a].eid, edges[b].eid, edges[c].eid, edges[d].eid, 0usize]
    &&& m.match_size == 4
    &&& earliest(m.first, seq![edges[a].first, edges[b].first, edges[c].first, edges[d].first])
    &&& latest(m.last, seq![edges[a].first, edges[b].first, edges[c].first, edges[d].first])
}

/// `m` is some three-edge path of `edges`.
pub open spec fn three_path_of(edges: Seq<Edge>, m: Matching) -> bool {
    exists|a: int, b: int, c: int| is_three_path(edges, m, a, b, c)
}

/// `m` is some four-edge path of `edges`.
pub open spec fn four_path_of(edges: Seq<Edge>, m: Matching) -> bool {
    exists|a: int, b: int, c: int, d: int| is_four_path(edges, m, a, b, c, d)
}

/// A row `(k, y)` of the edges keyed by source is an edge leaving `k`.
proof fn lemma_src_row(edges: Seq<Edge>, k: usize, y: Edge)
    requires
        src_keyed(edges).contains((k, y)),
    ensures
        exists|c: int| 0 <= c < edges.len() && edges[c] == y && y.src == k,
{
    let j = choose|j: int| 0 <= j < src_keyed(edges).len() && src_keyed(edges)[j] == (k, y);
    assert(edges[j] == y);
}

/// A row `(k, x)` of the edges keyed by destination is an edge entering `k`.
proof fn lemma_dst_row(edges: Seq<Edge>, k: usize, x: Edge)
    requires
        dst_keyed(edges).contains((k, x)),
    ensures
        exists|a: int| 0 <= a < edges.len() && edges[a] == x && x.dst == k,
{
    let j = choose|j: int| 0 <= j < dst_keyed(edges).len() && dst_keyed(edges)[j] == (k, x);
    assert(edges[j] == x);
}

/// A keyed two-edge partial match is a path `edges[a] -> edges[b]` keyed by
/// the end of its second edge.
proof fn lemma_path_half(edges: Seq<Edge>, k: usize, h: Half2)
    requires
        path_halves(edges).contains((k, h)),
    ensures
        exists|a: int, b: int|
            0 <= a < edges.len() && 0 <= b < edges.len() && edges[a].dst == edges[b].src && k == edges[b].dst
                && h == ([edges[a].eid, edges[b].eid], [edges[a].first, edges[b].first],
                    if edges[a].first <= edges[b].first { edges[a].first } else { edges[b].first },
                    if edges[a].first >= edges[b].first { edges[a].first } else { edges[b].first }),
{
    let p = join_spec(dst_keyed(edges), src_keyed(edges));
    lemma_keep_all(p);
    let ph = path_halves(edges);
    let q = choose|q: int| 0 <= q < ph.len() && ph[q] == (k, h);
    assert(kept_pairs(PairRule::All, p) == p);
    assert(ph[q] == half_entry(p[q], true));
    let (x, w, z) = p[q];
    assert(p.contains(p[q]));
    lemma_join_membership(dst_keyed(edges), src_keyed(edges), x, w, z);
    lemma_dst_row(edges, w, x);
    lemma_src_row(edges, w, z);
    let a = choose|a: int| 0 <= a < edges.len() && edges[a] == x && x.dst == w;
    let b = choose|b: int| 0 <= b < edges.len() && edges[b] == z && z.src == w;
}

/// Without the id check, entry `i` of the numbered triples is the triple
/// matching of entry `i` of `s`.
proof fn lemma_numbered_triples_all(s: Seq<(Half2, usize, Edge)>)
    ensures
        numbered_triples(s, false).len() == s.len(),
        forall|i: int| 0 <= i < s.len() ==> #[trigger] numbered_triples(s, false)[i] == triple_matching(i + 1, s[i]),
    decreases s.len(),
{
    if s.len() > 0 {
        lemma_numbered_triples_all(s.drop_last());
    }
}

/// Every matching that `path_three` produces is a three-edge path of the
/// graph: edges `a -> b -> c` chained head to tail, their ids in path order,
/// and the matching's first and last times the earliest and latest times of
/// the three edges.
pub proof fn lemma_path_three_matchings(edges: Seq<Edge>)
    ensures
        forall|i: int| 0 <= i < path_three_spec(edges).len() ==> three_path_of(edges, #[trigger] path_three_spec(edges)[i]),
{
    let jn = join_spec(path_halves(edges), src_keyed(edges));
    lemma_numbered_triples_all(jn);
    assert forall|i: int| 0 <= i < path_three_spec(edges).len() implies three_path_of(edges, #[trigger] path_three_spec(edges)[i]) by {
        let m = path_three_spec(edges)[i];
        let (h, k, y) = jn[i];
        assert(m == triple_matching(i + 1, jn[i]));
        assert(jn.contains(jn[i]));
        lemma_join_membership(path_halves(edges), src_keyed(edges), h, k, y);
        lemma_path_half(edges, k, h);
        lemma_src_row(edges, k, y);
        let (a, b) = choose|a: int, b: int|
            0 <= a < edges.len() && 0 <= b < edges.len() && edges[a].dst == edges[b].src && k == edges[b].dst
                && h == ([edges[a].eid, edges[b].eid], [edges[a].first, edges[b].first],
                    if edges[a].first <= edges[b].first { edges[a].first } else { edges[b].first },
                    if edges[a].first >= edges[b].first { edges[a].first } else { edges[b].first });
        let c = choose|c: int| 0 <= c < edges.len() && edges[c] == y && y.src == k;
        let ts = seq![edges[a].first, edges[b].first, edges[c].first];
        assert(earliest(m.first, ts)) by {
            if m.first == ts[0] {} else if m.first == ts[1] {} else { assert(m.first == ts[2]); }
        }
        assert(latest(m.last, ts)) by {
            if m.last == ts[0] {} else if m.last == ts[1] {} else { assert(m.last == ts[2]); }
        }
        assert(is_three_path(edges, m, a, b, c));
    }
}

/// Every matching that `path_four` produces is a four-edge path of the
/// graph: edges `a -> b -> c -> d` chained head to tail, their ids in path
/// order, and the matching's first and last times the earliest and latest
/// times of the four edges.
pub proof fn lemma_path_four_matchings(edges: Seq<Edge>)
    ensures
        forall|i: int| 0 <= i < path_four_spec(edges).len() ==> four_path_of(edges, #[trigger] path_four_spec(edges)[i]),
{
    let j3 = join_spec(path_halves(edges), src_keyed(edges));
    let bx = j3.map_values(|t: (Half2, usize, Edge)| extend_entry(t));
    let j4 = join_spec(bx, src_keyed(edges));
    assert forall|i: int| 0 <= i < path_four_spec(edges).len() implies four_path_of(edges, #[trigger] path_four_spec(edges)[i]) by {
        let m = path_four_spec(edges)[i];
        let (h3, k, w) = j4[i];
        assert(j4.contains(j4[i]));
        lemma_join_membership(bx, src_keyed(edges), h3, k, w);
        lemma_src_row(edges, k, w);
        let d = choose|d: int| 0 <= d < edges.len() && edges[d] == w && w.src == k;
        let q = choose|q: int| 0 <= q < bx.len() && bx[q] == (k, h3);
        let (h, k2, y) = j3[q];
        assert(bx[q] == extend_entry(j3[q]));
        assert(j3.contains(j3[q]));
        lemma_join_membership(path_halves(edges), src_keyed(edges), h, k2, y);
        lemma_path_half(edges, k2, h);
        lemma_src_row(edges, k2, y);
        let (a, b) = choose|a: int, b: int|
            0 <= a < edges.len() && 0 <= b < edges.len() && edges[a].dst == edges[b].src && k2 == edges[b].dst
                && h == ([edges[a].eid, edges[b].eid], [edges[a].first, edges[b].first],
                    if edges[a].first <= edges[b].first { edges[a].first } else { edges[b].first },
                    if edges[a].first >= edges[b].first { edges[a].first } else { edges[b].first });
        let c = choose|c: int| 0 <= c < edges.len() && edges[c] == y && y.src == k2;
        let ts = seq![edges[a].first, edges[b].first, edges[c].first, edges[d].first];
        assert(earliest(m.first, ts)) by {
            if m.first == ts[0] {} else if m.first == ts[1] {} else if m.first == ts[2] {} else { assert(m.first == ts[3]); }
        }
        assert(latest(m.last, ts)) by {
            if m.last == ts[0] {} else if m.last == ts[1] {} else if m.last == ts[2] {} else { assert(m.last == ts[3]); }
        }
        assert(is_four_path(edges, m, a, b, c, d));
    }
}

/// `m` is the pair `edges[a]`, `edges[b]`: their ids in that order, its
/// first and last times the earlier and later of their times.
pub open spec fn is_pair(edges: Seq<Edge>, m: Matching, a: int, b: int) -> bool {
    &&& 0 <= a < edges.len() && 0 <= b < edges.len()
    &&& m.eid == [edges[a].eid, edges[b].eid, 0usize, 0usize, 0usize]
    &&& m.match_size == 2
    &&& earliest(m.first, seq![edges[a].first, edges[b].first])
    &&& latest(m.last, seq![edges[a].first, edges[b].first])
}

/// `m` is a two-edge path of `edges`.
pub open spec fn two_path_of(edges: Seq<Edge>, m: Matching) -> bool {
    exists|a: int, b: int| is_pair(edges, m, a, b) && edges[a].dst == edges[b].src
}

/// `m` is a two-edge cycle of `edges`: a path that returns to its start.
pub open spec fn two_cycle_of(edges: Seq<Edge>, m: Matching) -> bool {
    exists|a: int, b: int| is_pair(edges, m, a, b) && edges[a].dst == edges[b].src && edges[b].dst == edges[a].src
}

/// `m` is two edges of `edges` leaving one node, ids increasing.
pub open spec fn two_in_star_of(edges: Seq<Edge>, m: Matching) -> bool {
    exists|a: int, b: int| is_pair(edges, m, a, b) && edges[a].src == edges[b].src && edges[a].eid < edges[b].eid
}

/// `m` is two edges of `edges` entering one node, ids increasing.
pub open spec fn two_out_star_of(edges: Seq<Edge>, m: Matching) -> bool {
    exists|a: int, b: int| is_pair(edges, m, a, b) && edges[a].dst == edges[b].dst && edges[a].eid < edges[b].eid
}

/// `m` is the three edges `edges[a]`, `edges[b]`, `edges[c]`, in that order,
/// its first and last times the earliest and latest of their times.
pub open spec fn is_triple(edges: Seq<Edge>, m: Matching, a: int, b: int, c: int) -> bool {
    &&& 0 <= a < edges.len() && 0 <= b < edges.len() && 0 <= c < edges.len()
    &&& m.eid == [edges[a].eid, edges[b].eid, edges[c].eid, 0usize, 0usize]
    &&& m.match_size == 3
    &&& earliest(m.first, seq![edges[a].first, edges[b].first, edges[c].first])
    &&& latest(m.last, seq![edges[a].first, edges[b].first, edges[c].first])
}

/// `m` is three edges of `edges` leaving one node, ids increasing.
pub open spec fn three_in_star_of(edges: Seq<Edge>, m: Matching) -> bool {
    exists|a: int, b: int, c: int|
        is_triple(edges, m, a, b, c) && edges[a].src == edges[b].src && edges[b].src == edges[c].src
            && edges[a].eid < edges[b].eid && edges[b].eid < edges[c].eid
}

/// `m` is three edges of `edges` entering one node, ids increasing.
pub open spec fn three_out_star_of(edges: Seq<Edge>, m: Matching) -> bool {
    exists|a: int, b: int, c: int|
        is_triple(edges, m, a, b, c) && edges[a].dst == edges[b].dst && edges[b].dst == edges[c].dst
            && edges[a].eid < edges[b].eid && edges[b].eid < edges[c].eid
}

/// A pair kept by `rule` from a join of keyed edges is a joined pair.
proof fn lemma_kept_member(rule: PairRule, s: Seq<(Edge, usize, Edge)>, i: int)
    requires
        0 <= i < kept_pairs(rule, s).len(),
    ensures
        s.contains(kept_pairs(rule, s)[i]),
        pair_kept(rule, kept_pairs(rule, s)[i]),
{
    let p = |t: (Edge, usize, Edge)| pair_kept(rule, t);
    let k = kept_pairs(rule, s);
    assert(k.contains(k[i]));
    s.lemma_filter_contains_rev(p, k[i]);
    s.lemma_filter_pred(p, i);
}

/// A pair joined from edges keyed by `ka` and edges keyed by `kb` is two
/// edges of the graph that carry the join key.
proof fn lemma_joined_pair(edges: Seq<Edge>, by_dst_first: bool, by_dst_second: bool, t: (Edge, usize, Edge))
    requires
        join_spec(
            if by_dst_first { dst_keyed(edges) } else { src_keyed(edges) },
            if by_dst_second { dst_keyed(edges) } else { src_keyed(edges) },
        ).contains(t),
    ensures
        exists|a: int, b: int|
            0 <= a < edges.len() && 0 <= b < edges.len() && edges[a] == t.0 && edges[b] == t.2
                && (if by_dst_first { t.0.dst } else { t.0.src }) == t.1
                && (if by_dst_second { t.2.dst } else { t.2.src }) == t.1,
{
    let f = if by_dst_first { dst_keyed(edges) } else { src_keyed(edges) };
    let g = if by_dst_second { dst_keyed(edges) } else { src_keyed(edges) };
    lemma_join_membership(f, g, t.0, t.1, t.2);
    if by_dst_first { lemma_dst_row(edges, t.1, t.0); } else { lemma_src_row(edges, t.1, t.0); }
    if by_dst_second { lemma_dst_row(edges, t.1, t.2); } else { lemma_src_row(edges, t.1, t.2); }
    let a = choose|a: int| 0 <= a < edges.len() && edges[a] == t.0 && (if by_dst_first { t.0.dst } else { t.0.src }) == t.1;
    let b = choose|b: int| 0 <= b < edges.len() && edges[b] == t.2 && (if by_dst_second { t.2.dst } else { t.2.src }) == t.1;
}

/// The pair matching of a joined pair `edges[a]`, `edges[b]` is that pair.
proof fn lemma_pair_is_pair(edges: Seq<Edge>, s: Seq<(Edge, usize, Edge)>, i: int, a: int, b: int)
    requires
        0 <= i < s.len(),
        0 <= a < edges.len() && 0 <= b < edges.len(),
        edges[a] == s[i].0,
        edges[b] == s[i].2,
    ensures
        is_pair(edges, numbered_pairs(s, 0)[i], a, b),
{
    let m = numbered_pairs(s, 0)[i];
    let ts = seq![edges[a].first, edges[b].first];
    assert(earliest(m.first, ts)) by {
        if m.first == ts[0] {} else { assert(m.first == ts[1]); }
    }
    assert(latest(m.last, ts)) by {
        if m.last == ts[0] {} else { assert(m.last == ts[1]); }
    }
}

/// Every matching that `path_two` produces is a two-edge path of the graph:
/// an edge followed by an edge leaving its destination, their ids in path
/// order, first and last the earlier and later of their times.
pub proof fn lemma_path_two_matchings(edges: Seq<Edge>)
    ensures
        forall|i: int| 0 <= i < path_two_spec(edges).len() ==> two_path_of(edges, #[trigger] path_two_spec(edges)[i]),
{
    let j = join_spec(dst_keyed(edges), src_keyed(edges));
    assert forall|i: int| 0 <= i < path_two_spec(edges).len() implies two_path_of(edges, #[trigger] path_two_spec(edges)[i]) by {
        assert(j.contains(j[i]));
        lemma_joined_pair(edges, true, false, j[i]);
        let (a, b) = choose|a: int, b: int|
            0 <= a < edges.len() && 0 <= b < edges.len() && edges[a] == j[i].0 && edges[b] == j[i].2
                && j[i].0.dst == j[i].1 && j[i].2.src == j[i].1;
        lemma_pair_is_pair(edges, j, i, a, b);
    }
}

/// Every matching that `cycle_two` produces is a two-edge cycle of the
/// graph: `a -> b` then `b -> a`, with ids and times as for paths.
pub proof fn lemma_cycle_two_matchings(edges: Seq<Edge>)
    ensures
        forall|i: int| 0 <= i < cycle_two_spec(edges).len() ==> two_cycle_of(edges, #[trigger] cycle_two_spec(edges)[i]),
{
    let j = join_spec(dst_keyed(edges), src_keyed(edges));
    let k = kept_pairs(PairRule::Closes, j);
    assert forall|i: int| 0 <= i < cycle_two_spec(edges).len() implies two_cycle_of(edges, #[trigger] cycle_two_spec(edges)[i]) by {
        lemma_kept_member(PairRule::Closes, j, i);
        lemma_joined_pair(edges, true, false, k[i]);
        let (a, b) = choose|a: int, b: int|
            0 <= a < edges.len() && 0 <= b < edges.len() && edges[a] == k[i].0 && edges[b] == k[i].2
                && k[i].0.dst == k[i].1 && k[i].2.src == k[i].1;
        lemma_pair_is_pair(edges, k, i, a, b);
    }
}

/// Every matching that `in_star_two` produces is two edges leaving one
/// node, ids increasing, with times as for paths.
pub proof fn lemma_in_star_two_matchings(edges: Seq<Edge>)
    ensures
        forall|i: int| 0 <= i < in_star_two_spec(edges).len() ==> two_in_star_of(edges, #[trigger] in_star_two_spec(edges)[i]),
{
    let j = join_spec(src_keyed(edges), src_keyed(edges));
    let k = kept_pairs(PairRule::Ordered, j);
    assert forall|i: int| 0 <= i < in_star_two_spec(edges).len() implies two_in_star_of(edges, #[trigger] in_star_two_spec(edges)[i]) by {
        lemma_kept_member(PairRule::Ordered, j, i);
        lemma_joined_pair(edges, false, false, k[i]);
        let (a, b) = choose|a: int, b: int|
            0 <= a < edges.len() && 0 <= b < edges.len() && edges[a] == k[i].0 && edges[b] == k[i].2
                && k[i].0.src == k[i].1 && k[i].2.src == k[i].1;
        lemma_pair_is_pair(edges, k, i, a, b);
    }
}

/// Every matching that `out_star_two` produces is two edges entering one
/// node, ids increasing, with times as for paths.
pub proof fn lemma_out_star_two_matchings(edges: Seq<Edge>)
    ensures
        forall|i: int| 0 <= i < out_star_two_spec(edges).len() ==> two_out_star_of(edges, #[trigger] out_star_two_spec(edges)[i]),
{
    let j = join_spec(dst_keyed(edges), dst_keyed(edges));
    let k = kept_pairs(PairRule::Ordered, j);
    assert forall|i: int| 0 <= i < out_star_two_spec(edges).len() implies two_out_star_of(edges, #[trigger] out_star_two_spec(edges)[i]) by {
        lemma_kept_member(PairRule::Ordered, j, i);
        lemma_joined_pair(edges, true, true, k[i]);
        let (a, b) = choose|a: int, b: int|
            0 <= a < edges.len() && 0 <= b < edges.len() && edges[a] == k[i].0 && edges[b] == k[i].2
                && k[i].0.dst == k[i].1 && k[i].2.dst == k[i].1;
        lemma_pair_is_pair(edges, k, i, a, b);
    }
}

/// With the id check, every numbered triple is the triple matching of an
/// entry whose ids increase.
proof fn lemma_numbered_triples_checked(s: Seq<(Half2, usize, Edge)>)
    ensures
        forall|i: int| 0 <= i < numbered_triples(s, true).len() ==> exists|q: int|
            0 <= q < s.len() && triple_ordered(s[q]) && #[trigger] numbered_triples(s, true)[i] == triple_matching(q + 1, s[q]),
    decreases s.len(),
{
    if s.len() > 0 {
        lemma_numbered_triples_checked(s.drop_last());
        let r = numbered_triples(s.drop_last(), true);
        assert forall|i: int| 0 <= i < numbered_triples(s, true).len() implies exists|q: int|
            0 <= q < s.len() && triple_ordered(s[q]) && #[trigger] numbered_triples(s, true)[i] == triple_matching(q + 1, s[q]) by {
            if i < r.len() {
                let q = choose|q: int| 0 <= q < s.drop_last().len() && triple_ordered(s.drop_last()[q])
                    && r[i] == triple_matching(q + 1, s.drop_last()[q]);
                assert(s[q] == s.drop_last()[q]);
            } else {
                assert(numbered_triples(s, true)[i] == triple_matching(s.len() as int, s.last()));
                assert(s[s.len() - 1] == s.last());
            }
        }
    }
}

/// A star partial match: two edges of the graph that share their source
/// (`by_dst` false) or destination (`by_dst` true), ids increasing.
proof fn lemma_star_half(edges: Seq<Edge>, by_dst: bool, k: usize, h: Half2)
    requires
        halves_spec(join_spec(
            if by_dst { dst_keyed(edges) } else { src_keyed(edges) },
            if by_dst { dst_keyed(edges) } else { src_keyed(edges) },
        ), PairRule::Ordered, false).contains((k, h)),
    ensures
        exists|a: int, b: int|
            0 <= a < edges.len() && 0 <= b < edges.len() && edges[a].eid < edges[b].eid
                && (if by_dst { edges[a].dst } else { edges[a].src }) == k
                && (if by_dst { edges[b].dst } else { edges[b].src }) == k
                && h == ([edges[a].eid, edges[b].eid], [edges[a].first, edges[b].first],
                    if edges[a].first <= edges[b].first { edges[a].first } else { edges[b].first },
                    if edges[a].first >= edges[b].first { edges[a].first } else { edges[b].first }),
{
    let kd = if by_dst { dst_keyed(edges) } else { src_keyed(edges) };
    let j = join_spec(kd, kd);
    let kp = kept_pairs(PairRule::Ordered, j);
    let hs = halves_spec(j, PairRule::Ordered, false);
    let q = choose|q: int| 0 <= q < hs.len() && hs[q] == (k, h);
    assert(hs[q] == half_entry(kp[q], false));
    lemma_kept_member(PairRule::Ordered, j, q);
    lemma_joined_pair(edges, by_dst, by_dst, kp[q]);
    let (a, b) = choose|a: int, b: int|
        0 <= a < edges.len() && 0 <= b < edges.len() && edges[a] == kp[q].0 && edges[b] == kp[q].2
            && (if by_dst { kp[q].0.dst } else { kp[q].0.src }) == kp[q].1
            && (if by_dst { kp[q].2.dst } else { kp[q].2.src }) == kp[q].1;
}

/// The triple matching of a star entry is three edges of the graph sharing
/// their source (or destination), ids increasing.
proof fn lemma_star_triple(edges: Seq<Edge>, by_dst: bool, s: Seq<(Half2, usize, Edge)>, q: int)
    requires
        s == join_spec(
            halves_spec(join_spec(
                if by_dst { dst_keyed(edges) } else { src_keyed(edges) },
                if by_dst { dst_keyed(edges) } else { src_keyed(edges) },
            ), PairRule::Ordered, false),
            if by_dst { dst_keyed(edges) } else { src_keyed(edges) },
        ),
        0 <= q < s.len(),
        triple_ordered(s[q]),
    ensures
        exists|a: int, b: int, c: int|
            is_triple(edges, triple_matching(q + 1, s[q]), a, b, c)
                && (if by_dst { edges[a].dst } else { edges[a].src }) == (if by_dst { edges[b].dst } else { edges[b].src })
                && (if by_dst { edges[b].dst } else { edges[b].src }) == (if by_dst { edges[c].dst } else { edges[c].src })
                && edges[a].eid < edges[b].eid && edges[b].eid < edges[c].eid,
{
    let kd = if by_dst { dst_keyed(edges) } else { src_keyed(edges) };
    let hs = halves_spec(join_spec(kd, kd), PairRule::Ordered, false);
    let (h, k, y) = s[q];
    assert(s.contains(s[q]));
    lemma_join_membership(hs, kd, h, k, y);
    lemma_star_half(edges, by_dst, k, h);
    if by_dst { lemma_dst_row(edges, k, y); } else { lemma_src_row(edges, k, y); }
    let (a, b) = choose|a: int, b: int|
        0 <= a < edges.len() && 0 <= b < edges.len() && edges[a].eid < edges[b].eid
            && (if by_dst { edges[a].dst } else { edges[a].src }) == k
            && (if by_dst { edges[b].dst } else { edges[b].src }) == k
            && h == ([edges[a].eid, edges[b].eid], [edges[a].first, edges[b].first],
                if edges[a].first <= edges[b].first { edges[a].first } else { edges[b].first },
                if edges[a].first >= edges[b].first { edges[a].first } else { edges[b].first });
    let c = choose|c: int| 0 <= c < edges.len() && edges[c] == y && (if by_dst { y.dst } else { y.src }) == k;
    let m = triple_matching(q + 1, s[q]);
    let ts = seq![edges[a].first, edges[b].first, edges[c].first];
    assert(earliest(m.first, ts)) by {
        if m.first == ts[0] {} else if m.first == ts[1] {} else { assert(m.first == ts[2]); }
    }
    assert(latest(m.last, ts)) by {
        if m.last == ts[0] {} else if m.last == ts[1] {} else { assert(m.last == ts[2]); }
    }
    assert(is_triple(edges, m, a, b, c));
}

/// Every matching that `in_star_three` produces is three edges leaving one
/// node, ids increasing, its first and last times the earliest and latest
/// of their times.
pub proof fn lemma_in_star_three_matchings(edges: Seq<Edge>)
    ensures
        forall|i: int| 0 <= i < in_star_three_spec(edges).len() ==> three_in_star_of(edges, #[trigger] in_star_three_spec(edges)[i]),
{
    let s = join_spec(halves_spec(join_spec(src_keyed(edges), src_keyed(edges)), PairRule::Ordered, false), src_keyed(edges));
    lemma_numbered_triples_checked(s);
    assert forall|i: int| 0 <= i < in_star_three_spec(edges).len() implies three_in_star_of(edges, #[trigger] in_star_three_spec(edges)[i]) by {
        let q = choose|q: int| 0 <= q < s.len() && triple_ordered(s[q]) && numbered_triples(s, true)[i] == triple_matching(q + 1, s[q]);
        lemma_star_triple(edges, false, s, q);
    }
}

/// Every matching that `out_star_three` produces is three edges entering
/// one node, ids increasing, its first and last times the earliest and
/// latest of their times.
pub proof fn lemma_out_star_three_matchings(edges: Seq<Edge>)
    ensures
        forall|i: int| 0 <= i < out_star_three_spec(edges).len() ==> three_out_star_of(edges, #[trigger] out_star_three_spec(edges)[i]),
{
    let s = join_spec(halves_spec(join_spec(dst_keyed(edges), dst_keyed(edges)), PairRule::Ordered, false), dst_keyed(edges));
    lemma_numbered_triples_checked(s);
    assert forall|i: int| 0 <= i < out_star_three_spec(edges).len() implies three_out_star_of(edges, #[trigger] out_star_three_spec(edges)[i]) by {
        let q = choose|q: int| 0 <= q < s.len() && triple_ordered(s[q]) && numbered_triples(s, true)[i] == triple_matching(q + 1, s[q]);
        lemma_star_triple(edges, true, s, q);
    }
}

} // verus!
