//! What the triangle and rectangle matchers produce, stated over the edges
//! themselves: each matching is a closed chain of edges of the graph, each
//! link represented by the first edge that makes it, and spans exactly the
//! times of those edges.
use vstd::prelude::*;
use crate::cycles::{
    closing_nodes, intersect_spec, lemma_unique_first_contains, rectangle_quads, rectangles_at, rectangles_from,
    rectangles_spec, rectangles_via, triangle_triples, triangles_at, triangles_from, triangles_spec, unique_first,
};
use crate::edge::{first_link, first_link_at, has_link, ins, lemma_first_link_exists, lemma_ins_link, lemma_outs_link, outs, sorted_nodes, Edge};
use crate::matching::Matching;
use crate::paths::{earliest, latest};
use crate::seqs::flat;

verus! {

/// `m` is the triangle `edges[a] -> edges[b] -> edges[c]` back to the start,
/// each edge the first of its link, its first and last times the earliest
/// and latest times of the three edges.
pub open spec fn is_triangle(edges: Seq<Edge>, m: Matching, a: int, b: int, c: int) -> bool {
    &&& first_link_at(edges, edges[a].src, edges[a].dst, a)
    &&& first_link_at(edges, edges[b].src, edges[b].dst, b)
    &&& first_link_at(edges, edges[c].src, edges[c].dst, c)
    &&& edges[a].dst == edges[b].src
    &&& edges[b].dst == edges[c].src
    &&& edges[c].dst == edges[a].src
    &&& m.eid == [edges[a].eid, edges[b].eid, edges[c].eid, 0usize, 0usize]
    &&& m.match_size == 3
    &&& earliest(m.first, seq![edges[a].first, edges[b].first, edges[c].first])
    &&& latest(m.last, seq![edges[a].first, edges[b].first, edges[c].first])
}

/// `m` is some triangle of `edges`.
pub open spec fn triangle_of(edges: Seq<Edge>, m: Matching) -> bool {
    exists|a: int, b: int, c: int| is_triangle(edges, m, a, b, c)
}

/// `m` is the rectangle `edges[a] -> edges[b] -> edges[c] -> edges[d]` back
/// to the start, each edge the first of its link, its first and last times
/// the earliest and latest times of the four edges.
pub open spec fn is_rectangle(edges: Seq<Edge>, m: Matching, a: int, b: int, c: int, d: int) -> bool {
    &&& first_link_at(edges, edges[a].src, edges[a].dst, a)
    &&& first_link_at(edges, edges[b].src, edges[b].dst, b)
    &&& first_link_at(edges, edges[c].src, edges[c].dst, c)
    &&& first_link_at(edges, edges[d].src, edges[d].dst, d)
    &&& edges[a].dst == edges[b].src
    &&& edges[b].dst == edges[c].src
    &&& edges[c].dst == edges[d].src
    &&& edges[d].dst == edges[a].src
    &&& m.eid == [edges[a].eid, edges[b].eid, edges[c].eid, edges[d].eid, 0usize]
    &&& m.match_size == 4
    &&& earliest(m.first, seq![edges[a].first, edges[b].first, edges[c].first, edges[d].first])
    &&& latest(m.last, seq![edges[a].first, edges[b].first, edges[c].first, edges[d].first])
}

/// `m` is some rectangle of `edges`.
pub open spec fn rectangle_of(edges: Seq<Edge>, m: Matching) -> bool {
    exists|a: int, b: int, c: int, d: int| is_rectangle(edges, m, a, b, c, d)
}

/// What the concatenation of the images holds comes from one image.
proof fn lemma_flat_member<A, B>(s: Seq<A>, g: spec_fn(A) -> Seq<B>, v: B)
    requires
        flat(s, g).contains(v),
    ensures
        exists|x: int| 0 <= x < s.len() && g(s[x]).contains(v),
    decreases s.len(),
{
    let r = flat(s.drop_last(), g);
    let last = g(s.last());
    let j = choose|j: int| 0 <= j < flat(s, g).len() && flat(s, g)[j] == v;
    if j < r.len() {
        assert(r[j] == v);
        lemma_flat_member(s.drop_last(), g, v);
        let x = choose|x: int| 0 <= x < s.drop_last().len() && g(s.drop_last()[x]).contains(v);
        assert(s[x] == s.drop_last()[x]);
    } else {
        assert(last[j - r.len()] == v);
        assert(s[s.len() - 1] == s.last());
    }
}

/// A closing node `z` of `x -> y` has links `y -> z` and `z -> x`.
proof fn lemma_closing_links(edges: Seq<Edge>, x: usize, y: usize, z: usize)
    requires
        closing_nodes(edges, x, y).contains(z),
    ensures
        has_link(edges, y, z),
        has_link(edges, z, x),
{
    let p = |v: usize| outs(edges, y).contains(v);
    let u = unique_first(ins(edges, x));
    let c = closing_nodes(edges, x, y);
    assert(c == intersect_spec(ins(edges, x), outs(edges, y)));
    let j = choose|j: int| 0 <= j < c.len() && c[j] == z;
    u.lemma_filter_pred(p, j);
    u.lemma_filter_contains_rev(p, z);
    lemma_unique_first_contains(ins(edges, x), z);
    lemma_ins_link(edges, x, z);
    lemma_outs_link(edges, y, z);
}

/// The first edge of an existing link, with its index.
proof fn lemma_first_index(edges: Seq<Edge>, s: usize, d: usize)
    requires
        has_link(edges, s, d),
    ensures
        exists|a: int| first_link_at(edges, s, d, a) && edges[a] == first_link(edges, s, d),
{
    lemma_first_link_exists(edges, s, d);
}

/// Every matching that `triangles_woj` produces is a triangle of the graph:
/// three edges chained head to tail back to the start, each the first edge
/// of its link, their ids in cycle order, and the matching's first and last
/// times the earliest and latest times of the three edges.
pub proof fn lemma_triangle_matchings(edges: Seq<Edge>)
    ensures
        forall|i: int| 0 <= i < triangles_spec(edges).len() ==> triangle_of(edges, #[trigger] triangles_spec(edges)[i]),
{
    let tt = triangle_triples(edges);
    assert forall|i: int| 0 <= i < triangles_spec(edges).len() implies triangle_of(edges, #[trigger] triangles_spec(edges)[i]) by {
        let t = tt[i];
        assert(tt.contains(t));
        let gx = |x: usize| triangles_from(edges, x);
        lemma_flat_member(sorted_nodes(edges), gx, t);
        let xi = choose|xi: int| 0 <= xi < sorted_nodes(edges).len() && gx(sorted_nodes(edges)[xi]).contains(t);
        let x = sorted_nodes(edges)[xi];
        let gy = |y: usize| triangles_at(edges, x, y);
        lemma_flat_member(outs(edges, x), gy, t);
        let yi = choose|yi: int| 0 <= yi < outs(edges, x).len() && gy(outs(edges, x)[yi]).contains(t);
        let y = outs(edges, x)[yi];
        assert(outs(edges, x).contains(y));
        let ta = triangles_at(edges, x, y);
        let zi = choose|zi: int| 0 <= zi < ta.len() && ta[zi] == t;
        let z = closing_nodes(edges, x, y)[zi];
        assert(t == (x, y, z));
        assert(closing_nodes(edges, x, y).contains(z));
        lemma_outs_link(edges, x, y);
        lemma_closing_links(edges, x, y, z);
        lemma_first_index(edges, x, y);
        lemma_first_index(edges, y, z);
        lemma_first_index(edges, z, x);
        let a = choose|a: int| first_link_at(edges, x, y, a) && edges[a] == first_link(edges, x, y);
        let b = choose|b: int| first_link_at(edges, y, z, b) && edges[b] == first_link(edges, y, z);
        let c = choose|c: int| first_link_at(edges, z, x, c) && edges[c] == first_link(edges, z, x);
        let m = triangles_spec(edges)[i];
        let ts = seq![edges[a].first, edges[b].first, edges[c].first];
        assert(earliest(m.first, ts)) by {
            if m.first == ts[0] {} else if m.first == ts[1] {} else { assert(m.first == ts[2]); }
        }
        assert(latest(m.last, ts)) by {
            if m.last == ts[0] {} else if m.last == ts[1] {} else { assert(m.last == ts[2]); }
        }
        assert(is_triangle(edges, m, a, b, c));
    }
}

/// Every matching that `rectangle_woj` produces is a rectangle of the graph:
/// four edges chained head to tail back to the start, each the first edge
/// of its link, their ids in cycle order, and the matching's first and last
/// times the earliest and latest times of the four edges.
pub proof fn lemma_rectangle_matchings(edges: Seq<Edge>)
    ensures
        forall|i: int| 0 <= i < rectangles_spec(edges).len() ==> rectangle_of(edges, #[trigger] rectangles_spec(edges)[i]),
{
    let qq = rectangle_quads(edges);
    assert forall|i: int| 0 <= i < rectangles_spec(edges).len() implies rectangle_of(edges, #[trigger] rectangles_spec(edges)[i]) by {
        let q = qq[i];
        assert(qq.contains(q));
        let gw = |w: usize| rectangles_from(edges, w);
        lemma_flat_member(sorted_nodes(edges), gw, q);
        let wi = choose|wi: int| 0 <= wi < sorted_nodes(edges).len() && gw(sorted_nodes(edges)[wi]).contains(q);
        let w = sorted_nodes(edges)[wi];
        let gx = |x: usize| rectangles_via(edges, w, x);
        lemma_flat_member(outs(edges, w), gx, q);
        let xi = choose|xi: int| 0 <= xi < outs(edges, w).len() && gx(outs(edges, w)[xi]).contains(q);
        let x = outs(edges, w)[xi];
        assert(outs(edges, w).contains(x));
        let gy = |y: usize| rectangles_at(edges, w, x, y);
        lemma_flat_member(outs(edges, x), gy, q);
        let yi = choose|yi: int| 0 <= yi < outs(edges, x).len() && gy(outs(edges, x)[yi]).contains(q);
        let y = outs(edges, x)[yi];
        assert(outs(edges, x).contains(y));
        let ra = rectangles_at(edges, w, x, y);
        let zi = choose|zi: int| 0 <= zi < ra.len() && ra[zi] == q;
        let z = closing_nodes(edges, w, y)[zi];
        assert(q == (w, x, y, z));
        assert(closing_nodes(edges, w, y).contains(z));
        lemma_outs_link(edges, w, x);
        lemma_outs_link(edges, x, y);
        lemma_closing_links(edges, w, y, z);
        lemma_first_index(edges, w, x);
        lemma_first_index(edges, x, y);
        lemma_first_index(edges, y, z);
        lemma_first_index(edges, z, w);
        let a = choose|a: int| first_link_at(edges, w, x, a) && edges[a] == first_link(edges, w, x);
        let b = choose|b: int| first_link_at(edges, x, y, b) && edges[b] == first_link(edges, x, y);
        let c = choose|c: int| first_link_at(edges, y, z, c) && edges[c] == first_link(edges, y, z);
        let d = choose|d: int| first_link_at(edges, z, w, d) && edges[d] == first_link(edges, z, w);
        let m = rectangles_spec(edges)[i];
        let ts = seq![edges[a].first, edges[b].first, edges[c].first, edges[d].first];
        assert(earliest(m.first, ts)) by {
            if m.first == ts[0] {} else if m.first == ts[1] {} else if m.first == ts[2] {} else { assert(m.first == ts[3]); }
        }
        assert(latest(m.last, ts)) by {
            if m.last == ts[0] {} else if m.last == ts[1] {} else if m.last == ts[2] {} else { assert(m.last == ts[3]); }
        }
        assert(is_rectangle(edges, m, a, b, c, d));
    }
}

} // verus!
