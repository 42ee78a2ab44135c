//! Triangles and rectangles found by walking the edge indexes node by node
//! (worst-case optimal join style), closing each path with the common nodes
//! of two adjacency lists.
use array_tool::vec::Intersect;
use std::collections::BTreeMap;
use std::collections::HashMap;
use vstd::prelude::*;
use crate::edge::{
    deref_all, dst_group, dst_index_of, first_link, has_link, ins, lemma_ins_link, lemma_link_index_value,
    lemma_outs_link, link_index_of, outs, sorted_nodes, src_group, src_index_of, Edge,
};
use crate::matching::{fresh, Matching};
use crate::seqs::{flat, lemma_flat_take_len, lemma_flat_take_step};

verus! {

broadcast use vstd::std_specs::hash::group_hash_axioms;

/// The first occurrence of each value of `s`, in order.
pub open spec fn unique_first(s: Seq<usize>) -> Seq<usize>
    decreases s.len(),
{
    if s.len() == 0 {
        Seq::empty()
    } else {
        let p = unique_first(s.drop_last());
        if p.contains(s.last()) {
            p
        } else {
            p.push(s.last())
        }
    }
}

/// The values of `a` that also occur in `b`, each once, in the order of
/// their first occurrence in `a`.
pub open spec fn intersect_spec(a: Seq<usize>, b: Seq<usize>) -> Seq<usize> {
    unique_first(a).filter(|z: usize| b.contains(z))
}

/// Everything kept by `unique_first` comes from the sequence.
pub proof fn lemma_unique_first_contains(s: Seq<usize>, z: usize)
    requires
        unique_first(s).contains(z),
    ensures
        s.contains(z),
    decreases s.len(),
{
    if s.len() > 0 {
        let p = unique_first(s.drop_last());
        if p.contains(z) {
            lemma_unique_first_contains(s.drop_last(), z);
            let k = choose|k: int| 0 <= k < s.drop_last().len() && s.drop_last()[k] == z;
            assert(s[k] == z);
        } else {
            assert(z == s.last());
            assert(s[s.len() - 1] == z);
        }
    }
}

/// Calls `array_tool::vec::Intersect::intersect` on two lists of nodes. Its
/// source keeps, in order, the first occurrence of each value of `a` that
/// occurs anywhere in `b`; that is what the contract claims.
#[verifier::external_body]
fn common_nodes(a: &Vec<usize>, b: Vec<usize>) -> (r: Vec<usize>)
    ensures
        r@ == intersect_spec(a@, b@),
{
    a.intersect(b)
}

/// The nodes `z` that close a triangle `x -> y -> z -> x`.
pub open spec fn closing_nodes(edges: Seq<Edge>, x: usize, y: usize) -> Seq<usize> {
    intersect_spec(ins(edges, x), outs(edges, y))
}

/// The triangles `(x, y, z)` through the link `x -> y`.
pub open spec fn triangles_at(edges: Seq<Edge>, x: usize, y: usize) -> Seq<(usize, usize, usize)> {
    closing_nodes(edges, x, y).map_values(|z: usize| (x, y, z))
}

/// The triangles whose first node is `x`, following its out-links in order.
pub open spec fn triangles_from(edges: Seq<Edge>, x: usize) -> Seq<(usize, usize, usize)> {
    flat(outs(edges, x), |y: usize| triangles_at(edges, x, y))
}

/// All triangles found, node by node in increasing order.
pub open spec fn triangle_triples(edges: Seq<Edge>) -> Seq<(usize, usize, usize)> {
    flat(sorted_nodes(edges), |x: usize| triangles_from(edges, x))
}

/// The smallest of three values.
pub open spec fn min3(a: usize, b: usize, c: usize) -> usize {
    if a <= b && a <= c { a } else if b <= c { b } else { c }
}

/// The largest of three values.
pub open spec fn max3(a: usize, b: usize, c: usize) -> usize {
    if a >= b && a >= c { a } else if b >= c { b } else { c }
}

/// The triangle matching `mid` on `x -> y -> z -> x`, built from the first
/// edge of each link.
pub open spec fn triangle_matching(edges: Seq<Edge>, mid: int, t: (usize, usize, usize)) -> Matching {
    let xy = first_link(edges, t.0, t.1);
    let yz = first_link(edges, t.1, t.2);
    let zx = first_link(edges, t.2, t.0);
    fresh(mid as usize, [xy.eid, yz.eid, zx.eid, 0, 0], min3(xy.first, zx.first, yz.first), max3(xy.first, zx.first, yz.first), 3)
}

/// The triangle matchings of `edges`, numbered from 1.
pub open spec fn triangles_spec(edges: Seq<Edge>) -> Seq<Matching> {
    let t = triangle_triples(edges);
    Seq::new(t.len(), |i: int| triangle_matching(edges, i + 1, t[i]))
}

/// The rectangles `(w, x, y, z)` through the path `w -> x -> y`.
pub open spec fn rectangles_at(edges: Seq<Edge>, w: usize, x: usize, y: usize) -> Seq<(usize, usize, usize, usize)> {
    closing_nodes(edges, w, y).map_values(|z: usize| (w, x, y, z))
}

/// The rectangles through the link `w -> x`, following `x`'s out-links.
pub open spec fn rectangles_via(edges: Seq<Edge>, w: usize, x: usize) -> Seq<(usize, usize, usize, usize)> {
    flat(outs(edges, x), |y: usize| rectangles_at(edges, w, x, y))
}

/// The rectangles whose first node is `w`, following its out-links.
pub open spec fn rectangles_from(edges: Seq<Edge>, w: usize) -> Seq<(usize, usize, usize, usize)> {
    flat(outs(edges, w), |x: usize| rectangles_via(edges, w, x))
}

/// All rectangles found, node by node in increasing order.
pub open spec fn rectangle_quads(edges: Seq<Edge>) -> Seq<(usize, usize, usize, usize)> {
    flat(sorted_nodes(edges), |w: usize| rectangles_from(edges, w))
}

/// The smallest of four values.
pub open spec fn min4(a: usize, b: usize, c: usize, d: usize) -> usize {
    min3(if a <= b { a } else { b }, c, d)
}

/// The largest of four values.
pub open spec fn max4(a: usize, b: usize, c: usize, d: usize) -> usize {
    max3(if a >= b { a } else { b }, c, d)
}

/// The rectangle matching `mid` on `w -> x -> y -> z -> w`, built from the
/// first edge of each link.
pub open spec fn rectangle_matching(edges: Seq<Edge>, mid: int, q: (usize, usize, usize, usize)) -> Matching {
    let wx = first_link(edges, q.0, q.1);
    let xy = first_link(edges, q.1, q.2);
    let yz = first_link(edges, q.2, q.3);
    let zw = first_link(edges, q.3, q.0);
    fresh(mid as usize, [wx.eid, xy.eid, yz.eid, zw.eid, 0], min4(wx.first, xy.first, yz.first, zw.first), max4(wx.first, xy.first, yz.first, zw.first), 4)
}

/// Rectangle matchings of the quadruples `q`, numbered from 1.
pub open spec fn numbered_rectangles(edges: Seq<Edge>, q: Seq<(usize, usize, usize, usize)>) -> Seq<Matching> {
    Seq::new(q.len(), |i: int| rectangle_matching(edges, i + 1, q[i]))
}

/// The rectangle matchings of `edges`, numbered from 1.
pub open spec fn rectangles_spec(edges: Seq<Edge>) -> Seq<Matching> {
    numbered_rectangles(edges, rectangle_quads(edges))
}

/// The destinations of the edges leaving `x`, read off the source index.
fn out_nodes(src_index: &HashMap<usize, Vec<&Edge>>, Ghost(edges): Ghost<Seq<Edge>>, x: usize) -> (r: Vec<usize>)
    requires
        src_index_of(src_index@, edges),
    ensures
        r@ == outs(edges, x),
{
    let mut r: Vec<usize> = Vec::new();
    match src_index.get(&x) {
        Some(v) => {
            let ghost g = src_group(edges, x);
            assert(deref_all(v@) == g);
            let mut i: usize = 0;
            while i < v.len()
                invariant
                    i <= v@.len(),
                    deref_all(v@) == g,
                    r@ == g.take(i as int).map_values(|e: Edge| e.dst),
                decreases v@.len() - i,
            {
                assert(deref_all(v@)[i as int] == *v@[i as int]);
                r.push(v[i].dst);
                assert(r@ =~= g.take(i + 1).map_values(|e: Edge| e.dst));
                i = i + 1;
            }
            assert(g.take(g.len() as int) =~= g);
        },
        None => {
            proof {
                crate::seqs::lemma_filter_nonempty(edges, |e: Edge| e.src == x);
            }
            assert(r@ =~= outs(edges, x));
        },
    }
    r
}

/// The sources of the edges entering `x`, read off the destination index.
fn in_nodes(dst_index: &HashMap<usize, Vec<&Edge>>, Ghost(edges): Ghost<Seq<Edge>>, x: usize) -> (r: Vec<usize>)
    requires
        dst_index_of(dst_index@, edges),
    ensures
        r@ == ins(edges, x),
{
    let mut r: Vec<usize> = Vec::new();
    match dst_index.get(&x) {
        Some(v) => {
            let ghost g = dst_group(edges, x);
            assert(deref_all(v@) == g);
            let mut i: usize = 0;
            while i < v.len()
                invariant
                    i <= v@.len(),
                    deref_all(v@) == g,
                    r@ == g.take(i as int).map_values(|e: Edge| e.src),
                decreases v@.len() - i,
            {
                assert(deref_all(v@)[i as int] == *v@[i as int]);
                r.push(v[i].src);
                assert(r@ =~= g.take(i + 1).map_values(|e: Edge| e.src));
                i = i + 1;
            }
            assert(g.take(g.len() as int) =~= g);
        },
        None => {
            proof {
                crate::seqs::lemma_filter_nonempty(edges, |e: Edge| e.dst == x);
            }
            assert(r@ =~= ins(edges, x));
        },
    }
    r
}

/// The first edge `s -> d`, read off the link index.
fn link<'a>(src_dst: &'a BTreeMap<(usize, usize), Edge>, Ghost(edges): Ghost<Seq<Edge>>, s: usize, d: usize) -> (r: &'a Edge)
    requires
        link_index_of(src_dst@, edges),
        has_link(edges, s, d),
    ensures
        *r == first_link(edges, s, d),
{
    proof {
        lemma_link_index_value(src_dst@, edges, s, d);
        broadcast use vstd::laws_cmp::group_laws_cmp;
    }
    src_dst.get(&(s, d)).unwrap()
}


/// Triangle matchings of the triples `t`, numbered from 1.
pub open spec fn numbered_triangles(edges: Seq<Edge>, t: Seq<(usize, usize, usize)>) -> Seq<Matching> {
    Seq::new(t.len(), |i: int| triangle_matching(edges, i + 1, t[i]))
}

impl Matching {
    /// The triangles `x -> y -> z -> x` of `edges`: for each node `x` in
    /// increasing order, each out-link `x -> y` in edge order, and each `z`
    /// in the common nodes of `x`'s in-links and `y`'s out-links. Each link
    /// is represented by its first edge; matchings are numbered from 1.
    pub fn triangles_woj(edges: Vec<Edge>) -> (matching: Vec<Matching>)
        requires
            triangle_triples(edges@).len() < usize::MAX,
        ensures
            matching@ == triangles_spec(edges@),
    {
        let ghost e_all = edges@;
        let src_index = Edge::get_src_index(&edges);
        let dst_index = Edge::get_dst_index(&edges);
        let src_dst = Edge::get_srt_dst_index(&edges);
        let mut matching: Vec<Matching> = vec![];
        let nodes = Edge::get_all_nodes(&edges);
        let ghost n_all = nodes@;
        let ghost g = |x: usize| triangles_from(e_all, x);
        let ghost total = triangle_triples(e_all);
        assert(total == flat(n_all, g));
        assert(matching@ =~= numbered_triangles(e_all, flat(n_all.take(0), g)));
        let mut mid: usize = 1;
        let mut i: usize = 0;
        while i < nodes.len()
            invariant
                i <= n_all.len(),
                nodes@ == n_all,
                edges@ == e_all,
                src_index_of(src_index@, e_all),
                dst_index_of(dst_index@, e_all),
                link_index_of(src_dst@, e_all),
                g == (|x: usize| triangles_from(e_all, x)),
                total == flat(n_all, g),
                total.len() < usize::MAX,
                mid == matching@.len() + 1,
                matching@ == numbered_triangles(e_all, flat(n_all.take(i as int), g)),
            decreases n_all.len() - i,
        {
            let x = nodes[i];
            proof {
                lemma_flat_take_step(n_all, g, i as int);
                lemma_flat_take_len(n_all, g, i as int);
            }
            let ghost base = flat(n_all.take(i as int), g);
            let e = out_nodes(&src_index, Ghost(e_all), x);
            let ghost h = |y: usize| triangles_at(e_all, x, y);
            assert(g(x) == flat(e@, h));
            assert(base + flat(e@.take(0), h) =~= base);
            let mut j: usize = 0;
            while j < e.len()
                invariant
                    j <= e@.len(),
                    e@ == outs(e_all, x),
                    edges@ == e_all,
                    src_index_of(src_index@, e_all),
                    dst_index_of(dst_index@, e_all),
                    link_index_of(src_dst@, e_all),
                    h == (|y: usize| triangles_at(e_all, x, y)),
                    base.len() + flat(e@, h).len() <= total.len(),
                    total.len() < usize::MAX,
                    mid == matching@.len() + 1,
                    matching@ == numbered_triangles(e_all, base + flat(e@.take(j as int), h)),
                decreases e@.len() - j,
            {
                let y = e[j];
                proof {
                    lemma_flat_take_step(e@, h, j as int);
                    lemma_flat_take_len(e@, h, j as int);
                    assert(outs(e_all, x).contains(y));
                    lemma_outs_link(e_all, x, y);
                }
                let ghost base2 = base + flat(e@.take(j as int), h);
                let z1 = in_nodes(&dst_index, Ghost(e_all), x);
                let z2 = out_nodes(&src_index, Ghost(e_all), y);
                let zs = common_nodes(&z1, z2);
                assert(zs@ == closing_nodes(e_all, x, y));
                assert(base2 + zs@.take(0).map_values(|z: usize| (x, y, z)) =~= base2);
                let mut k: usize = 0;
                while k < zs.len()
                    invariant
                        k <= zs@.len(),
                        zs@ == closing_nodes(e_all, x, y),
                        has_link(e_all, x, y),
                        link_index_of(src_dst@, e_all),
                        base2.len() + zs@.len() <= total.len(),
                        total.len() < usize::MAX,
                        mid == matching@.len() + 1,
                        matching@ == numbered_triangles(e_all, base2 + zs@.take(k as int).map_values(|z: usize| (x, y, z))),
                    decreases zs@.len() - k,
                {
                    let z = zs[k];
                    proof {
                        let p = |w: usize| outs(e_all, y).contains(w);
                        let u = unique_first(ins(e_all, x));
                        u.lemma_filter_pred(p, k as int);
                        lemma_outs_link(e_all, y, z);
                        assert(zs@.contains(z));
                        u.lemma_filter_contains_rev(p, z);
                        lemma_unique_first_contains(ins(e_all, x), z);
                        lemma_ins_link(e_all, x, z);
                    }
                    let xy = link(&src_dst, Ghost(e_all), x, y);
                    let zx = link(&src_dst, Ghost(e_all), z, x);
                    let yz = link(&src_dst, Ghost(e_all), y, z);
                    let t = Matching::find_first(&vec![xy, zx, yz]);
                    let tf = Matching::find_last(&vec![xy, zx, yz]);
                    let ghost before = base2 + zs@.take(k as int).map_values(|z: usize| (x, y, z));
                    matching.push(Matching {
                        mid,
                        eid: [xy.eid, yz.eid, zx.eid, 0, 0],
                        first: t,
                        last: tf,
                        match_size: 3,
                        state: 0,
                        word: 0,
                        clocks: [0, 0, 0, 0, 0],
                    });
                    proof {
                        assert(zs@.take(k + 1).map_values(|z: usize| (x, y, z)) =~= zs@.take(k as int).map_values(|z: usize| (x, y, z)).push((x, y, z)));
                        assert(base2 + zs@.take(k + 1).map_values(|z: usize| (x, y, z)) =~= before.push((x, y, z)));
                        assert(matching@ =~= numbered_triangles(e_all, before.push((x, y, z))));
                    }
                    mid = mid + 1;
                    k = k + 1;
                }
                proof {
                    assert(zs@.take(zs@.len() as int) =~= zs@);
                    assert(h(y) == zs@.map_values(|z: usize| (x, y, z)));
                    assert(base2 + h(y) =~= base + flat(e@.take(j + 1), h));
                }
                j = j + 1;
            }
            proof {
                assert(e@.take(e@.len() as int) =~= e@);
                assert(base + g(x) =~= flat(n_all.take(i + 1), g));
            }
            i = i + 1;
        }
        assert(n_all.take(n_all.len() as int) =~= n_all);
        matching
    }

    /// The rectangles `w -> x -> y -> z -> w` of `edges`: for each node `w`
    /// in increasing order, each out-link `w -> x` and then `x -> y` in edge
    /// order, and each `z` in the common nodes of `w`'s in-links and `y`'s
    /// out-links. Each link is represented by its first edge; matchings are
    /// numbered from 1.
    pub fn rectangle_woj(edges: Vec<Edge>) -> (matching: Vec<Matching>)
        requires
            rectangle_quads(edges@).len() < usize::MAX,
        ensures
            matching@ == rectangles_spec(edges@),
    {
        let ghost e_all = edges@;
        let src_index = Edge::get_src_index(&edges);
        let dst_index = Edge::get_dst_index(&edges);
        let src_dst = Edge::get_srt_dst_index(&edges);
        let mut matching: Vec<Matching> = vec![];
        let nodes = Edge::get_all_nodes(&edges);
        let ghost n_all = nodes@;
        let ghost g = |w: usize| rectangles_from(e_all, w);
        let ghost total = rectangle_quads(e_all);
        assert(total == flat(n_all, g));
        assert(matching@ =~= numbered_rectangles(e_all, flat(n_all.take(0), g)));
        let mut mid: usize = 1;
        let mut i: usize = 0;
        while i < nodes.len()
            invariant
                i <= n_all.len(),
                nodes@ == n_all,
                edges@ == e_all,
                src_index_of(src_index@, e_all),
                dst_index_of(dst_index@, e_all),
                link_index_of(src_dst@, e_all),
                g == (|w: usize| rectangles_from(e_all, w)),
                total == flat(n_all, g),
                total.len() < usize::MAX,
                mid == matching@.len() + 1,
                matching@ == numbered_rectangles(e_all, flat(n_all.take(i as int), g)),
            decreases n_all.len() - i,
        {
            let w = nodes[i];
            proof {
                lemma_flat_take_step(n_all, g, i as int);
                lemma_flat_take_len(n_all, g, i as int);
            }
            let ghost base = flat(n_all.take(i as int), g);
            let e = out_nodes(&src_index, Ghost(e_all), w);
            let ghost h = |x: usize| rectangles_via(e_all, w, x);
            assert(g(w) == flat(e@, h));
            assert(base + flat(e@.take(0), h) =~= base);
            let mut j: usize = 0;
            while j < e.len()
                invariant
                    j <= e@.len(),
                    e@ == outs(e_all, w),
                    edges@ == e_all,
                    src_index_of(src_index@, e_all),
                    dst_index_of(dst_index@, e_all),
                    link_index_of(src_dst@, e_all),
                    h == (|x: usize| rectangles_via(e_all, w, x)),
                    base.len() + flat(e@, h).len() <= total.len(),
                    total.len() < usize::MAX,
                    mid == matching@.len() + 1,
                    matching@ == numbered_rectangles(e_all, base + flat(e@.take(j as int), h)),
                decreases e@.len() - j,
            {
                let x = e[j];
                proof {
                    lemma_flat_take_step(e@, h, j as int);
                    lemma_flat_take_len(e@, h, j as int);
                    assert(outs(e_all, w).contains(x));
                    lemma_outs_link(e_all, w, x);
                }
                let ghost base2 = base + flat(e@.take(j as int), h);
                let e2 = out_nodes(&src_index, Ghost(e_all), x);
                let ghost h2 = |y: usize| rectangles_at(e_all, w, x, y);
                assert(h(x) == flat(e2@, h2));
                assert(base2 + flat(e2@.take(0), h2) =~= base2);
                let mut l: usize = 0;
                while l < e2.len()
                    invariant
                        l <= e2@.len(),
                        e2@ == outs(e_all, x),
                        edges@ == e_all,
                        src_index_of(src_index@, e_all),
                        dst_index_of(dst_index@, e_all),
                        link_index_of(src_dst@, e_all),
                        has_link(e_all, w, x),
                        h2 == (|y: usize| rectangles_at(e_all, w, x, y)),
                        base2.len() + flat(e2@, h2).len() <= total.len(),
                        total.len() < usize::MAX,
                        mid == matching@.len() + 1,
                        matching@ == numbered_rectangles(e_all, base2 + flat(e2@.take(l as int), h2)),
                    decreases e2@.len() - l,
                {
                    let y = e2[l];
                    proof {
                        lemma_flat_take_step(e2@, h2, l as int);
                        lemma_flat_take_len(e2@, h2, l as int);
                        assert(outs(e_all, x).contains(y));
                        lemma_outs_link(e_all, x, y);
                    }
                    let ghost base3 = base2 + flat(e2@.take(l as int), h2);
                    let z1 = in_nodes(&dst_index, Ghost(e_all), w);
                    let z2 = out_nodes(&src_index, Ghost(e_all), y);
                    let zs = common_nodes(&z1, z2);
                    assert(zs@ == closing_nodes(e_all, w, y));
                    assert(base3 + zs@.take(0).map_values(|z: usize| (w, x, y, z)) =~= base3);
                    let mut k: usize = 0;
                    while k < zs.len()
                        invariant
                            k <= zs@.len(),
                            zs@ == closing_nodes(e_all, w, y),
                            has_link(e_all, w, x),
                            has_link(e_all, x, y),
                            link_index_of(src_dst@, e_all),
                            base3.len() + zs@.len() <= total.len(),
                            total.len() < usize::MAX,
                            mid == matching@.len() + 1,
                            matching@ == numbered_rectangles(e_all, base3 + zs@.take(k as int).map_values(|z: usize| (w, x, y, z))),
                        decreases zs@.len() - k,
                    {
                        let z = zs[k];
                        proof {
                            let p = |v: usize| outs(e_all, y).contains(v);
                            let u = unique_first(ins(e_all, w));
                            u.lemma_filter_pred(p, k as int);
                            lemma_outs_link(e_all, y, z);
                            assert(zs@.contains(z));
                            u.lemma_filter_contains_rev(p, z);
                            lemma_unique_first_contains(ins(e_all, w), z);
                            lemma_ins_link(e_all, w, z);
                        }
                        let wx = link(&src_dst, Ghost(e_all), w, x);
                        let xy = link(&src_dst, Ghost(e_all), x, y);
                        let zw = link(&src_dst, Ghost(e_all), z, w);
                        let yz = link(&src_dst, Ghost(e_all), y, z);
                        let t = Matching::find_first(&vec![wx, xy, yz, zw]);
                        let tf = Matching::find_last(&vec![wx, xy, yz, zw]);
                        let ghost before = base3 + zs@.take(k as int).map_values(|z: usize| (w, x, y, z));
                        matching.push(Matching {
                            mid,
                            eid: [wx.eid, xy.eid, yz.eid, zw.eid, 0],
                            first: t,
                            last: tf,
                            match_size: 4,
                            state: 0,
                            word: 0,
                            clocks: [0, 0, 0, 0, 0],
                        });
                        proof {
                            assert(zs@.take(k + 1).map_values(|z: usize| (w, x, y, z)) =~= zs@.take(k as int).map_values(|z: usize| (w, x, y, z)).push((w, x, y, z)));
                            assert(base3 + zs@.take(k + 1).map_values(|z: usize| (w, x, y, z)) =~= before.push((w, x, y, z)));
                            assert(matching@ =~= numbered_rectangles(e_all, before.push((w, x, y, z))));
                        }
                        mid = mid + 1;
                        k = k + 1;
                    }
                    proof {
                        assert(zs@.take(zs@.len() as int) =~= zs@);
                        assert(h2(y) == zs@.map_values(|z: usize| (w, x, y, z)));
                        assert(base3 + h2(y) =~= base2 + flat(e2@.take(l + 1), h2));
                    }
                    l = l + 1;
                }
                proof {
                    assert(e2@.take(e2@.len() as int) =~= e2@);
                    assert(base2 + h(x) =~= base + flat(e@.take(j + 1), h));
                }
                j = j + 1;
            }
            proof {
                assert(e@.take(e@.len() as int) =~= e@);
                assert(base + g(w) =~= flat(n_all.take(i + 1), g));
            }
            i = i + 1;
        }
        assert(n_all.take(n_all.len() as int) =~= n_all);
        matching
    }
}

} // verus!
