//! Temporal edges and the indexes built over an edge list.
use std::collections::BTreeMap;
use std::collections::HashMap;
use vstd::prelude::*;
use crate::seqs::{lemma_filter_nonempty, lemma_filter_take_step, lemma_sorted_unique};

verus! {

broadcast use vstd::std_specs::hash::group_hash_axioms;

/// A directed edge `src -> dst` with identifier `eid`, a label, and the
/// time point `first` at which it appears.
#[derive(Debug, Clone, Copy)]
pub struct Edge {
    pub eid: usize,
    pub src: usize,
    pub dst: usize,
    pub label: usize,
    pub first: usize,
}

/// The edges of `edges` leaving node `k`, in order.
pub open spec fn src_group(edges: Seq<Edge>, k: usize) -> Seq<Edge> {
    edges.filter(|e: Edge| e.src == k)
}

/// The edges of `edges` entering node `k`, in order.
pub open spec fn dst_group(edges: Seq<Edge>, k: usize) -> Seq<Edge> {
    edges.filter(|e: Edge| e.dst == k)
}

/// The edges that a sequence of references points to.
pub open spec fn deref_all(v: Seq<&Edge>) -> Seq<Edge> {
    v.map_values(|r: &Edge| *r)
}

/// `x` is the source or the destination of some edge of `edges`.
pub open spec fn is_node(edges: Seq<Edge>, x: usize) -> bool {
    exists|i: int| 0 <= i < edges.len() && (edges[i].src == x || edges[i].dst == x)
}

/// `x` is the source of some edge of `edges`.
pub open spec fn is_src_node(edges: Seq<Edge>, x: usize) -> bool {
    exists|i: int| 0 <= i < edges.len() && edges[i].src == x
}

/// `x` is the destination of some edge of `edges`.
pub open spec fn is_dst_node(edges: Seq<Edge>, x: usize) -> bool {
    exists|i: int| 0 <= i < edges.len() && edges[i].dst == x
}

/// `s` is in strictly increasing order (so it holds no value twice).
pub open spec fn strictly_increasing(s: Seq<usize>) -> bool {
    forall|i: int, j: int| 0 <= i < j < s.len() ==> s[i] < s[j]
}

/// `i` is the position of the first edge of `edges` that goes `s -> d`.
pub open spec fn first_link_at(edges: Seq<Edge>, s: usize, d: usize, i: int) -> bool {
    &&& 0 <= i < edges.len()
    &&& edges[i].src == s
    &&& edges[i].dst == d
    &&& forall|j: int| 0 <= j < i ==> !(edges[j].src == s && edges[j].dst == d)
}

/// Some edge of `edges` goes `s -> d`.
pub open spec fn has_link(edges: Seq<Edge>, s: usize, d: usize) -> bool {
    exists|i: int| 0 <= i < edges.len() && edges[i].src == s && edges[i].dst == d
}

/// The first edge of `edges` that goes `s -> d` (meaningful when there is one).
pub open spec fn first_link(edges: Seq<Edge>, s: usize, d: usize) -> Edge {
    edges[choose|i: int| first_link_at(edges, s, d, i)]
}

/// There is a first edge `s -> d` whenever there is any.
pub proof fn lemma_first_link_exists(edges: Seq<Edge>, s: usize, d: usize)
    requires
        has_link(edges, s, d),
    ensures
        exists|i: int| first_link_at(edges, s, d, i),
        first_link_at(edges, s, d, choose|i: int| first_link_at(edges, s, d, i)),
    decreases edges.len(),
{
    let k = choose|k: int| 0 <= k < edges.len() && edges[k].src == s && edges[k].dst == d;
    if has_link(edges.take(k), s, d) {
        lemma_first_link_exists(edges.take(k), s, d);
        let i = choose|i: int| first_link_at(edges.take(k), s, d, i);
        assert forall|j: int| 0 <= j < i implies !(edges[j].src == s && edges[j].dst == d) by {
            assert(edges.take(k)[j] == edges[j]);
        }
        assert(edges.take(k)[i] == edges[i]);
        assert(first_link_at(edges, s, d, i));
    } else {
        assert forall|j: int| 0 <= j < k implies !(edges[j].src == s && edges[j].dst == d) by {
            if edges[j].src == s && edges[j].dst == d {
                assert(edges.take(k)[j] == edges[j]);
            }
        }
        assert(first_link_at(edges, s, d, k));
    }
}

/// The first position of the strictly increasing `v` whose value is not below `x`.
fn lower_bound(v: &Vec<usize>, x: usize) -> (i: usize)
    requires
        strictly_increasing(v@),
    ensures
        i <= v@.len(),
        forall|j: int| 0 <= j < i ==> v@[j] < x,
        i < v@.len() ==> x <= v@[i as int],
{
    let mut i: usize = 0;
    while i < v.len() && v[i] < x
        invariant
            i <= v@.len(),
            forall|j: int| 0 <= j < i ==> v@[j] < x,
        decreases v@.len() - i,
    {
        i = i + 1;
    }
    i
}

/// The nodes of `edges` in increasing order, each once.
pub open spec fn sorted_nodes(edges: Seq<Edge>) -> Seq<usize> {
    choose|s: Seq<usize>| strictly_increasing(s) && (forall|x: usize| s.contains(x) <==> is_node(edges, x))
}

/// The destinations of the edges leaving `x`, in order.
pub open spec fn outs(edges: Seq<Edge>, x: usize) -> Seq<usize> {
    src_group(edges, x).map_values(|e: Edge| e.dst)
}

/// The sources of the edges entering `x`, in order.
pub open spec fn ins(edges: Seq<Edge>, x: usize) -> Seq<usize> {
    dst_group(edges, x).map_values(|e: Edge| e.src)
}

/// `m` is the source index of `edges` (as `get_src_index` builds it).
pub open spec fn src_index_of(m: Map<usize, Vec<&Edge>>, edges: Seq<Edge>) -> bool {
    &&& forall|k: usize| #[trigger] m.contains_key(k) <==> is_src_node(edges, k)
    &&& forall|k: usize| #[trigger] m.contains_key(k) ==> deref_all(m[k]@) == src_group(edges, k)
}

/// `m` is the destination index of `edges` (as `get_dst_index` builds it).
pub open spec fn dst_index_of(m: Map<usize, Vec<&Edge>>, edges: Seq<Edge>) -> bool {
    &&& forall|k: usize| #[trigger] m.contains_key(k) <==> is_dst_node(edges, k)
    &&& forall|k: usize| #[trigger] m.contains_key(k) ==> deref_all(m[k]@) == dst_group(edges, k)
}

/// `m` is the link index of `edges` (as `get_srt_dst_index` builds it).
pub open spec fn link_index_of(m: Map<(usize, usize), Edge>, edges: Seq<Edge>) -> bool {
    &&& forall|s: usize, d: usize| #[trigger] m.contains_key((s, d)) <==> has_link(edges, s, d)
    &&& forall|s: usize, d: usize| #[trigger] m.contains_key((s, d)) ==>
            exists|j: int| first_link_at(edges, s, d, j) && m[(s, d)] == edges[j]
}

/// Only one position is the first of its link.
pub proof fn lemma_first_link_unique(edges: Seq<Edge>, s: usize, d: usize, i: int, j: int)
    requires
        first_link_at(edges, s, d, i),
        first_link_at(edges, s, d, j),
    ensures
        i == j,
{
}

/// The indexed edge of a link is the first edge of that link.
pub proof fn lemma_link_index_value(m: Map<(usize, usize), Edge>, edges: Seq<Edge>, s: usize, d: usize)
    requires
        link_index_of(m, edges),
        has_link(edges, s, d),
    ensures
        m.contains_key((s, d)),
        m[(s, d)] == first_link(edges, s, d),
{
    lemma_first_link_exists(edges, s, d);
    assert(m.contains_key((s, d)));
    let j = choose|j: int| first_link_at(edges, s, d, j) && m[(s, d)] == edges[j];
    let c = choose|i: int| first_link_at(edges, s, d, i);
    lemma_first_link_unique(edges, s, d, j, c);
}

/// Every node of `outs(edges, x)` is linked from `x`.
pub proof fn lemma_outs_link(edges: Seq<Edge>, x: usize, y: usize)
    requires
        outs(edges, x).contains(y),
    ensures
        has_link(edges, x, y),
{
    let p = |e: Edge| e.src == x;
    let g = src_group(edges, x);
    let j = choose|j: int| 0 <= j < outs(edges, x).len() && outs(edges, x)[j] == y;
    edges.lemma_filter_pred(p, j);
    assert(g.contains(g[j]));
    edges.lemma_filter_contains_rev(p, g[j]);
    let k = choose|k: int| 0 <= k < edges.len() && edges[k] == g[j];
}

/// Every node of `ins(edges, x)` links to `x`.
pub proof fn lemma_ins_link(edges: Seq<Edge>, x: usize, z: usize)
    requires
        ins(edges, x).contains(z),
    ensures
        has_link(edges, z, x),
{
    let p = |e: Edge| e.dst == x;
    let g = dst_group(edges, x);
    let j = choose|j: int| 0 <= j < ins(edges, x).len() && ins(edges, x)[j] == z;
    edges.lemma_filter_pred(p, j);
    assert(g.contains(g[j]));
    edges.lemma_filter_contains_rev(p, g[j]);
    let k = choose|k: int| 0 <= k < edges.len() && edges[k] == g[j];
}

/// Pairs of node ids obey the order that ordered maps and sets rely on.
pub open spec fn pair_keys_ordered() -> bool {
    vstd::laws_cmp::obeys_cmp::<(usize, usize)>()
}

/// Pairs of node ids are totally ordered as ordered-map keys.
pub(crate) proof fn lemma_pair_keys_ordered()
    ensures
        pair_keys_ordered(),
{
    broadcast use vstd::laws_cmp::group_laws_cmp;
}

/// Inserts `x` into the strictly increasing `v`, unless it is there already.
fn insert_sorted(v: &mut Vec<usize>, x: usize)
    requires
        strictly_increasing(old(v)@),
    ensures
        strictly_increasing(final(v)@),
        final(v)@.contains(x),
        forall|y: usize| #[trigger] old(v)@.contains(y) ==> final(v)@.contains(y),
        forall|y: usize| #[trigger] final(v)@.contains(y) ==> old(v)@.contains(y) || y == x,
{
    let i = lower_bound(v, x);
    if i < v.len() && v[i] == x {
        assert(v@[i as int] == x);
        assert(v@.contains(x));
        assert(v@ == old(v)@);
    } else {
        let ghost before = v@;
        assert(before == old(v)@);
        v.insert(i, x);
        proof {
            assert(v@ == before.insert(i as int, x));
            assert forall|y: usize| v@.contains(y) <==> (before.contains(y) || y == x) by {
                if v@.contains(y) {
                    let k = choose|k: int| 0 <= k < v@.len() && v@[k] == y;
                    if k < i {
                        assert(before[k] == y);
                    } else if k > i {
                        assert(before[k - 1] == y);
                    }
                }
                if before.contains(y) {
                    let k = choose|k: int| 0 <= k < before.len() && before[k] == y;
                    if k < i {
                        assert(v@[k] == y);
                    } else {
                        assert(v@[k + 1] == y);
                    }
                }
                if y == x {
                    assert(v@[i as int] == x);
                }
            }
            assert(v@[i as int] == x);
            assert(v@.contains(x));
        }
    }
}

impl Edge {
    /// The edge with every field zero.
    pub fn default() -> (r: Edge)
        ensures
            r.eid == 0 && r.src == 0 && r.dst == 0 && r.label == 0 && r.first == 0,
    {
        return Edge::new(0, 0, 0, 0, 0);
    }

    /// An edge with the given fields.
    pub fn new(eid: usize, src: usize, dst: usize, label: usize, first: usize) -> (r: Self)
        ensures
            r.eid == eid,
            r.src == src,
            r.dst == dst,
            r.label == label,
            r.first == first,
    {
        Self { eid, src, dst, label, first }
    }

    /// Groups the edges by source node: each source maps to its outgoing
    /// edges in the order of `edges`.
    pub fn get_src_index(edges: &Vec<Edge>) -> (r: HashMap<usize, Vec<&Edge>>)
        ensures
            forall|k: usize| #[trigger] r@.contains_key(k) <==> is_src_node(edges@, k),
            forall|k: usize| #[trigger] r@.contains_key(k) ==> deref_all(r@[k]@) == src_group(edges@, k),
    {
        let mut hash_map: HashMap<usize, Vec<&Edge>> = HashMap::new();
        let mut i: usize = 0;
        while i < edges.len()
            invariant
                i <= edges@.len(),
                forall|k: usize| #[trigger] hash_map@.contains_key(k) <==> src_group(edges@.take(i as int), k).len() > 0,
                forall|k: usize| #[trigger] hash_map@.contains_key(k) ==> deref_all(hash_map@[k]@) == src_group(edges@.take(i as int), k),
            decreases edges@.len() - i,
        {
            let e = &edges[i];
            let ghost old_m = hash_map@;
            let mut v = match hash_map.remove(&e.src) {
                Some(v) => v,
                None => Vec::new(),
            };
            v.push(e);
            hash_map.insert(e.src, v);
            proof {
                assert forall|k: usize| true implies #[trigger] src_group(edges@.take(i + 1), k) == if edges@[i as int].src == k {
                    src_group(edges@.take(i as int), k).push(edges@[i as int])
                } else {
                    src_group(edges@.take(i as int), k)
                } by {
                    lemma_filter_take_step(edges@, |e: Edge| e.src == k, i as int);
                }
                if !old_m.contains_key(e.src) {
                    assert(src_group(edges@.take(i as int), e.src).len() == 0);
                }
                assert(deref_all(hash_map@[e.src]@) =~= src_group(edges@.take(i + 1), e.src));
            }
            i = i + 1;
        }
        proof {
            assert(edges@.take(edges@.len() as int) =~= edges@);
            assert forall|k: usize| #[trigger] hash_map@.contains_key(k) <==> is_src_node(edges@, k) by {
                lemma_filter_nonempty(edges@, |e: Edge| e.src == k);
            }
        }
        return hash_map;
    }

    /// Groups the edges by destination node: each destination maps to its
    /// incoming edges in the order of `edges`.
    pub fn get_dst_index(edges: &Vec<Edge>) -> (r: HashMap<usize, Vec<&Edge>>)
        ensures
            forall|k: usize| #[trigger] r@.contains_key(k) <==> is_dst_node(edges@, k),
            forall|k: usize| #[trigger] r@.contains_key(k) ==> deref_all(r@[k]@) == dst_group(edges@, k),
    {
        let mut hash_map: HashMap<usize, Vec<&Edge>> = HashMap::new();
        let mut i: usize = 0;
        while i < edges.len()
            invariant
                i <= edges@.len(),
                forall|k: usize| #[trigger] hash_map@.contains_key(k) <==> dst_group(edges@.take(i as int), k).len() > 0,
                forall|k: usize| #[trigger] hash_map@.contains_key(k) ==> deref_all(hash_map@[k]@) == dst_group(edges@.take(i as int), k),
            decreases edges@.len() - i,
        {
            let e = &edges[i];
            let ghost old_m = hash_map@;
            let mut v = match hash_map.remove(&e.dst) {
                Some(v) => v,
                None => Vec::new(),
            };
            v.push(e);
            hash_map.insert(e.dst, v);
            proof {
                assert forall|k: usize| true implies #[trigger] dst_group(edges@.take(i + 1), k) == if edges@[i as int].dst == k {
                    dst_group(edges@.take(i as int), k).push(edges@[i as int])
                } else {
                    dst_group(edges@.take(i as int), k)
                } by {
                    lemma_filter_take_step(edges@, |e: Edge| e.dst == k, i as int);
                }
                if !old_m.contains_key(e.dst) {
                    assert(dst_group(edges@.take(i as int), e.dst).len() == 0);
                }
                assert(deref_all(hash_map@[e.dst]@) =~= dst_group(edges@.take(i + 1), e.dst));
            }
            i = i + 1;
        }
        proof {
            assert(edges@.take(edges@.len() as int) =~= edges@);
            assert forall|k: usize| #[trigger] hash_map@.contains_key(k) <==> is_dst_node(edges@, k) by {
                lemma_filter_nonempty(edges@, |e: Edge| e.dst == k);
            }
        }
        return hash_map;
    }

    /// Indexes the edges by `(src, dst)`: each pair that some edge links maps
    /// to the first such edge of `edges`.
    pub fn get_srt_dst_index(edges: &Vec<Edge>) -> (r: BTreeMap<(usize, usize), Edge>)
        ensures
            forall|s: usize, d: usize| #[trigger] r@.contains_key((s, d)) <==> has_link(edges@, s, d),
            forall|s: usize, d: usize| #[trigger] r@.contains_key((s, d)) ==>
                exists|j: int| first_link_at(edges@, s, d, j) && r@[(s, d)] == edges@[j],
    {
        proof {
            lemma_pair_keys_ordered();
        }
        let mut hash_map: BTreeMap<(usize, usize), Edge> = BTreeMap::new();
        let mut i: usize = 0;
        while i < edges.len()
            invariant
                i <= edges@.len(),
                forall|s: usize, d: usize| #[trigger] hash_map@.contains_key((s, d)) <==> has_link(edges@.take(i as int), s, d),
                forall|s: usize, d: usize| #[trigger] hash_map@.contains_key((s, d)) ==>
                    exists|j: int| first_link_at(edges@.take(i as int), s, d, j) && hash_map@[(s, d)] == edges@[j],
                forall|k: (usize, usize)| #[trigger] hash_map@.contains_key(k) ==> has_link(edges@.take(i as int), k.0, k.1),
            decreases edges@.len() - i,
        {
            let e = edges[i];
            let ghost old_m = hash_map@;
            let ghost t = edges@.take(i + 1);
            let ghost p = edges@.take(i as int);
            if !hash_map.contains_key(&(e.src, e.dst)) {
                hash_map.insert((e.src, e.dst), e);
            }
            proof {
                assert forall|s: usize, d: usize| has_link(p, s, d) implies has_link(t, s, d) by {
                    let j = choose|j: int| 0 <= j < p.len() && p[j].src == s && p[j].dst == d;
                    assert(t[j] == p[j]);
                }
                assert(t[i as int] == e);
                assert(has_link(t, e.src, e.dst));
                assert forall|s: usize, d: usize| has_link(t, s, d) && !(s == e.src && d == e.dst) implies has_link(p, s, d) by {
                    let j = choose|j: int| 0 <= j < t.len() && t[j].src == s && t[j].dst == d;
                    assert(j != i);
                    assert(t[j] == p[j]);
                }
                assert forall|s: usize, d: usize| #[trigger] hash_map@.contains_key((s, d)) implies
                    exists|j: int| first_link_at(t, s, d, j) && hash_map@[(s, d)] == edges@[j] by {
                    if old_m.contains_key((s, d)) {
                        let j = choose|j: int| first_link_at(p, s, d, j) && old_m[(s, d)] == edges@[j];
                        assert forall|x: int| 0 <= x < j implies !(t[x].src == s && t[x].dst == d) by {
                            assert(t[x] == p[x]);
                        }
                        assert(t[j] == p[j]);
                        assert(first_link_at(t, s, d, j));
                    } else {
                        assert(s == e.src && d == e.dst);
                        assert(!has_link(p, s, d));
                        assert forall|x: int| 0 <= x < i implies !(t[x].src == s && t[x].dst == d) by {
                            assert(t[x] == p[x]);
                            if t[x].src == s && t[x].dst == d {
                                assert(has_link(p, s, d));
                            }
                        }
                        assert(first_link_at(t, s, d, i as int));
                    }
                }
            }
            i = i + 1;
        }
        assert(edges@.take(edges@.len() as int) =~= edges@);
        hash_map
    }

    /// The sorted list of all nodes that are an endpoint of some edge.
    pub fn get_all_nodes(edges: &Vec<Edge>) -> (keys: Vec<usize>)
        ensures
            keys@ == sorted_nodes(edges@),
            strictly_increasing(keys@),
            forall|x: usize| keys@.contains(x) <==> is_node(edges@, x),
    {
        let mut keys: Vec<usize> = Vec::new();
        let mut i: usize = 0;
        while i < edges.len()
            invariant
                i <= edges@.len(),
                strictly_increasing(keys@),
                forall|x: usize| keys@.contains(x) <==> is_node(edges@.take(i as int), x),
            decreases edges@.len() - i,
        {
            let ghost before = keys@;
            insert_sorted(&mut keys, edges[i].src);
            let ghost mid = keys@;
            insert_sorted(&mut keys, edges[i].dst);
            proof {
                assert forall|x: usize| keys@.contains(x) <==> is_node(edges@.take(i + 1), x) by {
                    let t = edges@.take(i + 1);
                    if keys@.contains(x) {
                        assert(mid.contains(x) || x == edges@[i as int].dst);
                        if mid.contains(x) {
                            assert(before.contains(x) || x == edges@[i as int].src);
                        }
                    }
                    if before.contains(x) {
                        assert(mid.contains(x));
                    }
                    if x == edges@[i as int].src {
                        assert(mid.contains(x));
                    }
                    if is_node(edges@.take(i as int), x) {
                        let j = choose|j: int| 0 <= j < i && (edges@.take(i as int)[j].src == x || edges@.take(i as int)[j].dst == x);
                        assert(t[j] == edges@[j]);
                    }
                    if is_node(t, x) {
                        let j = choose|j: int| 0 <= j < t.len() && (t[j].src == x || t[j].dst == x);
                        if j < i {
                            assert(edges@.take(i as int)[j] == t[j]);
                        }
                    }
                    assert(t[i as int] == edges@[i as int]);
                }
            }
            i = i + 1;
        }
        assert(edges@.take(edges@.len() as int) =~= edges@);
        proof {
            let c = sorted_nodes(edges@);
            lemma_sorted_unique(keys@, c);
        }
        keys
    }

    /// The sorted list of all nodes that are the source of some edge.
    pub fn get_all_src_nodes(edges: &Vec<Edge>) -> (keys: Vec<usize>)
        ensures
            strictly_increasing(keys@),
            forall|x: usize| keys@.contains(x) <==> is_src_node(edges@, x),
    {
        let mut keys: Vec<usize> = Vec::new();
        let mut i: usize = 0;
        while i < edges.len()
            invariant
                i <= edges@.len(),
                strictly_increasing(keys@),
                forall|x: usize| keys@.contains(x) <==> is_src_node(edges@.take(i as int), x),
            decreases edges@.len() - i,
        {
            let ghost before = keys@;
            insert_sorted(&mut keys, edges[i].src);
            proof {
                assert forall|x: usize| keys@.contains(x) <==> is_src_node(edges@.take(i + 1), x) by {
                    let t = edges@.take(i + 1);
                    if keys@.contains(x) {
                        assert(before.contains(x) || x == edges@[i as int].src);
                    }
                    if before.contains(x) {
                        assert(keys@.contains(x));
                    }
                    assert(keys@.contains(edges@[i as int].src));
                    if is_src_node(edges@.take(i as int), x) {
                        let j = choose|j: int| 0 <= j < i && edges@.take(i as int)[j].src == x;
                        assert(t[j] == edges@[j]);
                    }
                    if is_src_node(t, x) {
                        let j = choose|j: int| 0 <= j < t.len() && t[j].src == x;
                        if j < i {
                            assert(edges@.take(i as int)[j] == t[j]);
                        }
                    }
                    assert(t[i as int] == edges@[i as int]);
                }
            }
            i = i + 1;
        }
        assert(edges@.take(edges@.len() as int) =~= edges@);
        keys
    }

    /// The sorted list of all nodes that are the destination of some edge.
    pub fn get_all_dst_nodes(edges: &Vec<Edge>) -> (keys: Vec<usize>)
        ensures
            strictly_increasing(keys@),
            forall|x: usize| keys@.contains(x) <==> is_dst_node(edges@, x),
    {
        let mut keys: Vec<usize> = Vec::new();
        let mut i: usize = 0;
        while i < edges.len()
            invariant
                i <= edges@.len(),
                strictly_increasing(keys@),
                forall|x: usize| keys@.contains(x) <==> is_dst_node(edges@.take(i as int), x),
            decreases edges@.len() - i,
        {
            let ghost before = keys@;
            insert_sorted(&mut keys, edges[i].dst);
            proof {
                assert forall|x: usize| keys@.contains(x) <==> is_dst_node(edges@.take(i + 1), x) by {
                    let t = edges@.take(i + 1);
                    if keys@.contains(x) {
                        assert(before.contains(x) || x == edges@[i as int].dst);
                    }
                    if before.contains(x) {
                        assert(keys@.contains(x));
                    }
                    assert(keys@.contains(edges@[i as int].dst));
                    if is_dst_node(edges@.take(i as int), x) {
                        let j = choose|j: int| 0 <= j < i && edges@.take(i as int)[j].dst == x;
                        assert(t[j] == edges@[j]);
                    }
                    if is_dst_node(t, x) {
                        let j = choose|j: int| 0 <= j < t.len() && t[j].dst == x;
                        if j < i {
                            assert(edges@.take(i as int)[j] == t[j]);
                        }
                    }
                    assert(t[i as int] == edges@[i as int]);
                }
            }
            i = i + 1;
        }
        assert(edges@.take(edges@.len() as int) =~= edges@);
        keys
    }
}

} // verus!
