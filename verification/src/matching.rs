//! Candidate matchings of small graph patterns (stars, paths, cycles,
//! triangles, rectangles) over an edge list.
use std::collections::HashSet;
use vstd::prelude::*;
use crate::edge::Edge;
use crate::join::{hash_join, join_spec};
use crate::seqs::{lemma_filter_take_len, lemma_filter_take_step};

verus! {

broadcast use vstd::std_specs::hash::group_hash_axioms;

/// A candidate matching `mid` of a pattern of `match_size` edges, with the
/// automaton `state` it has reached, the current input `word` and its clocks.
#[derive(Debug, Clone, Copy)]
pub struct Matching {
    pub mid: usize,
    pub eid: [usize; 5],
    pub first: usize,
    pub last: usize,
    pub match_size: usize,
    pub state: usize,
    pub word: usize,
    pub clocks: [usize; 5],
}

/// A matching that tracks a set of automaton states.
#[derive(Debug)]
pub struct NMatching {
    pub mid: usize,
    pub eid: [usize; 5],
    pub first: usize,
    pub last: usize,
    pub match_size: usize,
    pub state: HashSet<usize>,
    pub word: usize,
    pub clocks: [usize; 5],
}

/// A partial matching, grown at its `head` and `tail` nodes.
#[derive(Debug, Clone, Copy)]
pub struct PMatching {
    pub mid: usize,
    pub eid: [usize; 5],
    pub first: usize,
    pub last: usize,
    pub match_size: usize,
    pub head: usize,
    pub head_idx: i8,
    pub tail: usize,
    pub tail_idx: i8,
    pub state: usize,
    pub word: usize,
    pub clocks: [usize; 5],
}

/// The smaller of two values.
pub open spec fn min_of(a: usize, b: usize) -> usize {
    if a <= b { a } else { b }
}

/// The larger of two values.
pub open spec fn max_of(a: usize, b: usize) -> usize {
    if a >= b { a } else { b }
}

fn min_u(a: usize, b: usize) -> (r: usize)
    ensures
        r == min_of(a, b),
{
    if a <= b { a } else { b }
}

fn max_u(a: usize, b: usize) -> (r: usize)
    ensures
        r == max_of(a, b),
{
    if a >= b { a } else { b }
}

/// The edges keyed by their source node.
pub open spec fn src_keyed(edges: Seq<Edge>) -> Seq<(usize, Edge)> {
    edges.map_values(|e: Edge| (e.src, e))
}

/// The edges keyed by their destination node.
pub open spec fn dst_keyed(edges: Seq<Edge>) -> Seq<(usize, Edge)> {
    edges.map_values(|e: Edge| (e.dst, e))
}

/// A fresh matching: state, word and clocks all zero.
pub open spec fn fresh(mid: usize, eid: [usize; 5], first: usize, last: usize, match_size: usize) -> Matching {
    Matching { mid, eid, first, last, match_size, state: 0, word: 0, clocks: [0, 0, 0, 0, 0] }
}

/// The two-edge matching `mid` of `x` followed by `y`.
pub open spec fn pair_matching(mid: int, x: Edge, y: Edge) -> Matching {
    fresh(mid as usize, [x.eid, y.eid, 0, 0, 0], min_of(x.first, y.first), max_of(x.first, y.first), 2)
}

/// Two-edge matchings of the joined pairs of `s`, numbered from `base + 1`.
pub open spec fn numbered_pairs(s: Seq<(Edge, usize, Edge)>, base: int) -> Seq<Matching> {
    Seq::new(s.len(), |i: int| pair_matching(base + i + 1, s[i].0, s[i].2))
}

/// Which joined pairs of edges a two-edge pattern keeps.
#[derive(Clone, Copy)]
pub enum PairRule {
    /// Every pair.
    All,
    /// Pairs `x -> y -> x` that close a cycle.
    Closes,
    /// Pairs whose edge ids are increasing.
    Ordered,
}

/// Pair `t` passes `rule`.
pub open spec fn pair_kept(rule: PairRule, t: (Edge, usize, Edge)) -> bool {
    match rule {
        PairRule::All => true,
        PairRule::Closes => t.0.src == t.2.dst,
        PairRule::Ordered => t.0.eid < t.2.eid,
    }
}

/// The pairs of `s` that pass `rule`, in order.
pub open spec fn kept_pairs(rule: PairRule, s: Seq<(Edge, usize, Edge)>) -> Seq<(Edge, usize, Edge)> {
    s.filter(|t: (Edge, usize, Edge)| pair_kept(rule, t))
}

/// `path_two`: every edge followed by an edge leaving its destination.
pub open spec fn path_two_spec(edges: Seq<Edge>) -> Seq<Matching> {
    numbered_pairs(join_spec(dst_keyed(edges), src_keyed(edges)), 0)
}

/// `cycle_two`: pairs `x: a -> b`, `y: b -> a`.
pub open spec fn cycle_two_spec(edges: Seq<Edge>) -> Seq<Matching> {
    numbered_pairs(kept_pairs(PairRule::Closes, join_spec(dst_keyed(edges), src_keyed(edges))), 0)
}

/// `in_star_two`: pairs of edges with a common source, ids increasing.
pub open spec fn in_star_two_spec(edges: Seq<Edge>) -> Seq<Matching> {
    numbered_pairs(kept_pairs(PairRule::Ordered, join_spec(src_keyed(edges), src_keyed(edges))), 0)
}

/// `out_star_two`: pairs of edges with a common destination, ids increasing.
pub open spec fn out_star_two_spec(edges: Seq<Edge>) -> Seq<Matching> {
    numbered_pairs(kept_pairs(PairRule::Ordered, join_spec(dst_keyed(edges), dst_keyed(edges))), 0)
}

/// A two-edge partial match: its edge ids, their times, and the earliest
/// and latest of those times.
pub type Half2 = ([usize; 2], [usize; 2], usize, usize);

/// A three-edge partial match: its edge ids, their times, and the earliest
/// and latest of those times.
pub type Half3 = ([usize; 3], [usize; 3], usize, usize);

/// The partial match of `x` followed by `y`.
pub open spec fn half_of(x: Edge, y: Edge) -> Half2 {
    ([x.eid, y.eid], [x.first, y.first], min_of(x.first, y.first), max_of(x.first, y.first))
}

/// A joined pair as a partial match, keyed by the join node (`by_end` false)
/// or by the destination of its second edge (`by_end` true).
pub open spec fn half_entry(t: (Edge, usize, Edge), by_end: bool) -> (usize, Half2) {
    (if by_end { t.2.dst } else { t.1 }, half_of(t.0, t.2))
}

/// The pairs of `s` that pass `rule`, as keyed partial matches.
pub open spec fn halves_spec(s: Seq<(Edge, usize, Edge)>, rule: PairRule, by_end: bool) -> Seq<(usize, Half2)> {
    kept_pairs(rule, s).map_values(|t: (Edge, usize, Edge)| half_entry(t, by_end))
}

/// The three-edge matching `mid` of a partial match extended by edge `t.2`.
pub open spec fn triple_matching(mid: int, t: (Half2, usize, Edge)) -> Matching {
    fresh(mid as usize, [t.0.0[0], t.0.0[1], t.2.eid, 0, 0], min_of(t.0.2, t.2.first), max_of(t.0.3, t.2.first), 3)
}

/// The third edge's id exceeds both ids of the partial match.
pub open spec fn triple_ordered(t: (Half2, usize, Edge)) -> bool {
    t.0.0[0] < t.2.eid && t.0.0[1] < t.2.eid
}

/// Three-edge matchings of `s`: entry `i` becomes matching `i + 1`; with
/// `check`, only the entries with increasing edge ids are kept (keeping
/// their numbers).
pub open spec fn numbered_triples(s: Seq<(Half2, usize, Edge)>, check: bool) -> Seq<Matching>
    decreases s.len(),
{
    if s.len() == 0 {
        Seq::empty()
    } else {
        let r = numbered_triples(s.drop_last(), check);
        if !check || triple_ordered(s.last()) {
            r.push(triple_matching(s.len() as int, s.last()))
        } else {
            r
        }
    }
}

/// A partial match extended by edge `t.2`, keyed by that edge's destination.
pub open spec fn extend_entry(t: (Half2, usize, Edge)) -> (usize, Half3) {
    (t.2.dst, ([t.0.0[0], t.0.0[1], t.2.eid], [t.0.1[0], t.0.1[1], t.2.first], min_of(t.0.2, t.2.first), max_of(t.0.3, t.2.first)))
}

/// The four-edge matching `mid` of a three-edge partial match extended by `t.2`.
pub open spec fn quad_matching(mid: int, t: (Half3, usize, Edge)) -> Matching {
    fresh(mid as usize, [t.0.0[0], t.0.0[1], t.0.0[2], t.2.eid, 0], min_of(t.0.2, t.2.first), max_of(t.0.3, t.2.first), 4)
}

/// `in_star_three`: three edges leaving one node, with increasing edge ids.
pub open spec fn in_star_three_spec(edges: Seq<Edge>) -> Seq<Matching> {
    numbered_triples(join_spec(halves_spec(join_spec(src_keyed(edges), src_keyed(edges)), PairRule::Ordered, false), src_keyed(edges)), true)
}

/// `out_star_three`: three edges entering one node, with increasing edge ids.
pub open spec fn out_star_three_spec(edges: Seq<Edge>) -> Seq<Matching> {
    numbered_triples(join_spec(halves_spec(join_spec(dst_keyed(edges), dst_keyed(edges)), PairRule::Ordered, false), dst_keyed(edges)), true)
}

/// The two-edge paths of `edges` as partial matches keyed by their end node.
pub open spec fn path_halves(edges: Seq<Edge>) -> Seq<(usize, Half2)> {
    halves_spec(join_spec(dst_keyed(edges), src_keyed(edges)), PairRule::All, true)
}

/// `path_three`: three-edge paths.
pub open spec fn path_three_spec(edges: Seq<Edge>) -> Seq<Matching> {
    numbered_triples(join_spec(path_halves(edges), src_keyed(edges)), false)
}

/// `path_four`: four-edge paths.
pub open spec fn path_four_spec(edges: Seq<Edge>) -> Seq<Matching> {
    let b = join_spec(path_halves(edges), src_keyed(edges)).map_values(|t: (Half2, usize, Edge)| extend_entry(t));
    let j = join_spec(b, src_keyed(edges));
    Seq::new(j.len(), |i: int| quad_matching(i + 1, j[i]))
}

/// The pairs `e` then `de`, `de` then `e`, and `de` then `de`.
pub open spec fn dm_joins(e: Seq<Edge>, de: Seq<Edge>) -> (Seq<(Edge, usize, Edge)>, Seq<(Edge, usize, Edge)>, Seq<(Edge, usize, Edge)>) {
    (join_spec(dst_keyed(e), src_keyed(de)), join_spec(dst_keyed(de), src_keyed(e)), join_spec(dst_keyed(de), src_keyed(de)))
}

/// The two-edge paths that use an edge of `de`, numbered after `eid`.
pub open spec fn path_two_dm_spec(eid: int, e: Seq<Edge>, de: Seq<Edge>) -> (int, Seq<Matching>) {
    let (j1, j2, j3) = dm_joins(e, de);
    (eid + j1.len() + j2.len() + j3.len(),
        numbered_pairs(j1, eid) + numbered_pairs(j2, eid + j1.len()) + numbered_pairs(j3, eid + j1.len() + j2.len()))
}

/// The matching `mid` that visits the two edges of `m` in the other order.
pub open spec fn swapped_matching(mid: int, m: Matching) -> Matching {
    fresh(mid as usize, [m.eid[1], m.eid[0], 0, 0, 0], m.first, m.last, 2)
}

/// The matchings of `s` with their edges swapped, numbered from `base + 1`.
pub open spec fn swapped_all(s: Seq<Matching>, base: int) -> Seq<Matching> {
    Seq::new(s.len(), |i: int| swapped_matching(base + i + 1, s[i]))
}

/// The two-edge cycles that use an edge of `de`, numbered after `eid`.
pub open spec fn cycle_two_dm_spec(eid: int, e: Seq<Edge>, de: Seq<Edge>) -> (int, Seq<Matching>) {
    let (j1, j2, j3) = dm_joins(e, de);
    let k1 = kept_pairs(PairRule::Closes, j1);
    let k3 = kept_pairs(PairRule::Closes, j3);
    let p1 = numbered_pairs(k1, eid);
    (eid + 2 * k1.len() + k3.len(),
        p1 + swapped_all(p1, eid + k1.len()) + numbered_pairs(k3, eid + 2 * k1.len()))
}

/// `m` is `old` with its word reset to zero.
pub open spec fn with_word_reset(m: Matching) -> Matching {
    Matching { word: 0, ..m }
}

/// Keys every edge by its source node.
fn keyed_by_src(edges: &Vec<Edge>) -> (r: Vec<(usize, Edge)>)
    ensures
        r@ == src_keyed(edges@),
{
    let mut r: Vec<(usize, Edge)> = Vec::new();
    let mut i: usize = 0;
    while i < edges.len()
        invariant
            i <= edges@.len(),
            r@ == src_keyed(edges@.take(i as int)),
        decreases edges@.len() - i,
    {
        r.push((edges[i].src, edges[i]));
        assert(src_keyed(edges@.take(i + 1)) =~= src_keyed(edges@.take(i as int)).push((edges@[i as int].src, edges@[i as int])));
        i = i + 1;
    }
    assert(edges@.take(edges@.len() as int) =~= edges@);
    r
}

/// Keys every edge by its destination node.
fn keyed_by_dst(edges: &Vec<Edge>) -> (r: Vec<(usize, Edge)>)
    ensures
        r@ == dst_keyed(edges@),
{
    let mut r: Vec<(usize, Edge)> = Vec::new();
    let mut i: usize = 0;
    while i < edges.len()
        invariant
            i <= edges@.len(),
            r@ == dst_keyed(edges@.take(i as int)),
        decreases edges@.len() - i,
    {
        r.push((edges[i].dst, edges[i]));
        assert(dst_keyed(edges@.take(i + 1)) =~= dst_keyed(edges@.take(i as int)).push((edges@[i as int].dst, edges@[i as int])));
        i = i + 1;
    }
    assert(edges@.take(edges@.len() as int) =~= edges@);
    r
}

/// Numbers the pairs of `joined` that pass `rule` as two-edge matchings
/// `base + 1`, `base + 2`, ...
fn number_pairs(joined: &Vec<(Edge, usize, Edge)>, base: usize, rule: PairRule) -> (r: Vec<Matching>)
    requires
        base + kept_pairs(rule, joined@).len() <= usize::MAX,
    ensures
        r@ == numbered_pairs(kept_pairs(rule, joined@), base as int),
{
    let ghost p = |t: (Edge, usize, Edge)| pair_kept(rule, t);
    let mut r: Vec<Matching> = Vec::new();
    let mut i: usize = 0;
    while i < joined.len()
        invariant
            i <= joined@.len(),
            p == (|t: (Edge, usize, Edge)| pair_kept(rule, t)),
            base + joined@.filter(p).len() <= usize::MAX,
            r@ == numbered_pairs(joined@.take(i as int).filter(p), base as int),
        decreases joined@.len() - i,
    {
        let (x, k, y) = joined[i];
        proof {
            lemma_filter_take_step(joined@, p, i as int);
            lemma_filter_take_len(joined@, p, i + 1);
        }
        let keep = match rule {
            PairRule::All => true,
            PairRule::Closes => x.src == y.dst,
            PairRule::Ordered => x.eid < y.eid,
        };
        if keep {
            let mid = base + r.len() + 1;
            let m = Matching {
                mid,
                eid: [x.eid, y.eid, 0, 0, 0],
                first: min_u(x.first, y.first),
                last: max_u(x.first, y.first),
                match_size: 2,
                state: 0,
                word: 0,
                clocks: [0, 0, 0, 0, 0],
            };
            r.push(m);
            assert(r@ =~= numbered_pairs(joined@.take(i + 1).filter(p), base as int));
        } else {
            assert(r@ =~= numbered_pairs(joined@.take(i + 1).filter(p), base as int));
        }
        i = i + 1;
    }
    assert(joined@.take(joined@.len() as int) =~= joined@);
    r
}

/// The pairs of `joined` that pass `rule`, as keyed partial matches.
fn make_halves(joined: &Vec<(Edge, usize, Edge)>, rule: PairRule, by_end: bool) -> (r: Vec<(usize, Half2)>)
    ensures
        r@ == halves_spec(joined@, rule, by_end),
{
    let ghost p = |t: (Edge, usize, Edge)| pair_kept(rule, t);
    let ghost f = |t: (Edge, usize, Edge)| half_entry(t, by_end);
    let mut r: Vec<(usize, Half2)> = Vec::new();
    let mut i: usize = 0;
    while i < joined.len()
        invariant
            i <= joined@.len(),
            p == (|t: (Edge, usize, Edge)| pair_kept(rule, t)),
            f == (|t: (Edge, usize, Edge)| half_entry(t, by_end)),
            r@ == joined@.take(i as int).filter(p).map_values(f),
        decreases joined@.len() - i,
    {
        let (x, w, y) = joined[i];
        proof {
            lemma_filter_take_step(joined@, p, i as int);
        }
        let keep = match rule {
            PairRule::All => true,
            PairRule::Closes => x.src == y.dst,
            PairRule::Ordered => x.eid < y.eid,
        };
        if keep {
            let key = if by_end { y.dst } else { w };
            r.push((key, ([x.eid, y.eid], [x.first, y.first], min_u(x.first, y.first), max_u(x.first, y.first))));
        }
        assert(r@ =~= joined@.take(i + 1).filter(p).map_values(f));
        i = i + 1;
    }
    assert(joined@.take(joined@.len() as int) =~= joined@);
    r
}

/// Numbers the entries of `joined` as three-edge matchings (entry `i` is
/// matching `i + 1`); with `check`, keeps only those with increasing ids.
fn number_triples(joined: &Vec<(Half2, usize, Edge)>, check: bool) -> (r: Vec<Matching>)
    ensures
        r@ == numbered_triples(joined@, check),
{
    let mut r: Vec<Matching> = Vec::new();
    let mut i: usize = 0;
    while i < joined.len()
        invariant
            i <= joined@.len(),
            r@ == numbered_triples(joined@.take(i as int), check),
        decreases joined@.len() - i,
    {
        let (x, _, y) = joined[i];
        assert(joined@.take(i + 1).drop_last() =~= joined@.take(i as int));
        if !check || (x.0[0] < y.eid && x.0[1] < y.eid) {
            r.push(Matching {
                mid: i + 1,
                eid: [x.0[0], x.0[1], y.eid, 0, 0],
                first: min_u(x.2, y.first),
                last: max_u(x.3, y.first),
                match_size: 3,
                state: 0,
                word: 0,
                clocks: [0, 0, 0, 0, 0],
            });
        }
        assert(r@ =~= numbered_triples(joined@.take(i + 1), check));
        i = i + 1;
    }
    assert(joined@.take(joined@.len() as int) =~= joined@);
    r
}

/// Extends each partial match of `joined` by its third edge.
fn extend_halves(joined: &Vec<(Half2, usize, Edge)>) -> (r: Vec<(usize, Half3)>)
    ensures
        r@ == joined@.map_values(|t: (Half2, usize, Edge)| extend_entry(t)),
{
    let mut r: Vec<(usize, Half3)> = Vec::new();
    let mut i: usize = 0;
    while i < joined.len()
        invariant
            i <= joined@.len(),
            r@ == joined@.take(i as int).map_values(|t: (Half2, usize, Edge)| extend_entry(t)),
        decreases joined@.len() - i,
    {
        let (x, _, y) = joined[i];
        r.push((y.dst, ([x.0[0], x.0[1], y.eid], [x.1[0], x.1[1], y.first], min_u(x.2, y.first), max_u(x.3, y.first))));
        assert(r@ =~= joined@.take(i + 1).map_values(|t: (Half2, usize, Edge)| extend_entry(t)));
        i = i + 1;
    }
    assert(joined@.take(joined@.len() as int) =~= joined@);
    r
}

/// Numbers the entries of `joined` as four-edge matchings from 1.
fn number_quads(joined: &Vec<(Half3, usize, Edge)>) -> (r: Vec<Matching>)
    ensures
        r@ == Seq::new(joined@.len(), |i: int| quad_matching(i + 1, joined@[i])),
{
    let mut r: Vec<Matching> = Vec::new();
    let mut i: usize = 0;
    while i < joined.len()
        invariant
            i <= joined@.len(),
            r@ == Seq::new(i as nat, |k: int| quad_matching(k + 1, joined@[k])),
        decreases joined@.len() - i,
    {
        let (x, _, y) = joined[i];
        r.push(Matching {
            mid: i + 1,
            eid: [x.0[0], x.0[1], x.0[2], y.eid, 0],
            first: min_u(x.2, y.first),
            last: max_u(x.3, y.first),
            match_size: 4,
            state: 0,
            word: 0,
            clocks: [0, 0, 0, 0, 0],
        });
        assert(r@ =~= Seq::new((i + 1) as nat, |k: int| quad_matching(k + 1, joined@[k])));
        i = i + 1;
    }
    r
}

/// The matchings of `ms` with their two edges swapped, numbered from `base + 1`.
fn swap_pairs(ms: &Vec<Matching>, base: usize) -> (r: Vec<Matching>)
    requires
        base + ms@.len() <= usize::MAX,
    ensures
        r@ == swapped_all(ms@, base as int),
{
    let mut r: Vec<Matching> = Vec::new();
    let mut i: usize = 0;
    while i < ms.len()
        invariant
            i <= ms@.len(),
            base + ms@.len() <= usize::MAX,
            r@ == swapped_all(ms@.take(i as int), base as int),
        decreases ms@.len() - i,
    {
        let m = ms[i];
        r.push(Matching {
            mid: base + i + 1,
            eid: [m.eid[1], m.eid[0], 0, 0, 0],
            first: m.first,
            last: m.last,
            match_size: 2,
            state: 0,
            word: 0,
            clocks: [0, 0, 0, 0, 0],
        });
        assert(r@ =~= swapped_all(ms@.take(i + 1), base as int));
        i = i + 1;
    }
    assert(ms@.take(ms@.len() as int) =~= ms@);
    r
}

impl Matching {
    /// A fresh matching: state 0, word 0 and all clocks 0.
    pub fn new(mid: usize, eid: [usize; 5], first: usize, match_size: usize, last: usize) -> (r: Self)
        ensures
            r == fresh(mid, eid, first, last, match_size),
    {
        Self { mid, eid, first, match_size, last, state: 0, word: 0, clocks: [0, 0, 0, 0, 0] }
    }

    /// The one-element list holding the all-zero matching.
    pub fn empty_match() -> (matching: Vec<Matching>)
        ensures
            matching@ == seq![fresh(0, [0, 0, 0, 0, 0], 0, 0, 0)],
    {
        let m = Matching {
            mid: 0,
            eid: [0, 0, 0, 0, 0],
            first: 0,
            last: 0,
            match_size: 0,
            state: 0,
            word: 0,
            clocks: [0, 0, 0, 0, 0],
        };
        let matching: Vec<Matching> = vec![m];
        return matching;
    }

    /// The smallest value of `input`.
    pub fn find_first_arr(input: [usize; 5]) -> (r: usize)
        ensures
            exists|i: int| 0 <= i < 5 && r == input[i],
            forall|i: int| 0 <= i < 5 ==> r <= input[i],
    {
        let mut r = input[0];
        let mut i: usize = 1;
        while i < 5
            invariant
                1 <= i <= 5,
                exists|j: int| 0 <= j < i && r == input[j],
                forall|j: int| 0 <= j < i ==> r <= input[j],
            decreases 5 - i,
        {
            if input[i] < r {
                r = input[i];
            }
            i = i + 1;
        }
        r
    }

    /// The largest value of `input`.
    pub fn find_last_arr(input: [usize; 5]) -> (r: usize)
        ensures
            exists|i: int| 0 <= i < 5 && r == input[i],
            forall|i: int| 0 <= i < 5 ==> input[i] <= r,
    {
        let mut r = input[0];
        let mut i: usize = 1;
        while i < 5
            invariant
                1 <= i <= 5,
                exists|j: int| 0 <= j < i && r == input[j],
                forall|j: int| 0 <= j < i ==> input[j] <= r,
            decreases 5 - i,
        {
            if input[i] > r {
                r = input[i];
            }
            i = i + 1;
        }
        r
    }

    /// The earliest `first` time of the (non-empty) list of edges.
    pub fn find_first(input: &Vec<&Edge>) -> (r: usize)
        requires
            input@.len() > 0,
        ensures
            exists|i: int| 0 <= i < input@.len() && r == input@[i].first,
            forall|i: int| 0 <= i < input@.len() ==> r <= input@[i].first,
    {
        let mut r = input[0].first;
        let mut i: usize = 1;
        while i < input.len()
            invariant
                1 <= i <= input@.len(),
                exists|j: int| 0 <= j < i && r == input@[j].first,
                forall|j: int| 0 <= j < i ==> r <= input@[j].first,
            decreases input@.len() - i,
        {
            if input[i].first < r {
                r = input[i].first;
            }
            i = i + 1;
        }
        r
    }

    /// The latest `first` time of the (non-empty) list of edges.
    pub fn find_last(input: &Vec<&Edge>) -> (r: usize)
        requires
            input@.len() > 0,
        ensures
            exists|i: int| 0 <= i < input@.len() && r == input@[i].first,
            forall|i: int| 0 <= i < input@.len() ==> input@[i].first <= r,
    {
        let mut r = input[0].first;
        let mut i: usize = 1;
        while i < input.len()
            invariant
                1 <= i <= input@.len(),
                exists|j: int| 0 <= j < i && r == input@[j].first,
                forall|j: int| 0 <= j < i ==> input@[j].first <= r,
            decreases input@.len() - i,
        {
            if input[i].first > r {
                r = input[i].first;
            }
            i = i + 1;
        }
        r
    }

    /// Keeps the matchings whose id is in `mids`, with their word reset to 0.
    pub fn update_matching(matching: &Vec<Matching>, mids: &HashSet<usize>) -> (r: Vec<Matching>)
        ensures
            r@ == matching@.filter(|m: Matching| mids@.contains(m.mid)).map_values(|m: Matching| with_word_reset(m)),
    {
        let ghost p = |m: Matching| mids@.contains(m.mid);
        let mut r: Vec<Matching> = Vec::new();
        let mut i: usize = 0;
        while i < matching.len()
            invariant
                i <= matching@.len(),
                p == (|m: Matching| mids@.contains(m.mid)),
                r@ == matching@.take(i as int).filter(p).map_values(|m: Matching| with_word_reset(m)),
            decreases matching@.len() - i,
        {
            let m = matching[i];
            proof {
                lemma_filter_take_step(matching@, p, i as int);
            }
            if mids.contains(&m.mid) {
                r.push(Matching {
                    mid: m.mid,
                    eid: m.eid,
                    first: m.first,
                    last: m.last,
                    match_size: m.match_size,
                    state: m.state,
                    word: 0,
                    clocks: m.clocks,
                });
            }
            assert(r@ =~= matching@.take(i + 1).filter(p).map_values(|m: Matching| with_word_reset(m)));
            i = i + 1;
        }
        assert(matching@.take(matching@.len() as int) =~= matching@);
        r
    }

    /// Two-edge cycles: `x: a -> b` followed by `y: b -> a`, numbered from 1.
    pub fn cycle_two(edges: Vec<Edge>) -> (matching: Vec<Matching>)
        ensures
            matching@ == cycle_two_spec(edges@),
    {
        let edges_src = keyed_by_src(&edges);
        let edges_dst = keyed_by_dst(&edges);
        proof {
            broadcast use vstd::laws_eq::group_laws_eq;
        }
        let joined = hash_join(edges_dst.as_slice(), edges_src.as_slice());
        let _n = joined.len();
        proof {
            joined@.lemma_filter_len(|t: (Edge, usize, Edge)| pair_kept(PairRule::Closes, t));
        }
        let matching = number_pairs(&joined, 0, PairRule::Closes);
        return matching;
    }

    /// Two-edge paths: `x: a -> b` followed by `y: b -> c`, numbered from 1.
    pub fn path_two(edges: Vec<Edge>) -> (matching: Vec<Matching>)
        ensures
            matching@ == path_two_spec(edges@),
    {
        let edges_src = keyed_by_src(&edges);
        let edges_dst = keyed_by_dst(&edges);
        proof {
            broadcast use vstd::laws_eq::group_laws_eq;
        }
        let joined = hash_join(edges_dst.as_slice(), edges_src.as_slice());
        let _n = joined.len();
        proof {
            joined@.lemma_filter_len(|t: (Edge, usize, Edge)| pair_kept(PairRule::All, t));
            lemma_keep_all(joined@);
        }
        let matching = number_pairs(&joined, 0, PairRule::All);
        return matching;
    }

    /// Pairs of edges leaving the same node, with increasing edge ids.
    pub fn in_star_two(edges: Vec<Edge>) -> (matching: Vec<Matching>)
        ensures
            matching@ == in_star_two_spec(edges@),
    {
        let edges_src = keyed_by_src(&edges);
        proof {
            broadcast use vstd::laws_eq::group_laws_eq;
        }
        let joined = hash_join(edges_src.as_slice(), edges_src.as_slice());
        let _n = joined.len();
        proof {
            joined@.lemma_filter_len(|t: (Edge, usize, Edge)| pair_kept(PairRule::Ordered, t));
        }
        let matching = number_pairs(&joined, 0, PairRule::Ordered);
        return matching;
    }

    /// Pairs of edges entering the same node, with increasing edge ids.
    pub fn out_star_two(edges: Vec<Edge>) -> (matching: Vec<Matching>)
        ensures
            matching@ == out_star_two_spec(edges@),
    {
        let edges_dst = keyed_by_dst(&edges);
        proof {
            broadcast use vstd::laws_eq::group_laws_eq;
        }
        let joined = hash_join(edges_dst.as_slice(), edges_dst.as_slice());
        let _n = joined.len();
        proof {
            joined@.lemma_filter_len(|t: (Edge, usize, Edge)| pair_kept(PairRule::Ordered, t));
        }
        let matching = number_pairs(&joined, 0, PairRule::Ordered);
        return matching;
    }
    /// Three edges leaving one node, with increasing edge ids. Matching
    /// numbers count every joined candidate, kept or not.
    pub fn in_star_three(edges: Vec<Edge>) -> (matching: Vec<Matching>)
        ensures
            matching@ == in_star_three_spec(edges@),
    {
        let edges_src = keyed_by_src(&edges);
        proof {
            broadcast use vstd::laws_eq::group_laws_eq;
        }
        let pairs = hash_join(edges_src.as_slice(), edges_src.as_slice());
        let half_matching = make_halves(&pairs, PairRule::Ordered, false);
        let joined = hash_join(half_matching.as_slice(), edges_src.as_slice());
        let matching = number_triples(&joined, true);
        return matching;
    }

    /// Three edges entering one node, with increasing edge ids. Matching
    /// numbers count every joined candidate, kept or not.
    pub fn out_star_three(edges: Vec<Edge>) -> (matching: Vec<Matching>)
        ensures
            matching@ == out_star_three_spec(edges@),
    {
        let edges_dst = keyed_by_dst(&edges);
        proof {
            broadcast use vstd::laws_eq::group_laws_eq;
        }
        let pairs = hash_join(edges_dst.as_slice(), edges_dst.as_slice());
        let half_matching = make_halves(&pairs, PairRule::Ordered, false);
        let joined = hash_join(half_matching.as_slice(), edges_dst.as_slice());
        let matching = number_triples(&joined, true);
        return matching;
    }

    /// Three-edge paths `a -> b -> c -> d`, numbered from 1.
    pub fn path_three(edges: Vec<Edge>) -> (matching: Vec<Matching>)
        ensures
            matching@ == path_three_spec(edges@),
    {
        let edges_src = keyed_by_src(&edges);
        let edges_dst = keyed_by_dst(&edges);
        proof {
            broadcast use vstd::laws_eq::group_laws_eq;
        }
        let pairs = hash_join(edges_dst.as_slice(), edges_src.as_slice());
        let a = make_halves(&pairs, PairRule::All, true);
        let joined = hash_join(a.as_slice(), edges_src.as_slice());
        let matching = number_triples(&joined, false);
        return matching;
    }

    /// Four-edge paths `a -> b -> c -> d -> e`, numbered from 1.
    pub fn path_four(edges: Vec<Edge>) -> (matching: Vec<Matching>)
        ensures
            matching@ == path_four_spec(edges@),
    {
        let edges_src = keyed_by_src(&edges);
        let edges_dst = keyed_by_dst(&edges);
        proof {
            broadcast use vstd::laws_eq::group_laws_eq;
        }
        let pairs = hash_join(edges_dst.as_slice(), edges_src.as_slice());
        let a = make_halves(&pairs, PairRule::All, true);
        let ab = hash_join(a.as_slice(), edges_src.as_slice());
        let b = extend_halves(&ab);
        let joined = hash_join(b.as_slice(), edges_src.as_slice());
        let matching = number_quads(&joined);
        return matching;
    }

    /// The two-edge paths that use at least one edge of `de`, given the
    /// edges `e` already seen: first `e` then `de`, then `de` then `e`, then
    /// `de` then `de`. They are numbered from `eid + 1`; the first result is
    /// the last number given out.
    pub fn path_two_dm(eid: usize, e: Vec<Edge>, de: Vec<Edge>) -> (r: (usize, Vec<Matching>))
        requires
            path_two_dm_spec(eid as int, e@, de@).0 <= usize::MAX,
        ensures
            r.0 == path_two_dm_spec(eid as int, e@, de@).0,
            r.1@ == path_two_dm_spec(eid as int, e@, de@).1,
    {
        let mut eid_max = eid;
        let e_src = keyed_by_src(&e);
        let e_dst = keyed_by_dst(&e);
        let de_src = keyed_by_src(&de);
        let de_dst = keyed_by_dst(&de);
        proof {
            broadcast use vstd::laws_eq::group_laws_eq;
        }
        let j1 = hash_join(e_dst.as_slice(), de_src.as_slice());
        let j2 = hash_join(de_dst.as_slice(), e_src.as_slice());
        let j3 = hash_join(de_dst.as_slice(), de_src.as_slice());
        proof {
            lemma_keep_all(j1@);
            lemma_keep_all(j2@);
            lemma_keep_all(j3@);
        }
        let mut e_de = number_pairs(&j1, eid_max, PairRule::All);
        eid_max = eid_max + e_de.len();
        let mut de_e = number_pairs(&j2, eid_max, PairRule::All);
        eid_max = eid_max + de_e.len();
        let mut de_de = number_pairs(&j3, eid_max, PairRule::All);
        eid_max = eid_max + de_de.len();
        let ghost p1 = e_de@;
        let ghost p2 = de_e@;
        let ghost p3 = de_de@;
        e_de.append(&mut de_e);
        e_de.append(&mut de_de);
        assert(e_de@ =~= p1 + p2 + p3);
        return (eid_max, e_de);
    }

    /// The two-edge cycles that use at least one edge of `de`, given the
    /// edges `e` already seen: the cycles `e` then `de`, the same cycles
    /// entered from their `de` edge, then the cycles within `de`. They are
    /// numbered from `eid + 1`; the first result is the last number given out.
    pub fn cycle_two_dm(eid: usize, e: Vec<Edge>, de: Vec<Edge>) -> (r: (usize, Vec<Matching>))
        requires
            cycle_two_dm_spec(eid as int, e@, de@).0 <= usize::MAX,
        ensures
            r.0 == cycle_two_dm_spec(eid as int, e@, de@).0,
            r.1@ == cycle_two_dm_spec(eid as int, e@, de@).1,
    {
        let mut eid_max = eid;
        let e_src = keyed_by_src(&e);
        let e_dst = keyed_by_dst(&e);
        let de_src = keyed_by_src(&de);
        let de_dst = keyed_by_dst(&de);
        proof {
            broadcast use vstd::laws_eq::group_laws_eq;
        }
        let j1 = hash_join(e_dst.as_slice(), de_src.as_slice());
        let j3 = hash_join(de_dst.as_slice(), de_src.as_slice());
        let mut e_de = number_pairs(&j1, eid_max, PairRule::Closes);
        eid_max = eid_max + e_de.len();
        let mut de_e = swap_pairs(&e_de, eid_max);
        eid_max = eid_max + de_e.len();
        let mut de_de = number_pairs(&j3, eid_max, PairRule::Closes);
        eid_max = eid_max + de_de.len();
        let ghost p1 = e_de@;
        let ghost p2 = de_e@;
        let ghost p3 = de_de@;
        e_de.append(&mut de_e);
        e_de.append(&mut de_de);
        assert(e_de@ =~= p1 + p2 + p3);
        return (eid_max, e_de);
    }
}

impl PMatching {
    /// `inp` with position `idx` set to `val`.
    pub fn fill_array(val: usize, idx: i8, inp: [usize; 5]) -> (out: [usize; 5])
        requires
            0 <= idx < 5,
        ensures
            out@ == inp@.update(idx as int, val),
    {
        let mut out = inp;
        out[idx as usize] = val;
        return out;
    }

    /// `inp` with positions `idx`, `idx + 1`, ... overwritten by `val`.
    pub fn fill_array_with_vec(val: Vec<usize>, idx: usize, inp: [usize; 5]) -> (out: [usize; 5])
        requires
            idx + val@.len() <= 5,
        ensures
            forall|k: int| 0 <= k < 5 ==> out@[k] == if idx <= k < idx + val@.len() {
                val@[k - idx]
            } else {
                inp@[k]
            },
    {
        let mut out = inp;
        let mut i: usize = 0;
        while i < val.len()
            invariant
                i <= val@.len(),
                idx + val@.len() <= 5,
                forall|k: int| 0 <= k < 5 ==> out@[k] == if idx <= k < idx + i {
                    val@[k - idx]
                } else {
                    inp@[k]
                },
            decreases val@.len() - i,
        {
            out[idx + i] = val[i];
            i = i + 1;
        }
        return out;
    }
}

/// Keeping every pair keeps the sequence as it is.
pub proof fn lemma_keep_all(s: Seq<(Edge, usize, Edge)>)
    ensures
        kept_pairs(PairRule::All, s) == s,
    decreases s.len(),
{
    reveal_with_fuel(Seq::filter, 1);
    if s.len() > 0 {
        lemma_keep_all(s.drop_last());
        assert(s.drop_last().push(s.last()) =~= s);
    }
}

} // verus!
