//! Properties of the library as a whole: what the join produces, how the
//! incremental matchers relate to the full ones, and how the timed and
//! untimed automaton steps agree.
use vstd::prelude::*;
use crate::join::{join_spec, matches_for, values_for};
use crate::matching::{
    cycle_two_dm_spec, cycle_two_spec, dm_joins, dst_keyed, kept_pairs, numbered_pairs, path_two_dm_spec,
    path_two_spec, src_keyed, swapped_all, PairRule,
};
use crate::edge::Edge;
use crate::matching::{
    extend_entry, halves_spec, in_star_three_spec, max_of, min_of, numbered_triples, out_star_three_spec,
    path_four_spec, path_halves, path_three_spec, triple_matching, with_word_reset, Half2, Half3, Matching,
    in_star_two_spec, out_star_two_spec,
};
use crate::patterns::match_gen_spec;
use crate::input::{dedup_actives, dedup_edges, edge_key};
use crate::active::Active;
use crate::cycles::{rectangles_spec, triangles_spec};
use crate::nfa::{bin_dec, flags_value};
use crate::edge::{is_dst_node, is_node, is_src_node};
use vstd::arithmetic::power2::pow2;
use crate::nfa::{nfa_step_spec, state_keyed, with_state};
use crate::tnfa::{after_step, fires, seq_to_clocks, set_clock_spec, step_defined, tnfa_step_defined, tnfa_step_spec, ClockCondition, TNFA};

verus! {

/// A value is listed for key `k` exactly when `s` has the row `(k, b)`.
pub proof fn lemma_values_for_contains<K, B>(k: K, s: Seq<(K, B)>, b: B)
    ensures
        values_for(k, s).contains(b) <==> s.contains((k, b)),
    decreases s.len(),
{
    if s.len() > 0 {
        lemma_values_for_contains(k, s.drop_last(), b);
        let rest = values_for(k, s.drop_last());
        if s.drop_last().contains((k, b)) {
            let j = choose|j: int| 0 <= j < s.drop_last().len() && s.drop_last()[j] == (k, b);
            assert(s[j] == (k, b));
        }
        if s.contains((k, b)) {
            let j = choose|j: int| 0 <= j < s.len() && s[j] == (k, b);
            if j < s.len() - 1 {
                assert(s.drop_last()[j] == (k, b));
            }
        }
        if rest.contains(b) {
            let j = choose|j: int| 0 <= j < rest.len() && rest[j] == b;
            if s.last().0 == k {
                assert(rest.push(s.last().1)[j] == b);
            }
        }
        if s.last().0 == k && s.last().1 == b {
            assert(rest.push(s.last().1)[rest.len() as int] == b);
        }
    }
}

/// The join pairs every row of `first` with every row of `second` that has
/// the same key, and produces nothing else: `(a, k, b)` is in the join
/// exactly when `(k, a)` is a row of `first` and `(k, b)` a row of `second`.
pub proof fn lemma_join_membership<K, A, B>(first: Seq<(K, A)>, second: Seq<(K, B)>, a: A, k: K, b: B)
    ensures
        join_spec(first, second).contains((a, k, b)) <==> (first.contains((k, a)) && second.contains((k, b))),
    decreases first.len(),
{
    if first.len() > 0 {
        let rest = join_spec(first.drop_last(), second);
        let m = matches_for(first.last().0, first.last().1, second);
        lemma_join_membership(first.drop_last(), second, a, k, b);
        assert(join_spec(first, second) == rest + m);
        if m.contains((a, k, b)) {
            let j = choose|j: int| 0 <= j < m.len() && m[j] == (a, k, b);
            let v = values_for(first.last().0, second);
            assert(v.contains(v[j]));
            lemma_values_for_contains(k, second, b);
            assert(first[first.len() - 1] == (k, a));
        }
        if first.last() == (k, a) && second.contains((k, b)) {
            lemma_values_for_contains(k, second, b);
            let v = values_for(k, second);
            let j = choose|j: int| 0 <= j < v.len() && v[j] == b;
            assert(m[j] == (a, k, b));
            assert((rest + m)[rest.len() + j] == (a, k, b));
        }
        if rest.contains((a, k, b)) {
            let j = choose|j: int| 0 <= j < rest.len() && rest[j] == (a, k, b);
            assert((rest + m)[j] == (a, k, b));
        }
        if (rest + m).contains((a, k, b)) {
            let j = choose|j: int| 0 <= j < (rest + m).len() && (rest + m)[j] == (a, k, b);
            if j >= rest.len() {
                assert(m[j - rest.len()] == (a, k, b));
            }
        }
        if first.contains((k, a)) {
            let i = choose|i: int| 0 <= i < first.len() && first[i] == (k, a);
            if i < first.len() - 1 {
                assert(first.drop_last()[i] == (k, a));
            }
        }
        if first.drop_last().contains((k, a)) {
            let i = choose|i: int| 0 <= i < first.drop_last().len() && first.drop_last()[i] == (k, a);
            assert(first[i] == (k, a));
        }
    }
}

/// Joining with an empty right side gives nothing.
pub proof fn lemma_join_empty_right<K, A, B>(first: Seq<(K, A)>)
    ensures
        join_spec(first, Seq::<(K, B)>::empty()) == Seq::<(A, K, B)>::empty(),
    decreases first.len(),
{
    if first.len() > 0 {
        lemma_join_empty_right::<K, A, B>(first.drop_last());
        assert(values_for(first.last().0, Seq::<(K, B)>::empty()) == Seq::<B>::empty());
        assert(matches_for(first.last().0, first.last().1, Seq::<(K, B)>::empty()) =~= Seq::<(A, K, B)>::empty());
        assert(join_spec(first, Seq::<(K, B)>::empty()) =~= Seq::<(A, K, B)>::empty());
    }
}

/// The incremental two-edge paths of the edges `edges`, added to an empty
/// graph and numbered from 0, are exactly the two-edge paths of `edges`.
pub proof fn lemma_path_two_from_scratch(edges: Seq<Edge>)
    ensures
        path_two_dm_spec(0, Seq::empty(), edges).0 == path_two_spec(edges).len(),
        path_two_dm_spec(0, Seq::empty(), edges).1 == path_two_spec(edges),
{
    let (j1, j2, j3) = dm_joins(Seq::empty(), edges);
    assert(dst_keyed(Seq::<Edge>::empty()) =~= Seq::empty());
    assert(src_keyed(Seq::<Edge>::empty()) =~= Seq::empty());
    lemma_join_empty_right::<usize, Edge, Edge>(dst_keyed(edges));
    assert(j1 =~= Seq::empty());
    assert(j2 =~= Seq::empty());
    assert(numbered_pairs(j1, 0) =~= Seq::empty());
    assert(numbered_pairs(j2, 0) =~= Seq::empty());
    assert(path_two_dm_spec(0, Seq::empty(), edges).1 =~= path_two_spec(edges));
}

/// The incremental two-edge cycles of the edges `edges`, added to an empty
/// graph and numbered from 0, are exactly the two-edge cycles of `edges`.
pub proof fn lemma_cycle_two_from_scratch(edges: Seq<Edge>)
    ensures
        cycle_two_dm_spec(0, Seq::empty(), edges).0 == cycle_two_spec(edges).len(),
        cycle_two_dm_spec(0, Seq::empty(), edges).1 == cycle_two_spec(edges),
{
    let (j1, j2, j3) = dm_joins(Seq::empty(), edges);
    assert(dst_keyed(Seq::<Edge>::empty()) =~= Seq::empty());
    assert(j1 =~= Seq::empty());
    reveal_with_fuel(Seq::filter, 1);
    let k1 = kept_pairs(PairRule::Closes, j1);
    assert(k1 =~= Seq::empty());
    let p1 = numbered_pairs(k1, 0);
    assert(p1 =~= Seq::empty());
    assert(swapped_all(p1, 0) =~= Seq::empty());
    assert(cycle_two_dm_spec(0, Seq::empty(), edges).1 =~= cycle_two_spec(edges));
}

/// Filtering by a predicate that every element passes keeps everything.
pub proof fn lemma_filter_all<A>(s: Seq<A>, p: spec_fn(A) -> bool)
    requires
        forall|i: int| 0 <= i < s.len() ==> p(#[trigger] s[i]),
    ensures
        s.filter(p) == s,
    decreases s.len(),
{
    reveal_with_fuel(Seq::filter, 1);
    if s.len() > 0 {
        lemma_filter_all(s.drop_last(), p);
        assert(p(s[s.len() - 1]));
        assert(s.drop_last().push(s.last()) =~= s);
    }
}

/// The untimed view of timed transitions: `(next_state, accept)` per key.
pub open spec fn untimed(tj: Seq<((usize, usize), TNFA)>) -> Seq<((usize, usize), (usize, usize))> {
    tj.map_values(|p: ((usize, usize), TNFA)| (p.0, (p.1.nfa.next_state, p.1.nfa.accept)))
}

/// The timed transitions carry no timing: every condition always holds and
/// no transition resets a clock.
pub open spec fn without_timing(tj: Seq<((usize, usize), TNFA)>) -> bool {
    forall|i: int| 0 <= i < tj.len() ==> {
        &&& (#[trigger] tj[i]).1.clock_cond.0 == ClockCondition::AllTrue
        &&& tj[i].1.clock_set == 0
    }
}

proof fn lemma_values_for_untimed(k: (usize, usize), s: Seq<((usize, usize), TNFA)>)
    ensures
        values_for(k, untimed(s)) == values_for(k, s).map_values(|t: TNFA| (t.nfa.next_state, t.nfa.accept)),
    decreases s.len(),
{
    if s.len() > 0 {
        lemma_values_for_untimed(k, s.drop_last());
        assert(untimed(s).drop_last() =~= untimed(s.drop_last()));
        assert(values_for(k, untimed(s)) =~= values_for(k, s).map_values(|t: TNFA| (t.nfa.next_state, t.nfa.accept)));
    }
}

proof fn lemma_join_untimed(f: Seq<((usize, usize), Matching)>, s: Seq<((usize, usize), TNFA)>)
    ensures
        join_spec(f, untimed(s)) == join_spec(f, s).map_values(
            |t: (Matching, (usize, usize), TNFA)| (t.0, t.1, (t.2.nfa.next_state, t.2.nfa.accept)),
        ),
    decreases f.len(),
{
    if f.len() > 0 {
        lemma_join_untimed(f.drop_last(), s);
        lemma_values_for_untimed(f.last().0, s);
        assert(join_spec(f, untimed(s)) =~= join_spec(f, s).map_values(
            |t: (Matching, (usize, usize), TNFA)| (t.0, t.1, (t.2.nfa.next_state, t.2.nfa.accept)),
        ));
    }
}

/// With transitions that carry no timing, a timed step is defined on every
/// input and does exactly what the untimed step of the same transitions does.
pub proof fn lemma_tnfa_step_untimed(current_time: usize, tj: Seq<((usize, usize), TNFA)>, ms: Seq<Matching>)
    requires
        without_timing(tj),
    ensures
        tnfa_step_defined(current_time, tj, ms),
        tnfa_step_spec(current_time, tj, ms) == nfa_step_spec(untimed(tj), ms),
{
    let f = state_keyed(ms);
    let j = join_spec(f, tj);
    assert forall|i: int| 0 <= i < j.len() implies (#[trigger] j[i]).2.clock_cond.0 == ClockCondition::AllTrue
        && j[i].2.clock_set == 0 by {
        assert(j.contains(j[i]));
        lemma_join_membership(f, tj, j[i].0, j[i].1, j[i].2);
        let x = choose|x: int| 0 <= x < tj.len() && tj[x] == (j[i].1, j[i].2);
        assert(tj[x].1 == j[i].2);
    }
    assert forall|i: int| 0 <= i < j.len() implies #[trigger] step_defined(current_time, j[i].0.clocks, j[i].2) by {
        assert(j[i].2.clock_cond.0 == ClockCondition::AllTrue);
    }
    let p = |t: (Matching, (usize, usize), TNFA)| fires(current_time, t.0.clocks, t.2);
    lemma_filter_all(j, p);
    lemma_join_untimed(f, tj);
    assert forall|i: int| 0 <= i < j.len() implies after_step(current_time, (#[trigger] j[i]).0, j[i].2) == with_state(j[i].0, j[i].2.nfa.next_state) by {
        let m = j[i].0;
        assert(set_clock_spec(m.clocks, 0, current_time) == m.clocks@);
        assert(seq_to_clocks(m.clocks@, m.clocks) =~= m.clocks);
    }
    assert(tnfa_step_spec(current_time, tj, ms) =~= nfa_step_spec(untimed(tj), ms));
}

/// Keeping the matchings of a set of ids and resetting their words twice is
/// the same as doing it once.
pub proof fn lemma_update_matching_idempotent(ms: Seq<Matching>, mids: Set<usize>)
    ensures
        ({
            let once = ms.filter(|m: Matching| mids.contains(m.mid)).map_values(|m: Matching| with_word_reset(m));
            once.filter(|m: Matching| mids.contains(m.mid)).map_values(|m: Matching| with_word_reset(m)) == once
        }),
{
    let p = |m: Matching| mids.contains(m.mid);
    let f = ms.filter(p);
    let once = f.map_values(|m: Matching| with_word_reset(m));
    assert forall|i: int| 0 <= i < once.len() implies p(#[trigger] once[i]) by {
        ms.lemma_filter_pred(p, i);
    }
    lemma_filter_all(once, p);
    assert(once.map_values(|m: Matching| with_word_reset(m)) =~= once);
}

/// The binary number whose digits are the first `n` flags of `a`.
pub open spec fn flags_binary(a: Seq<bool>, n: nat) -> nat
    decreases n,
{
    if n == 0 {
        0
    } else {
        2 * flags_binary(a, (n - 1) as nat) + if a[n - 1] { 1nat } else { 0nat }
    }
}

/// Every word that `bool_to_usize` can give for `n` flags is one of the
/// `n`-digit binary-decimal numbers that `gen_binary_number(n)` lists: the
/// one at the position whose binary digits are the flags.
pub proof fn lemma_word_is_binary_number(a: Seq<bool>, n: nat)
    ensures
        flags_binary(a, n) < pow2(n),
        bin_dec(flags_binary(a, n), n) == flags_value(a, n),
    decreases n,
{
    if n == 0 {
        vstd::arithmetic::power2::lemma2_to64();
    } else {
        lemma_word_is_binary_number(a, (n - 1) as nat);
        vstd::arithmetic::power2::lemma_pow2_unfold(n);
        let k = flags_binary(a, n);
        let h = flags_binary(a, (n - 1) as nat);
        let bit: nat = if a[n - 1] { 1 } else { 0 };
        assert(k == 2 * h + bit);
        assert(k / 2 == h && k % 2 == bit) by (nonlinear_arith)
            requires k == 2 * h + bit, bit <= 1;
    }
}

/// A node of the edge list is a source node or a destination node, and
/// both are nodes: `get_all_nodes` lists the union of what
/// `get_all_src_nodes` and `get_all_dst_nodes` list.
pub proof fn lemma_all_nodes_union(edges: Seq<Edge>, x: usize)
    ensures
        is_node(edges, x) <==> (is_src_node(edges, x) || is_dst_node(edges, x)),
{
}

/// Every matching that an automaton step produces is an input matching
/// moved along one of the transitions keyed by its `(state, word)`.
pub proof fn lemma_nfa_step_sound(nfa_join: Seq<((usize, usize), (usize, usize))>, ms: Seq<Matching>, r: Matching)
    requires
        nfa_step_spec(nfa_join, ms).contains(r),
    ensures
        exists|i: int, j: int| 0 <= i < ms.len() && 0 <= j < nfa_join.len()
            && nfa_join[j].0 == (ms[i].state, ms[i].word)
            && r == with_state(ms[i], nfa_join[j].1.0),
{
    let f = state_keyed(ms);
    let jn = join_spec(f, nfa_join);
    let x = choose|x: int| 0 <= x < nfa_step_spec(nfa_join, ms).len() && nfa_step_spec(nfa_join, ms)[x] == r;
    let t = jn[x];
    assert(jn.contains(t));
    lemma_join_membership(f, nfa_join, t.0, t.1, t.2);
    let i = choose|i: int| 0 <= i < f.len() && f[i] == (t.1, t.0);
    let j = choose|j: int| 0 <= j < nfa_join.len() && nfa_join[j] == (t.1, t.2);
    assert(ms[i] == t.0);
    assert(r == with_state(ms[i], nfa_join[j].1.0));
}

/// A matching covers the time interval from `first` to `last`.
pub open spec fn well_timed(m: Matching) -> bool {
    m.first <= m.last
}

/// Every matching of `s` is well timed.
pub open spec fn all_well_timed(s: Seq<Matching>) -> bool {
    forall|i: int| 0 <= i < s.len() ==> well_timed(#[trigger] s[i])
}

/// Every entry of a numbered list of three-edge matchings is the matching
/// of some joined entry.
proof fn lemma_numbered_triples_from(s: Seq<(Half2, usize, Edge)>, c: bool, i: int)
    requires
        0 <= i < numbered_triples(s, c).len(),
    ensures
        exists|j: int| 0 <= j < s.len() && numbered_triples(s, c)[i] == triple_matching(j + 1, #[trigger] s[j]),
    decreases s.len(),
{
    let r = numbered_triples(s.drop_last(), c);
    if i < r.len() {
        lemma_numbered_triples_from(s.drop_last(), c, i);
        let j = choose|j: int| 0 <= j < s.drop_last().len() && r[i] == triple_matching(j + 1, #[trigger] s.drop_last()[j]);
        assert(s[j] == s.drop_last()[j]);
    } else {
        assert(numbered_triples(s, c)[i] == triple_matching(s.len() as int, s[s.len() - 1]));
    }
}

/// Partial matches of joined pairs have their earliest time first.
proof fn lemma_halves_ordered(h: Seq<(usize, Half2)>, k: usize, x: Half2)
    requires
        h.contains((k, x)),
        forall|i: int| 0 <= i < h.len() ==> (#[trigger] h[i]).1.2 <= h[i].1.3,
    ensures
        x.2 <= x.3,
{
    let i = choose|i: int| 0 <= i < h.len() && h[i] == (k, x);
}

/// The three-edge matchings over partial matches with ordered times are well timed.
proof fn lemma_triples_well_timed(h: Seq<(usize, Half2)>, keyed: Seq<(usize, Edge)>, c: bool)
    requires
        forall|i: int| 0 <= i < h.len() ==> (#[trigger] h[i]).1.2 <= h[i].1.3,
    ensures
        all_well_timed(numbered_triples(join_spec(h, keyed), c)),
{
    let jn = join_spec(h, keyed);
    let r = numbered_triples(jn, c);
    assert forall|i: int| 0 <= i < r.len() implies well_timed(#[trigger] r[i]) by {
        lemma_numbered_triples_from(jn, c, i);
        let j = choose|j: int| 0 <= j < jn.len() && r[i] == triple_matching(j + 1, #[trigger] jn[j]);
        assert(jn.contains(jn[j]));
        lemma_join_membership(h, keyed, jn[j].0, jn[j].1, jn[j].2);
        lemma_halves_ordered(h, jn[j].1, jn[j].0);
    }
}

/// Every matching of every pattern starts no later than it ends.
pub proof fn lemma_match_gen_well_timed(edges: Seq<Edge>, p: Seq<char>)
    ensures
        all_well_timed(match_gen_spec(edges, p)),
{
    let ss = join_spec(src_keyed(edges), src_keyed(edges));
    let dd = join_spec(dst_keyed(edges), dst_keyed(edges));
    let hs = halves_spec(ss, PairRule::Ordered, false);
    let hd = halves_spec(dd, PairRule::Ordered, false);
    let hp = path_halves(edges);
    lemma_triples_well_timed(hs, src_keyed(edges), true);
    lemma_triples_well_timed(hd, dst_keyed(edges), true);
    lemma_triples_well_timed(hp, src_keyed(edges), false);
    let b = join_spec(hp, src_keyed(edges)).map_values(|t: (Half2, usize, Edge)| extend_entry(t));
    assert forall|i: int| 0 <= i < b.len() implies (#[trigger] b[i]).1.2 <= b[i].1.3 by {
        let jn = join_spec(hp, src_keyed(edges));
        assert(jn.contains(jn[i]));
        lemma_join_membership(hp, src_keyed(edges), jn[i].0, jn[i].1, jn[i].2);
        lemma_halves_ordered(hp, jn[i].1, jn[i].0);
    }
    let j4 = join_spec(b, src_keyed(edges));
    let q = path_four_spec(edges);
    assert forall|i: int| 0 <= i < q.len() implies well_timed(#[trigger] q[i]) by {
        assert(j4.contains(j4[i]));
        lemma_join_membership(b, src_keyed(edges), j4[i].0, j4[i].1, j4[i].2);
        let x = choose|x: int| 0 <= x < b.len() && b[x] == (j4[i].1, j4[i].0);
    }
}

/// After de-duplication no two records share an `(eid, time)`.
pub proof fn lemma_dedup_actives_unique(s: Seq<Active>)
    ensures
        dedup_actives(s).no_duplicates(),
        forall|a: Active| dedup_actives(s).contains(a) <==> s.contains(a),
    decreases s.len(),
{
    if s.len() > 0 {
        lemma_dedup_actives_unique(s.drop_last());
        let p = dedup_actives(s.drop_last());
        assert forall|a: Active| dedup_actives(s).contains(a) <==> s.contains(a) by {
            if s.contains(a) {
                let i = choose|i: int| 0 <= i < s.len() && s[i] == a;
                if i < s.len() - 1 {
                    assert(s.drop_last()[i] == a);
                }
                if !p.contains(s.last()) {
                    assert(p.push(s.last())[p.len() as int] == s.last());
                }
            }
            if s.drop_last().contains(a) {
                let i = choose|i: int| 0 <= i < s.drop_last().len() && s.drop_last()[i] == a;
                assert(s[i] == a);
            }
            if !p.contains(s.last()) && p.push(s.last()).contains(a) {
                let i = choose|i: int| 0 <= i < p.len() + 1 && p.push(s.last())[i] == a;
                if i < p.len() {
                    assert(p[i] == a);
                }
            }
            if p.contains(a) && !p.contains(s.last()) {
                let i = choose|i: int| 0 <= i < p.len() && p[i] == a;
                assert(p.push(s.last())[i] == a);
            }
        }
    }
}

/// After de-duplication no two edges share an `(eid, first)`.
pub proof fn lemma_dedup_edges_unique(s: Seq<Edge>)
    ensures
        forall|i: int, j: int| 0 <= i < j < dedup_edges(s).len() ==> edge_key(dedup_edges(s)[i]) != edge_key(dedup_edges(s)[j]),
    decreases s.len(),
{
    if s.len() > 0 {
        lemma_dedup_edges_unique(s.drop_last());
        let p = dedup_edges(s.drop_last());
        let km = p.map_values(|e: Edge| edge_key(e));
        if !km.contains(edge_key(s.last())) {
            let d = p.push(s.last());
            assert forall|i: int, j: int| 0 <= i < j < d.len() implies edge_key(d[i]) != edge_key(d[j]) by {
                if j == p.len() {
                    assert(km[i] == edge_key(p[i]));
                }
            }
        }
    }
}

/// A matching as the generators make it: at state 0, reading word 0, with
/// every clock 0.
pub open spec fn is_fresh(m: Matching) -> bool {
    m.state == 0 && m.word == 0 && m.clocks == [0usize, 0, 0, 0, 0]
}

/// Every matching of `s` is as the generators make it.
pub open spec fn all_fresh(s: Seq<Matching>) -> bool {
    forall|i: int| 0 <= i < s.len() ==> is_fresh(#[trigger] s[i])
}

proof fn lemma_numbered_triples_fresh(s: Seq<(Half2, usize, Edge)>, check: bool)
    ensures
        all_fresh(numbered_triples(s, check)),
    decreases s.len(),
{
    if s.len() > 0 {
        lemma_numbered_triples_fresh(s.drop_last(), check);
    }
}

/// Every matching that a pattern generator makes is at state 0, reads
/// word 0 and has every clock 0.
pub proof fn lemma_match_gen_fresh(edges: Seq<Edge>, p: Seq<char>)
    ensures
        all_fresh(match_gen_spec(edges, p)),
{
    let ss = join_spec(src_keyed(edges), src_keyed(edges));
    let dd = join_spec(dst_keyed(edges), dst_keyed(edges));
    lemma_numbered_triples_fresh(join_spec(halves_spec(ss, PairRule::Ordered, false), src_keyed(edges)), true);
    lemma_numbered_triples_fresh(join_spec(halves_spec(dd, PairRule::Ordered, false), dst_keyed(edges)), true);
    lemma_numbered_triples_fresh(join_spec(path_halves(edges), src_keyed(edges)), false);
}

/// Every matching after a timed step comes from a matching before it and a
/// transition keyed by that matching's `(state, word)` whose clock condition
/// holds: it keeps the matching's id, edges, times, size and word, is at the
/// transition's next state, and has the transition's clock (if any) set to
/// the current time and every other clock as it was.
pub proof fn lemma_tnfa_step_sound(current_time: usize, nfa_join: Seq<((usize, usize), TNFA)>, ms: Seq<Matching>, r: Matching)
    requires
        tnfa_step_defined(current_time, nfa_join, ms),
        tnfa_step_spec(current_time, nfa_join, ms).contains(r),
    ensures
        exists|i: int, j: int| {
            &&& 0 <= i < ms.len() && 0 <= j < nfa_join.len()
            &&& nfa_join[j].0 == (ms[i].state, ms[i].word)
            &&& fires(current_time, ms[i].clocks, nfa_join[j].1)
            &&& r.mid == ms[i].mid && r.eid == ms[i].eid && r.first == ms[i].first && r.last == ms[i].last
            &&& r.match_size == ms[i].match_size && r.word == ms[i].word
            &&& r.state == nfa_join[j].1.nfa.next_state
            &&& forall|k: int| 0 <= k < 5 ==> #[trigger] r.clocks[k] == if (nfa_join[j].1.clock_set as i8) > 0
                && k == (nfa_join[j].1.clock_set as i8) - 1 { current_time } else { ms[i].clocks[k] }
        },
{
    let f = state_keyed(ms);
    let jn = join_spec(f, nfa_join);
    let p = |u: (Matching, (usize, usize), TNFA)| fires(current_time, u.0.clocks, u.2);
    let g = |u: (Matching, (usize, usize), TNFA)| after_step(current_time, u.0, u.2);
    let kept = jn.filter(p);
    assert(tnfa_step_spec(current_time, nfa_join, ms) == kept.map_values(g));
    let x = choose|x: int| 0 <= x < kept.len() && kept.map_values(g)[x] == r;
    let u = kept[x];
    assert(kept.contains(u));
    jn.lemma_filter_contains_rev(p, u);
    jn.lemma_filter_pred(p, x);
    let y = choose|y: int| 0 <= y < jn.len() && jn[y] == u;
    assert(step_defined(current_time, jn[y].0.clocks, jn[y].2));
    assert(jn.contains(u));
    lemma_join_membership(f, nfa_join, u.0, u.1, u.2);
    let i = choose|i: int| 0 <= i < f.len() && f[i] == (u.1, u.0);
    let j = choose|j: int| 0 <= j < nfa_join.len() && nfa_join[j] == (u.1, u.2);
    assert(ms[i] == u.0);
    assert(r == after_step(current_time, u.0, u.2));
    let rs = u.2.clock_set as i8;
    if rs > 0 {
        assert(u.0.clocks@.update(rs - 1, current_time).len() == 5);
    }
    assert forall|k: int| 0 <= k < 5 implies #[trigger] r.clocks[k] == if (nfa_join[j].1.clock_set as i8) > 0
        && k == (nfa_join[j].1.clock_set as i8) - 1 { current_time } else { ms[i].clocks[k] } by {
    }
}

} // verus!
