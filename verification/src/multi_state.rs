//! Evaluating an untimed automaton over the activity stream with every
//! matching following a list of states at once: at the end of each time
//! point each state moves along every transition for the matching's word,
//! repeats of a state next to each other are dropped, and matchings left
//! with no state drop out.
use std::collections::BTreeMap;
use vstd::prelude::*;
use crate::active::Active;
use crate::edge::{lemma_pair_keys_ordered, pair_keys_ordered};
use crate::input::next_states;
use crate::matching::Matching;
use crate::nfa::{membership, word_of, NFA};
use crate::runs::id_set;
use crate::seqs::{flat, lemma_filter_take_step, lemma_flat_take_step};

verus! {

/// A matching that follows a list of automaton states.
#[derive(Debug)]
pub struct MultiMatching {
    pub mid: usize,
    pub eid: [usize; 5],
    pub first: usize,
    pub last: usize,
    pub match_size: usize,
    pub state: Vec<usize>,
    pub word: usize,
    pub clocks: [usize; 5],
}

/// A matching that follows a list of automaton states, as values.
pub struct MultiMatchingView {
    pub mid: usize,
    pub eid: [usize; 5],
    pub first: usize,
    pub last: usize,
    pub match_size: usize,
    pub state: Seq<usize>,
    pub word: usize,
    pub clocks: [usize; 5],
}

impl View for MultiMatching {
    type V = MultiMatchingView;

    open spec fn view(&self) -> MultiMatchingView {
        MultiMatchingView {
            mid: self.mid,
            eid: self.eid,
            first: self.first,
            last: self.last,
            match_size: self.match_size,
            state: self.state@,
            word: self.word,
            clocks: self.clocks,
        }
    }
}

/// The values of the matchings of `ms`.
pub open spec fn multi_views(ms: Seq<MultiMatching>) -> Seq<MultiMatchingView> {
    ms.map_values(|m: MultiMatching| m@)
}

/// `m` following the single state it is at.
pub open spec fn lift(m: Matching) -> MultiMatchingView {
    MultiMatchingView {
        mid: m.mid,
        eid: m.eid,
        first: m.first,
        last: m.last,
        match_size: m.match_size,
        state: seq![m.state],
        word: m.word,
        clocks: m.clocks,
    }
}

/// `s` without the repeats of an element right after itself.
pub open spec fn dedup_adjacent(s: Seq<usize>) -> Seq<usize>
    decreases s.len(),
{
    if s.len() == 0 {
        Seq::empty()
    } else {
        let p = dedup_adjacent(s.drop_last());
        if s.len() >= 2 && s[s.len() - 2] == s.last() {
            p
        } else {
            p.push(s.last())
        }
    }
}

/// The states that `states` move to on `word`: for each state in order, the
/// next states of its transitions on `word`, in order.
pub open spec fn successors(nfa: Seq<NFA>, states: Seq<usize>, word: usize) -> Seq<usize> {
    flat(states, |n: usize| next_states(nfa, (n, word)))
}

/// The states `m` moves to when the edges `active` are active.
pub open spec fn next_multi_states(nfa: Seq<NFA>, m: MultiMatchingView, active: Seq<usize>, pattern_size: nat) -> Seq<usize> {
    dedup_adjacent(successors(nfa, m.state, word_of(m.eid, active.to_set(), pattern_size) as usize))
}

/// One step of every matching of `ms`: each moves to its next states, and
/// those left with none drop out.
pub open spec fn multi_step(nfa: Seq<NFA>, ms: Seq<MultiMatchingView>, active: Seq<usize>, pattern_size: nat) -> Seq<MultiMatchingView> {
    ms.map_values(|m: MultiMatchingView| MultiMatchingView { state: next_multi_states(nfa, m, active, pattern_size), ..m })
        .filter(|m: MultiMatchingView| m.state.len() > 0)
}

/// The matchings of `matching` that start at time `t`, each following its
/// state.
pub open spec fn multi_starting_at(matching: Seq<Matching>, t: usize) -> Seq<MultiMatchingView> {
    matching.filter(|m: Matching| m.first == t).map_values(|m: Matching| lift(m))
}

/// The state of a run between two events, as values.
pub struct MultiStateSpec {
    pub current_time: usize,
    pub current_active: Seq<usize>,
    pub current_matching: Seq<MultiMatchingView>,
}

/// The state of a run between two events: the time point being collected,
/// the ids of the edges active at it so far, and the matchings being
/// followed.
pub struct MultiStateRun {
    pub current_time: usize,
    pub current_active: Vec<usize>,
    pub current_matching: Vec<MultiMatching>,
}

impl View for MultiStateRun {
    type V = MultiStateSpec;

    open spec fn view(&self) -> MultiStateSpec {
        MultiStateSpec {
            current_time: self.current_time,
            current_active: self.current_active@,
            current_matching: multi_views(self.current_matching@),
        }
    }
}

/// A run before any event: time point 1, nothing active, the matchings that
/// start at 1.
pub open spec fn multi_start(matching: Seq<Matching>) -> MultiStateSpec {
    MultiStateSpec {
        current_time: 1,
        current_active: Seq::empty(),
        current_matching: multi_starting_at(matching, 1),
    }
}

/// The run after the activity record `a`: a record of a later time point
/// first moves every matching one step on the current activity and moves
/// to the new time point, where the matchings that start there join; the
/// record's edge is then active. `None` where a word of more than five
/// edges would be read.
pub open spec fn multi_event(s: MultiStateSpec, a: Active, matching: Seq<Matching>, nfa: Seq<NFA>, pattern_size: usize) -> Option<MultiStateSpec> {
    if s.current_time < a.time {
        if pattern_size > 5 && s.current_matching.len() > 0 {
            None
        } else {
            Some(
                MultiStateSpec {
                    current_time: a.time,
                    current_active: seq![a.eid],
                    current_matching: multi_step(nfa, s.current_matching, s.current_active, pattern_size as nat)
                        + multi_starting_at(matching, a.time),
                },
            )
        }
    } else {
        Some(MultiStateSpec { current_active: s.current_active.push(a.eid), ..s })
    }
}

/// The run after the activity records `actives`, in order.
pub open spec fn multi_state_spec(matching: Seq<Matching>, actives: Seq<Active>, nfa: Seq<NFA>, pattern_size: usize) -> Option<MultiStateSpec>
    decreases actives.len(),
{
    if actives.len() == 0 {
        Some(multi_start(matching))
    } else {
        match multi_state_spec(matching, actives.drop_last(), nfa, pattern_size) {
            Some(s) => multi_event(s, actives.last(), matching, nfa, pattern_size),
            None => None,
        }
    }
}

/// `s` without the repeats of an element right after itself.
fn dedup_states(s: &Vec<usize>) -> (r: Vec<usize>)
    ensures
        r@ == dedup_adjacent(s@),
{
    let mut r: Vec<usize> = Vec::new();
    let mut i: usize = 0;
    while i < s.len()
        invariant
            i <= s@.len(),
            r@ == dedup_adjacent(s@.take(i as int)),
            i > 0 ==> r@.len() > 0 && r@.last() == s@[i - 1],
            i == 0 ==> r@.len() == 0,
        decreases s@.len() - i,
    {
        let x = s[i];
        let ghost t = s@.take(i + 1);
        assert(t.drop_last() =~= s@.take(i as int));
        if i > 0 && s[i - 1] == x {
            assert(t[t.len() - 2] == t.last());
        } else {
            r.push(x);
        }
        proof {
            reveal_with_fuel(dedup_adjacent, 1);
        }
        i = i + 1;
    }
    assert(s@.take(s@.len() as int) =~= s@);
    r
}

/// The matchings of `matching` that start at time `t`, each following its
/// state.
fn multi_matchings_starting_at(matching: &Vec<Matching>, t: usize) -> (r: Vec<MultiMatching>)
    ensures
        multi_views(r@) == multi_starting_at(matching@, t),
{
    let ghost p = |m: Matching| m.first == t;
    let ghost f = |m: Matching| lift(m);
    let mut r: Vec<MultiMatching> = Vec::new();
    let mut i: usize = 0;
    while i < matching.len()
        invariant
            i <= matching@.len(),
            p == (|m: Matching| m.first == t),
            f == (|m: Matching| lift(m)),
            multi_views(r@) == matching@.take(i as int).filter(p).map_values(f),
        decreases matching@.len() - i,
    {
        proof {
            lemma_filter_take_step(matching@, p, i as int);
        }
        let m = matching[i];
        let ghost old_r = r@;
        let ghost prev = matching@.take(i as int).filter(p);
        if m.first == t {
            let state = vec![m.state];
            assert(state@ =~= seq![m.state]);
            let mm = MultiMatching {
                mid: m.mid,
                eid: m.eid,
                first: m.first,
                last: m.last,
                match_size: m.match_size,
                state,
                word: m.word,
                clocks: m.clocks,
            };
            assert(mm@ == lift(m));
            r.push(mm);
            assert(multi_views(r@) =~= multi_views(old_r).push(lift(m)));
            assert(prev.push(m).map_values(f) =~= prev.map_values(f).push(f(m)));
        }
        assert(multi_views(r@) =~= matching@.take(i + 1).filter(p).map_values(f));
        i = i + 1;
    }
    assert(matching@.take(matching@.len() as int) =~= matching@);
    r
}

/// The states that `states` move to on `word`, looked up in the grouped
/// transitions `dic` of `nfa`.
fn successors_exec(dic: &BTreeMap<(usize, usize), Vec<usize>>, Ghost(nfa): Ghost<Seq<NFA>>, states: &Vec<usize>, word: usize) -> (r: Vec<usize>)
    requires
        pair_keys_ordered(),
        forall|k: (usize, usize)| #[trigger] dic@.contains_key(k) <==> next_states(nfa, k).len() > 0,
        forall|k: (usize, usize)| #[trigger] dic@.contains_key(k) ==> dic@[k]@ == next_states(nfa, k),
    ensures
        r@ == successors(nfa, states@, word),
{
    let ghost g = |n: usize| next_states(nfa, (n, word));
    let mut r: Vec<usize> = Vec::new();
    let mut i: usize = 0;
    while i < states.len()
        invariant
            i <= states@.len(),
            pair_keys_ordered(),
            forall|k: (usize, usize)| #[trigger] dic@.contains_key(k) <==> next_states(nfa, k).len() > 0,
            forall|k: (usize, usize)| #[trigger] dic@.contains_key(k) ==> dic@[k]@ == next_states(nfa, k),
            g == (|n: usize| next_states(nfa, (n, word))),
            r@ == flat(states@.take(i as int), g),
        decreases states@.len() - i,
    {
        proof {
            lemma_flat_take_step(states@, g, i as int);
        }
        let key = (states[i], word);
        let ghost before = r@;
        match dic.get(&key) {
            Some(next) => {
                let mut j: usize = 0;
                while j < next.len()
                    invariant
                        j <= next@.len(),
                        r@ == before + next@.take(j as int),
                    decreases next@.len() - j,
                {
                    r.push(next[j]);
                    assert(r@ =~= before + next@.take(j + 1));
                    j = j + 1;
                }
                assert(next@.take(next@.len() as int) =~= next@);
            },
            None => {
                assert(next_states(nfa, key) =~= Seq::empty());
                assert(r@ =~= before + g(states@[i as int]));
            },
        }
        i = i + 1;
    }
    assert(states@.take(states@.len() as int) =~= states@);
    r
}

impl MultiStateRun {
    /// A run before any event (see `multi_start`).
    pub fn start(matching: &Vec<Matching>) -> (s: Self)
        ensures
            s@ == multi_start(matching@),
    {
        MultiStateRun {
            current_time: 1,
            current_active: Vec::new(),
            current_matching: multi_matchings_starting_at(matching, 1),
        }
    }

    /// Moves every matching one step on the current activity; those left
    /// with no state drop out.
    fn step(
        matchings: Vec<MultiMatching>,
        active: &Vec<usize>,
        dic: &BTreeMap<(usize, usize), Vec<usize>>,
        Ghost(nfa): Ghost<Seq<NFA>>,
        pattern_size: usize,
    ) -> (r: Vec<MultiMatching>)
        requires
            pattern_size <= 5,
            pair_keys_ordered(),
            forall|k: (usize, usize)| #[trigger] dic@.contains_key(k) <==> next_states(nfa, k).len() > 0,
            forall|k: (usize, usize)| #[trigger] dic@.contains_key(k) ==> dic@[k]@ == next_states(nfa, k),
        ensures
            multi_views(r@) == multi_step(nfa, multi_views(matchings@), active@, pattern_size as nat),
    {
        let active_pair = id_set(active);
        let ghost ms = multi_views(matchings@);
        let ghost f = |m: MultiMatchingView| MultiMatchingView { state: next_multi_states(nfa, m, active@, pattern_size as nat), ..m };
        let ghost p = |m: MultiMatchingView| m.state.len() > 0;
        let mut r: Vec<MultiMatching> = Vec::new();
        let mut i: usize = 0;
        while i < matchings.len()
            invariant
                i <= matchings@.len(),
                pattern_size <= 5,
                pair_keys_ordered(),
                forall|k: (usize, usize)| #[trigger] dic@.contains_key(k) <==> next_states(nfa, k).len() > 0,
                forall|k: (usize, usize)| #[trigger] dic@.contains_key(k) ==> dic@[k]@ == next_states(nfa, k),
                active_pair@ == active@.to_set(),
                ms == multi_views(matchings@),
                f == (|m: MultiMatchingView| MultiMatchingView { state: next_multi_states(nfa, m, active@, pattern_size as nat), ..m }),
                p == (|m: MultiMatchingView| m.state.len() > 0),
                multi_views(r@) == ms.map_values(f).take(i as int).filter(p),
            decreases matchings@.len() - i,
        {
            proof {
                lemma_filter_take_step(ms.map_values(f), p, i as int);
            }
            let m = &matchings[i];
            let eid = m.eid;
            let flags = [
                active_pair.contains(&eid[0]),
                active_pair.contains(&eid[1]),
                active_pair.contains(&eid[2]),
                active_pair.contains(&eid[3]),
                active_pair.contains(&eid[4]),
            ];
            assert(flags@ =~= membership(eid, active@.to_set()));
            let word = NFA::bool_to_usize(flags, pattern_size);
            let next = successors_exec(dic, Ghost(nfa), &m.state, word);
            let state = dedup_states(&next);
            assert(state@ == next_multi_states(nfa, ms[i as int], active@, pattern_size as nat));
            if state.len() > 0 {
                r.push(MultiMatching {
                    mid: m.mid,
                    eid: m.eid,
                    first: m.first,
                    last: m.last,
                    match_size: m.match_size,
                    state,
                    word: m.word,
                    clocks: m.clocks,
                });
            }
            assert(multi_views(r@) =~= ms.map_values(f).take(i + 1).filter(p));
            i = i + 1;
        }
        assert(ms.map_values(f).take(matchings@.len() as int) =~= ms.map_values(f));
        r
    }

    /// The run after the activity record `a` (see `multi_event`); `None`
    /// where a word of more than five edges would be read.
    pub fn event(
        self,
        a: Active,
        matching: &Vec<Matching>,
        dic: &BTreeMap<(usize, usize), Vec<usize>>,
        Ghost(nfa): Ghost<Seq<NFA>>,
        pattern_size: usize,
    ) -> (r: Option<Self>)
        requires
            pair_keys_ordered(),
            forall|k: (usize, usize)| #[trigger] dic@.contains_key(k) <==> next_states(nfa, k).len() > 0,
            forall|k: (usize, usize)| #[trigger] dic@.contains_key(k) ==> dic@[k]@ == next_states(nfa, k),
        ensures
            match r {
                Some(s) => multi_event(self@, a, matching@, nfa, pattern_size) == Some(s@),
                None => multi_event(self@, a, matching@, nfa, pattern_size) is None,
            },
    {
        if self.current_time < a.time {
            if pattern_size > 5 && self.current_matching.len() > 0 {
                return None;
            }
            let mut current_matching = if self.current_matching.len() == 0 {
                assert(multi_step(nfa, multi_views(self.current_matching@), self.current_active@, pattern_size as nat) =~= Seq::empty());
                Vec::new()
            } else {
                MultiStateRun::step(self.current_matching, &self.current_active, dic, Ghost(nfa), pattern_size)
            };
            let mut joining = multi_matchings_starting_at(matching, a.time);
            let ghost kept = multi_views(current_matching@);
            let ghost new = multi_views(joining@);
            let ghost kv = current_matching@;
            let ghost nv = joining@;
            current_matching.append(&mut joining);
            assert(current_matching@ =~= kv + nv);
            assert(multi_views(current_matching@) =~= kept + new);
            let current_active = vec![a.eid];
            assert(current_active@ =~= seq![a.eid]);
            Some(MultiStateRun { current_time: a.time, current_active, current_matching })
        } else {
            let mut current_active = self.current_active;
            current_active.push(a.eid);
            Some(MultiStateRun { current_time: self.current_time, current_active, current_matching: self.current_matching })
        }
    }
}

/// Runs the automaton `nfa` over the activity records `actives` for the
/// candidate matchings `matching`, every matching following a list of
/// states (see `multi_state_spec`); `None` where a word of more than five
/// edges would be read.
pub fn multi_state_run(matching: &Vec<Matching>, actives: &Vec<Active>, nfa: &Vec<NFA>, pattern_size: usize) -> (r: Option<MultiStateRun>)
    ensures
        match r {
            Some(s) => multi_state_spec(matching@, actives@, nfa@, pattern_size) == Some(s@),
            None => multi_state_spec(matching@, actives@, nfa@, pattern_size) is None,
        },
{
    let dic = NFA::to_dic(nfa);
    proof {
        lemma_pair_keys_ordered();
    }
    let mut s = MultiStateRun::start(matching);
    let mut i: usize = 0;
    while i < actives.len()
        invariant
            i <= actives@.len(),
            pair_keys_ordered(),
            forall|k: (usize, usize)| #[trigger] dic@.contains_key(k) <==> next_states(nfa@, k).len() > 0,
            forall|k: (usize, usize)| #[trigger] dic@.contains_key(k) ==> dic@[k]@ == next_states(nfa@, k),
            multi_state_spec(matching@, actives@.take(i as int), nfa@, pattern_size) == Some(s@),
        decreases actives@.len() - i,
    {
        proof {
            assert(actives@.take(i + 1).drop_last() =~= actives@.take(i as int));
        }
        s = match s.event(actives[i], matching, &dic, Ghost(nfa@), pattern_size) {
            Some(next) => next,
            None => {
                proof {
                    lemma_multi_stuck(matching@, actives@, nfa@, pattern_size, i as int + 1);
                }
                return None;
            },
        };
        i = i + 1;
    }
    assert(actives@.take(actives@.len() as int) =~= actives@);
    Some(s)
}

/// A run that fails at some record stays failed.
proof fn lemma_multi_stuck(matching: Seq<Matching>, actives: Seq<Active>, nfa: Seq<NFA>, pattern_size: usize, k: int)
    requires
        0 <= k <= actives.len(),
        multi_state_spec(matching, actives.take(k), nfa, pattern_size) is None,
    ensures
        multi_state_spec(matching, actives, nfa, pattern_size) is None,
    decreases actives.len() - k,
{
    if k == actives.len() {
        assert(actives.take(k) =~= actives);
    } else {
        assert(actives.take(k + 1).drop_last() =~= actives.take(k));
        lemma_multi_stuck(matching, actives, nfa, pattern_size, k + 1);
    }
}

/// Every matching of `ms` follows at least one state.
pub open spec fn all_have_states(ms: Seq<MultiMatchingView>) -> bool {
    forall|i: int| 0 <= i < ms.len() ==> (#[trigger] ms[i]).state.len() > 0
}

/// Along a multi-state run every matching followed has at least one state:
/// the new ones follow their single state, and a step drops the matchings
/// it leaves with none.
pub proof fn lemma_multi_state_nonempty(matching: Seq<Matching>, actives: Seq<Active>, nfa: Seq<NFA>, pattern_size: usize)
    ensures
        match multi_state_spec(matching, actives, nfa, pattern_size) {
            Some(s) => all_have_states(s.current_matching),
            None => true,
        },
    decreases actives.len(),
{
    if actives.len() == 0 {
        assert(all_have_states(multi_starting_at(matching, 1)));
    } else {
        lemma_multi_state_nonempty(matching, actives.drop_last(), nfa, pattern_size);
        match multi_state_spec(matching, actives.drop_last(), nfa, pattern_size) {
            Some(s) => {
                let a = actives.last();
                if s.current_time < a.time && !(pattern_size > 5 && s.current_matching.len() > 0) {
                    let f = |m: MultiMatchingView| MultiMatchingView {
                        state: next_multi_states(nfa, m, s.current_active, pattern_size as nat),
                        ..m
                    };
                    let p = |m: MultiMatchingView| m.state.len() > 0;
                    let stepped = multi_step(nfa, s.current_matching, s.current_active, pattern_size as nat);
                    let joining = multi_starting_at(matching, a.time);
                    assert forall|i: int| 0 <= i < stepped.len() implies (#[trigger] stepped[i]).state.len() > 0 by {
                        s.current_matching.map_values(f).lemma_filter_pred(p, i);
                    }
                    let r = stepped + joining;
                    assert forall|i: int| 0 <= i < r.len() implies (#[trigger] r[i]).state.len() > 0 by {
                        if i < stepped.len() {
                            assert(r[i] == stepped[i]);
                        } else {
                            assert(r[i] == joining[i - stepped.len()]);
                        }
                    }
                }
            },
            None => {},
        }
    }
}

/// `ms` holds the matching `m` following its single state `m.state`, with
/// every other field as `m` has it.
pub open spec fn follows_fresh(ms: Seq<MultiMatchingView>, m: Matching) -> bool {
    exists|j: int|
        0 <= j < ms.len() && ms[j].mid == m.mid && ms[j].eid == m.eid && ms[j].first == m.first
            && ms[j].last == m.last && ms[j].match_size == m.match_size && ms[j].state == seq![m.state]
            && ms[j].word == m.word && ms[j].clocks == m.clocks
}

/// The candidates that start at `t` follow their single state among those
/// that join at `t`.
proof fn lemma_joining_followed(matching: Seq<Matching>, t: usize, i: int)
    requires
        0 <= i < matching.len(),
        matching[i].first == t,
    ensures
        follows_fresh(multi_starting_at(matching, t), matching[i]),
{
    broadcast use vstd::seq_lib::group_filter_ensures;

    let p = |m: Matching| m.first == t;
    let fl = matching.filter(p);
    matching.lemma_filter_contains(p, i);
    let j = choose|j: int| 0 <= j < fl.len() && fl[j] == matching[i];
    let ms = multi_starting_at(matching, t);
    assert(ms[j] == lift(fl[j]));
}

/// Once a multi-state run has reached a time point, every candidate
/// matching that starts at that time point is among the matchings it
/// follows, following the single state it was given.
pub proof fn lemma_multi_state_follows_new_matchings(matching: Seq<Matching>, actives: Seq<Active>, nfa: Seq<NFA>, pattern_size: usize)
    ensures
        match multi_state_spec(matching, actives, nfa, pattern_size) {
            Some(s) => forall|i: int| 0 <= i < matching.len() && (#[trigger] matching[i]).first == s.current_time
                ==> follows_fresh(s.current_matching, matching[i]),
            None => true,
        },
    decreases actives.len(),
{
    if actives.len() == 0 {
        assert forall|i: int| 0 <= i < matching.len() && (#[trigger] matching[i]).first == 1
            implies follows_fresh(multi_starting_at(matching, 1), matching[i]) by {
            lemma_joining_followed(matching, 1, i);
        }
    } else {
        lemma_multi_state_follows_new_matchings(matching, actives.drop_last(), nfa, pattern_size);
        match multi_state_spec(matching, actives.drop_last(), nfa, pattern_size) {
            Some(s) => {
                let a = actives.last();
                if s.current_time < a.time && !(pattern_size > 5 && s.current_matching.len() > 0) {
                    let stepped = multi_step(nfa, s.current_matching, s.current_active, pattern_size as nat);
                    let joining = multi_starting_at(matching, a.time);
                    assert forall|i: int| 0 <= i < matching.len() && (#[trigger] matching[i]).first == a.time
                        implies follows_fresh(stepped + joining, matching[i]) by {
                        lemma_joining_followed(matching, a.time, i);
                        let j = choose|j: int|
                            0 <= j < joining.len() && joining[j].mid == matching[i].mid && joining[j].eid == matching[i].eid
                                && joining[j].first == matching[i].first && joining[j].last == matching[i].last
                                && joining[j].match_size == matching[i].match_size && joining[j].state == seq![matching[i].state]
                                && joining[j].word == matching[i].word && joining[j].clocks == matching[i].clocks;
                        assert((stepped + joining)[stepped.len() + j] == joining[j]);
                    }
                }
            },
            None => {},
        }
    }
}

} // verus!
