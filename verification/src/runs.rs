//! Evaluating a timed automaton over the activity stream, time point by time
//! point: the matchings that start at a time point join the run there, and at
//! the end of each time point every matching reads the word of its active
//! edges and takes one timed step.
use std::collections::HashSet;
use vstd::prelude::*;
use crate::active::Active;
use crate::matching::Matching;
use crate::nfa::{word_of, NFA};
use crate::seqs::lemma_filter_take_step;
use crate::tnfa::{after_step, fires, reset_index, step_defined, tnfa_step_defined, tnfa_step_spec, TNFA};
use crate::nfa::state_keyed;
use crate::join::join_spec;
use crate::laws::lemma_join_membership;

verus! {

broadcast use vstd::std_specs::hash::group_hash_axioms;

/// The state of a run between two events, as values.
pub struct BaselineSpec {
    pub current_time: usize,
    pub current_active: Seq<usize>,
    pub current_matching: Seq<Matching>,
    pub accepted: usize,
}

/// The state of a run between two events: the time point being collected,
/// the ids of the edges active at it so far, the matchings being followed,
/// and how many accepting matchings the steps so far have reached.
pub struct BaselineClock {
    pub current_time: usize,
    pub current_active: Vec<usize>,
    pub current_matching: Vec<Matching>,
    pub accepted: usize,
}

impl View for BaselineClock {
    type V = BaselineSpec;

    open spec fn view(&self) -> BaselineSpec {
        BaselineSpec {
            current_time: self.current_time,
            current_active: self.current_active@,
            current_matching: self.current_matching@,
            accepted: self.accepted,
        }
    }
}

/// `ms`, each matching with the word its edges read when the edges of
/// `active` are active.
pub open spec fn with_words(ms: Seq<Matching>, active: Seq<usize>, pattern_size: nat) -> Seq<Matching> {
    ms.map_values(|m: Matching| Matching { word: word_of(m.eid, active.to_set(), pattern_size) as usize, ..m })
}

/// The matchings of `ms` at the accepting state 2.
pub open spec fn accepting(ms: Seq<Matching>) -> Seq<Matching> {
    ms.filter(|m: Matching| m.state == 2)
}

/// The matchings of `matching` that start at time `t`.
pub open spec fn starting_at(matching: Seq<Matching>, t: usize) -> Seq<Matching> {
    matching.filter(|m: Matching| m.first == t)
}

/// A run before any event: time point 1, nothing active, the matchings that
/// start at 1, nothing accepted.
pub open spec fn baseline_start(matching: Seq<Matching>) -> BaselineSpec {
    BaselineSpec {
        current_time: 1,
        current_active: Seq::empty(),
        current_matching: starting_at(matching, 1),
        accepted: 0,
    }
}

/// One timed step at time `t` of the matchings `ms`, each reading the word of
/// its edges when the edges `active` are active. `None` where it cannot be
/// taken: a word of more than five edges, or a step that cannot be
/// evaluated.
pub open spec fn timed_step(
    t: usize,
    active: Seq<usize>,
    ms: Seq<Matching>,
    nfa_join: Seq<((usize, usize), TNFA)>,
    pattern_size: usize,
) -> Option<Seq<Matching>> {
    let w = with_words(ms, active, pattern_size as nat);
    if pattern_size > 5 && ms.len() > 0 {
        None
    } else if !tnfa_step_defined(t, nfa_join, w) {
        None
    } else {
        Some(tnfa_step_spec(t, nfa_join, w))
    }
}

/// The end of the time point of `s`: every matching takes its timed step
/// and the accepting matchings are counted. `None` where the step cannot be
/// taken or the count goes beyond `usize`.
pub open spec fn baseline_flush(
    s: BaselineSpec,
    nfa_join: Seq<((usize, usize), TNFA)>,
    pattern_size: usize,
) -> Option<BaselineSpec> {
    match timed_step(s.current_time, s.current_active, s.current_matching, nfa_join, pattern_size) {
        Some(next) => {
            let acc = s.accepted + accepting(next).len();
            if acc > usize::MAX {
                None
            } else {
                Some(BaselineSpec { current_matching: next, accepted: acc as usize, ..s })
            }
        },
        None => None,
    }
}

/// The run after the activity record `a`: a record of a later time point
/// first ends the current one and moves to the new time point, where the
/// matchings that start there join; the record's edge is then active.
pub open spec fn baseline_event(
    s: BaselineSpec,
    a: Active,
    matching: Seq<Matching>,
    nfa_join: Seq<((usize, usize), TNFA)>,
    pattern_size: usize,
) -> Option<BaselineSpec> {
    if s.current_time < a.time {
        match baseline_flush(s, nfa_join, pattern_size) {
            Some(f) => Some(
                BaselineSpec {
                    current_time: a.time,
                    current_active: seq![a.eid],
                    current_matching: f.current_matching + starting_at(matching, a.time),
                    accepted: f.accepted,
                },
            ),
            None => None,
        }
    } else {
        Some(BaselineSpec { current_active: s.current_active.push(a.eid), ..s })
    }
}

/// The run after the activity records `actives`, in order.
pub open spec fn baseline_events(
    matching: Seq<Matching>,
    actives: Seq<Active>,
    nfa_join: Seq<((usize, usize), TNFA)>,
    pattern_size: usize,
) -> Option<BaselineSpec>
    decreases actives.len(),
{
    if actives.len() == 0 {
        Some(baseline_start(matching))
    } else {
        match baseline_events(matching, actives.drop_last(), nfa_join, pattern_size) {
            Some(s) => baseline_event(s, actives.last(), matching, nfa_join, pattern_size),
            None => None,
        }
    }
}

/// The whole run: every activity record, then the end of the last time point.
pub open spec fn baseline_spec(
    matching: Seq<Matching>,
    actives: Seq<Active>,
    nfa_join: Seq<((usize, usize), TNFA)>,
    pattern_size: usize,
) -> Option<BaselineSpec> {
    match baseline_events(matching, actives, nfa_join, pattern_size) {
        Some(s) => baseline_flush(s, nfa_join, pattern_size),
        None => None,
    }
}

/// The timed transitions keyed by the `(state, word)` they leave from.
pub open spec fn transitions_by_state_spec(nfa: Seq<TNFA>) -> Seq<((usize, usize), TNFA)> {
    nfa.map_values(|t: TNFA| ((t.nfa.current_state, t.nfa.word), t))
}

/// Keys every timed transition by the `(state, word)` it leaves from, in
/// order: the form the steps look transitions up in.
pub fn transitions_by_state(nfa: &Vec<TNFA>) -> (r: Vec<((usize, usize), TNFA)>)
    ensures
        r@ == transitions_by_state_spec(nfa@),
{
    let mut r: Vec<((usize, usize), TNFA)> = Vec::new();
    let mut i: usize = 0;
    while i < nfa.len()
        invariant
            i <= nfa@.len(),
            r@ == transitions_by_state_spec(nfa@.take(i as int)),
        decreases nfa@.len() - i,
    {
        let t = nfa[i];
        r.push(((t.nfa.current_state, t.nfa.word), t));
        assert(r@ =~= transitions_by_state_spec(nfa@.take(i + 1)));
        i = i + 1;
    }
    assert(nfa@.take(nfa@.len() as int) =~= nfa@);
    r
}

/// The matchings of `matching` that start at time `t`, in order.
pub(crate) fn matchings_starting_at(matching: &Vec<Matching>, t: usize) -> (r: Vec<Matching>)
    ensures
        r@ == starting_at(matching@, t),
{
    let ghost p = |m: Matching| m.first == t;
    let mut r: Vec<Matching> = Vec::new();
    let mut i: usize = 0;
    while i < matching.len()
        invariant
            i <= matching@.len(),
            p == (|m: Matching| m.first == t),
            r@ == matching@.take(i as int).filter(p),
        decreases matching@.len() - i,
    {
        proof {
            lemma_filter_take_step(matching@, p, i as int);
        }
        if matching[i].first == t {
            r.push(matching[i]);
        }
        i = i + 1;
    }
    assert(matching@.take(matching@.len() as int) =~= matching@);
    r
}

/// How many matchings of `ms` are at the accepting state 2.
pub(crate) fn count_accepting(ms: &Vec<Matching>) -> (r: usize)
    ensures
        r == accepting(ms@).len(),
{
    let ghost p = |m: Matching| m.state == 2;
    let mut r: usize = 0;
    let mut i: usize = 0;
    while i < ms.len()
        invariant
            i <= ms@.len(),
            p == (|m: Matching| m.state == 2),
            r == ms@.take(i as int).filter(p).len(),
            ms@.take(i as int).filter(p).len() <= i,
        decreases ms@.len() - i,
    {
        proof {
            lemma_filter_take_step(ms@, p, i as int);
        }
        if ms[i].state == 2 {
            r = r + 1;
        }
        i = i + 1;
    }
    assert(ms@.take(ms@.len() as int) =~= ms@);
    r
}

/// The set of the ids in `ids`.
pub(crate) fn id_set(ids: &Vec<usize>) -> (r: HashSet<usize>)
    ensures
        r@ == ids@.to_set(),
{
    let mut r: HashSet<usize> = HashSet::new();
    let mut i: usize = 0;
    while i < ids.len()
        invariant
            i <= ids@.len(),
            r@ == ids@.take(i as int).to_set(),
        decreases ids@.len() - i,
    {
        r.insert(ids[i]);
        proof {
            assert(ids@.take(i + 1) =~= ids@.take(i as int).push(ids@[i as int]));
            ids@.take(i as int).lemma_push_to_set_commute(ids@[i as int]);
        }
        i = i + 1;
    }
    assert(ids@.take(ids@.len() as int) =~= ids@);
    r
}

/// Every matching of `ms` with the word it reads when `active` is active.
fn set_words(ms: &Vec<Matching>, active: &Vec<usize>, pattern_size: usize) -> (r: Vec<Matching>)
    requires
        pattern_size <= 5,
    ensures
        r@ == with_words(ms@, active@, pattern_size as nat),
{
    let active_pair = id_set(active);
    let mut r: Vec<Matching> = Vec::new();
    let mut i: usize = 0;
    while i < ms.len()
        invariant
            i <= ms@.len(),
            pattern_size <= 5,
            active_pair@ == active@.to_set(),
            r@ == with_words(ms@.take(i as int), active@, pattern_size as nat),
        decreases ms@.len() - i,
    {
        let m = ms[i];
        let eid = m.eid;
        let flags = [
            active_pair.contains(&eid[0]),
            active_pair.contains(&eid[1]),
            active_pair.contains(&eid[2]),
            active_pair.contains(&eid[3]),
            active_pair.contains(&eid[4]),
        ];
        assert(flags@ =~= crate::nfa::membership(eid, active@.to_set()));
        let word = NFA::bool_to_usize(flags, pattern_size);
        r.push(Matching { word, ..m });
        assert(r@ =~= with_words(ms@.take(i + 1), active@, pattern_size as nat));
        i = i + 1;
    }
    assert(ms@.take(ms@.len() as int) =~= ms@);
    r
}

/// One timed step (see `timed_step`); `None` where it cannot be taken.
pub(crate) fn take_timed_step(
    t: usize,
    active: &Vec<usize>,
    ms: &Vec<Matching>,
    nfa_join: &Vec<((usize, usize), TNFA)>,
    pattern_size: usize,
) -> (r: Option<Vec<Matching>>)
    ensures
        match r {
            Some(v) => timed_step(t, active@, ms@, nfa_join@, pattern_size) == Some(v@),
            None => timed_step(t, active@, ms@, nfa_join@, pattern_size) is None,
        },
{
    if pattern_size > 5 && ms.len() > 0 {
        return None;
    }
    let words = if ms.len() == 0 {
        assert(with_words(ms@, active@, pattern_size as nat) =~= Seq::empty());
        Vec::new()
    } else {
        set_words(ms, active, pattern_size)
    };
    TNFA::try_apply_nfa(t, nfa_join, &words)
}

impl BaselineClock {
    /// A run before any event (see `baseline_start`).
    pub fn start(matching: &Vec<Matching>) -> (s: Self)
        ensures
            s@ == baseline_start(matching@),
    {
        BaselineClock {
            current_time: 1,
            current_active: Vec::new(),
            current_matching: matchings_starting_at(matching, 1),
            accepted: 0,
        }
    }

    /// Ends the current time point (see `baseline_flush`); `None` where it
    /// cannot be ended.
    pub fn flush(self, nfa_join: &Vec<((usize, usize), TNFA)>, pattern_size: usize) -> (r: Option<Self>)
        ensures
            match r {
                Some(s) => baseline_flush(self@, nfa_join@, pattern_size) == Some(s@),
                None => baseline_flush(self@, nfa_join@, pattern_size) is None,
            },
    {
        let next = match take_timed_step(self.current_time, &self.current_active, &self.current_matching, nfa_join, pattern_size) {
            Some(v) => v,
            None => return None,
        };
        let n = count_accepting(&next);
        let accepted = match self.accepted.checked_add(n) {
            Some(a) => a,
            None => return None,
        };
        Some(BaselineClock {
            current_time: self.current_time,
            current_active: self.current_active,
            current_matching: next,
            accepted,
        })
    }

    /// The run after the activity record `a` (see `baseline_event`); `None`
    /// where the time point it ends cannot be ended.
    pub fn event(
        self,
        a: Active,
        matching: &Vec<Matching>,
        nfa_join: &Vec<((usize, usize), TNFA)>,
        pattern_size: usize,
    ) -> (r: Option<Self>)
        ensures
            match r {
                Some(s) => baseline_event(self@, a, matching@, nfa_join@, pattern_size) == Some(s@),
                None => baseline_event(self@, a, matching@, nfa_join@, pattern_size) is None,
            },
    {
        if self.current_time < a.time {
            let f = match self.flush(nfa_join, pattern_size) {
                Some(f) => f,
                None => return None,
            };
            let mut current_matching = f.current_matching;
            let mut new_matching = matchings_starting_at(matching, a.time);
            let ghost kept = current_matching@;
            let ghost joining = new_matching@;
            current_matching.append(&mut new_matching);
            assert(current_matching@ =~= kept + joining);
            let current_active = vec![a.eid];
            assert(current_active@ =~= seq![a.eid]);
            Some(BaselineClock {
                current_time: a.time,
                current_active,
                current_matching,
                accepted: f.accepted,
            })
        } else {
            let mut current_active = self.current_active;
            current_active.push(a.eid);
            Some(BaselineClock {
                current_time: self.current_time,
                current_active,
                current_matching: self.current_matching,
                accepted: self.accepted,
            })
        }
    }
}

/// Runs the timed automaton `nfa_join` over the activity records `actives`
/// for the candidate matchings `matching` (see `baseline_spec`); `None`
/// where some time point cannot be ended.
pub fn baseline_run(
    matching: &Vec<Matching>,
    actives: &Vec<Active>,
    nfa_join: &Vec<((usize, usize), TNFA)>,
    pattern_size: usize,
) -> (r: Option<BaselineClock>)
    ensures
        match r {
            Some(s) => baseline_spec(matching@, actives@, nfa_join@, pattern_size) == Some(s@),
            None => baseline_spec(matching@, actives@, nfa_join@, pattern_size) is None,
        },
{
    let mut s = BaselineClock::start(matching);
    let mut i: usize = 0;
    while i < actives.len()
        invariant
            i <= actives@.len(),
            baseline_events(matching@, actives@.take(i as int), nfa_join@, pattern_size) == Some(s@),
        decreases actives@.len() - i,
    {
        proof {
            assert(actives@.take(i + 1).drop_last() =~= actives@.take(i as int));
        }
        s = match s.event(actives[i], matching, nfa_join, pattern_size) {
            Some(next) => next,
            None => {
                proof {
                    lemma_events_stuck(matching@, actives@, nfa_join@, pattern_size, i as int + 1);
                }
                return None;
            },
        };
        i = i + 1;
    }
    assert(actives@.take(actives@.len() as int) =~= actives@);
    s.flush(nfa_join, pattern_size)
}

/// A run that fails at some record stays failed.
proof fn lemma_events_stuck(
    matching: Seq<Matching>,
    actives: Seq<Active>,
    nfa_join: Seq<((usize, usize), TNFA)>,
    pattern_size: usize,
    k: int,
)
    requires
        0 <= k <= actives.len(),
        baseline_events(matching, actives.take(k), nfa_join, pattern_size) is None,
    ensures
        baseline_spec(matching, actives, nfa_join, pattern_size) is None,
    decreases actives.len() - k,
{
    if k == actives.len() {
        assert(actives.take(k) =~= actives);
    } else {
        assert(actives.take(k + 1).drop_last() =~= actives.take(k));
        lemma_events_stuck(matching, actives, nfa_join, pattern_size, k + 1);
    }
}

/// Every candidate matching has clock 0 no later than the time of its
/// first edge.
pub open spec fn starts_unclocked(matching: Seq<Matching>) -> bool {
    forall|i: int| 0 <= i < matching.len() ==> #[trigger] matching[i].clocks[0] <= matching[i].first
}

/// Every timed transition resets a clock that exists (or none).
pub open spec fn resets_exist(nfa_join: Seq<((usize, usize), TNFA)>) -> bool {
    forall|i: int| 0 <= i < nfa_join.len() ==> reset_index(#[trigger] nfa_join[i].1) <= 5
}

/// Clock 0 of every matching of `ms` is no later than `t`.
pub open spec fn clocks_behind(ms: Seq<Matching>, t: usize) -> bool {
    forall|i: int| 0 <= i < ms.len() ==> #[trigger] ms[i].clocks[0] <= t
}

/// With clocks behind the current time and clocks that exist, a timed step
/// can be taken, and it leaves every clock behind the current time.
pub(crate) proof fn lemma_step_keeps_clocks_behind(
    t: usize,
    active: Seq<usize>,
    ms: Seq<Matching>,
    nfa_join: Seq<((usize, usize), TNFA)>,
    pattern_size: usize,
)
    requires
        pattern_size <= 5,
        clocks_behind(ms, t),
        resets_exist(nfa_join),
    ensures
        timed_step(t, active, ms, nfa_join, pattern_size) is Some,
        clocks_behind(timed_step(t, active, ms, nfa_join, pattern_size)->0, t),
{
    let w = with_words(ms, active, pattern_size as nat);
    let j = join_spec(state_keyed(w), nfa_join);
    assert forall|i: int| 0 <= i < j.len() implies #[trigger] step_defined(t, j[i].0.clocks, j[i].2)
        && j[i].0.clocks[0] <= t by {
        let (a, k, b) = j[i];
        assert(j.contains(j[i]));
        lemma_join_membership(state_keyed(w), nfa_join, a, k, b);
        let x = choose|x: int| 0 <= x < state_keyed(w).len() && state_keyed(w)[x] == (k, a);
        assert(a.clocks == ms[x].clocks);
        let y = choose|y: int| 0 <= y < nfa_join.len() && nfa_join[y] == (k, b);
        assert(reset_index(nfa_join[y].1) <= 5);
    }
    let p = |u: (Matching, (usize, usize), TNFA)| fires(t, u.0.clocks, u.2);
    let f = |u: (Matching, (usize, usize), TNFA)| after_step(t, u.0, u.2);
    let kept = j.filter(p);
    let next = kept.map_values(f);
    assert(next == tnfa_step_spec(t, nfa_join, w));
    assert forall|i: int| 0 <= i < next.len() implies #[trigger] next[i].clocks[0] <= t by {
        assert(kept.contains(kept[i]));
        j.lemma_filter_contains_rev(p, kept[i]);
        let x = choose|x: int| 0 <= x < j.len() && j[x] == kept[i];
        assert(step_defined(t, j[x].0.clocks, j[x].2) && j[x].0.clocks[0] <= t);
        let u = kept[i];
        let r = reset_index(u.2);
        if r > 0 {
            assert(u.0.clocks@.update(r - 1, t).len() == 5);
        }
    }
}

/// The matchings that start at `t` have clock 0 no later than `t`.
pub(crate) proof fn lemma_starting_behind(matching: Seq<Matching>, t: usize)
    requires
        starts_unclocked(matching),
    ensures
        clocks_behind(starting_at(matching, t), t),
{
    let p = |m: Matching| m.first == t;
    let st = starting_at(matching, t);
    assert forall|i: int| 0 <= i < st.len() implies #[trigger] st[i].clocks[0] <= t by {
        let e = st[i];
        assert(st.contains(e));
        matching.lemma_filter_contains_rev(p, e);
        matching.lemma_filter_pred(p, i);
        let x = choose|x: int| 0 <= x < matching.len() && matching[x] == e;
        assert(matching[x].clocks[0] <= matching[x].first);
    }
}

/// Along a run whose candidate matchings start unclocked, every clock stays
/// behind the current time point.
proof fn lemma_baseline_clocks_behind(
    matching: Seq<Matching>,
    actives: Seq<Active>,
    nfa_join: Seq<((usize, usize), TNFA)>,
    pattern_size: usize,
)
    requires
        pattern_size <= 5,
        starts_unclocked(matching),
        resets_exist(nfa_join),
    ensures
        match baseline_events(matching, actives, nfa_join, pattern_size) {
            Some(s) => clocks_behind(s.current_matching, s.current_time),
            None => true,
        },
    decreases actives.len(),
{
    if actives.len() == 0 {
        lemma_starting_behind(matching, 1);
    } else {
        lemma_baseline_clocks_behind(matching, actives.drop_last(), nfa_join, pattern_size);
        match baseline_events(matching, actives.drop_last(), nfa_join, pattern_size) {
            Some(s) => {
                let a = actives.last();
                if s.current_time < a.time {
                    lemma_step_keeps_clocks_behind(s.current_time, s.current_active, s.current_matching, nfa_join, pattern_size);
                    lemma_starting_behind(matching, a.time);
                }
            },
            None => {},
        }
    }
}

/// Where every candidate matching starts with clock 0 no later than its
/// first edge, every timed transition resets a clock that exists and words
/// read at most five edges, every time point that a run reaches can be
/// ended with a timed step: such a run fails only when the count of
/// accepting matchings outgrows `usize`.
pub proof fn lemma_baseline_steps_defined(
    matching: Seq<Matching>,
    actives: Seq<Active>,
    nfa_join: Seq<((usize, usize), TNFA)>,
    pattern_size: usize,
)
    requires
        pattern_size <= 5,
        starts_unclocked(matching),
        resets_exist(nfa_join),
    ensures
        match baseline_events(matching, actives, nfa_join, pattern_size) {
            Some(s) => timed_step(s.current_time, s.current_active, s.current_matching, nfa_join, pattern_size) is Some,
            None => true,
        },
{
    lemma_baseline_clocks_behind(matching, actives, nfa_join, pattern_size);
    match baseline_events(matching, actives, nfa_join, pattern_size) {
        Some(s) => {
            lemma_step_keeps_clocks_behind(s.current_time, s.current_active, s.current_matching, nfa_join, pattern_size);
        },
        None => {},
    }
}

/// `x` occurs in `q`, so it occurs in `p + q`.
pub(crate) proof fn lemma_contains_right<A>(p: Seq<A>, q: Seq<A>, x: A)
    requires
        q.contains(x),
    ensures
        (p + q).contains(x),
{
    let j = choose|j: int| 0 <= j < q.len() && q[j] == x;
    assert((p + q)[p.len() + j] == x);
}

/// Once a baseline run has reached a time point, every candidate matching
/// that starts at that time point is among the matchings it follows, as the
/// candidate was given.
pub proof fn lemma_baseline_follows_new_matchings(
    matching: Seq<Matching>,
    actives: Seq<Active>,
    nfa_join: Seq<((usize, usize), TNFA)>,
    pattern_size: usize,
)
    ensures
        match baseline_events(matching, actives, nfa_join, pattern_size) {
            Some(s) => forall|i: int| 0 <= i < matching.len() && (#[trigger] matching[i]).first == s.current_time
                ==> s.current_matching.contains(matching[i]),
            None => true,
        },
    decreases actives.len(),
{
    broadcast use vstd::seq_lib::group_filter_ensures;

    if actives.len() == 0 {
        assert forall|i: int| 0 <= i < matching.len() && (#[trigger] matching[i]).first == 1
            implies starting_at(matching, 1).contains(matching[i]) by {
            matching.lemma_filter_contains(|m: Matching| m.first == 1usize, i);
        }
    } else {
        lemma_baseline_follows_new_matchings(matching, actives.drop_last(), nfa_join, pattern_size);
        match baseline_events(matching, actives.drop_last(), nfa_join, pattern_size) {
            Some(s) => {
                let a = actives.last();
                if s.current_time < a.time {
                    match baseline_flush(s, nfa_join, pattern_size) {
                        Some(f) => {
                            assert forall|i: int| 0 <= i < matching.len() && (#[trigger] matching[i]).first == a.time
                                implies (f.current_matching + starting_at(matching, a.time)).contains(matching[i]) by {
                                matching.lemma_filter_contains(|m: Matching| m.first == a.time, i);
                                lemma_contains_right(f.current_matching, starting_at(matching, a.time), matching[i]);
                            }
                        },
                        None => {},
                    }
                }
            },
            None => {},
        }
    }
}

} // verus!
