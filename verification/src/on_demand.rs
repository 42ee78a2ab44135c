//! Evaluating a timed automaton over the activity stream on demand: a
//! matching joins the run only at the time point where its last edge
//! appears, and is then caught up by replaying the recorded activity of the
//! earlier time points.
use vstd::prelude::*;
use crate::active::Active;
use crate::matching::Matching;
use crate::runs::{
    clocks_behind, lemma_starting_behind, lemma_step_keeps_clocks_behind, matchings_starting_at, resets_exist,
    starting_at, starts_unclocked, take_timed_step, timed_step,
};
use crate::seqs::lemma_filter_take_step;
use crate::tnfa::TNFA;

verus! {

/// The state of an on-demand run between two events, as values.
pub struct OnDemandSpec {
    pub current_time: usize,
    pub current_active: Seq<usize>,
    pub history: Seq<(usize, Seq<usize>)>,
    pub current_matching: Seq<Matching>,
    pub all_matching: Seq<Matching>,
    pub accepted: usize,
}

/// The state of an on-demand run between two events: the time point being
/// collected and the ids of the edges active at it so far; the activity of
/// the time points already ended, in increasing time order; the matchings
/// whose last edge appears at the current time point, not yet caught up;
/// the matchings being followed; and how many matchings the steps so far
/// left at state 0.
pub struct OnDemandClock {
    pub current_time: usize,
    pub current_active: Vec<usize>,
    pub history: Vec<(usize, Vec<usize>)>,
    pub current_matching: Vec<Matching>,
    pub all_matching: Vec<Matching>,
    pub accepted: usize,
}

/// The recorded activity with each list of ids by its view.
pub open spec fn history_view(h: Seq<(usize, Vec<usize>)>) -> Seq<(usize, Seq<usize>)> {
    h.map_values(|e: (usize, Vec<usize>)| (e.0, e.1@))
}

impl View for OnDemandClock {
    type V = OnDemandSpec;

    open spec fn view(&self) -> OnDemandSpec {
        OnDemandSpec {
            current_time: self.current_time,
            current_active: self.current_active@,
            history: history_view(self.history@),
            current_matching: self.current_matching@,
            all_matching: self.all_matching@,
            accepted: self.accepted,
        }
    }
}

/// The matchings of `matching` whose last edge appears at time `t`.
pub open spec fn ending_at(matching: Seq<Matching>, t: usize) -> Seq<Matching> {
    matching.filter(|m: Matching| m.last == t)
}

/// The matchings of `ms` at state 0.
pub open spec fn at_start(ms: Seq<Matching>) -> Seq<Matching> {
    ms.filter(|m: Matching| m.state == 0)
}

/// The recorded activity with the activity `active` of time point `t` put
/// in: it replaces the record of `t` if that is the last record, and is
/// added after the others otherwise.
pub open spec fn record_time(h: Seq<(usize, Seq<usize>)>, t: usize, active: Seq<usize>) -> Seq<(usize, Seq<usize>)> {
    if h.len() > 0 && h.last().0 == t {
        h.drop_last().push((t, active))
    } else {
        h.push((t, active))
    }
}

/// The matchings of `m` run over the first `k` recorded time points: at
/// each, those of `m` that start there join, and all take a timed step on
/// that time point's activity.
pub open spec fn catch_up(
    h: Seq<(usize, Seq<usize>)>,
    m: Seq<Matching>,
    nfa_join: Seq<((usize, usize), TNFA)>,
    pattern_size: usize,
    k: nat,
) -> Option<Seq<Matching>>
    decreases k,
{
    if k == 0 {
        Some(Seq::empty())
    } else {
        match catch_up(h, m, nfa_join, pattern_size, (k - 1) as nat) {
            Some(prev) => {
                let e = h[k - 1];
                timed_step(e.0, e.1, prev + starting_at(m, e.0), nfa_join, pattern_size)
            },
            None => None,
        }
    }
}

/// The matchings `m` caught up over all recorded time points, followed by
/// those of them that start at `current_time`; nothing for no matchings.
pub open spec fn replay(
    current_time: usize,
    h: Seq<(usize, Seq<usize>)>,
    m: Seq<Matching>,
    nfa_join: Seq<((usize, usize), TNFA)>,
    pattern_size: usize,
) -> Option<Seq<Matching>> {
    if m.len() == 0 {
        Some(Seq::empty())
    } else {
        match catch_up(h, m, nfa_join, pattern_size, h.len()) {
            Some(c) => Some(c + starting_at(m, current_time)),
            None => None,
        }
    }
}

/// An on-demand run before any event: time point 0 recorded with nothing
/// active, and the matchings that end at time 0 caught up over it.
pub open spec fn on_demand_start(
    matching: Seq<Matching>,
    nfa_join: Seq<((usize, usize), TNFA)>,
    pattern_size: usize,
) -> Option<OnDemandSpec> {
    let h = seq![(0usize, Seq::<usize>::empty())];
    match replay(0, h, ending_at(matching, 0), nfa_join, pattern_size) {
        Some(c) => Some(
            OnDemandSpec {
                current_time: 0,
                current_active: Seq::empty(),
                history: h,
                current_matching: c,
                all_matching: Seq::empty(),
                accepted: 0,
            },
        ),
        None => None,
    }
}

/// The end of the time point of `s`: the new matchings are caught up and
/// join the others, and all take a timed step on the current activity.
/// The result holds the caught-up matchings and the stepped ones; `None`
/// where a step cannot be taken.
pub open spec fn on_demand_flush(
    s: OnDemandSpec,
    nfa_join: Seq<((usize, usize), TNFA)>,
    pattern_size: usize,
) -> Option<(Seq<Matching>, Seq<Matching>)> {
    match replay(s.current_time, s.history, s.current_matching, nfa_join, pattern_size) {
        Some(c) => match timed_step(s.current_time, s.current_active, s.all_matching + c, nfa_join, pattern_size) {
            Some(next) => Some((c, next)),
            None => None,
        },
        None => None,
    }
}

/// The run after the activity record `a`: a record of a later time point
/// first ends the current one, records its activity, counts the matchings
/// left at state 0 and moves to the new time point, whose matchings are
/// those ending there; the record's edge is then active. `None` where the
/// time point cannot be ended or the count goes beyond `usize`.
pub open spec fn on_demand_event(
    s: OnDemandSpec,
    a: Active,
    matching: Seq<Matching>,
    nfa_join: Seq<((usize, usize), TNFA)>,
    pattern_size: usize,
) -> Option<OnDemandSpec> {
    if s.current_time < a.time {
        match on_demand_flush(s, nfa_join, pattern_size) {
            Some((_, next)) => {
                let acc = s.accepted + at_start(next).len();
                if acc > usize::MAX {
                    None
                } else {
                    Some(
                        OnDemandSpec {
                            current_time: a.time,
                            current_active: seq![a.eid],
                            history: record_time(s.history, s.current_time, s.current_active),
                            current_matching: ending_at(matching, a.time),
                            all_matching: next,
                            accepted: acc as usize,
                        },
                    )
                }
            },
            None => None,
        }
    } else {
        Some(OnDemandSpec { current_active: s.current_active.push(a.eid), ..s })
    }
}

/// The on-demand run after the activity records `actives`, in order.
pub open spec fn on_demand_events(
    matching: Seq<Matching>,
    actives: Seq<Active>,
    nfa_join: Seq<((usize, usize), TNFA)>,
    pattern_size: usize,
) -> Option<OnDemandSpec>
    decreases actives.len(),
{
    if actives.len() == 0 {
        on_demand_start(matching, nfa_join, pattern_size)
    } else {
        match on_demand_events(matching, actives.drop_last(), nfa_join, pattern_size) {
            Some(s) => on_demand_event(s, actives.last(), matching, nfa_join, pattern_size),
            None => None,
        }
    }
}

/// The whole on-demand run: every activity record, then the end of the last
/// time point (whose matchings are not counted).
pub open spec fn on_demand_spec(
    matching: Seq<Matching>,
    actives: Seq<Active>,
    nfa_join: Seq<((usize, usize), TNFA)>,
    pattern_size: usize,
) -> Option<OnDemandSpec> {
    match on_demand_events(matching, actives, nfa_join, pattern_size) {
        Some(s) => match on_demand_flush(s, nfa_join, pattern_size) {
            Some((c, next)) => Some(OnDemandSpec { current_matching: c, all_matching: next, ..s }),
            None => None,
        },
        None => None,
    }
}

/// The recorded time points strictly increase and none is later than the
/// current time point.
pub open spec fn history_ordered(s: OnDemandSpec) -> bool {
    &&& forall|i: int, j: int| 0 <= i < j < s.history.len() ==> s.history[i].0 < s.history[j].0
    &&& s.history.len() > 0 ==> s.history.last().0 <= s.current_time
}

/// Along an on-demand run the recorded time points strictly increase and
/// none is later than the current time point: recording the activity of a
/// time point replaces the record of that time point if there is one and
/// adds a record otherwise, as setting an entry of a map keyed by time does.
pub proof fn lemma_on_demand_history_ordered(
    matching: Seq<Matching>,
    actives: Seq<Active>,
    nfa_join: Seq<((usize, usize), TNFA)>,
    pattern_size: usize,
)
    ensures
        match on_demand_events(matching, actives, nfa_join, pattern_size) {
            Some(s) => history_ordered(s),
            None => true,
        },
    decreases actives.len(),
{
    if actives.len() > 0 {
        lemma_on_demand_history_ordered(matching, actives.drop_last(), nfa_join, pattern_size);
        match on_demand_events(matching, actives.drop_last(), nfa_join, pattern_size) {
            Some(s) => {
                let a = actives.last();
                if s.current_time < a.time {
                    let h = record_time(s.history, s.current_time, s.current_active);
                    if s.history.len() > 0 && s.history.last().0 == s.current_time {
                        assert(forall|i: int| 0 <= i < h.len() ==> #[trigger] h[i].0 <= s.current_time);
                    } else {
                        assert(forall|i: int| 0 <= i < s.history.len() ==> #[trigger] s.history[i].0 < s.current_time);
                    }
                }
            },
            None => {},
        }
    }
}

/// Catching up over increasing time points can be done, and leaves every
/// clock behind the last time point caught up over.
proof fn lemma_catch_up_behind(
    h: Seq<(usize, Seq<usize>)>,
    m: Seq<Matching>,
    nfa_join: Seq<((usize, usize), TNFA)>,
    pattern_size: usize,
    k: nat,
)
    requires
        pattern_size <= 5,
        starts_unclocked(m),
        resets_exist(nfa_join),
        k <= h.len(),
        forall|i: int, j: int| 0 <= i < j < h.len() ==> h[i].0 < h[j].0,
    ensures
        catch_up(h, m, nfa_join, pattern_size, k) is Some,
        k == 0 ==> catch_up(h, m, nfa_join, pattern_size, k)->0.len() == 0,
        k > 0 ==> clocks_behind(catch_up(h, m, nfa_join, pattern_size, k)->0, h[k - 1].0),
    decreases k,
{
    if k > 0 {
        lemma_catch_up_behind(h, m, nfa_join, pattern_size, (k - 1) as nat);
        let prev = catch_up(h, m, nfa_join, pattern_size, (k - 1) as nat)->0;
        let e = h[k - 1];
        let joining = starting_at(m, e.0);
        let cur = prev + joining;
        lemma_starting_behind(m, e.0);
        assert forall|i: int| 0 <= i < cur.len() implies #[trigger] cur[i].clocks[0] <= e.0 by {
            if i < prev.len() {
                assert(prev[i].clocks[0] <= h[k - 2].0);
            } else {
                assert(cur[i] == joining[i - prev.len()]);
            }
        }
        lemma_step_keeps_clocks_behind(e.0, e.1, cur, nfa_join, pattern_size);
    }
}

/// Replaying over increasing time points no later than `t` can be done, and
/// leaves every clock behind `t`.
proof fn lemma_replay_behind(
    t: usize,
    h: Seq<(usize, Seq<usize>)>,
    m: Seq<Matching>,
    nfa_join: Seq<((usize, usize), TNFA)>,
    pattern_size: usize,
)
    requires
        pattern_size <= 5,
        starts_unclocked(m),
        resets_exist(nfa_join),
        forall|i: int, j: int| 0 <= i < j < h.len() ==> h[i].0 < h[j].0,
        h.len() > 0 ==> h.last().0 <= t,
    ensures
        replay(t, h, m, nfa_join, pattern_size) is Some,
        clocks_behind(replay(t, h, m, nfa_join, pattern_size)->0, t),
{
    if m.len() > 0 {
        lemma_catch_up_behind(h, m, nfa_join, pattern_size, h.len());
        let c = catch_up(h, m, nfa_join, pattern_size, h.len())->0;
        let joining = starting_at(m, t);
        lemma_starting_behind(m, t);
        let r = c + joining;
        assert forall|i: int| 0 <= i < r.len() implies #[trigger] r[i].clocks[0] <= t by {
            if i < c.len() {
                assert(c[i].clocks[0] <= h[h.len() - 1].0);
            } else {
                assert(r[i] == joining[i - c.len()]);
            }
        }
    }
}

/// The matchings that end at `t` start unclocked when all candidates do.
proof fn lemma_ending_unclocked(matching: Seq<Matching>, t: usize)
    requires
        starts_unclocked(matching),
    ensures
        starts_unclocked(ending_at(matching, t)),
{
    let p = |m: Matching| m.last == t;
    let en = ending_at(matching, t);
    assert forall|i: int| 0 <= i < en.len() implies #[trigger] en[i].clocks[0] <= en[i].first by {
        let e = en[i];
        assert(en.contains(e));
        matching.lemma_filter_contains_rev(p, e);
        let x = choose|x: int| 0 <= x < matching.len() && matching[x] == e;
        assert(matching[x].clocks[0] <= matching[x].first);
    }
}

/// What holds between the events of an on-demand run whose candidates
/// start unclocked.
spec fn on_demand_invariant(s: OnDemandSpec) -> bool {
    &&& history_ordered(s)
    &&& clocks_behind(s.all_matching, s.current_time)
    &&& starts_unclocked(s.current_matching)
}

proof fn lemma_on_demand_invariant(
    matching: Seq<Matching>,
    actives: Seq<Active>,
    nfa_join: Seq<((usize, usize), TNFA)>,
    pattern_size: usize,
)
    requires
        pattern_size <= 5,
        starts_unclocked(matching),
        resets_exist(nfa_join),
    ensures
        on_demand_start(matching, nfa_join, pattern_size) is Some,
        match on_demand_events(matching, actives, nfa_join, pattern_size) {
            Some(s) => on_demand_invariant(s),
            None => true,
        },
    decreases actives.len(),
{
    let h0 = seq![(0usize, Seq::<usize>::empty())];
    lemma_ending_unclocked(matching, 0);
    lemma_replay_behind(0, h0, ending_at(matching, 0), nfa_join, pattern_size);
    let c0 = replay(0, h0, ending_at(matching, 0), nfa_join, pattern_size)->0;
    assert forall|i: int| 0 <= i < c0.len() implies #[trigger] c0[i].clocks[0] <= c0[i].first by {
        assert(c0[i].clocks[0] <= 0);
    }
    lemma_on_demand_history_ordered(matching, actives, nfa_join, pattern_size);
    if actives.len() > 0 {
        lemma_on_demand_invariant(matching, actives.drop_last(), nfa_join, pattern_size);
        match on_demand_events(matching, actives.drop_last(), nfa_join, pattern_size) {
            Some(s) => {
                let a = actives.last();
                if s.current_time < a.time {
                    lemma_replay_behind(s.current_time, s.history, s.current_matching, nfa_join, pattern_size);
                    let c = replay(s.current_time, s.history, s.current_matching, nfa_join, pattern_size)->0;
                    let all = s.all_matching + c;
                    assert forall|i: int| 0 <= i < all.len() implies #[trigger] all[i].clocks[0] <= s.current_time by {
                        if i >= s.all_matching.len() {
                            assert(all[i] == c[i - s.all_matching.len()]);
                        }
                    }
                    lemma_step_keeps_clocks_behind(s.current_time, s.current_active, all, nfa_join, pattern_size);
                    lemma_ending_unclocked(matching, a.time);
                }
            },
            None => {},
        }
    }
}

/// Where every candidate matching starts with clock 0 no later than its
/// first edge, every timed transition resets a clock that exists and words
/// read at most five edges, an on-demand run can start, and every time
/// point it reaches can be ended: such a run fails only when the count of
/// matchings at state 0 outgrows `usize`.
pub proof fn lemma_on_demand_steps_defined(
    matching: Seq<Matching>,
    actives: Seq<Active>,
    nfa_join: Seq<((usize, usize), TNFA)>,
    pattern_size: usize,
)
    requires
        pattern_size <= 5,
        starts_unclocked(matching),
        resets_exist(nfa_join),
    ensures
        on_demand_start(matching, nfa_join, pattern_size) is Some,
        match on_demand_events(matching, actives, nfa_join, pattern_size) {
            Some(s) => on_demand_flush(s, nfa_join, pattern_size) is Some,
            None => true,
        },
{
    lemma_on_demand_invariant(matching, actives, nfa_join, pattern_size);
    match on_demand_events(matching, actives, nfa_join, pattern_size) {
        Some(s) => {
            lemma_replay_behind(s.current_time, s.history, s.current_matching, nfa_join, pattern_size);
            let c = replay(s.current_time, s.history, s.current_matching, nfa_join, pattern_size)->0;
            let all = s.all_matching + c;
            assert forall|i: int| 0 <= i < all.len() implies #[trigger] all[i].clocks[0] <= s.current_time by {
                if i >= s.all_matching.len() {
                    assert(all[i] == c[i - s.all_matching.len()]);
                }
            }
            lemma_step_keeps_clocks_behind(s.current_time, s.current_active, all, nfa_join, pattern_size);
        },
        None => {},
    }
}

/// The matchings of `matching` whose last edge appears at time `t`, in order.
fn matchings_ending_at(matching: &Vec<Matching>, t: usize) -> (r: Vec<Matching>)
    ensures
        r@ == ending_at(matching@, t),
{
    let ghost p = |m: Matching| m.last == t;
    let mut r: Vec<Matching> = Vec::new();
    let mut i: usize = 0;
    while i < matching.len()
        invariant
            i <= matching@.len(),
            p == (|m: Matching| m.last == t),
            r@ == matching@.take(i as int).filter(p),
        decreases matching@.len() - i,
    {
        proof {
            lemma_filter_take_step(matching@, p, i as int);
        }
        if matching[i].last == t {
            r.push(matching[i]);
        }
        i = i + 1;
    }
    assert(matching@.take(matching@.len() as int) =~= matching@);
    r
}

/// How many matchings of `ms` are at state 0.
fn count_at_start(ms: &Vec<Matching>) -> (r: usize)
    ensures
        r == at_start(ms@).len(),
{
    let ghost p = |m: Matching| m.state == 0;
    let mut r: usize = 0;
    let mut i: usize = 0;
    while i < ms.len()
        invariant
            i <= ms@.len(),
            p == (|m: Matching| m.state == 0),
            r == ms@.take(i as int).filter(p).len(),
            ms@.take(i as int).filter(p).len() <= i,
        decreases ms@.len() - i,
    {
        proof {
            lemma_filter_take_step(ms@, p, i as int);
        }
        if ms[i].state == 0 {
            r = r + 1;
        }
        i = i + 1;
    }
    assert(ms@.take(ms@.len() as int) =~= ms@);
    r
}

/// The matchings `m` caught up over the recorded activity `h` (see `replay`);
/// `None` where a step cannot be taken.
fn replay_exec(
    current_time: usize,
    h: &Vec<(usize, Vec<usize>)>,
    m: &Vec<Matching>,
    nfa_join: &Vec<((usize, usize), TNFA)>,
    pattern_size: usize,
) -> (r: Option<Vec<Matching>>)
    ensures
        match r {
            Some(v) => replay(current_time, history_view(h@), m@, nfa_join@, pattern_size) == Some(v@),
            None => replay(current_time, history_view(h@), m@, nfa_join@, pattern_size) is None,
        },
{
    let ghost hv = history_view(h@);
    if m.len() == 0 {
        return Some(Vec::new());
    }
    let mut current: Vec<Matching> = Vec::new();
    let mut k: usize = 0;
    while k < h.len()
        invariant
            k <= h@.len(),
            hv == history_view(h@),
            m@.len() > 0,
            catch_up(hv, m@, nfa_join@, pattern_size, k as nat) == Some(current@),
        decreases h@.len() - k,
    {
        let t = h[k].0;
        let mut joining = matchings_starting_at(m, t);
        let ghost before = current@;
        current.append(&mut joining);
        assert(current@ =~= before + starting_at(m@, t));
        assert(hv[k as int] == (t, h@[k as int].1@));
        current = match take_timed_step(t, &h[k].1, &current, nfa_join, pattern_size) {
            Some(v) => v,
            None => {
                proof {
                    lemma_catch_up_stuck(hv, m@, nfa_join@, pattern_size, k as nat + 1);
                }
                return None;
            },
        };
        k = k + 1;
    }
    let mut joining = matchings_starting_at(m, current_time);
    let ghost before = current@;
    current.append(&mut joining);
    assert(current@ =~= before + starting_at(m@, current_time));
    Some(current)
}

/// Catching up that fails over some prefix of the records fails over all.
proof fn lemma_catch_up_stuck(
    h: Seq<(usize, Seq<usize>)>,
    m: Seq<Matching>,
    nfa_join: Seq<((usize, usize), TNFA)>,
    pattern_size: usize,
    k: nat,
)
    requires
        k <= h.len(),
        catch_up(h, m, nfa_join, pattern_size, k) is None,
    ensures
        catch_up(h, m, nfa_join, pattern_size, h.len()) is None,
    decreases h.len() - k,
{
    if k < h.len() {
        lemma_catch_up_stuck(h, m, nfa_join, pattern_size, k + 1);
    }
}

/// Puts the activity `active` of time point `t` into the records (see
/// `record_time`).
fn record_time_exec(h: &mut Vec<(usize, Vec<usize>)>, t: usize, active: Vec<usize>)
    ensures
        history_view(final(h)@) == record_time(history_view(old(h)@), t, active@),
{
    let ghost hv = history_view(h@);
    let n = h.len();
    if n > 0 && h[n - 1].0 == t {
        h.pop();
        assert(history_view(h@) =~= hv.drop_last());
    }
    h.push((t, active));
    assert(history_view(h@) =~= record_time(hv, t, active@));
}

impl OnDemandClock {
    /// An on-demand run before any event (see `on_demand_start`); `None`
    /// where the matchings that end at time 0 cannot be caught up.
    pub fn start(matching: &Vec<Matching>, nfa_join: &Vec<((usize, usize), TNFA)>, pattern_size: usize) -> (r: Option<Self>)
        ensures
            match r {
                Some(s) => on_demand_start(matching@, nfa_join@, pattern_size) == Some(s@),
                None => on_demand_start(matching@, nfa_join@, pattern_size) is None,
            },
    {
        let history = vec![(0usize, Vec::new())];
        proof {
            assert(history_view(history@) =~= seq![(0usize, Seq::<usize>::empty())]);
        }
        let initial = matchings_ending_at(matching, 0);
        let current_matching = match replay_exec(0, &history, &initial, nfa_join, pattern_size) {
            Some(c) => c,
            None => return None,
        };
        Some(OnDemandClock {
            current_time: 0,
            current_active: Vec::new(),
            history,
            current_matching,
            all_matching: Vec::new(),
            accepted: 0,
        })
    }

    /// Ends the current time point (see `on_demand_flush`): the caught-up
    /// matchings and the stepped ones; `None` where a step cannot be taken.
    pub fn flush(&self, nfa_join: &Vec<((usize, usize), TNFA)>, pattern_size: usize) -> (r: Option<(Vec<Matching>, Vec<Matching>)>)
        ensures
            match r {
                Some((c, next)) => on_demand_flush(self@, nfa_join@, pattern_size) == Some((c@, next@)),
                None => on_demand_flush(self@, nfa_join@, pattern_size) is None,
            },
    {
        let c = match replay_exec(self.current_time, &self.history, &self.current_matching, nfa_join, pattern_size) {
            Some(c) => c,
            None => return None,
        };
        let mut all: Vec<Matching> = Vec::new();
        let mut i: usize = 0;
        while i < self.all_matching.len()
            invariant
                i <= self.all_matching@.len(),
                all@ == self.all_matching@.take(i as int),
            decreases self.all_matching@.len() - i,
        {
            all.push(self.all_matching[i]);
            assert(all@ =~= self.all_matching@.take(i + 1));
            i = i + 1;
        }
        assert(self.all_matching@.take(self.all_matching@.len() as int) =~= self.all_matching@);
        let mut i: usize = 0;
        let ghost before = all@;
        while i < c.len()
            invariant
                i <= c@.len(),
                all@ == before + c@.take(i as int),
            decreases c@.len() - i,
        {
            all.push(c[i]);
            assert(all@ =~= before + c@.take(i + 1));
            i = i + 1;
        }
        assert(c@.take(c@.len() as int) =~= c@);
        match take_timed_step(self.current_time, &self.current_active, &all, nfa_join, pattern_size) {
            Some(next) => Some((c, next)),
            None => None,
        }
    }

    /// The run after the activity record `a` (see `on_demand_event`); `None`
    /// where the time point it ends cannot be ended.
    pub fn event(
        self,
        a: Active,
        matching: &Vec<Matching>,
        nfa_join: &Vec<((usize, usize), TNFA)>,
        pattern_size: usize,
    ) -> (r: Option<Self>)
        ensures
            match r {
                Some(s) => on_demand_event(self@, a, matching@, nfa_join@, pattern_size) == Some(s@),
                None => on_demand_event(self@, a, matching@, nfa_join@, pattern_size) is None,
            },
    {
        if self.current_time < a.time {
            let next = match self.flush(nfa_join, pattern_size) {
                Some((_, next)) => next,
                None => return None,
            };
            let n = count_at_start(&next);
            let accepted = match self.accepted.checked_add(n) {
                Some(x) => x,
                None => return None,
            };
            let mut history = self.history;
            record_time_exec(&mut history, self.current_time, self.current_active);
            let current_active = vec![a.eid];
            assert(current_active@ =~= seq![a.eid]);
            Some(OnDemandClock {
                current_time: a.time,
                current_active,
                history,
                current_matching: matchings_ending_at(matching, a.time),
                all_matching: next,
                accepted,
            })
        } else {
            let mut current_active = self.current_active;
            current_active.push(a.eid);
            Some(OnDemandClock {
                current_time: self.current_time,
                current_active,
                history: self.history,
                current_matching: self.current_matching,
                all_matching: self.all_matching,
                accepted: self.accepted,
            })
        }
    }
}

/// Runs the timed automaton `nfa_join` on demand over the activity records
/// `actives` for the candidate matchings `matching` (see `on_demand_spec`);
/// `None` where some step cannot be taken.
pub fn on_demand_run(
    matching: &Vec<Matching>,
    actives: &Vec<Active>,
    nfa_join: &Vec<((usize, usize), TNFA)>,
    pattern_size: usize,
) -> (r: Option<OnDemandClock>)
    ensures
        match r {
            Some(s) => on_demand_spec(matching@, actives@, nfa_join@, pattern_size) == Some(s@),
            None => on_demand_spec(matching@, actives@, nfa_join@, pattern_size) is None,
        },
{
    let mut s = match OnDemandClock::start(matching, nfa_join, pattern_size) {
        Some(s) => s,
        None => {
            proof {
                lemma_on_demand_stuck(matching@, actives@, nfa_join@, pattern_size, 0);
            }
            return None;
        },
    };
    let mut i: usize = 0;
    while i < actives.len()
        invariant
            i <= actives@.len(),
            on_demand_events(matching@, actives@.take(i as int), nfa_join@, pattern_size) == Some(s@),
        decreases actives@.len() - i,
    {
        proof {
            assert(actives@.take(i + 1).drop_last() =~= actives@.take(i as int));
        }
        s = match s.event(actives[i], matching, nfa_join, pattern_size) {
            Some(next) => next,
            None => {
                proof {
                    lemma_on_demand_stuck(matching@, actives@, nfa_join@, pattern_size, i as int + 1);
                }
                return None;
            },
        };
        i = i + 1;
    }
    assert(actives@.take(actives@.len() as int) =~= actives@);
    match s.flush(nfa_join, pattern_size) {
        Some((c, next)) => Some(OnDemandClock { current_matching: c, all_matching: next, ..s }),
        None => None,
    }
}

/// An on-demand run that fails at some record stays failed.
proof fn lemma_on_demand_stuck(
    matching: Seq<Matching>,
    actives: Seq<Active>,
    nfa_join: Seq<((usize, usize), TNFA)>,
    pattern_size: usize,
    k: int,
)
    requires
        0 <= k <= actives.len(),
        on_demand_events(matching, actives.take(k), nfa_join, pattern_size) is None,
    ensures
        on_demand_spec(matching, actives, nfa_join, pattern_size) is None,
    decreases actives.len() - k,
{
    if k == actives.len() {
        assert(actives.take(k) =~= actives);
    } else {
        assert(actives.take(k + 1).drop_last() =~= actives.take(k));
        lemma_on_demand_stuck(matching, actives, nfa_join, pattern_size, k + 1);
    }
}

/// Once an on-demand run has moved past time point 0, every candidate
/// matching whose last edge appears at the current time point waits, as
/// the candidate was given, among the matchings to be caught up there.
pub proof fn lemma_on_demand_waits_for_new_matchings(
    matching: Seq<Matching>,
    actives: Seq<Active>,
    nfa_join: Seq<((usize, usize), TNFA)>,
    pattern_size: usize,
)
    ensures
        match on_demand_events(matching, actives, nfa_join, pattern_size) {
            Some(s) => s.current_time > 0 ==> forall|i: int|
                0 <= i < matching.len() && (#[trigger] matching[i]).last == s.current_time
                    ==> s.current_matching.contains(matching[i]),
            None => true,
        },
    decreases actives.len(),
{
    broadcast use vstd::seq_lib::group_filter_ensures;

    if actives.len() > 0 {
        lemma_on_demand_waits_for_new_matchings(matching, actives.drop_last(), nfa_join, pattern_size);
        match on_demand_events(matching, actives.drop_last(), nfa_join, pattern_size) {
            Some(s) => {
                let a = actives.last();
                if s.current_time < a.time {
                    assert forall|i: int| 0 <= i < matching.len() && (#[trigger] matching[i]).last == a.time
                        implies ending_at(matching, a.time).contains(matching[i]) by {
                        matching.lemma_filter_contains(|m: Matching| m.last == a.time, i);
                    }
                }
            },
            None => {},
        }
    }
}

} // verus!
