//! Timed automata: transitions guarded by clock conditions and resetting
//! clocks, applied to matchings and partial matchings.
use vstd::prelude::*;
use crate::join::{hash_join, join_spec};
use crate::matching::{Matching, PMatching};
use crate::nfa::{NFA, state_keyed};

verus! {

/// The clock condition that guards a timed transition.
#[derive(Debug, Clone, Copy, PartialEq, Eq, Structural)]
pub enum ClockCondition {
    /// Always holds (`true`, and any unknown name).
    AllTrue,
    /// Never holds (`false`).
    AllFalse,
    /// Clock 0 is unset or less than `cond` time units old (`x0pass`).
    Xpass0,
    /// Clock 0 is unset or more than `cond` time units old (`x1pass`).
    Xpass1,
}

/// A timed transition: the untimed transition `nfa`, the clock it resets
/// (`clock_set`, 1-based; 0 resets none) and its clock condition with the
/// condition's bound.
#[derive(Debug, Clone, Copy)]
pub struct TNFA {
    pub nfa: NFA,
    pub clock_set: usize,
    pub clock_cond: (ClockCondition, usize),
}

/// A matching id with an automaton state and clocks.
#[derive(Debug, Clone, Copy)]
pub struct State_Matching {
    pub mid: usize,
    pub state: usize,
    pub clock: [usize; 5],
}

/// Evaluating `c` at `current_time` on `clocks` does not underflow.
pub open spec fn cond_defined(c: ClockCondition, current_time: usize, clocks: [usize; 5]) -> bool {
    match c {
        ClockCondition::Xpass0 | ClockCondition::Xpass1 => clocks[0] <= current_time,
        _ => true,
    }
}

/// Condition `c` with bound `cond` holds at `current_time` on `clocks`.
pub open spec fn cond_holds(c: ClockCondition, current_time: usize, clocks: [usize; 5], cond: usize) -> bool {
    match c {
        ClockCondition::AllTrue => true,
        ClockCondition::AllFalse => false,
        ClockCondition::Xpass0 => current_time - clocks[0] < cond || clocks[0] == 0,
        ClockCondition::Xpass1 => current_time - clocks[0] > cond || clocks[0] == 0,
    }
}

/// `clock` with clock `set_val` (1-based) set to `current_time`; a value
/// of 0 or below sets none.
pub open spec fn set_clock_spec(clock: [usize; 5], set_val: i8, current_time: usize) -> Seq<usize> {
    if set_val > 0 {
        clock@.update(set_val - 1, current_time)
    } else {
        clock@
    }
}

/// The clock that a transition resets, as the step reads it: the
/// low byte of `clock_set` taken as a signed number.
pub open spec fn reset_index(t: TNFA) -> i8 {
    t.clock_set as i8
}

/// A joined (matching, key, transition) triple can be evaluated: its clock
/// condition does not underflow and, if it holds, the clock to reset exists.
pub open spec fn step_defined(current_time: usize, clocks: [usize; 5], t: TNFA) -> bool {
    &&& cond_defined(t.clock_cond.0, current_time, clocks)
    &&& cond_holds(t.clock_cond.0, current_time, clocks, t.clock_cond.1) ==> reset_index(t) <= 5
}

/// The transition `t` fires for a matching with these clocks.
pub open spec fn fires(current_time: usize, clocks: [usize; 5], t: TNFA) -> bool {
    cond_holds(t.clock_cond.0, current_time, clocks, t.clock_cond.1)
}

/// `m` after taking transition `t` at `current_time`.
pub open spec fn after_step(current_time: usize, m: Matching, t: TNFA) -> Matching {
    Matching {
        state: t.nfa.next_state,
        clocks: seq_to_clocks(set_clock_spec(m.clocks, reset_index(t), current_time), m.clocks),
        ..m
    }
}

/// The array with the view `s` (of length 5); `fallback` otherwise.
pub open spec fn seq_to_clocks(s: Seq<usize>, fallback: [usize; 5]) -> [usize; 5] {
    if s.len() == 5 {
        [s[0], s[1], s[2], s[3], s[4]]
    } else {
        fallback
    }
}

/// One timed step of `nfa_join` on the matchings at `current_time`: each
/// matching is paired with every transition for its `(state, word)`, the
/// pairs whose clock condition fails are dropped, and the others move to
/// the transition's next state with its clock reset.
pub open spec fn tnfa_step_spec(current_time: usize, nfa_join: Seq<((usize, usize), TNFA)>, ms: Seq<Matching>) -> Seq<Matching> {
    join_spec(state_keyed(ms), nfa_join)
        .filter(|t: (Matching, (usize, usize), TNFA)| fires(current_time, t.0.clocks, t.2))
        .map_values(|t: (Matching, (usize, usize), TNFA)| after_step(current_time, t.0, t.2))
}

/// Every joined triple of a timed step can be evaluated.
pub open spec fn tnfa_step_defined(current_time: usize, nfa_join: Seq<((usize, usize), TNFA)>, ms: Seq<Matching>) -> bool {
    let j = join_spec(state_keyed(ms), nfa_join);
    forall|i: int| 0 <= i < j.len() ==> #[trigger] step_defined(current_time, j[i].0.clocks, j[i].2)
}

/// The partial matchings keyed by their `(state, word)`.
pub open spec fn pstate_keyed(ms: Seq<PMatching>) -> Seq<((usize, usize), PMatching)> {
    ms.map_values(|c: PMatching| ((c.state, c.word), c))
}

/// `m` after taking transition `t` at `current_time`.
pub open spec fn pafter_step(current_time: usize, m: PMatching, t: TNFA) -> PMatching {
    PMatching {
        state: t.nfa.next_state,
        clocks: seq_to_clocks(set_clock_spec(m.clocks, reset_index(t), current_time), m.clocks),
        ..m
    }
}

/// One timed step of `nfa_join` on partial matchings (as `tnfa_step_spec`).
pub open spec fn ptnfa_step_spec(current_time: usize, nfa_join: Seq<((usize, usize), TNFA)>, ms: Seq<PMatching>) -> Seq<PMatching> {
    join_spec(pstate_keyed(ms), nfa_join)
        .filter(|t: (PMatching, (usize, usize), TNFA)| fires(current_time, t.0.clocks, t.2))
        .map_values(|t: (PMatching, (usize, usize), TNFA)| pafter_step(current_time, t.0, t.2))
}

/// Every joined triple of a timed step on partial matchings can be evaluated.
pub open spec fn ptnfa_step_defined(current_time: usize, nfa_join: Seq<((usize, usize), TNFA)>, ms: Seq<PMatching>) -> bool {
    let j = join_spec(pstate_keyed(ms), nfa_join);
    forall|i: int| 0 <= i < j.len() ==> #[trigger] step_defined(current_time, j[i].0.clocks, j[i].2)
}

impl ClockCondition {
    /// Whether the condition with bound `cond` holds at `current_time`.
    pub fn holds(&self, current_time: usize, clocks: [usize; 5], cond: usize) -> (r: bool)
        requires
            cond_defined(*self, current_time, clocks),
        ensures
            r == cond_holds(*self, current_time, clocks, cond),
    {
        match self {
            ClockCondition::AllTrue => true,
            ClockCondition::AllFalse => false,
            ClockCondition::Xpass0 => current_time - clocks[0] < cond || clocks[0] == 0,
            ClockCondition::Xpass1 => current_time - clocks[0] > cond || clocks[0] == 0,
        }
    }
}

/// Keys every partial matching by its `(state, word)`.
fn pkeyed_by_state(ms: &Vec<PMatching>) -> (r: Vec<((usize, usize), PMatching)>)
    ensures
        r@ == pstate_keyed(ms@),
{
    let mut r: Vec<((usize, usize), PMatching)> = Vec::new();
    let mut i: usize = 0;
    while i < ms.len()
        invariant
            i <= ms@.len(),
            r@ == pstate_keyed(ms@.take(i as int)),
        decreases ms@.len() - i,
    {
        let c = ms[i];
        r.push(((c.state, c.word), c));
        assert(r@ =~= pstate_keyed(ms@.take(i + 1)));
        i = i + 1;
    }
    assert(ms@.take(ms@.len() as int) =~= ms@);
    r
}

/// Keys every matching by its `(state, word)`.
fn mkeyed_by_state(ms: &Vec<Matching>) -> (r: Vec<((usize, usize), Matching)>)
    ensures
        r@ == state_keyed(ms@),
{
    let mut r: Vec<((usize, usize), Matching)> = Vec::new();
    let mut i: usize = 0;
    while i < ms.len()
        invariant
            i <= ms@.len(),
            r@ == state_keyed(ms@.take(i as int)),
        decreases ms@.len() - i,
    {
        let c = ms[i];
        r.push(((c.state, c.word), c));
        assert(r@ =~= state_keyed(ms@.take(i + 1)));
        i = i + 1;
    }
    assert(ms@.take(ms@.len() as int) =~= ms@);
    r
}

impl TNFA {
    /// Applies `func` to the current time, the clocks and the bound.
    pub fn apply_function<T>(current_time: usize, clocks: [usize; 5], cond: usize, func: T) -> (res: bool)
        where
            T: Fn(usize, [usize; 5], usize) -> bool,
        requires
            call_requires(func, (current_time, clocks, cond)),
        ensures
            call_ensures(func, (current_time, clocks, cond), res),
    {
        let res = func(current_time, clocks, cond);
        return res;
    }

    /// Every matching's id, at state 0 with all clocks 0.
    pub fn add_state_to_matching(matching: &Vec<Matching>) -> (r: Vec<State_Matching>)
        ensures
            r@.len() == matching@.len(),
            forall|i: int| 0 <= i < matching@.len() ==> #[trigger] r@[i]
                == (State_Matching { mid: matching@[i].mid, state: 0, clock: [0, 0, 0, 0, 0] }),
    {
        let mut r: Vec<State_Matching> = Vec::new();
        let mut i: usize = 0;
        while i < matching.len()
            invariant
                i <= matching@.len(),
                r@.len() == i,
                forall|j: int| 0 <= j < i ==> #[trigger] r@[j]
                    == (State_Matching { mid: matching@[j].mid, state: 0, clock: [0, 0, 0, 0, 0] }),
            decreases matching@.len() - i,
        {
            r.push(State_Matching { mid: matching[i].mid, state: 0, clock: [0, 0, 0, 0, 0] });
            i = i + 1;
        }
        r
    }

    /// `clock` with clock `set_val` (1-based) set to `current_time`; a
    /// `set_val` of 0 or below sets none.
    pub fn set_clock(clock: [usize; 5], set_val: i8, current_time: usize) -> (r: [usize; 5])
        requires
            set_val <= 5,
        ensures
            r@ == set_clock_spec(clock, set_val, current_time),
    {
        if set_val > 0 {
            let mut new_clock = clock;
            new_clock[(set_val - 1) as usize] = current_time;
            return new_clock;
        }
        return clock;
    }

    /// `clock` with its first `number_of_clock` clocks set to `current_time`.
    pub fn set_all_clock(clock: [usize; 5], number_of_clock: usize, current_time: usize) -> (r: [usize; 5])
        requires
            number_of_clock <= 5,
        ensures
            forall|k: int| 0 <= k < 5 ==> r@[k] == if k < number_of_clock { current_time } else { clock@[k] },
    {
        let mut new_clock = clock;
        let mut i: usize = 0;
        while i < number_of_clock
            invariant
                i <= number_of_clock <= 5,
                forall|k: int| 0 <= k < 5 ==> new_clock@[k] == if k < i { current_time } else { clock@[k] },
            decreases number_of_clock - i,
        {
            new_clock[i] = current_time;
            i = i + 1;
        }
        return new_clock;
    }

    /// Whether timed transition `t` fires for a matching with `clocks`.
    fn check_condition(current_time: usize, clocks: [usize; 5], t: &TNFA) -> (r: bool)
        requires
            cond_defined(t.clock_cond.0, current_time, clocks),
        ensures
            r == fires(current_time, clocks, *t),
    {
        let kind = t.clock_cond.0;
        let test = |ct: usize, c: [usize; 5], v: usize| -> (b: bool)
            requires
                cond_defined(kind, ct, c),
            ensures
                b == cond_holds(kind, ct, c, v),
            { kind.holds(ct, c, v) };
        TNFA::apply_function(current_time, clocks, t.clock_cond.1, test)
    }

    /// The clocks after transition `t` at `current_time`.
    fn reset_clocks(clocks: [usize; 5], t: &TNFA, current_time: usize) -> (r: [usize; 5])
        requires
            reset_index(*t) <= 5,
        ensures
            r == seq_to_clocks(set_clock_spec(clocks, reset_index(*t), current_time), clocks),
    {
        let r = TNFA::set_clock(clocks, t.clock_set as i8, current_time);
        assert(r =~= seq_to_clocks(set_clock_spec(clocks, reset_index(*t), current_time), clocks));
        r
    }

    /// One timed step at `current_time` on every matching: each matching is
    /// paired, in order, with every transition of `nfa_join` keyed by its own
    /// `(state, word)`; pairs whose clock condition fails are dropped, and the
    /// others move to the transition's next state with its clock reset.
    pub fn apply_nfa(current_time: usize, nfa_join: &Vec<((usize, usize), TNFA)>, current_matching: &Vec<Matching>) -> (res: Vec<Matching>)
        requires
            tnfa_step_defined(current_time, nfa_join@, current_matching@),
        ensures
            res@ == tnfa_step_spec(current_time, nfa_join@, current_matching@),
    {
        let first = mkeyed_by_state(current_matching);
        proof {
            broadcast use vstd::laws_eq::group_laws_eq;
        }
        let joined = hash_join(first.as_slice(), nfa_join.as_slice());
        let ghost p = |t: (Matching, (usize, usize), TNFA)| fires(current_time, t.0.clocks, t.2);
        let ghost f = |t: (Matching, (usize, usize), TNFA)| after_step(current_time, t.0, t.2);
        let mut res: Vec<Matching> = Vec::new();
        let mut i: usize = 0;
        while i < joined.len()
            invariant
                i <= joined@.len(),
                joined@ == join_spec(state_keyed(current_matching@), nfa_join@),
                tnfa_step_defined(current_time, nfa_join@, current_matching@),
                p == (|t: (Matching, (usize, usize), TNFA)| fires(current_time, t.0.clocks, t.2)),
                f == (|t: (Matching, (usize, usize), TNFA)| after_step(current_time, t.0, t.2)),
                res@ == joined@.take(i as int).filter(p).map_values(f),
            decreases joined@.len() - i,
        {
            let (m, _, tnfa) = joined[i];
            proof {
                crate::seqs::lemma_filter_take_step(joined@, p, i as int);
                assert(step_defined(current_time, joined@[i as int].0.clocks, joined@[i as int].2));
            }
            if TNFA::check_condition(current_time, m.clocks, &tnfa) {
                let clocks = TNFA::reset_clocks(m.clocks, &tnfa, current_time);
                res.push(Matching {
                    mid: m.mid,
                    eid: m.eid,
                    first: m.first,
                    last: m.last,
                    match_size: m.match_size,
                    state: tnfa.nfa.next_state,
                    word: m.word,
                    clocks,
                });
            }
            assert(res@ =~= joined@.take(i + 1).filter(p).map_values(f));
            i = i + 1;
        }
        assert(joined@.take(joined@.len() as int) =~= joined@);
        return res;
    }

    /// Whether a timed step at `current_time` on `current_matching` can be
    /// evaluated: no clock condition it meets underflows, and every
    /// transition that fires resets a clock that exists.
    pub fn step_is_defined(current_time: usize, nfa_join: &Vec<((usize, usize), TNFA)>, current_matching: &Vec<Matching>) -> (r: bool)
        ensures
            r == tnfa_step_defined(current_time, nfa_join@, current_matching@),
    {
        let first = mkeyed_by_state(current_matching);
        proof {
            broadcast use vstd::laws_eq::group_laws_eq;
        }
        let joined = hash_join(first.as_slice(), nfa_join.as_slice());
        let mut i: usize = 0;
        while i < joined.len()
            invariant
                i <= joined@.len(),
                joined@ == join_spec(state_keyed(current_matching@), nfa_join@),
                forall|k: int| 0 <= k < i ==> #[trigger] step_defined(current_time, joined@[k].0.clocks, joined@[k].2),
            decreases joined@.len() - i,
        {
            let (m, _, tnfa) = joined[i];
            let defined = match tnfa.clock_cond.0 {
                ClockCondition::Xpass0 | ClockCondition::Xpass1 => m.clocks[0] <= current_time,
                _ => true,
            };
            if !defined {
                assert(!step_defined(current_time, joined@[i as int].0.clocks, joined@[i as int].2));
                return false;
            }
            let reset: i8 = tnfa.clock_set as i8;
            if TNFA::check_condition(current_time, m.clocks, &tnfa) && reset > 5 {
                assert(!step_defined(current_time, joined@[i as int].0.clocks, joined@[i as int].2));
                return false;
            }
            i = i + 1;
        }
        true
    }

    /// One timed step as `apply_nfa` takes it, or `None` where the step cannot
    /// be evaluated (a clock condition would underflow, or a transition that
    /// fires names a clock that does not exist).
    pub fn try_apply_nfa(current_time: usize, nfa_join: &Vec<((usize, usize), TNFA)>, current_matching: &Vec<Matching>) -> (res: Option<Vec<Matching>>)
        ensures
            match res {
                Some(v) => tnfa_step_defined(current_time, nfa_join@, current_matching@)
                    && v@ == tnfa_step_spec(current_time, nfa_join@, current_matching@),
                None => !tnfa_step_defined(current_time, nfa_join@, current_matching@),
            },
    {
        if TNFA::step_is_defined(current_time, nfa_join, current_matching) {
            Some(TNFA::apply_nfa(current_time, nfa_join, current_matching))
        } else {
            None
        }
    }

    /// One timed step at `current_time` on every partial matching, as
    /// `apply_nfa` does on matchings.
    pub fn apply_partial_nfa(current_time: usize, nfa_join: &Vec<((usize, usize), TNFA)>, matching: &Vec<PMatching>) -> (res: Vec<PMatching>)
        requires
            ptnfa_step_defined(current_time, nfa_join@, matching@),
        ensures
            res@ == ptnfa_step_spec(current_time, nfa_join@, matching@),
    {
        let first = pkeyed_by_state(matching);
        proof {
            broadcast use vstd::laws_eq::group_laws_eq;
        }
        let joined = hash_join(first.as_slice(), nfa_join.as_slice());
        let ghost p = |t: (PMatching, (usize, usize), TNFA)| fires(current_time, t.0.clocks, t.2);
        let ghost f = |t: (PMatching, (usize, usize), TNFA)| pafter_step(current_time, t.0, t.2);
        let mut res: Vec<PMatching> = Vec::new();
        let mut i: usize = 0;
        while i < joined.len()
            invariant
                i <= joined@.len(),
                joined@ == join_spec(pstate_keyed(matching@), nfa_join@),
                ptnfa_step_defined(current_time, nfa_join@, matching@),
                p == (|t: (PMatching, (usize, usize), TNFA)| fires(current_time, t.0.clocks, t.2)),
                f == (|t: (PMatching, (usize, usize), TNFA)| pafter_step(current_time, t.0, t.2)),
                res@ == joined@.take(i as int).filter(p).map_values(f),
            decreases joined@.len() - i,
        {
            let (c, _, tnfa) = joined[i];
            proof {
                crate::seqs::lemma_filter_take_step(joined@, p, i as int);
                assert(step_defined(current_time, joined@[i as int].0.clocks, joined@[i as int].2));
            }
            if TNFA::check_condition(current_time, c.clocks, &tnfa) {
                let clocks = TNFA::reset_clocks(c.clocks, &tnfa, current_time);
                res.push(PMatching {
                    mid: c.mid,
                    eid: c.eid,
                    first: c.first,
                    last: c.last,
                    match_size: c.match_size,
                    head: c.head,
                    head_idx: c.head_idx,
                    tail: c.tail,
                    tail_idx: c.tail_idx,
                    state: tnfa.nfa.next_state,
                    word: c.word,
                    clocks,
                });
            }
            assert(res@ =~= joined@.take(i + 1).filter(p).map_values(f));
            i = i + 1;
        }
        assert(joined@.take(joined@.len() as int) =~= joined@);
        return res;
    }
}

} // verus!
