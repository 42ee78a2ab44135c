use tbgp::matching::{Matching, PMatching};
use tbgp::nfa::NFA;
use tbgp::tnfa::{ClockCondition, TNFA};

fn timed(c: usize, w: usize, n: usize, set: usize, kind: ClockCondition, bound: usize) -> ((usize, usize), TNFA) {
    ((c, w), TNFA { nfa: NFA::new(c, w, n, 0), clock_set: set, clock_cond: (kind, bound) })
}

fn at(state: usize, word: usize, clocks: [usize; 5], mid: usize) -> Matching {
    let mut m = Matching::new(mid, [1, 2, 0, 0, 0], 1, 2, 1);
    m.state = state;
    m.word = word;
    m.clocks = clocks;
    m
}

#[test]
fn set_clock_sets_one_clock_or_none() {
    assert_eq!(TNFA::set_clock([1, 2, 3, 4, 5], 2, 9), [1, 9, 3, 4, 5]);
    assert_eq!(TNFA::set_clock([1, 2, 3, 4, 5], 5, 9), [1, 2, 3, 4, 9]);
    assert_eq!(TNFA::set_clock([1, 2, 3, 4, 5], 0, 9), [1, 2, 3, 4, 5]);
    assert_eq!(TNFA::set_clock([1, 2, 3, 4, 5], -3, 9), [1, 2, 3, 4, 5]);
}

#[test]
fn set_all_clock_sets_a_prefix() {
    assert_eq!(TNFA::set_all_clock([1, 2, 3, 4, 5], 3, 0), [0, 0, 0, 4, 5]);
    assert_eq!(TNFA::set_all_clock([1, 2, 3, 4, 5], 0, 0), [1, 2, 3, 4, 5]);
}

#[test]
fn apply_function_calls_the_function() {
    assert!(TNFA::apply_function(10, [3, 0, 0, 0, 0], 8, |t: usize, c: [usize; 5], v: usize| t - c[0] < v));
    assert!(!TNFA::apply_function(10, [1, 0, 0, 0, 0], 8, |t: usize, c: [usize; 5], v: usize| t - c[0] < v));
}

#[test]
fn clock_conditions() {
    assert!(ClockCondition::AllTrue.holds(5, [0; 5], 0));
    assert!(!ClockCondition::AllFalse.holds(5, [0; 5], 0));
    assert!(ClockCondition::Xpass0.holds(10, [8, 0, 0, 0, 0], 3));
    assert!(!ClockCondition::Xpass0.holds(10, [5, 0, 0, 0, 0], 3));
    assert!(ClockCondition::Xpass0.holds(10, [0, 0, 0, 0, 0], 3));
    assert!(ClockCondition::Xpass1.holds(10, [5, 0, 0, 0, 0], 3));
    assert!(!ClockCondition::Xpass1.holds(10, [8, 0, 0, 0, 0], 3));
}

#[test]
fn add_state_to_matching_starts_every_id_at_state_zero() {
    let ms = vec![at(3, 1, [1; 5], 7), at(1, 0, [0; 5], 9)];
    let r = TNFA::add_state_to_matching(&ms);
    assert_eq!(r.iter().map(|s| (s.mid, s.state, s.clock)).collect::<Vec<_>>(), vec![(7, 0, [0; 5]), (9, 0, [0; 5])]);
}

#[test]
fn timed_step_filters_by_condition_and_resets_clocks() {
    let nfa_join = vec![
        timed(0, 1, 1, 1, ClockCondition::AllTrue, 0),
        timed(0, 1, 2, 0, ClockCondition::AllFalse, 0),
        timed(1, 1, 2, 2, ClockCondition::Xpass0, 3),
    ];
    let ms = vec![at(0, 1, [0; 5], 1), at(1, 1, [8, 0, 0, 0, 0], 2), at(1, 1, [2, 0, 0, 0, 0], 3)];
    let r = TNFA::apply_nfa(10, &nfa_join, &ms);
    assert_eq!(
        r.iter().map(|m| (m.mid, m.state, m.clocks)).collect::<Vec<_>>(),
        vec![(1, 1, [10, 0, 0, 0, 0]), (2, 2, [8, 10, 0, 0, 0])]
    );
}

#[test]
fn timed_step_without_timing_is_the_untimed_step() {
    let nfa_join = vec![timed(0, 1, 1, 0, ClockCondition::AllTrue, 0), timed(0, 1, 2, 0, ClockCondition::AllTrue, 4)];
    let plain: Vec<((usize, usize), (usize, usize))> = nfa_join.iter().map(|(k, t)| (*k, (t.nfa.next_state, t.nfa.accept))).collect();
    let ms = vec![at(0, 1, [3, 0, 0, 0, 0], 1), at(0, 0, [0; 5], 2), at(0, 1, [0; 5], 3)];
    let timed_r = TNFA::apply_nfa(7, &nfa_join, &ms);
    let plain_r = NFA::apply_nfa(&plain, &ms);
    let f = |v: &Vec<Matching>| v.iter().map(|m| (m.mid, m.state, m.word, m.clocks)).collect::<Vec<_>>();
    assert_eq!(f(&timed_r), f(&plain_r));
    assert_eq!(timed_r.len(), 4);
}

#[test]
fn timed_step_on_partial_matchings() {
    let p = PMatching {
        mid: 4,
        eid: [1, 0, 0, 0, 0],
        first: 1,
        last: 1,
        match_size: 1,
        head: 3,
        head_idx: -1,
        tail: 5,
        tail_idx: 1,
        state: 0,
        word: 1,
        clocks: [0; 5],
    };
    let nfa_join = vec![timed(0, 1, 3, 3, ClockCondition::AllTrue, 0), timed(0, 2, 1, 0, ClockCondition::AllTrue, 0)];
    let r = TNFA::apply_partial_nfa(6, &nfa_join, &vec![p]);
    assert_eq!(r.len(), 1);
    assert_eq!((r[0].mid, r[0].state, r[0].head, r[0].tail_idx, r[0].clocks), (4, 3, 3, 1, [0, 0, 6, 0, 0]));
}
