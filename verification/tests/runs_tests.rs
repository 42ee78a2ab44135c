use tbgp::active::Active;
use tbgp::edge::Edge;
use tbgp::matching::Matching;
use tbgp::multi_state::multi_state_run;
use tbgp::nfa::NFA;
use tbgp::on_demand::on_demand_run;
use tbgp::runs::{baseline_run, transitions_by_state};
use tbgp::tnfa::{ClockCondition, TNFA};

fn plain(c: usize, w: usize, n: usize) -> TNFA {
    TNFA { nfa: NFA::new(c, w, n, 0), clock_set: 0, clock_cond: (ClockCondition::AllTrue, 0) }
}

/// Edge 1 then edge 2 active reads `10` then `01`; state 2 keeps on `00`.
fn automaton() -> Vec<TNFA> {
    vec![plain(0, 10, 1), plain(1, 1, 2), plain(2, 0, 2), plain(0, 0, 0)]
}

fn path() -> Vec<Matching> {
    Matching::path_two(vec![Edge::new(1, 1, 2, 0, 1), Edge::new(2, 2, 3, 0, 2)])
}

fn activity() -> Vec<Active> {
    vec![Active::new(1, 1), Active::new(2, 2), Active::new(0, 3)]
}

#[test]
fn transitions_are_keyed_by_state_and_word() {
    let keyed = transitions_by_state(&automaton());
    let keys: Vec<(usize, usize)> = keyed.iter().map(|(k, _)| *k).collect();
    assert_eq!(keys, vec![(0, 10), (1, 1), (2, 0), (0, 0)]);
    assert_eq!(keyed[1].1.nfa.next_state, 2);
}

#[test]
fn baseline_run_follows_each_matching_from_its_first_edge() {
    let matching = path();
    assert_eq!(matching.len(), 1);
    let run = baseline_run(&matching, &activity(), &transitions_by_state(&automaton()), 2).unwrap();
    assert_eq!(run.current_time, 3);
    assert_eq!(run.current_active, vec![0]);
    assert_eq!(run.accepted, 2);
    assert_eq!(run.current_matching.len(), 1);
    let m = run.current_matching[0];
    assert_eq!((m.eid, m.state, m.word, m.clocks), ([1, 2, 0, 0, 0], 2, 0, [0; 5]));
}

#[test]
fn baseline_run_drops_matchings_without_a_transition() {
    let nfa = vec![plain(0, 10, 1), plain(1, 1, 2)];
    let run = baseline_run(&path(), &activity(), &transitions_by_state(&nfa), 2).unwrap();
    assert_eq!(run.accepted, 1);
    assert!(run.current_matching.is_empty());
}

#[test]
fn baseline_run_refuses_words_of_more_than_five_edges() {
    assert!(baseline_run(&path(), &activity(), &transitions_by_state(&automaton()), 6).is_none());
    let none: Vec<Matching> = vec![];
    assert!(baseline_run(&none, &activity(), &transitions_by_state(&automaton()), 6).is_some());
}

#[test]
fn baseline_run_refuses_a_clock_condition_that_underflows() {
    let mut matching = path();
    matching[0].clocks = [7, 0, 0, 0, 0];
    let mut nfa = automaton();
    nfa[0].clock_cond = (ClockCondition::Xpass0, 3);
    assert!(baseline_run(&matching, &activity(), &transitions_by_state(&nfa), 2).is_none());
    assert!(TNFA::try_apply_nfa(1, &transitions_by_state(&nfa), &vec![Matching { word: 10, ..matching[0] }]).is_none());
    assert!(TNFA::step_is_defined(9, &transitions_by_state(&nfa), &vec![Matching { word: 10, ..matching[0] }]));
}

#[test]
fn on_demand_run_catches_up_each_matching_at_its_last_edge() {
    let run = on_demand_run(&path(), &activity(), &transitions_by_state(&automaton()), 2).unwrap();
    assert_eq!(run.current_time, 3);
    assert_eq!(run.accepted, 0);
    let times: Vec<usize> = run.history.iter().map(|(t, _)| *t).collect();
    assert_eq!(times, vec![0, 1, 2]);
    assert_eq!(run.history[1].1, vec![1]);
    assert!(run.current_matching.is_empty());
    assert_eq!(run.all_matching.len(), 1);
    let m = run.all_matching[0];
    assert_eq!((m.eid, m.state, m.word), ([1, 2, 0, 0, 0], 2, 0));
}

#[test]
fn multi_state_run_follows_state_lists() {
    let nfa = vec![
        NFA::new(0, 10, 1, 0),
        NFA::new(0, 10, 1, 0),
        NFA::new(0, 10, 3, 0),
        NFA::new(1, 1, 2, 0),
        NFA::new(3, 1, 2, 0),
    ];
    let run = multi_state_run(&path(), &activity(), &nfa, 2).unwrap();
    assert_eq!(run.current_time, 3);
    assert_eq!(run.current_matching.len(), 1);
    // 0 -> [1, 1, 3] -> [1, 3] -> [2, 2] -> [2]
    assert_eq!(run.current_matching[0].state, vec![2]);
    let none = multi_state_run(&path(), &activity(), &nfa[..3].to_vec(), 2).unwrap();
    assert!(none.current_matching.is_empty());
}
