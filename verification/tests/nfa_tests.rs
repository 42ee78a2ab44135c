use tbgp::active::Active;
use tbgp::matching::Matching;
use tbgp::nfa::NFA;

fn t(n: &NFA) -> (usize, usize, usize, usize) {
    (n.current_state, n.word, n.next_state, n.accept)
}

#[test]
fn new_transition_keeps_its_fields() {
    assert_eq!(t(&NFA::new(1, 10, 2, 1)), (1, 10, 2, 1));
}

#[test]
fn bool_to_usize_reads_flags_as_decimal_digits() {
    assert_eq!(NFA::bool_to_usize([true, false, true, false, false], 3), 101);
    assert_eq!(NFA::bool_to_usize([true, false, true, false, false], 5), 10100);
    assert_eq!(NFA::bool_to_usize([false, true, true, true, true], 5), 1111);
    assert_eq!(NFA::bool_to_usize([true; 5], 0), 0);
    assert_eq!(NFA::bool_to_usize([true; 5], 2), 11);
}

#[test]
fn gen_binary_number_lists_binary_decimal_numbers_in_order() {
    assert_eq!(NFA::gen_binary_number(1), vec![0, 1]);
    assert_eq!(NFA::gen_binary_number(2), vec![0, 1, 10, 11]);
    assert_eq!(NFA::gen_binary_number(3), vec![0, 1, 10, 11, 100, 101, 110, 111]);
    assert_eq!(NFA::gen_binary_number(5).len(), 32);
}

#[test]
fn every_word_is_a_listed_binary_number() {
    let all = NFA::gen_binary_number(4);
    for k in 0..32usize {
        let flags = [k & 16 != 0, k & 8 != 0, k & 4 != 0, k & 2 != 0, k & 1 != 0];
        assert!(all.contains(&NFA::bool_to_usize(flags, 4)));
    }
}

#[test]
fn gen_alpha_hash_gives_each_matching_its_word() {
    let active = vec![Active::new(3, 1), Active::new(0, 1), Active::new(7, 1)];
    let ms = vec![Matching::new(1, [1, 3, 0, 0, 0], 0, 2, 0), Matching::new(2, [7, 3, 0, 0, 0], 0, 2, 0)];
    assert_eq!(NFA::gen_alpha_hash(&active, &ms, 2), vec![(1, 1), (2, 11)]);
    // id 0 never counts as active
    assert_eq!(NFA::gen_alpha_hash(&active, &ms, 3), vec![(1, 10), (2, 110)]);
}

#[test]
fn apply_nfa_moves_each_matching_along_its_transitions() {
    let mut m = Matching::new(5, [1, 2, 0, 0, 0], 1, 2, 3);
    m.word = 1;
    let other = Matching::new(6, [3, 4, 0, 0, 0], 1, 2, 3);
    let nfa_join = vec![((0, 1), (1, 0)), ((0, 1), (2, 1)), ((1, 1), (0, 0))];
    let r = NFA::apply_nfa(&nfa_join, &vec![m, other]);
    assert_eq!(r.iter().map(|x| (x.mid, x.state, x.word)).collect::<Vec<_>>(), vec![(5, 1, 1), (5, 2, 1)]);
}

#[test]
fn alt_nfa_gen_without_and_with_loops() {
    let plain: Vec<_> = NFA::alt_nfa_gen(2, 2, false, false).iter().map(t).collect();
    assert_eq!(plain, vec![(0, 10, 1, 0), (1, 1, 2, 0), (2, 10, 0, 0)]);
    let looped: Vec<_> = NFA::alt_nfa_gen(2, 2, true, true).iter().map(t).collect();
    assert_eq!(
        looped,
        vec![(0, 0, 0, 0), (1, 0, 1, 0), (0, 10, 1, 0), (2, 0, 2, 0), (1, 1, 2, 0), (2, 10, 0, 0)]
    );
    let three: Vec<_> = NFA::alt_nfa_gen(0, 3, false, false).iter().map(t).collect();
    assert_eq!(three, vec![(0, 100, 0, 0)]);
}

#[test]
fn nfa_clock_gen_chains_clock_states() {
    let c0: Vec<_> = NFA::nfa_clock_gen(0).iter().map(t).collect();
    assert_eq!(c0, vec![(0, 0, 0, 0), (0, 1, 2, 0), (2, 10, 0, 1)]);
    let c2: Vec<_> = NFA::nfa_clock_gen(2).iter().map(t).collect();
    assert_eq!(
        c2,
        vec![(0, 0, 0, 0), (0, 1, 2, 0), (2, 10, 0, 1), (2, 0, 3, 0), (3, 10, 0, 1), (3, 0, 4, 0), (4, 10, 0, 1)]
    );
}
