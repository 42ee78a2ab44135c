use std::collections::HashSet;
use tbgp::edge::Edge;
use tbgp::matching::{Matching, PMatching};

/// (mid, eid, first, last, match_size)
fn sig(m: &Matching) -> (usize, [usize; 5], usize, usize, usize) {
    (m.mid, m.eid, m.first, m.last, m.match_size)
}

fn sigs(ms: &[Matching]) -> Vec<(usize, [usize; 5], usize, usize, usize)> {
    ms.iter().map(sig).collect()
}

fn fresh(ms: &[Matching]) -> bool {
    ms.iter().all(|m| m.state == 0 && m.word == 0 && m.clocks == [0; 5])
}

fn graph() -> Vec<Edge> {
    vec![
        Edge::new(1, 1, 2, 0, 5),
        Edge::new(2, 2, 1, 0, 3),
        Edge::new(3, 2, 3, 0, 7),
        Edge::new(4, 3, 1, 0, 2),
    ]
}

fn chain(n: usize) -> Vec<Edge> {
    (1..=n).map(|i| Edge::new(i, i, i + 1, 0, i)).collect()
}

#[test]
fn new_matching_is_fresh() {
    let m = Matching::new(4, [1, 2, 3, 0, 0], 7, 3, 9);
    assert_eq!(sig(&m), (4, [1, 2, 3, 0, 0], 7, 9, 3));
    assert!(fresh(&[m]));
}

#[test]
fn empty_match_is_one_zero_matching() {
    let ms = Matching::empty_match();
    assert_eq!(sigs(&ms), vec![(0, [0; 5], 0, 0, 0)]);
    assert!(fresh(&ms));
}

#[test]
fn find_first_and_last_of_arrays() {
    assert_eq!(Matching::find_first_arr([4, 2, 9, 2, 7]), 2);
    assert_eq!(Matching::find_last_arr([4, 2, 9, 2, 7]), 9);
}

#[test]
fn find_first_and_last_of_edges() {
    let es = graph();
    let refs: Vec<&Edge> = es.iter().collect();
    assert_eq!(Matching::find_first(&refs), 2);
    assert_eq!(Matching::find_last(&refs), 7);
}

#[test]
fn path_two_lists_every_two_edge_path() {
    let ms = Matching::path_two(graph());
    assert_eq!(
        sigs(&ms),
        vec![
            (1, [1, 2, 0, 0, 0], 3, 5, 2),
            (2, [1, 3, 0, 0, 0], 5, 7, 2),
            (3, [2, 1, 0, 0, 0], 3, 5, 2),
            (4, [3, 4, 0, 0, 0], 2, 7, 2),
            (5, [4, 1, 0, 0, 0], 2, 5, 2),
        ]
    );
    assert!(fresh(&ms));
}

#[test]
fn cycle_two_keeps_the_paths_that_return() {
    let ms = Matching::cycle_two(graph());
    assert_eq!(sigs(&ms), vec![(1, [1, 2, 0, 0, 0], 3, 5, 2), (2, [2, 1, 0, 0, 0], 3, 5, 2)]);
}

#[test]
fn stars_of_two_order_their_edge_ids() {
    let star = vec![Edge::new(1, 0, 1, 0, 4), Edge::new(2, 0, 2, 0, 6), Edge::new(3, 0, 3, 0, 5)];
    let ms = Matching::in_star_two(star.clone());
    assert_eq!(
        sigs(&ms),
        vec![(1, [1, 2, 0, 0, 0], 4, 6, 2), (2, [1, 3, 0, 0, 0], 4, 5, 2), (3, [2, 3, 0, 0, 0], 5, 6, 2)]
    );
    let flipped: Vec<Edge> = star.iter().map(|e| Edge::new(e.eid, e.dst, e.src, 0, e.first)).collect();
    assert_eq!(sigs(&Matching::out_star_two(flipped)), sigs(&ms));
}

#[test]
fn stars_of_three_keep_the_candidate_numbers() {
    let star = vec![Edge::new(1, 0, 1, 0, 4), Edge::new(2, 0, 2, 0, 6), Edge::new(3, 0, 3, 0, 5)];
    let ms = Matching::in_star_three(star.clone());
    assert_eq!(sigs(&ms), vec![(3, [1, 2, 3, 0, 0], 4, 6, 3)]);
    let flipped: Vec<Edge> = star.iter().map(|e| Edge::new(e.eid, e.dst, e.src, 0, e.first)).collect();
    assert_eq!(sigs(&Matching::out_star_three(flipped)), sigs(&ms));
}

#[test]
fn paths_of_three_and_four() {
    assert_eq!(sigs(&Matching::path_three(chain(3))), vec![(1, [1, 2, 3, 0, 0], 1, 3, 3)]);
    assert_eq!(sigs(&Matching::path_three(chain(4))).len(), 2);
    assert_eq!(sigs(&Matching::path_four(chain(4))), vec![(1, [1, 2, 3, 4, 0], 1, 4, 4)]);
    assert_eq!(sigs(&Matching::path_four(chain(5))), vec![(1, [1, 2, 3, 4, 0], 1, 4, 4), (2, [2, 3, 4, 5, 0], 2, 5, 4)]);
    assert!(Matching::path_four(chain(3)).is_empty());
}

#[test]
fn triangles_close_paths_with_common_nodes() {
    let ms = Matching::triangles_woj(graph());
    assert_eq!(
        sigs(&ms),
        vec![(1, [1, 3, 4, 0, 0], 2, 7, 3), (2, [3, 4, 1, 0, 0], 2, 7, 3), (3, [4, 1, 3, 0, 0], 2, 7, 3)]
    );
}

#[test]
fn triangles_with_a_parallel_edge() {
    // a second edge 3 -> 1: the common nodes of a node are taken once, the
    // first parallel edge stands for the link, and the walk over out-links
    // visits both parallel edges
    let mut es = graph();
    es.push(Edge::new(5, 3, 1, 0, 9));
    let ms = Matching::triangles_woj(es);
    assert_eq!(
        sigs(&ms),
        vec![
            (1, [1, 3, 4, 0, 0], 2, 7, 3),
            (2, [3, 4, 1, 0, 0], 2, 7, 3),
            (3, [4, 1, 3, 0, 0], 2, 7, 3),
            (4, [4, 1, 3, 0, 0], 2, 7, 3),
        ]
    );
}

#[test]
fn rectangles_of_a_square() {
    let sq = vec![Edge::new(1, 1, 2, 0, 1), Edge::new(2, 2, 3, 0, 2), Edge::new(3, 3, 4, 0, 3), Edge::new(4, 4, 1, 0, 4)];
    let ms = Matching::rectangle_woj(sq);
    assert_eq!(
        sigs(&ms),
        vec![
            (1, [1, 2, 3, 4, 0], 1, 4, 4),
            (2, [2, 3, 4, 1, 0], 1, 4, 4),
            (3, [3, 4, 1, 2, 0], 1, 4, 4),
            (4, [4, 1, 2, 3, 0], 1, 4, 4),
        ]
    );
}

#[test]
fn match_gen_dispatches_on_the_pattern_name() {
    let g = graph();
    assert_eq!(sigs(&Matching::MatchGen(g.clone(), &"path2".to_string())), sigs(&Matching::path_two(g.clone())));
    assert_eq!(sigs(&Matching::MatchGen(g.clone(), &"triangles_WOJ".to_string())), sigs(&Matching::triangles_woj(g.clone())));
    assert_eq!(sigs(&Matching::MatchGen(g.clone(), &"instar_2".to_string())), sigs(&Matching::in_star_two(g.clone())));
    assert_eq!(sigs(&Matching::MatchGen(g.clone(), &"path3".to_string())), sigs(&Matching::path_three(g.clone())));
    assert_eq!(sigs(&Matching::MatchGen(g.clone(), &"anything".to_string())), sigs(&Matching::cycle_two(g.clone())));
    assert_eq!(sigs(&Matching::MatchGen(g.clone(), &"cycle_two".to_string())), sigs(&Matching::cycle_two(g)));
}

#[test]
fn every_generated_matching_is_well_timed() {
    let g = graph();
    for p in ["instar_2", "outstar_2", "instar_3", "outstar_3", "triangles_WOJ", "rectangle_woj", "path4", "path3", "path2", "x"] {
        for m in Matching::MatchGen(g.clone(), &p.to_string()) {
            assert!(m.first <= m.last);
        }
    }
}

#[test]
fn every_generated_matching_is_fresh() {
    let mut g = graph();
    g.push(Edge::new(5, 2, 4, 0, 1));
    g.push(Edge::new(6, 2, 5, 0, 8));
    for p in ["instar_2", "outstar_2", "instar_3", "outstar_3", "triangles_WOJ", "rectangle_woj", "path4", "path3", "path2", "x"] {
        let ms = Matching::MatchGen(g.clone(), &p.to_string());
        assert!(fresh(&ms));
    }
}

#[test]
fn path_two_dm_numbers_the_new_paths_after_eid() {
    let (n, ms) = Matching::path_two_dm(10, vec![Edge::new(1, 1, 2, 0, 1)], vec![Edge::new(2, 2, 3, 0, 2)]);
    assert_eq!(n, 11);
    assert_eq!(sigs(&ms), vec![(11, [1, 2, 0, 0, 0], 1, 2, 2)]);
}

#[test]
fn path_two_dm_from_nothing_is_path_two() {
    let (n, ms) = Matching::path_two_dm(0, vec![], graph());
    let full = Matching::path_two(graph());
    assert_eq!(n, full.len());
    assert_eq!(sigs(&ms), sigs(&full));
}

#[test]
fn cycle_two_dm_adds_both_directions() {
    let (n, ms) = Matching::cycle_two_dm(0, vec![Edge::new(1, 1, 2, 0, 5)], vec![Edge::new(2, 2, 1, 0, 3)]);
    assert_eq!(n, 2);
    assert_eq!(sigs(&ms), vec![(1, [1, 2, 0, 0, 0], 3, 5, 2), (2, [2, 1, 0, 0, 0], 3, 5, 2)]);
}

#[test]
fn cycle_two_dm_from_nothing_is_cycle_two() {
    let (n, ms) = Matching::cycle_two_dm(0, vec![], graph());
    let full = Matching::cycle_two(graph());
    assert_eq!(n, full.len());
    assert_eq!(sigs(&ms), sigs(&full));
}

/// The matchings apart from their numbers, sorted.
fn unnumbered(ms: &[Matching]) -> Vec<([usize; 5], usize, usize, usize)> {
    let mut v: Vec<_> = ms.iter().map(|m| (m.eid, m.first, m.last, m.match_size)).collect();
    v.sort();
    v
}

#[test]
fn path_two_dm_completes_the_old_paths() {
    let g = graph();
    let (e, de) = (g[..2].to_vec(), g[2..].to_vec());
    let (_, delta) = Matching::path_two_dm(7, e.clone(), de.clone());
    let mut both = Matching::path_two(e);
    both.extend(delta);
    assert_eq!(unnumbered(&both), unnumbered(&Matching::path_two(g)));
}

#[test]
fn cycle_two_dm_completes_the_old_cycles() {
    let mut g = graph();
    g.push(Edge::new(5, 1, 3, 0, 4));
    g.push(Edge::new(6, 1, 2, 0, 9));
    let (e, de) = (vec![g[0], g[4]], vec![g[1], g[2], g[3], g[5]]);
    let (_, delta) = Matching::cycle_two_dm(3, e.clone(), de.clone());
    let mut both = Matching::cycle_two(e);
    both.extend(delta);
    assert_eq!(unnumbered(&both), unnumbered(&Matching::cycle_two(g)));
    assert!(!both.is_empty());
}

#[test]
fn update_matching_keeps_listed_ids_and_resets_words() {
    let mut ms = Matching::path_two(graph());
    for m in ms.iter_mut() {
        m.word = 11;
        m.state = 2;
    }
    let mids: HashSet<usize> = [2, 4, 9].into_iter().collect();
    let r = Matching::update_matching(&ms, &mids);
    assert_eq!(r.iter().map(|m| m.mid).collect::<Vec<_>>(), vec![2, 4]);
    assert!(r.iter().all(|m| m.word == 0 && m.state == 2));
    let again = Matching::update_matching(&r, &mids);
    assert_eq!(sigs(&again), sigs(&r));
}

#[test]
fn fill_array_sets_one_position() {
    assert_eq!(PMatching::fill_array(7, 2, [1, 1, 1, 1, 1]), [1, 1, 7, 1, 1]);
    assert_eq!(PMatching::fill_array(7, 0, [0; 5]), [7, 0, 0, 0, 0]);
}

#[test]
fn fill_array_with_vec_overwrites_a_run() {
    assert_eq!(PMatching::fill_array_with_vec(vec![8, 9], 1, [1, 1, 1, 1, 1]), [1, 8, 9, 1, 1]);
    assert_eq!(PMatching::fill_array_with_vec(vec![], 5, [1, 2, 3, 4, 5]), [1, 2, 3, 4, 5]);
    assert_eq!(PMatching::fill_array_with_vec(vec![5, 6, 7], 2, [0; 5]), [0, 0, 5, 6, 7]);
}
