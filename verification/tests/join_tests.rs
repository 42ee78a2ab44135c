use tbgp::join::{hash_join, intersect};

#[test]
fn hash_join_pairs_rows_with_equal_keys_in_order() {
    let first = vec![(1usize, 'a'), (2, 'b'), (1, 'c')];
    let second = vec![(1usize, 10u32), (3, 30), (1, 11)];
    let r = hash_join(&first, &second);
    assert_eq!(r, vec![('a', 1, 10), ('a', 1, 11), ('c', 1, 10), ('c', 1, 11)]);
}

#[test]
fn hash_join_with_tuple_keys() {
    let first = vec![((0usize, 1usize), 7u8), ((1, 0), 8)];
    let second = vec![((1usize, 0usize), 'x'), ((0, 1), 'y'), ((0, 1), 'z')];
    let r = hash_join(&first, &second);
    assert_eq!(r, vec![(7, (0, 1), 'y'), (7, (0, 1), 'z'), (8, (1, 0), 'x')]);
}

#[test]
fn hash_join_with_an_empty_side_is_empty() {
    let first: Vec<(usize, u8)> = vec![(1, 1), (2, 2)];
    let none: Vec<(usize, u8)> = vec![];
    assert!(hash_join(&first, &none).is_empty());
    assert!(hash_join(&none, &first).is_empty());
}

#[test]
fn hash_join_membership_law_on_values() {
    // (a, k, b) is produced exactly for rows (k, a) and (k, b)
    let first = vec![(5usize, 1u8), (6, 2)];
    let second = vec![(6usize, 3u8), (5, 4), (7, 5)];
    let r = hash_join(&first, &second);
    assert_eq!(r.len(), 2);
    assert!(r.contains(&(1, 5, 4)));
    assert!(r.contains(&(2, 6, 3)));
    assert!(!r.iter().any(|t| t.1 == 7));
}

#[test]
fn intersect_keeps_common_values_once() {
    let mut r = intersect(&vec![1, 2, 2, 3, 5], &vec![5, 2, 7, 2]);
    r.sort();
    assert_eq!(r, vec![2, 5]);
}

#[test]
fn intersect_of_disjoint_lists_is_empty() {
    assert!(intersect(&vec![1, 2], &vec![3, 4]).is_empty());
    assert!(intersect(&vec![], &vec![3, 4]).is_empty());
}
