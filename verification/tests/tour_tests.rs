use traveler::tour::{
    contains_node, extend_with_range, insert_node, move_circular_segment, move_segment_after,
    permute_triple, positions_in_tour, push_range, reinsert_node, reverse_range, reverse_segment,
    reversed_window, rotate_skipping, circular_segment, without_circular_segment, sort_ascending,
    splice, swap_remove_first, unvisited_nodes,
};

fn sorted(v: &[usize]) -> Vec<usize> {
    let mut s = v.to_vec();
    s.sort();
    s
}

#[test]
fn reverse_range_reverses_inner_stretch() {
    let mut p: Vec<usize> = (0..6).collect();
    reverse_range(&mut p, 1, 4);
    assert_eq!(p, vec![0, 4, 3, 2, 1, 5]);
}

#[test]
fn reverse_range_twice_restores_tour() {
    let original = vec![5, 2, 7, 1, 0, 3, 6, 4];
    let mut p = original.clone();
    reverse_range(&mut p, 2, 6);
    assert_ne!(p, original);
    reverse_range(&mut p, 2, 6);
    assert_eq!(p, original);
}

#[test]
fn reverse_range_single_position_is_identity() {
    let mut p = vec![3, 1, 2];
    reverse_range(&mut p, 1, 1);
    assert_eq!(p, vec![3, 1, 2]);
}

#[test]
fn insert_node_places_node_before_position() {
    let mut p = vec![0, 1, 2];
    insert_node(&mut p, 1, 7);
    assert_eq!(p, vec![0, 7, 1, 2]);
    insert_node(&mut p, 4, 9);
    assert_eq!(p, vec![0, 7, 1, 2, 9]);
}

#[test]
fn reinsert_node_moves_one_node() {
    let mut p = vec![0, 1, 2, 3, 4];
    reinsert_node(&mut p, 1, 3);
    assert_eq!(p, vec![0, 2, 3, 1, 4]);
    reinsert_node(&mut p, 4, 0);
    assert_eq!(p, vec![4, 0, 2, 3, 1]);
}

#[test]
fn circular_segment_wraps_round() {
    let p = vec![10, 11, 12, 13, 14];
    assert_eq!(circular_segment(&p, 3, 4), vec![13, 14, 10, 11]);
    assert_eq!(circular_segment(&p, 1, 2), vec![11, 12]);
    assert_eq!(circular_segment(&p, 2, 0), Vec::<usize>::new());
}

#[test]
fn without_circular_segment_keeps_the_rest_in_order() {
    let p = vec![10, 11, 12, 13, 14];
    assert_eq!(without_circular_segment(&p, 1, 2), vec![10, 13, 14]);
    assert_eq!(without_circular_segment(&p, 3, 4), vec![12]);
    assert_eq!(without_circular_segment(&p, 4, 1), vec![10, 11, 12, 13]);
}

#[test]
fn splice_places_segment_before_position() {
    let reduced = vec![1, 2, 3];
    let seg = vec![8, 9];
    assert_eq!(splice(&reduced, 0, &seg), vec![8, 9, 1, 2, 3]);
    assert_eq!(splice(&reduced, 2, &seg), vec![1, 2, 8, 9, 3]);
    assert_eq!(splice(&reduced, 3, &seg), vec![1, 2, 3, 8, 9]);
}

#[test]
fn move_circular_segment_is_or_opt() {
    let p = vec![0, 1, 2, 3, 4, 5];
    let r = move_circular_segment(&p, 1, 2, 3);
    assert_eq!(r, vec![0, 3, 4, 1, 2, 5]);
    assert_eq!(sorted(&r), p);
    let w = move_circular_segment(&p, 5, 2, 1);
    assert_eq!(w, vec![1, 5, 0, 2, 3, 4]);
    assert_eq!(sorted(&w), p);
}

#[test]
fn move_segment_after_is_linear_or_opt() {
    let p = vec![0, 1, 2, 3, 4, 5];
    let r = move_segment_after(&p, 1, 2, 2);
    assert_eq!(r, vec![0, 3, 4, 1, 2, 5]);
    assert_eq!(sorted(&r), p);
}

#[test]
fn permute_triple_applies_each_permutation() {
    let expected = [
        vec![7, 8, 9, 0],
        vec![7, 9, 8, 0],
        vec![8, 7, 9, 0],
        vec![8, 9, 7, 0],
        vec![9, 7, 8, 0],
        vec![9, 8, 7, 0],
    ];
    for p in 0..6 {
        let mut t = vec![7, 8, 9, 0];
        permute_triple(&mut t, 0, 1, 2, p);
        assert_eq!(t, expected[p]);
    }
    let mut wrap = vec![1, 2, 3, 4];
    permute_triple(&mut wrap, 3, 0, 1, 5);
    assert_eq!(wrap, vec![1, 4, 3, 2]);
}

#[test]
fn unvisited_nodes_lists_missing_in_order() {
    let p = vec![3, 0, 5];
    assert_eq!(unvisited_nodes(&p, 6), vec![1, 2, 4]);
    assert_eq!(unvisited_nodes(&vec![0, 1, 2], 3), Vec::<usize>::new());
    assert_eq!(unvisited_nodes(&vec![], 2), vec![0, 1]);
}

#[test]
fn contains_node_finds_entries() {
    let p = vec![4, 2, 9];
    assert!(contains_node(&p, 9));
    assert!(!contains_node(&p, 3));
}

#[test]
fn extend_with_range_appends_identity() {
    let mut p = vec![7];
    extend_with_range(&mut p, 3);
    assert_eq!(p, vec![7, 0, 1, 2]);
}

#[test]
fn positions_invert_a_tour() {
    let p = vec![2, 0, 3, 1];
    let pos = positions_in_tour(&p);
    assert_eq!(pos, vec![1, 3, 0, 2]);
    for (i, &node) in p.iter().enumerate() {
        assert_eq!(pos[node], i);
    }
    let dup = vec![1, 1, 0];
    assert_eq!(positions_in_tour(&dup), vec![2, 1, 0]);
}

#[test]
fn swap_remove_first_moves_last_entry_in() {
    let mut pool = vec![5, 6, 7, 6, 8];
    swap_remove_first(&mut pool, 6);
    assert_eq!(pool, vec![5, 8, 7, 6]);
    swap_remove_first(&mut pool, 42);
    assert_eq!(pool, vec![5, 8, 7, 6]);
}

#[test]
fn reversed_window_wraps_round() {
    let p = vec![0, 1, 2, 3, 4, 5];
    assert_eq!(reversed_window(&p, 4, 4), vec![5, 4, 2, 3, 1, 0]);
    assert_eq!(reversed_window(&p, 1, 3), vec![0, 3, 2, 1, 4, 5]);
}

#[test]
fn reverse_segment_matches_window_and_skips_full_cycle() {
    let p: Vec<usize> = (0..6).collect();
    let mut a = p.clone();
    reverse_segment(&mut a, 4, 1);
    assert_eq!(a, reversed_window(&p, 4, 4));
    let mut b = p.clone();
    reverse_segment(&mut b, 2, 1);
    assert_eq!(b, p);
    let mut c = p.clone();
    reverse_segment(&mut c, 1, 3);
    assert_eq!(c, vec![0, 3, 2, 1, 4, 5]);
}

#[test]
fn rotate_skipping_drops_the_following_entries() {
    let p = vec![10, 11, 12, 13, 14, 15];
    assert_eq!(rotate_skipping(&p, 4, 2), vec![14, 11, 12, 13]);
    assert_eq!(rotate_skipping(&p, 0, 3), vec![10, 14, 15]);
}

#[test]
fn sort_ascending_sorts() {
    let mut v = vec![9, 2, 7, 2, 0];
    sort_ascending(&mut v);
    assert_eq!(v, vec![0, 2, 2, 7, 9]);
}

#[test]
fn push_range_appends_slice() {
    let mut out = vec![1];
    push_range(&mut out, &vec![5, 6, 7, 8], 1, 3);
    assert_eq!(out, vec![1, 6, 7]);
}
