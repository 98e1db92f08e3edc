use ferrosim::{NeighborList, PairEntry};

fn list_of(records: &[PairEntry]) -> NeighborList {
    let mut nl = NeighborList::default();
    for &(i, j, s) in records {
        nl.push(i, j, s);
    }
    nl
}

#[test]
fn default_list_is_empty() {
    let nl = NeighborList::default();
    assert!(nl.is_empty());
    assert_eq!(nl.len(), 0);
    assert!(nl.sorted().is_empty());
}

#[test]
fn push_appends_to_all_three_arrays() {
    let mut nl = NeighborList::default();
    nl.push(0, 1, [0, 0, 0]);
    nl.push(1, 0, [1, -1, 2]);
    assert_eq!(nl.len(), 2);
    assert!(!nl.is_empty());
    assert_eq!(nl.i, vec![0, 1]);
    assert_eq!(nl.j, vec![1, 0]);
    assert_eq!(nl.shift, vec![[0, 0, 0], [1, -1, 2]]);
    assert_eq!(nl.pairs(), vec![(0, 1, [0, 0, 0]), (1, 0, [1, -1, 2])]);
}

#[test]
fn sorted_is_lexicographic_over_i_j_and_shift() {
    let nl = list_of(&[
        (2, 0, [0, 0, 0]),
        (0, 1, [1, 0, 0]),
        (0, 1, [-1, 5, 5]),
        (0, 0, [0, 0, 1]),
        (0, 1, [1, 0, -3]),
        (0, 1, [-1, 5, 4]),
    ]);
    assert_eq!(
        nl.sorted(),
        vec![
            (0, 0, [0, 0, 1]),
            (0, 1, [-1, 5, 4]),
            (0, 1, [-1, 5, 5]),
            (0, 1, [1, 0, -3]),
            (0, 1, [1, 0, 0]),
            (2, 0, [0, 0, 0]),
        ]
    );
}

#[test]
fn sorted_matches_std_sort() {
    let mut records: Vec<PairEntry> = Vec::new();
    let mut x: u64 = 12345;
    for _ in 0..500 {
        x = x.wrapping_mul(6364136223846793005).wrapping_add(1442695040888963407);
        let i = ((x >> 33) % 7) as u32;
        let j = ((x >> 40) % 7) as u32;
        let s0 = ((x >> 20) % 5) as i32 - 2;
        let s1 = ((x >> 25) % 5) as i32 - 2;
        let s2 = ((x >> 30) % 5) as i32 - 2;
        records.push((i, j, [s0, s1, s2]));
    }
    let nl = list_of(&records);
    let mut expected = records.clone();
    expected.sort();
    assert_eq!(nl.sorted(), expected);
    assert_eq!(nl.len(), 500);
}

#[test]
fn sorted_forgets_the_order_of_discovery() {
    let a = list_of(&[(1, 0, [0, 0, -1]), (0, 1, [0, 0, 1]), (0, 0, [1, 0, 0])]);
    let b = list_of(&[(0, 0, [1, 0, 0]), (1, 0, [0, 0, -1]), (0, 1, [0, 0, 1])]);
    assert_ne!(a.pairs(), b.pairs());
    assert_eq!(a.sorted(), b.sorted());
}

#[test]
fn sorted_keeps_repeated_records() {
    let nl = list_of(&[(0, 1, [0, 0, 0]), (0, 1, [0, 0, 0]), (0, 0, [0, 0, 1])]);
    assert_eq!(nl.sorted(), vec![(0, 0, [0, 0, 1]), (0, 1, [0, 0, 0]), (0, 1, [0, 0, 0])]);
}

#[test]
fn push_pair_adds_the_mirror_record_for_distinct_atoms() {
    let mut nl = NeighborList::default();
    nl.push_pair(0, 3, [1, -2, 0]);
    assert_eq!(nl.pairs(), vec![(0, 3, [1, -2, 0]), (3, 0, [-1, 2, 0])]);
    nl.push_pair(2, 2, [0, 0, 1]);
    assert_eq!(nl.len(), 3);
    assert_eq!(nl.pairs()[2], (2, 2, [0, 0, 1]));
}

#[test]
fn push_kept_appends_marked_candidates_in_order() {
    let mut nl = NeighborList::default();
    nl.push(9, 9, [0, 0, 1]);
    let cands: Vec<PairEntry> = vec![(0, 1, [0, 0, 0]), (0, 2, [1, 0, 0]), (1, 2, [0, 1, 0])];
    nl.push_kept(&cands, &vec![true, false, true]);
    assert_eq!(nl.pairs(), vec![(9, 9, [0, 0, 1]), (0, 1, [0, 0, 0]), (1, 2, [0, 1, 0])]);
    nl.push_kept(&cands, &vec![false, false, false]);
    assert_eq!(nl.len(), 3);
}

#[test]
fn clone_and_equality_follow_the_records() {
    let a = list_of(&[(0, 1, [0, 0, 0])]);
    let b = a.clone();
    assert_eq!(a, b);
    let c = list_of(&[(1, 0, [0, 0, 0])]);
    assert_ne!(a, c);
}
