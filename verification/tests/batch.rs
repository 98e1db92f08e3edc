use ferrosim::{atom_work_items, group_by_system, TaggedPair};

#[test]
fn work_items_cover_every_atom_system_by_system() {
    assert_eq!(atom_work_items(&vec![2, 0, 3]), vec![(0, 0), (0, 1), (2, 0), (2, 1), (2, 2)]);
    assert!(atom_work_items(&vec![]).is_empty());
    assert!(atom_work_items(&vec![0, 0]).is_empty());
}

#[test]
fn grouping_keeps_each_system_in_stream_order() {
    let stream: Vec<TaggedPair> = vec![
        (1, 0, 1, [0, 0, 0]),
        (0, 2, 3, [1, 0, 0]),
        (1, 1, 0, [0, 0, 0]),
        (0, 3, 2, [-1, 0, 0]),
    ];
    let out = group_by_system(3, stream);
    assert_eq!(out.len(), 3);
    assert_eq!(out[0].pairs(), vec![(2, 3, [1, 0, 0]), (3, 2, [-1, 0, 0])]);
    assert_eq!(out[1].pairs(), vec![(0, 1, [0, 0, 0]), (1, 0, [0, 0, 0])]);
    assert!(out[2].is_empty());
}

#[test]
fn grouping_an_empty_batch() {
    assert!(group_by_system(0, vec![]).is_empty());
    let out = group_by_system(2, vec![]);
    assert!(out[0].is_empty() && out[1].is_empty());
}
