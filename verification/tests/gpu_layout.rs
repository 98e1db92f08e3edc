use ferrosim::{
    build_batch_layout, build_bin_grid, decode_gpu_pairs, initial_output_capacity,
    next_output_capacity, output_buffer_words, readback_words, workgroup_count, BinGrid,
    CapacityStep,
};

fn two_grids() -> Vec<BinGrid> {
    vec![
        // Two bins along x; atoms 0 and 2 in bin 1, atom 1 in bin 0.
        build_bin_grid(
            [2, 1, 1],
            [1, 1, 1],
            [true, true, false],
            vec![[1, 0, 0], [0, 0, 0], [1, 0, 0]],
            vec![[0, 0, 0], [1, 2, 3], [-1, 0, 0]],
        ),
        // One bin, one atom.
        build_bin_grid([1, 1, 1], [2, 1, 1], [false, false, false], vec![[0, 0, 0]], vec![[4, 5, 6]]),
    ]
}

#[test]
fn layout_numbers_atoms_system_after_system() {
    let l = build_batch_layout(&two_grids());
    assert_eq!(l.n_atoms_total, 4);
    assert_eq!(l.system_atom_offset, vec![0, 3]);
    assert_eq!(l.atom_system, vec![0, 0, 0, 1]);
    assert_eq!(l.floor_coord, vec![0, 0, 0, 1, 2, 3, -1, 0, 0, 4, 5, 6]);
    assert_eq!(l.atom_bin, vec![1, 0, 0, 0, 0, 0, 1, 0, 0, 0, 0, 0]);
}

#[test]
fn layout_describes_each_system() {
    let l = build_batch_layout(&two_grids());
    assert_eq!(l.sys_ints, vec![2, 1, 1, 1, 1, 1, 1, 1, 0, 0, 1, 1, 1, 1, 1, 1, 0, 0, 0, 3]);
}

#[test]
fn layout_bin_table_has_a_closing_entry_per_system() {
    let l = build_batch_layout(&two_grids());
    // System 0: bin 0 = [1], bin 1 = [0, 2], closing entry 3; system 1: bin 0 = [3], closing 4.
    assert_eq!(l.bin_start, vec![0, 1, 3, 3, 4]);
    assert_eq!(l.bin_atoms, vec![1, 0, 2, 3]);
}

#[test]
fn empty_batch_layout() {
    let l = build_batch_layout(&vec![]);
    assert_eq!(l.n_atoms_total, 0);
    assert!(l.bin_start.is_empty() && l.bin_atoms.is_empty() && l.sys_ints.is_empty());
}

#[test]
fn decode_renumbers_records_within_their_system() {
    let atom_system = vec![0, 0, 0, 1, 1];
    let offsets = vec![0, 3];
    let pairs = vec![4, 3, 0, 1, 0, 0, 2, -1, 0, 0, 3, 4, 0, 0, 1];
    let out = decode_gpu_pairs(3, &pairs, &atom_system, &offsets, 2).unwrap();
    assert_eq!(out[0].pairs(), vec![(0, 2, [-1, 0, 0])]);
    assert_eq!(out[1].pairs(), vec![(1, 0, [0, 1, 0]), (0, 1, [0, 0, 1])]);
}

#[test]
fn decode_refuses_output_that_names_no_atom_of_the_batch() {
    let atom_system = vec![0, 0, 1];
    let offsets = vec![0, 2];
    // Too short for two records.
    assert!(decode_gpu_pairs(2, &vec![0, 1, 0, 0, 0], &atom_system, &offsets, 2).is_none());
    // Source atom beyond the batch.
    assert!(decode_gpu_pairs(1, &vec![3, 0, 0, 0, 0], &atom_system, &offsets, 2).is_none());
    // Negative source atom.
    assert!(decode_gpu_pairs(1, &vec![-1, 0, 0, 0, 0], &atom_system, &offsets, 2).is_none());
    // Destination numbered before its system's first atom.
    assert!(decode_gpu_pairs(1, &vec![2, 1, 0, 0, 0], &atom_system, &offsets, 2).is_none());
    // No record: every system empty.
    let out = decode_gpu_pairs(0, &vec![], &atom_system, &offsets, 2).unwrap();
    assert!(out[0].is_empty() && out[1].is_empty());
}

#[test]
fn capacity_steps() {
    assert!(matches!(next_output_capacity(10, 10), CapacityStep::Accept));
    assert!(matches!(next_output_capacity(11, 10), CapacityStep::Grow(20)));
    assert!(matches!(next_output_capacity(u32::MAX, 1 << 28), CapacityStep::GiveUp));
    assert!(matches!(next_output_capacity(u32::MAX, (1 << 28) - 1), CapacityStep::Grow(536870910)));
    assert_eq!(initial_output_capacity(0), 1024);
    assert_eq!(initial_output_capacity(6), 1024);
    assert_eq!(initial_output_capacity(7), 1050);
    assert_eq!(initial_output_capacity(128), 19200);
}

#[test]
fn dispatch_and_buffer_sizes() {
    assert_eq!(workgroup_count(0), 1);
    assert_eq!(workgroup_count(64), 1);
    assert_eq!(workgroup_count(65), 2);
    assert_eq!(output_buffer_words(0), 5);
    assert_eq!(output_buffer_words(1024), 5120);
    assert_eq!(readback_words(3, 1024), 15);
    assert_eq!(readback_words(2000, 1024), 5120);
}
