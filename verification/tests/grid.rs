use ferrosim::{bin_count, build_bin_grid, wrap_axis, BinGrid, PairEntry};

fn grid(
    num_bins: [usize; 3],
    shell: [i32; 3],
    pbc: [bool; 3],
    bins: Vec<[i32; 3]>,
    floors: Vec<[i32; 3]>,
) -> BinGrid {
    build_bin_grid(num_bins, shell, pbc, bins, floors)
}

#[test]
fn wrap_axis_periodic_wraps_and_counts_cells() {
    assert_eq!(wrap_axis(-1, 4, true), Some((3, -1)));
    assert_eq!(wrap_axis(0, 4, true), Some((0, 0)));
    assert_eq!(wrap_axis(9, 4, true), Some((1, 2)));
    assert_eq!(wrap_axis(-8, 4, true), Some((0, -2)));
    assert_eq!(wrap_axis(-9, 4, true), Some((3, -3)));
    assert_eq!(wrap_axis(5, 1, true), Some((0, 5)));
}

#[test]
fn wrap_axis_open_keeps_only_indices_inside_the_grid() {
    assert_eq!(wrap_axis(-1, 4, false), None);
    assert_eq!(wrap_axis(4, 4, false), None);
    assert_eq!(wrap_axis(0, 4, false), Some((0, 0)));
    assert_eq!(wrap_axis(3, 4, false), Some((3, 0)));
}

#[test]
fn bin_count_is_at_least_one() {
    assert_eq!(bin_count(0), 1);
    assert_eq!(bin_count(1), 1);
    assert_eq!(bin_count(7), 7);
}

#[test]
fn build_bin_grid_clamps_bins_and_limits_open_shells() {
    let g = grid(
        [0, 3, 2],
        [5, 5, 1],
        [true, false, true],
        vec![[-4, 7, 1], [0, 1, 9]],
        vec![[0, 0, 0], [1, -1, 2]],
    );
    assert_eq!(g.num_bins, [1, 3, 2]);
    assert_eq!(g.shell, [5, 3, 1]);
    assert_eq!(g.atom_bin, vec![[0, 2, 1], [0, 1, 1]]);
    assert_eq!(g.floor_coord, vec![[0, 0, 0], [1, -1, 2]]);
    assert_eq!(g.bins.len(), 6);
    // Linear id x + nx * (y + ny * z): atom 0 -> 0 + 1 * (2 + 3 * 1) = 5, atom 1 -> 4.
    assert_eq!(g.bins[5], vec![0]);
    assert_eq!(g.bins[4], vec![1]);
    for id in 0..4 {
        assert!(g.bins[id].is_empty());
    }
}

#[test]
fn bins_list_atoms_in_increasing_order() {
    let g = grid(
        [2, 1, 1],
        [1, 1, 1],
        [true, true, true],
        vec![[1, 0, 0], [0, 0, 0], [1, 0, 0], [1, 0, 0]],
        vec![[0, 0, 0]; 4],
    );
    assert_eq!(g.bins[0], vec![1]);
    assert_eq!(g.bins[1], vec![0, 2, 3]);
}

#[test]
fn single_atom_in_one_periodic_bin_sees_its_26_images() {
    let g = grid([1, 1, 1], [1, 1, 1], [true; 3], vec![[0, 0, 0]], vec![[0, 0, 0]]);
    let c = g.neighbor_candidates(0);
    assert_eq!(c.len(), 26);
    assert_eq!(c[0], (0, 0, [-1, -1, -1]));
    assert_eq!(c[25], (0, 0, [1, 1, 1]));
    assert!(!c.contains(&(0, 0, [0, 0, 0])));
    assert!(c.iter().all(|&(i, j, _)| i == 0 && j == 0));
}

#[test]
fn open_axes_search_no_image() {
    let g = grid([1, 1, 1], [1, 1, 1], [false; 3], vec![[0, 0, 0]], vec![[0, 0, 0]]);
    assert!(g.neighbor_candidates(0).is_empty());
}

#[test]
fn open_axis_misses_bins_beyond_the_shell() {
    // Atoms in bins 0 and 2 of an open axis with shell 1 never meet.
    let g = grid([3, 1, 1], [1, 1, 1], [false; 3], vec![[0, 0, 0], [2, 0, 0]], vec![[0, 0, 0]; 2]);
    assert!(g.neighbor_candidates(0).is_empty());
    assert!(g.neighbor_candidates(1).is_empty());
}

#[test]
fn periodic_axis_meets_across_the_boundary_with_a_shift() {
    let g = grid(
        [3, 1, 1],
        [1, 1, 1],
        [true, false, false],
        vec![[0, 0, 0], [2, 0, 0]],
        vec![[0, 0, 0], [0, 0, 0]],
    );
    // From bin 0 the offset -1 wraps to bin 2 after crossing -1 cells.
    assert_eq!(g.neighbor_candidates(0), vec![(0, 1, [-1, 0, 0])]);
    assert_eq!(g.neighbor_candidates(1), vec![(1, 0, [1, 0, 0])]);
}

#[test]
fn shift_is_corrected_by_the_removed_floors() {
    let g = grid(
        [3, 1, 1],
        [1, 1, 1],
        [true, false, false],
        vec![[0, 0, 0], [2, 0, 0]],
        vec![[2, 0, 0], [-1, 0, 0]],
    );
    // bshift - floor_j + floor_i = -1 - (-1) + 2 = 2.
    assert_eq!(g.neighbor_candidates(0), vec![(0, 1, [2, 0, 0])]);
    assert_eq!(g.neighbor_candidates(1), vec![(1, 0, [-2, 0, 0])]);
}

#[test]
fn candidates_follow_the_search_order() {
    let g = grid(
        [2, 1, 1],
        [1, 1, 1],
        [true, false, false],
        vec![[0, 0, 0], [1, 0, 0], [0, 0, 0]],
        vec![[0, 0, 0]; 3],
    );
    let c = g.neighbor_candidates(0);
    let expected: Vec<PairEntry> = vec![
        // d0 = -1: bin 1, crossing -1.
        (0, 1, [-1, 0, 0]),
        // d0 = 0: bin 0, atoms 0 (itself, zero shift: left out) and 2.
        (0, 2, [0, 0, 0]),
        // d0 = 1: bin 1, no crossing.
        (0, 1, [0, 0, 0]),
    ];
    assert_eq!(c, expected);
}

#[test]
fn candidates_are_symmetric_and_never_repeated() {
    let g = grid(
        [3, 2, 1],
        [2, 1, 1],
        [true, true, false],
        vec![[0, 0, 0], [2, 1, 0], [1, 0, 0], [2, 0, 0], [0, 1, 0]],
        vec![[0, 0, 0], [1, 0, 0], [-1, 2, 0], [0, -1, 0], [3, 0, 0]],
    );
    let n = 5;
    for i in 0..n {
        let ci = g.neighbor_candidates(i);
        let mut seen = ci.clone();
        seen.sort();
        seen.dedup();
        assert_eq!(seen.len(), ci.len(), "atom {i} has a repeated candidate");
        for &(a, j, s) in &ci {
            assert_eq!(a as usize, i);
            let cj = g.neighbor_candidates(j as usize);
            assert!(cj.contains(&(j, i as u32, [-s[0], -s[1], -s[2]])), "missing mirror of {:?}", (a, j, s));
        }
    }
}
