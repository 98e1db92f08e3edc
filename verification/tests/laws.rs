use ferrosim::{
    atom_work_items, build_batch_layout, build_bin_grid, decode_gpu_pairs, group_by_system,
    wrap_axis, BinGrid, PairEntry, TaggedPair,
};

fn sample_grids() -> Vec<BinGrid> {
    vec![
        build_bin_grid(
            [3, 2, 2],
            [2, 1, 1],
            [true, true, false],
            vec![[0, 0, 0], [2, 1, 1], [1, 0, 1], [2, 0, 0], [0, 1, 0]],
            vec![[0, 0, 0], [1, 0, 0], [-1, 2, 0], [0, -1, 0], [3, 0, 0]],
        ),
        build_bin_grid([1, 1, 1], [1, 1, 1], [true, true, true], vec![[0, 0, 0]; 2], vec![[0, 0, 0], [1, 1, 1]]),
        build_bin_grid([2, 1, 1], [1, 1, 1], [false, false, false], vec![], vec![]),
        build_bin_grid([4, 1, 1], [1, 1, 1], [false, true, false], vec![[3, 0, 0], [0, 0, 0], [2, 0, 0]], vec![[0, 0, 0]; 3]),
    ]
}

/// The candidates of an atom, computed straight from their definition: every
/// offset within the shell, every atom of the bin it reaches, the shift from
/// the crossings and floors, without the atom itself at zero shift.
fn candidates_by_definition(g: &BinGrid, i: usize) -> Vec<PairEntry> {
    let mut out = Vec::new();
    let bi = g.atom_bin[i];
    for d0 in -g.shell[0]..=g.shell[0] {
        for d1 in -g.shell[1]..=g.shell[1] {
            for d2 in -g.shell[2]..=g.shell[2] {
                let w = [
                    wrap_axis(bi[0] + d0, g.num_bins[0] as i32, g.pbc[0]),
                    wrap_axis(bi[1] + d1, g.num_bins[1] as i32, g.pbc[1]),
                    wrap_axis(bi[2] + d2, g.num_bins[2] as i32, g.pbc[2]),
                ];
                if w.iter().any(|x| x.is_none()) {
                    continue;
                }
                let (x, b0) = w[0].unwrap();
                let (y, b1) = w[1].unwrap();
                let (z, b2) = w[2].unwrap();
                for j in 0..g.atom_bin.len() {
                    if g.atom_bin[j] != [x, y, z] {
                        continue;
                    }
                    let fi = g.floor_coord[i];
                    let fj = g.floor_coord[j];
                    let s = [b0 - fj[0] + fi[0], b1 - fj[1] + fi[1], b2 - fj[2] + fi[2]];
                    if i == j && s == [0, 0, 0] {
                        continue;
                    }
                    out.push((i as u32, j as u32, s));
                }
            }
        }
    }
    out
}

#[test]
fn candidates_are_exactly_the_shell_contents() {
    for g in sample_grids() {
        for i in 0..g.atom_bin.len() {
            let mut got = g.neighbor_candidates(i);
            let mut want = candidates_by_definition(&g, i);
            got.sort();
            want.sort();
            assert_eq!(got, want);
        }
    }
}

#[test]
fn wrap_axis_reassembles_its_index() {
    for n in 1..6 {
        for idx in -20..20 {
            let (w, s) = wrap_axis(idx, n, true).unwrap();
            assert!(0 <= w && w < n);
            assert_eq!(idx, w + s * n);
            if let Some((w, s)) = wrap_axis(idx, n, false) {
                assert_eq!((w, s), (idx, 0));
            } else {
                assert!(idx < 0 || idx >= n);
            }
        }
    }
}

#[test]
fn batch_grouping_matches_each_system_alone() {
    let grids = sample_grids();
    let counts: Vec<usize> = grids.iter().map(|g| g.atom_bin.len()).collect();
    let work = atom_work_items(&counts);
    let mut stream: Vec<TaggedPair> = Vec::new();
    for &(si, ai) in &work {
        for (i, j, s) in grids[si].neighbor_candidates(ai) {
            stream.push((si, i, j, s));
        }
    }
    let out = group_by_system(grids.len(), stream);
    for (si, g) in grids.iter().enumerate() {
        let mut alone: Vec<PairEntry> = Vec::new();
        for ai in 0..g.atom_bin.len() {
            alone.extend(g.neighbor_candidates(ai));
        }
        assert_eq!(out[si].pairs(), alone);
    }
}

#[test]
fn gpu_numbering_round_trip() {
    let grids = sample_grids();
    let layout = build_batch_layout(&grids);
    // Every candidate of every system, written with global atom numbers.
    let mut pairs: Vec<i32> = Vec::new();
    let mut expected: Vec<Vec<PairEntry>> = vec![Vec::new(); grids.len()];
    for (si, g) in grids.iter().enumerate() {
        let off = layout.system_atom_offset[si] as i32;
        for ai in 0..g.atom_bin.len() {
            for (i, j, s) in g.neighbor_candidates(ai) {
                pairs.extend([off + i as i32, off + j as i32, s[0], s[1], s[2]]);
                expected[si].push((i, j, s));
            }
        }
    }
    let count = (pairs.len() / 5) as u32;
    let out = decode_gpu_pairs(count, &pairs, &layout.atom_system, &layout.system_atom_offset, grids.len()).unwrap();
    for si in 0..grids.len() {
        assert_eq!(out[si].pairs(), expected[si]);
    }
}

#[test]
fn layout_bin_table_closes_each_system_where_the_next_begins() {
    let grids = sample_grids();
    let layout = build_batch_layout(&grids);
    let mut slot = 0usize;
    for (si, g) in grids.iter().enumerate() {
        let off = layout.system_atom_offset[si];
        for (b, members) in g.bins.iter().enumerate() {
            let start = layout.bin_start[slot + b] as usize;
            let end = layout.bin_start[slot + b + 1] as usize;
            let listed: Vec<usize> = layout.bin_atoms[start..end].iter().map(|&x| x as usize - off).collect();
            assert_eq!(&listed, members);
        }
        slot += g.bins.len();
        assert_eq!(layout.bin_start[slot] as usize, off + g.atom_bin.len());
        slot += 1;
    }
    assert_eq!(slot, layout.bin_start.len());
}
