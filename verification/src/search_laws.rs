use vstd::prelude::*;

use crate::grid::{
    bin_in_grid, bin_index, lemma_bin_index_in_range, lemma_bin_index_injective, lemma_bin_members,
    lemma_floor_div_bound, wrap_spec, BinGrid, GRID_LIMIT,
};
use crate::neighbor_list::PairEntry;

verus! {

broadcast use vstd::seq_lib::lemma_seq_concat_contains_all_elements,
    vstd::seq_lib::lemma_seq_contains_after_push, vstd::seq_lib::lemma_seq_empty_contains_nothing;

/// All three components of a shift are zero.
pub open spec fn is_zero_shift(s: [i32; 3]) -> bool {
    s[0] == 0 && s[1] == 0 && s[2] == 0
}

/// `t` is the opposite of the shift `s`.
pub open spec fn is_reverse_shift(s: [i32; 3], t: [i32; 3]) -> bool {
    t[0] == -s[0] && t[1] == -s[1] && t[2] == -s[2]
}

impl BinGrid {
    /// Atom `j` lies in the bin that the search of atom `i` visits at offset
    /// `(d0, d1, d2)` from its own bin.
    pub open spec fn reaches(&self, i: int, j: int, d0: int, d1: int, d2: int) -> bool {
        &&& self.wrap_at(i, 0, d0) is Some
        &&& self.wrap_at(i, 1, d1) is Some
        &&& self.wrap_at(i, 2, d2) is Some
        &&& self.wrap_at(i, 0, d0).unwrap().0 == self.atom_bin@[j][0]
        &&& self.wrap_at(i, 1, d1).unwrap().0 == self.atom_bin@[j][1]
        &&& self.wrap_at(i, 2, d2).unwrap().0 == self.atom_bin@[j][2]
    }

    /// The shift of the record `(i, j)` found at offset `(d0, d1, d2)`.
    pub open spec fn offset_shift(&self, i: int, j: int, d0: int, d1: int, d2: int) -> [i32; 3] {
        self.record_shift(
            i,
            j,
            self.wrap_at(i, 0, d0).unwrap().1,
            self.wrap_at(i, 1, d1).unwrap().1,
            self.wrap_at(i, 2, d2).unwrap().1,
        )
    }

    /// The offset `(d0, d1, d2)` lies within the search shell.
    pub open spec fn in_shell(&self, d0: int, d1: int, d2: int) -> bool {
        &&& -self.shell[0] <= d0 <= self.shell[0]
        &&& -self.shell[1] <= d1 <= self.shell[1]
        &&& -self.shell[2] <= d2 <= self.shell[2]
    }

    /// The search of atom `i` finds atom `j` with shift `s` at offset `(d0, d1, d2)`.
    pub open spec fn found_at(&self, i: int, j: int, s: [i32; 3], d0: int, d1: int, d2: int) -> bool {
        &&& self.in_shell(d0, d1, d2)
        &&& self.reaches(i, j, d0, d1, d2)
        &&& self.offset_shift(i, j, d0, d1, d2) == s
    }

    /// `(i, j, s)` is a candidate record: some bin within the search shell of
    /// atom `i` holds atom `j` and yields shift `s`, and it is not atom `i`
    /// paired with itself at zero shift.
    pub open spec fn is_candidate(&self, i: int, j: int, s: [i32; 3]) -> bool {
        &&& 0 <= j < self.n_atoms()
        &&& !(i == j && is_zero_shift(s))
        &&& exists|d0: int, d1: int, d2: int| #[trigger] self.found_at(i, j, s, d0, d1, d2)
    }

    /// The cell at offset `(d0, d1, d2)` yields the record `e` for atom `i`.
    pub open spec fn cell_has(&self, i: int, e: PairEntry, d0: int, d1: int, d2: int) -> bool {
        self.cell_records(i, d0, d1, d2).contains(e)
    }
}

/// The shift of a record undoes both atoms' removed integer parts: moved by
/// it, atom `j`'s cell lies `(b0, b1, b2)` whole cells from atom `i`'s, the
/// crossing at which its bin was reached.
pub proof fn lemma_record_shift_places_image(g: &BinGrid, i: int, j: int, b0: int, b1: int, b2: int)
    requires
        g.wf(),
        0 <= i < g.n_atoms(),
        0 <= j < g.n_atoms(),
        -2 * GRID_LIMIT <= b0 <= 2 * GRID_LIMIT,
        -2 * GRID_LIMIT <= b1 <= 2 * GRID_LIMIT,
        -2 * GRID_LIMIT <= b2 <= 2 * GRID_LIMIT,
    ensures
        g.floor_coord@[j][0] + g.record_shift(i, j, b0, b1, b2)[0] == g.floor_coord@[i][0] + b0,
        g.floor_coord@[j][1] + g.record_shift(i, j, b0, b1, b2)[1] == g.floor_coord@[i][1] + b1,
        g.floor_coord@[j][2] + g.record_shift(i, j, b0, b1, b2)[2] == g.floor_coord@[i][2] + b2,
{
    assert(-GRID_LIMIT <= g.floor_coord@[i][0] <= GRID_LIMIT);
    assert(-GRID_LIMIT <= g.floor_coord@[i][1] <= GRID_LIMIT);
    assert(-GRID_LIMIT <= g.floor_coord@[i][2] <= GRID_LIMIT);
    assert(-GRID_LIMIT <= g.floor_coord@[j][0] <= GRID_LIMIT);
    assert(-GRID_LIMIT <= g.floor_coord@[j][1] <= GRID_LIMIT);
    assert(-GRID_LIMIT <= g.floor_coord@[j][2] <= GRID_LIMIT);
}

/// What `wrap_spec` hands back reassembles the index it was given.
pub proof fn lemma_wrap_inverse(v: int, n: int, p: bool)
    requires
        n >= 1,
        wrap_spec(v, n, p) is Some,
    ensures
        ({
            let (x, b) = wrap_spec(v, n, p).unwrap();
            &&& 0 <= x < n
            &&& v == x + b * n
            &&& (v >= 0 ==> 0 <= b <= v)
            &&& (v < 0 ==> v <= b <= 0)
        }),
{
    if p {
        vstd::arithmetic::div_mod::lemma_fundamental_div_mod(v, n);
        vstd::arithmetic::div_mod::lemma_mod_bound(v, n);
        lemma_floor_div_bound(v, n);
        assert(v == (v % n) + (v / n) * n) by (nonlinear_arith)
            requires
                v == n * (v / n) + (v % n),
        ;
    }
}

/// Stepping back by the same offset from the bin that was reached returns
/// to the starting bin, crossing the opposite number of whole cells.
pub proof fn lemma_wrap_reverse(bi: int, d: int, n: int, p: bool)
    requires
        n >= 1,
        0 <= bi < n,
        wrap_spec(bi + d, n, p) is Some,
    ensures
        ({
            let (bj, b) = wrap_spec(bi + d, n, p).unwrap();
            wrap_spec(bj - d, n, p) == Some((bi, -b))
        }),
{
    lemma_wrap_inverse(bi + d, n, p);
    let (bj, b) = wrap_spec(bi + d, n, p).unwrap();
    if p {
        assert(bj - d == (-b) * n + bi) by (nonlinear_arith)
            requires
                bi + d == bj + b * n,
        ;
        vstd::arithmetic::div_mod::lemma_fundamental_div_mod_converse_mod(bj - d, n, -b, bi);
        vstd::arithmetic::div_mod::lemma_fundamental_div_mod_converse_div(bj - d, n, -b, bi);
    }
}

/// A bin's records hold exactly the atoms of the bin, each with the shift of
/// that bin, but atom `i` paired with itself at zero shift.
pub proof fn lemma_bin_records_contains(
    g: &BinGrid,
    i: int,
    b0: int,
    b1: int,
    b2: int,
    js: Seq<usize>,
    e: PairEntry,
)
    requires
        0 <= i <= u32::MAX,
        forall|t: int| 0 <= t < js.len() ==> #[trigger] js[t] <= u32::MAX,
    ensures
        g.bin_records(i, b0, b1, b2, js).contains(e) <==> {
            &&& e.0 == i as u32
            &&& js.contains(e.1 as usize)
            &&& e.2 == g.record_shift(i, e.1 as int, b0, b1, b2)
            &&& !(i == e.1 as int && is_zero_shift(e.2))
        },
    decreases js.len(),
{
    if js.len() > 0 {
        let prefix = js.drop_last();
        let j = js.last();
        assert forall|t: int| 0 <= t < prefix.len() implies #[trigger] prefix[t] <= u32::MAX by {
            assert(prefix[t] == js[t]);
        }
        lemma_bin_records_contains(g, i, b0, b1, b2, prefix, e);
        assert(js =~= prefix.push(j));
        assert(js[js.len() - 1] <= u32::MAX);
    }
}

/// A cell's records for atom `i` are exactly the records `(i, j, s)` of the
/// atoms `j` that the search reaches at that offset, with their shifts.
pub proof fn lemma_cell_records_contains(g: &BinGrid, i: int, e: PairEntry, d0: int, d1: int, d2: int)
    requires
        g.wf(),
        0 <= i < g.n_atoms(),
    ensures
        g.cell_has(i, e, d0, d1, d2) <==> {
            &&& e.0 == i as u32
            &&& e.1 < g.n_atoms()
            &&& g.reaches(i, e.1 as int, d0, d1, d2)
            &&& g.offset_shift(i, e.1 as int, d0, d1, d2) == e.2
            &&& !(i == e.1 as int && is_zero_shift(e.2))
        },
{
    let w0 = g.wrap_at(i, 0, d0);
    let w1 = g.wrap_at(i, 1, d1);
    let w2 = g.wrap_at(i, 2, d2);
    if w0 is Some && w1 is Some && w2 is Some {
        assert(1 <= g.num_bins[0] && 1 <= g.num_bins[1] && 1 <= g.num_bins[2]);
        lemma_wrap_inverse(g.atom_bin@[i][0] + d0, g.num_bins[0] as int, g.pbc[0]);
        lemma_wrap_inverse(g.atom_bin@[i][1] + d1, g.num_bins[1] as int, g.pbc[1]);
        lemma_wrap_inverse(g.atom_bin@[i][2] + d2, g.num_bins[2] as int, g.pbc[2]);
        let (x, b0) = w0.unwrap();
        let (y, b1) = w1.unwrap();
        let (z, b2) = w2.unwrap();
        let id = bin_index(g.num_bins, x, y, z);
        lemma_bin_index_in_range(g.num_bins, x, y, z);
        let js = g.bins@[id]@;
        let n = g.n_atoms();
        lemma_bin_members(g.num_bins, g.atom_bin@, id, n);
        assert forall|t: int| 0 <= t < js.len() implies #[trigger] js[t] <= u32::MAX by {}
        lemma_bin_records_contains(g, i, b0, b1, b2, js, e);
        let j = e.1 as int;
        if js.contains(e.1 as usize) {
            let t = choose|t: int| 0 <= t < js.len() && js[t] == e.1 as usize;
            assert(js[t] < n);
            let bj = g.atom_bin@[j];
            assert(bin_in_grid(g.num_bins, bj));
            lemma_bin_index_injective(
                g.num_bins,
                bj[0] as int,
                bj[1] as int,
                bj[2] as int,
                x,
                y,
                z,
            );
        }
        if e.1 < n && g.reaches(i, j, d0, d1, d2) {
            let bj = g.atom_bin@[j];
            assert(bin_index(g.num_bins, bj[0] as int, bj[1] as int, bj[2] as int) == id);
            assert(js.contains(e.1 as usize));
        }
    }
}

/// The records of the `d2` sweep are those of its cells.
proof fn lemma_sweep_z_contains(g: &BinGrid, i: int, e: PairEntry, d0: int, d1: int, upto: int)
    ensures
        g.sweep_z(i, d0, d1, upto).contains(e) <==> exists|d2: int|
            -g.shell[2] <= d2 < upto && #[trigger] g.cell_has(i, e, d0, d1, d2),
    decreases upto + g.shell[2],
{
    if upto > -g.shell[2] {
        lemma_sweep_z_contains(g, i, e, d0, d1, upto - 1);
        if g.sweep_z(i, d0, d1, upto).contains(e) {
            if g.sweep_z(i, d0, d1, upto - 1).contains(e) {
                let d2 = choose|d2: int|
                    -g.shell[2] <= d2 < upto - 1 && #[trigger] g.cell_has(i, e, d0, d1, d2);
                assert(g.cell_has(i, e, d0, d1, d2));
            } else {
                assert(g.cell_has(i, e, d0, d1, upto - 1));
            }
        }
        if exists|d2: int| -g.shell[2] <= d2 < upto && #[trigger] g.cell_has(i, e, d0, d1, d2) {
            let d2 = choose|d2: int|
                -g.shell[2] <= d2 < upto && #[trigger] g.cell_has(i, e, d0, d1, d2);
            if d2 < upto - 1 {
                assert(g.sweep_z(i, d0, d1, upto - 1).contains(e));
            }
        }
    }
}

/// The records of the `d1` sweep are those of its cells.
proof fn lemma_sweep_y_contains(g: &BinGrid, i: int, e: PairEntry, d0: int, upto: int)
    ensures
        g.sweep_y(i, d0, upto).contains(e) <==> exists|d1: int, d2: int|
            -g.shell[1] <= d1 < upto && -g.shell[2] <= d2 <= g.shell[2] && #[trigger] g.cell_has(
                i,
                e,
                d0,
                d1,
                d2,
            ),
    decreases upto + g.shell[1],
{
    if upto > -g.shell[1] {
        lemma_sweep_y_contains(g, i, e, d0, upto - 1);
        let d1 = upto - 1;
        lemma_sweep_z_contains(g, i, e, d0, d1, g.shell[2] + 1);
        let tail = if g.wrap_at(i, 1, d1) is Some {
            g.sweep_z(i, d0, d1, g.shell[2] + 1)
        } else {
            Seq::empty()
        };
        assert(g.sweep_y(i, d0, upto) == g.sweep_y(i, d0, d1) + tail);
        if g.sweep_y(i, d0, upto).contains(e) {
            if g.sweep_y(i, d0, d1).contains(e) {
                let (a, b) = choose|a: int, b: int|
                    -g.shell[1] <= a < d1 && -g.shell[2] <= b <= g.shell[2] && #[trigger] g.cell_has(
                        i,
                        e,
                        d0,
                        a,
                        b,
                    );
                assert(g.cell_has(i, e, d0, a, b));
            } else {
                assert(tail.contains(e));
                let b = choose|b: int|
                    -g.shell[2] <= b < g.shell[2] + 1 && #[trigger] g.cell_has(i, e, d0, d1, b);
                assert(g.cell_has(i, e, d0, d1, b));
            }
        }
        if exists|a: int, b: int|
            -g.shell[1] <= a < upto && -g.shell[2] <= b <= g.shell[2] && #[trigger] g.cell_has(
                i,
                e,
                d0,
                a,
                b,
            ) {
            let (a, b) = choose|a: int, b: int|
                -g.shell[1] <= a < upto && -g.shell[2] <= b <= g.shell[2] && #[trigger] g.cell_has(
                    i,
                    e,
                    d0,
                    a,
                    b,
                );
            if a < d1 {
                assert(g.sweep_y(i, d0, d1).contains(e));
            } else {
                assert(g.wrap_at(i, 1, d1) is Some);
                assert(tail.contains(e));
            }
        }
    }
}

/// The records of the `d0` sweep are those of its cells.
proof fn lemma_sweep_x_contains(g: &BinGrid, i: int, e: PairEntry, upto: int)
    ensures
        g.sweep_x(i, upto).contains(e) <==> exists|d0: int, d1: int, d2: int|
            -g.shell[0] <= d0 < upto && -g.shell[1] <= d1 <= g.shell[1] && -g.shell[2] <= d2
                <= g.shell[2] && #[trigger] g.cell_has(i, e, d0, d1, d2),
    decreases upto + g.shell[0],
{
    if upto > -g.shell[0] {
        lemma_sweep_x_contains(g, i, e, upto - 1);
        let d0 = upto - 1;
        lemma_sweep_y_contains(g, i, e, d0, g.shell[1] + 1);
        let tail = if g.wrap_at(i, 0, d0) is Some {
            g.sweep_y(i, d0, g.shell[1] + 1)
        } else {
            Seq::empty()
        };
        assert(g.sweep_x(i, upto) == g.sweep_x(i, d0) + tail);
        if g.sweep_x(i, upto).contains(e) {
            if g.sweep_x(i, d0).contains(e) {
                let (a, b, c) = choose|a: int, b: int, c: int|
                    -g.shell[0] <= a < d0 && -g.shell[1] <= b <= g.shell[1] && -g.shell[2] <= c
                        <= g.shell[2] && #[trigger] g.cell_has(i, e, a, b, c);
                assert(g.cell_has(i, e, a, b, c));
            } else {
                assert(tail.contains(e));
                let (b, c) = choose|b: int, c: int|
                    -g.shell[1] <= b < g.shell[1] + 1 && -g.shell[2] <= c <= g.shell[2]
                        && #[trigger] g.cell_has(i, e, d0, b, c);
                assert(g.cell_has(i, e, d0, b, c));
            }
        }
        if exists|a: int, b: int, c: int|
            -g.shell[0] <= a < upto && -g.shell[1] <= b <= g.shell[1] && -g.shell[2] <= c
                <= g.shell[2] && #[trigger] g.cell_has(i, e, a, b, c) {
            let (a, b, c) = choose|a: int, b: int, c: int|
                -g.shell[0] <= a < upto && -g.shell[1] <= b <= g.shell[1] && -g.shell[2] <= c
                    <= g.shell[2] && #[trigger] g.cell_has(i, e, a, b, c);
            if a < d0 {
                assert(g.sweep_x(i, d0).contains(e));
            } else {
                assert(g.wrap_at(i, 0, d0) is Some);
                assert(tail.contains(e));
            }
        }
    }
}

/// The candidate records of atom `i` are exactly the records `(i, j, s)`
/// with `(i, j, s)` a candidate: the search misses no atom of a bin within
/// its shell and yields nothing else.
pub proof fn lemma_candidates_exactly(g: &BinGrid, i: int, e: PairEntry)
    requires
        g.wf(),
        0 <= i < g.n_atoms(),
    ensures
        g.atom_candidates(i).contains(e) <==> e.0 == i as u32 && g.is_candidate(
            i,
            e.1 as int,
            e.2,
        ),
{
    lemma_sweep_x_contains(g, i, e, g.shell[0] + 1);
    let j = e.1 as int;
    if g.atom_candidates(i).contains(e) {
        let (a, b, c) = choose|a: int, b: int, c: int|
            -g.shell[0] <= a < g.shell[0] + 1 && -g.shell[1] <= b <= g.shell[1] && -g.shell[2] <= c
                <= g.shell[2] && #[trigger] g.cell_has(i, e, a, b, c);
        lemma_cell_records_contains(g, i, e, a, b, c);
        assert(g.found_at(i, j, e.2, a, b, c));
    }
    if e.0 == i as u32 && g.is_candidate(i, j, e.2) {
        let (a, b, c) = choose|a: int, b: int, c: int| #[trigger] g.found_at(i, j, e.2, a, b, c);
        lemma_cell_records_contains(g, i, e, a, b, c);
        assert(g.cell_has(i, e, a, b, c));
    }
}

/// The whole-cell crossings of an offset reached from a bin inside the grid
/// stay within twice the grid limit.
proof fn lemma_crossing_bound(g: &BinGrid, i: int, k: int, d: int)
    requires
        g.wf(),
        0 <= i < g.n_atoms(),
        0 <= k < 3,
        -g.shell[k] <= d <= g.shell[k],
        g.wrap_at(i, k, d) is Some,
    ensures
        -2 * GRID_LIMIT <= g.wrap_at(i, k, d).unwrap().1 <= 2 * GRID_LIMIT,
        0 <= g.wrap_at(i, k, d).unwrap().0 < g.num_bins[k],
{
    assert(bin_in_grid(g.num_bins, g.atom_bin@[i]));
    assert(1 <= g.num_bins[k] <= GRID_LIMIT);
    assert(1 <= g.shell[k] <= GRID_LIMIT);
    assert(0 <= g.atom_bin@[i][k] < g.num_bins[k]) by {
        if k == 0 {
        } else if k == 1 {
        } else {
        }
    }
    lemma_wrap_inverse(g.atom_bin@[i][k] + d, g.num_bins[k] as int, g.pbc[k]);
}

/// Full-list law of the candidate search: atom `i` has the candidate
/// `(i, j, s)` exactly when atom `j` has the candidate `(j, i, -s)`.
pub proof fn lemma_candidates_symmetric(g: &BinGrid, i: int, j: int, s: [i32; 3], t: [i32; 3])
    requires
        g.wf(),
        0 <= i < g.n_atoms(),
        0 <= j < g.n_atoms(),
        is_reverse_shift(s, t),
    ensures
        g.atom_candidates(i).contains((i as u32, j as u32, s)) <==> g.atom_candidates(j).contains(
            (j as u32, i as u32, t),
        ),
{
    assert(is_reverse_shift(t, s));
    lemma_candidates_reverse_one_way(g, i, j, s, t);
    lemma_candidates_reverse_one_way(g, j, i, t, s);
}

proof fn lemma_candidates_reverse_one_way(g: &BinGrid, i: int, j: int, s: [i32; 3], t: [i32; 3])
    requires
        g.wf(),
        0 <= i < g.n_atoms(),
        0 <= j < g.n_atoms(),
        is_reverse_shift(s, t),
    ensures
        g.atom_candidates(i).contains((i as u32, j as u32, s)) ==> g.atom_candidates(j).contains(
            (j as u32, i as u32, t),
        ),
{
    let e = (i as u32, j as u32, s);
    let f = (j as u32, i as u32, t);
    lemma_candidates_exactly(g, i, e);
    lemma_candidates_exactly(g, j, f);
    if g.atom_candidates(i).contains(e) {
        assert(e.1 as int == j);
        let (a, b, c) = choose|a: int, b: int, c: int| #[trigger] g.found_at(i, j, s, a, b, c);
        lemma_crossing_bound(g, i, 0, a);
        lemma_crossing_bound(g, i, 1, b);
        lemma_crossing_bound(g, i, 2, c);
        assert(1 <= g.num_bins[0] && 1 <= g.num_bins[1] && 1 <= g.num_bins[2]);
        assert(bin_in_grid(g.num_bins, g.atom_bin@[i]));
        lemma_wrap_reverse(g.atom_bin@[i][0] as int, a, g.num_bins[0] as int, g.pbc[0]);
        lemma_wrap_reverse(g.atom_bin@[i][1] as int, b, g.num_bins[1] as int, g.pbc[1]);
        lemma_wrap_reverse(g.atom_bin@[i][2] as int, c, g.num_bins[2] as int, g.pbc[2]);
        assert(-GRID_LIMIT <= g.floor_coord@[i][0] <= GRID_LIMIT);
        assert(-GRID_LIMIT <= g.floor_coord@[i][1] <= GRID_LIMIT);
        assert(-GRID_LIMIT <= g.floor_coord@[i][2] <= GRID_LIMIT);
        assert(-GRID_LIMIT <= g.floor_coord@[j][0] <= GRID_LIMIT);
        assert(-GRID_LIMIT <= g.floor_coord@[j][1] <= GRID_LIMIT);
        assert(-GRID_LIMIT <= g.floor_coord@[j][2] <= GRID_LIMIT);
        assert(g.reaches(j, i, -a, -b, -c));
        assert(g.offset_shift(j, i, -a, -b, -c) =~= t);
        assert(g.found_at(j, i, t, -a, -b, -c));
        assert(!(j == i && is_zero_shift(t)));
        assert(f.1 as int == i);
        assert(g.is_candidate(j, i, t));
    }
}

/// A record is yielded by at most one cell of the search shell.
proof fn lemma_cell_unique(
    g: &BinGrid,
    i: int,
    e: PairEntry,
    a0: int,
    a1: int,
    a2: int,
    c0: int,
    c1: int,
    c2: int,
)
    requires
        g.wf(),
        0 <= i < g.n_atoms(),
        g.in_shell(a0, a1, a2),
        g.in_shell(c0, c1, c2),
        g.cell_has(i, e, a0, a1, a2),
        g.cell_has(i, e, c0, c1, c2),
    ensures
        a0 == c0 && a1 == c1 && a2 == c2,
{
    lemma_cell_records_contains(g, i, e, a0, a1, a2);
    lemma_cell_records_contains(g, i, e, c0, c1, c2);
    let j = e.1 as int;
    lemma_crossing_bound(g, i, 0, a0);
    lemma_crossing_bound(g, i, 1, a1);
    lemma_crossing_bound(g, i, 2, a2);
    lemma_crossing_bound(g, i, 0, c0);
    lemma_crossing_bound(g, i, 1, c1);
    lemma_crossing_bound(g, i, 2, c2);
    assert(1 <= g.num_bins[0] && 1 <= g.num_bins[1] && 1 <= g.num_bins[2]);
    lemma_wrap_inverse(g.atom_bin@[i][0] + a0, g.num_bins[0] as int, g.pbc[0]);
    lemma_wrap_inverse(g.atom_bin@[i][1] + a1, g.num_bins[1] as int, g.pbc[1]);
    lemma_wrap_inverse(g.atom_bin@[i][2] + a2, g.num_bins[2] as int, g.pbc[2]);
    lemma_wrap_inverse(g.atom_bin@[i][0] + c0, g.num_bins[0] as int, g.pbc[0]);
    lemma_wrap_inverse(g.atom_bin@[i][1] + c1, g.num_bins[1] as int, g.pbc[1]);
    lemma_wrap_inverse(g.atom_bin@[i][2] + c2, g.num_bins[2] as int, g.pbc[2]);
    assert(-GRID_LIMIT <= g.floor_coord@[i][0] <= GRID_LIMIT);
    assert(-GRID_LIMIT <= g.floor_coord@[i][1] <= GRID_LIMIT);
    assert(-GRID_LIMIT <= g.floor_coord@[i][2] <= GRID_LIMIT);
    assert(-GRID_LIMIT <= g.floor_coord@[j][0] <= GRID_LIMIT);
    assert(-GRID_LIMIT <= g.floor_coord@[j][1] <= GRID_LIMIT);
    assert(-GRID_LIMIT <= g.floor_coord@[j][2] <= GRID_LIMIT);
    let sa = g.offset_shift(i, j, a0, a1, a2);
    let sc = g.offset_shift(i, j, c0, c1, c2);
    assert(sa[0] == sc[0] && sa[1] == sc[1] && sa[2] == sc[2]);
}

/// Pushing a record that is not yet present keeps a sequence free of repeats.
proof fn lemma_push_no_dup(s: Seq<PairEntry>, x: PairEntry)
    requires
        s.no_duplicates(),
        !s.contains(x),
    ensures
        s.push(x).no_duplicates(),
{
    let t = s.push(x);
    assert forall|p: int, q: int| 0 <= p < t.len() && 0 <= q < t.len() && p != q implies t[p]
        != t[q] by {
        if p < s.len() && q < s.len() {
        } else if p < s.len() {
            assert(s[p] == t[p]);
        } else {
            assert(s[q] == t[q]);
        }
    }
}

/// One bin yields no record twice.
proof fn lemma_bin_records_no_dup(g: &BinGrid, i: int, b0: int, b1: int, b2: int, js: Seq<usize>)
    requires
        0 <= i <= u32::MAX,
        forall|t: int| 0 <= t < js.len() ==> #[trigger] js[t] <= u32::MAX,
        forall|t: int, u: int| 0 <= t < u < js.len() ==> #[trigger] js[t] < #[trigger] js[u],
    ensures
        g.bin_records(i, b0, b1, b2, js).no_duplicates(),
    decreases js.len(),
{
    if js.len() > 0 {
        let prefix = js.drop_last();
        let j = js.last();
        assert forall|t: int| 0 <= t < prefix.len() implies #[trigger] prefix[t] <= u32::MAX by {
            assert(prefix[t] == js[t]);
        }
        assert forall|t: int, u: int| 0 <= t < u < prefix.len() implies #[trigger] prefix[t]
            < #[trigger] prefix[u] by {
            assert(prefix[t] == js[t] && prefix[u] == js[u]);
        }
        lemma_bin_records_no_dup(g, i, b0, b1, b2, prefix);
        assert(js[js.len() - 1] <= u32::MAX);
        let x = (i as u32, j as u32, g.record_shift(i, j as int, b0, b1, b2));
        lemma_bin_records_contains(g, i, b0, b1, b2, prefix, x);
        if prefix.contains(j) {
            let t = choose|t: int| 0 <= t < prefix.len() && prefix[t] == j;
            assert(js[t] < js[js.len() - 1]);
        }
        let prev = g.bin_records(i, b0, b1, b2, prefix);
        if !(i == j as int && is_zero_shift(x.2)) {
            lemma_push_no_dup(prev, x);
        }
    }
}

/// One cell of the search yields no record twice.
proof fn lemma_cell_records_no_dup(g: &BinGrid, i: int, d0: int, d1: int, d2: int)
    requires
        g.wf(),
        0 <= i < g.n_atoms(),
    ensures
        g.cell_records(i, d0, d1, d2).no_duplicates(),
{
    let w0 = g.wrap_at(i, 0, d0);
    let w1 = g.wrap_at(i, 1, d1);
    let w2 = g.wrap_at(i, 2, d2);
    if w0 is Some && w1 is Some && w2 is Some {
        lemma_wrap_inverse(g.atom_bin@[i][0] + d0, g.num_bins[0] as int, g.pbc[0]);
        lemma_wrap_inverse(g.atom_bin@[i][1] + d1, g.num_bins[1] as int, g.pbc[1]);
        lemma_wrap_inverse(g.atom_bin@[i][2] + d2, g.num_bins[2] as int, g.pbc[2]);
        let (x, b0) = w0.unwrap();
        let (y, b1) = w1.unwrap();
        let (z, b2) = w2.unwrap();
        let id = bin_index(g.num_bins, x, y, z);
        lemma_bin_index_in_range(g.num_bins, x, y, z);
        let js = g.bins@[id]@;
        lemma_bin_members(g.num_bins, g.atom_bin@, id, g.n_atoms());
        assert forall|t: int| 0 <= t < js.len() implies #[trigger] js[t] <= u32::MAX by {}
        lemma_bin_records_no_dup(g, i, b0, b1, b2, js);
    }
}

/// Records of distinct parts of the search are distinct.
proof fn lemma_disjoint_concat_no_dup(a: Seq<PairEntry>, b: Seq<PairEntry>)
    requires
        a.no_duplicates(),
        b.no_duplicates(),
        forall|e: PairEntry| a.contains(e) ==> !b.contains(e),
    ensures
        (a + b).no_duplicates(),
{
    assert forall|p: int, q: int| 0 <= p < a.len() && 0 <= q < b.len() implies a[p] != b[q] by {
        if a[p] == b[q] {
            assert(a.contains(a[p]));
            assert(b.contains(b[q]));
        }
    }
    vstd::seq_lib::lemma_no_dup_in_concat(a, b);
}

proof fn lemma_sweep_z_no_dup(g: &BinGrid, i: int, d0: int, d1: int, upto: int)
    requires
        g.wf(),
        0 <= i < g.n_atoms(),
        -g.shell[0] <= d0 <= g.shell[0],
        -g.shell[1] <= d1 <= g.shell[1],
        upto <= g.shell[2] + 1,
    ensures
        g.sweep_z(i, d0, d1, upto).no_duplicates(),
    decreases upto + g.shell[2],
{
    if upto > -g.shell[2] {
        lemma_sweep_z_no_dup(g, i, d0, d1, upto - 1);
        lemma_cell_records_no_dup(g, i, d0, d1, upto - 1);
        let a = g.sweep_z(i, d0, d1, upto - 1);
        let b = g.cell_records(i, d0, d1, upto - 1);
        assert forall|e: PairEntry| a.contains(e) implies !b.contains(e) by {
            lemma_sweep_z_contains(g, i, e, d0, d1, upto - 1);
            let c = choose|c: int| -g.shell[2] <= c < upto - 1 && #[trigger] g.cell_has(
                i,
                e,
                d0,
                d1,
                c,
            );
            if b.contains(e) {
                lemma_cell_unique(g, i, e, d0, d1, c, d0, d1, upto - 1);
            }
        }
        lemma_disjoint_concat_no_dup(a, b);
    }
}

proof fn lemma_sweep_y_no_dup(g: &BinGrid, i: int, d0: int, upto: int)
    requires
        g.wf(),
        0 <= i < g.n_atoms(),
        -g.shell[0] <= d0 <= g.shell[0],
        upto <= g.shell[1] + 1,
    ensures
        g.sweep_y(i, d0, upto).no_duplicates(),
    decreases upto + g.shell[1],
{
    if upto > -g.shell[1] {
        let d1 = upto - 1;
        lemma_sweep_y_no_dup(g, i, d0, d1);
        let a = g.sweep_y(i, d0, d1);
        let b = if g.wrap_at(i, 1, d1) is Some {
            g.sweep_z(i, d0, d1, g.shell[2] + 1)
        } else {
            Seq::empty()
        };
        lemma_sweep_z_no_dup(g, i, d0, d1, g.shell[2] + 1);
        assert forall|e: PairEntry| a.contains(e) implies !b.contains(e) by {
            lemma_sweep_y_contains(g, i, e, d0, d1);
            let (p, q) = choose|p: int, q: int|
                -g.shell[1] <= p < d1 && -g.shell[2] <= q <= g.shell[2] && #[trigger] g.cell_has(
                    i,
                    e,
                    d0,
                    p,
                    q,
                );
            if b.contains(e) {
                lemma_sweep_z_contains(g, i, e, d0, d1, g.shell[2] + 1);
                let r = choose|r: int|
                    -g.shell[2] <= r < g.shell[2] + 1 && #[trigger] g.cell_has(i, e, d0, d1, r);
                lemma_cell_unique(g, i, e, d0, p, q, d0, d1, r);
            }
        }
        lemma_disjoint_concat_no_dup(a, b);
        assert(g.sweep_y(i, d0, upto) == a + b);
    }
}

proof fn lemma_sweep_x_no_dup(g: &BinGrid, i: int, upto: int)
    requires
        g.wf(),
        0 <= i < g.n_atoms(),
        upto <= g.shell[0] + 1,
    ensures
        g.sweep_x(i, upto).no_duplicates(),
    decreases upto + g.shell[0],
{
    if upto > -g.shell[0] {
        let d0 = upto - 1;
        lemma_sweep_x_no_dup(g, i, d0);
        let a = g.sweep_x(i, d0);
        let b = if g.wrap_at(i, 0, d0) is Some {
            g.sweep_y(i, d0, g.shell[1] + 1)
        } else {
            Seq::empty()
        };
        lemma_sweep_y_no_dup(g, i, d0, g.shell[1] + 1);
        assert forall|e: PairEntry| a.contains(e) implies !b.contains(e) by {
            lemma_sweep_x_contains(g, i, e, d0);
            let (p, q, r) = choose|p: int, q: int, r: int|
                -g.shell[0] <= p < d0 && -g.shell[1] <= q <= g.shell[1] && -g.shell[2] <= r
                    <= g.shell[2] && #[trigger] g.cell_has(i, e, p, q, r);
            if b.contains(e) {
                lemma_sweep_y_contains(g, i, e, d0, g.shell[1] + 1);
                let (u, v) = choose|u: int, v: int|
                    -g.shell[1] <= u < g.shell[1] + 1 && -g.shell[2] <= v <= g.shell[2]
                        && #[trigger] g.cell_has(i, e, d0, u, v);
                lemma_cell_unique(g, i, e, p, q, r, d0, u, v);
            }
        }
        lemma_disjoint_concat_no_dup(a, b);
        assert(g.sweep_x(i, upto) == a + b);
    }
}

/// The candidate search of an atom never yields the same record twice.
pub proof fn lemma_candidates_no_duplicates(g: &BinGrid, i: int)
    requires
        g.wf(),
        0 <= i < g.n_atoms(),
    ensures
        g.atom_candidates(i).no_duplicates(),
{
    lemma_sweep_x_no_dup(g, i, g.shell[0] + 1);
}

} // verus!
