use vstd::prelude::*;

use crate::batch::{group_by_system, lists_total, records_of, TaggedPair};
use crate::grid::{
    bins_before, lemma_bin_members, lemma_bins_before_monotone, lemma_bins_cover_atoms, BinGrid,
};
use crate::neighbor_list::NeighborList;

verus! {

/// Atoms of the systems before `k` in a batch.
pub open spec fn atoms_before(grids: Seq<BinGrid>, k: int) -> int
    decreases k,
{
    if k <= 0 {
        0
    } else {
        atoms_before(grids, k - 1) + grids[k - 1].n_atoms()
    }
}

/// Global number of atom `a` of system `si`.
pub open spec fn global_atom(grids: Seq<BinGrid>, si: int, a: int) -> int {
    atoms_before(grids, si) + a
}

/// Entries of the flat bin-start array used by the systems before `k`: each
/// system's bins plus one closing entry.
pub open spec fn bin_slots_before(grids: Seq<BinGrid>, k: int) -> int
    decreases k,
{
    if k <= 0 {
        0
    } else {
        bin_slots_before(grids, k - 1) + grids[k - 1].bins@.len() + 1
    }
}

proof fn lemma_atoms_before_monotone(grids: Seq<BinGrid>, k: int, l: int)
    requires
        0 <= k <= l,
    ensures
        atoms_before(grids, k) <= atoms_before(grids, l),
    decreases l - k,
{
    if k < l {
        lemma_atoms_before_monotone(grids, k, l - 1);
    }
}

proof fn lemma_bin_slots_before_monotone(grids: Seq<BinGrid>, k: int, l: int)
    requires
        0 <= k <= l,
    ensures
        bin_slots_before(grids, k) <= bin_slots_before(grids, l),
    decreases l - k,
{
    if k < l {
        lemma_bin_slots_before_monotone(grids, k, l - 1);
    }
}

/// The ten integers that describe system `g` to the GPU search: bin counts,
/// search shells, periodicity flags and where its bins start.
pub open spec fn system_ints(g: BinGrid, bin_offset: int) -> Seq<i32> {
    seq![
        g.num_bins[0] as i32,
        g.num_bins[1] as i32,
        g.num_bins[2] as i32,
        g.shell[0],
        g.shell[1],
        g.shell[2],
        if g.pbc[0] { 1i32 } else { 0i32 },
        if g.pbc[1] { 1i32 } else { 0i32 },
        if g.pbc[2] { 1i32 } else { 0i32 },
        bin_offset as i32,
    ]
}

/// Three-component rows laid end to end.
pub open spec fn flat3(rows: Seq<[i32; 3]>) -> Seq<i32>
    decreases rows.len(),
{
    if rows.len() == 0 {
        Seq::empty()
    } else {
        let last = rows.last();
        flat3(rows.drop_last()) + seq![last[0], last[1], last[2]]
    }
}

/// The parts `f(0), ..., f(k - 1)` laid end to end.
pub open spec fn batch_concat<T>(f: spec_fn(int) -> Seq<T>, k: int) -> Seq<T>
    decreases k,
{
    if k <= 0 {
        Seq::empty()
    } else {
        batch_concat(f, k - 1) + f(k - 1)
    }
}

/// The atoms listed by bins `0..k`, shifted by `offset` and numbered as `u32`.
pub open spec fn bin_atoms_from(bins: Seq<Vec<usize>>, offset: int, k: int) -> Seq<u32>
    decreases k,
{
    if k <= 0 {
        Seq::empty()
    } else {
        bin_atoms_from(bins, offset, k - 1) + bins[k - 1]@.map_values(
            |j: usize| (offset + j) as u32,
        )
    }
}

/// Start of each bin of a system in the flat atom table, and after them the
/// end of its last bin.
pub open spec fn bin_starts(bins: Seq<Vec<usize>>, offset: int) -> Seq<u32> {
    Seq::new((bins.len() + 1) as nat, |b: int| (offset + bins_before(bins, b)) as u32)
}

/// The fractional-coordinate floors of the systems of a batch, row by row.
pub open spec fn layout_floor(grids: Seq<BinGrid>) -> spec_fn(int) -> Seq<i32> {
    |si: int| flat3(grids[si].floor_coord@)
}

/// The bin coordinates of the atoms of the systems of a batch, row by row.
pub open spec fn layout_atom_bin(grids: Seq<BinGrid>) -> spec_fn(int) -> Seq<i32> {
    |si: int| flat3(grids[si].atom_bin@)
}

/// For each atom of a batch, the index of its system.
pub open spec fn layout_atom_system(grids: Seq<BinGrid>) -> spec_fn(int) -> Seq<u32> {
    |si: int| Seq::new(grids[si].n_atoms() as nat, |a: int| si as u32)
}

/// The description of each system of a batch.
pub open spec fn layout_sys_ints(grids: Seq<BinGrid>) -> spec_fn(int) -> Seq<i32> {
    |si: int| system_ints(grids[si], bin_slots_before(grids, si))
}

/// Bin starts of each system of a batch, in global atom numbers.
pub open spec fn layout_bin_start(grids: Seq<BinGrid>) -> spec_fn(int) -> Seq<u32> {
    |si: int| bin_starts(grids[si].bins@, atoms_before(grids, si))
}

/// Bin members of each system of a batch, in global atom numbers.
pub open spec fn layout_bin_atoms(grids: Seq<BinGrid>) -> spec_fn(int) -> Seq<u32> {
    |si: int| bin_atoms_from(grids[si].bins@, atoms_before(grids, si), grids[si].bins@.len() as int)
}

/// The integer buffers of a batch laid out for the GPU search: all systems'
/// atoms numbered one after another, and their bins as one compressed table
/// (`bin_start` / `bin_atoms`) in global atom numbers.
pub struct BatchLayout {
    pub floor_coord: Vec<i32>,
    pub atom_bin: Vec<i32>,
    pub atom_system: Vec<u32>,
    pub sys_ints: Vec<i32>,
    pub bin_start: Vec<u32>,
    pub bin_atoms: Vec<u32>,
    pub system_atom_offset: Vec<usize>,
    pub n_atoms_total: usize,
}

/// Appends the rows of `src` to `dst`, three entries per row.
fn push_rows(dst: &mut Vec<i32>, src: &Vec<[i32; 3]>)
    ensures
        final(dst)@ == old(dst)@ + flat3(src@),
{
    let ghost start = dst@;
    let mut a: usize = 0;
    while a < src.len()
        invariant
            a <= src@.len(),
            dst@ == start + flat3(src@.take(a as int)),
        decreases src.len() - a,
    {
        let row = src[a];
        dst.push(row[0]);
        dst.push(row[1]);
        dst.push(row[2]);
        proof {
            assert(src@.take(a + 1).drop_last() =~= src@.take(a as int));
            assert(dst@ =~= start + flat3(src@.take(a + 1)));
        }
        a = a + 1;
    }
    proof {
        assert(src@.take(src@.len() as int) =~= src@);
    }
}

/// Appends the start of each bin, and then the end of the last one, in
/// atom numbers shifted by `offset`.
fn push_bin_starts(dst: &mut Vec<u32>, bins: &Vec<Vec<usize>>, offset: usize)
    requires
        offset + bins_before(bins@, bins@.len() as int) <= usize::MAX,
    ensures
        final(dst)@ == old(dst)@ + bin_starts(bins@, offset as int),
{
    let ghost start = dst@;
    let mut cursor: usize = offset;
    let mut b: usize = 0;
    while b < bins.len()
        invariant
            b <= bins@.len(),
            offset + bins_before(bins@, bins@.len() as int) <= usize::MAX,
            cursor == offset + bins_before(bins@, b as int),
            dst@ == start + Seq::new(
                b as nat,
                |c: int| (offset + bins_before(bins@, c)) as u32,
            ),
        decreases bins.len() - b,
    {
        dst.push(cursor as u32);
        proof {
            lemma_bins_before_monotone(bins@, b + 1, bins@.len() as int);
            assert(dst@ =~= start + Seq::new(
                (b + 1) as nat,
                |c: int| (offset + bins_before(bins@, c)) as u32,
            ));
        }
        cursor = cursor + bins[b].len();
        b = b + 1;
    }
    dst.push(cursor as u32);
    proof {
        assert(dst@ =~= start + bin_starts(bins@, offset as int));
    }
}

/// Appends the members of every bin, bin by bin, in atom numbers shifted
/// by `offset`.
fn push_bin_atoms(dst: &mut Vec<u32>, bins: &Vec<Vec<usize>>, offset: usize)
    requires
        forall|b: int, t: int|
            0 <= b < bins@.len() && 0 <= t < bins@[b]@.len() ==> offset + #[trigger] bins@[b]@[t]
                <= usize::MAX,
    ensures
        final(dst)@ == old(dst)@ + bin_atoms_from(bins@, offset as int, bins@.len() as int),
{
    let ghost start = dst@;
    let mut b: usize = 0;
    while b < bins.len()
        invariant
            b <= bins@.len(),
            forall|c: int, t: int|
                0 <= c < bins@.len() && 0 <= t < bins@[c]@.len() ==> offset + #[trigger] bins@[c]@[t]
                    <= usize::MAX,
            dst@ == start + bin_atoms_from(bins@, offset as int, b as int),
        decreases bins.len() - b,
    {
        let members = &bins[b];
        let ghost before = dst@;
        let mut t: usize = 0;
        while t < members.len()
            invariant
                members@ == bins@[b as int]@,
                forall|u: int| 0 <= u < members@.len() ==> offset + #[trigger] members@[u] <= usize::MAX,
                t <= members@.len(),
                dst@ == before + members@.take(t as int).map_values(
                    |j: usize| (offset + j) as u32,
                ),
            decreases members.len() - t,
        {
            let v: u32 = (offset + members[t]) as u32;
            dst.push(v);
            proof {
                assert(dst@ =~= before + members@.take(t + 1).map_values(
                    |j: usize| (offset + j) as u32,
                ));
            }
            t = t + 1;
        }
        proof {
            assert(members@.take(members@.len() as int) =~= members@);
        }
        b = b + 1;
    }
}

/// Lays a batch of bin grids out for the GPU search. Atom `a` of system
/// `si` gets the global number `atoms_before(si) + a`; each system adds its
/// bins' starts and then the end of its last bin to `bin_start`, and its
/// bins' members, in global numbers, to `bin_atoms`.
pub fn build_batch_layout(grids: &Vec<BinGrid>) -> (r: BatchLayout)
    requires
        forall|si: int| 0 <= si < grids@.len() ==> (#[trigger] grids@[si]).wf(),
        atoms_before(grids@, grids@.len() as int) <= u32::MAX,
        bin_slots_before(grids@, grids@.len() as int) <= usize::MAX,
    ensures
        r.n_atoms_total == atoms_before(grids@, grids@.len() as int),
        r.system_atom_offset@.len() == grids@.len(),
        forall|si: int|
            0 <= si < grids@.len() ==> #[trigger] r.system_atom_offset@[si] == atoms_before(
                grids@,
                si,
            ),
        r.floor_coord@ == batch_concat(layout_floor(grids@), grids@.len() as int),
        r.atom_bin@ == batch_concat(layout_atom_bin(grids@), grids@.len() as int),
        r.atom_system@ == batch_concat(layout_atom_system(grids@), grids@.len() as int),
        r.sys_ints@ == batch_concat(layout_sys_ints(grids@), grids@.len() as int),
        r.sys_ints@.len() == 10 * grids@.len(),
        forall|si: int|
            0 <= si < grids@.len() ==> {
                &&& r.sys_ints@[10 * si] == (#[trigger] grids@[si]).num_bins[0] as i32
                &&& r.sys_ints@[10 * si + 1] == grids@[si].num_bins[1] as i32
                &&& r.sys_ints@[10 * si + 2] == grids@[si].num_bins[2] as i32
                &&& r.sys_ints@[10 * si + 3] == grids@[si].shell[0]
                &&& r.sys_ints@[10 * si + 4] == grids@[si].shell[1]
                &&& r.sys_ints@[10 * si + 5] == grids@[si].shell[2]
                &&& r.sys_ints@[10 * si + 6] == if grids@[si].pbc[0] {
                    1i32
                } else {
                    0i32
                }
                &&& r.sys_ints@[10 * si + 7] == if grids@[si].pbc[1] {
                    1i32
                } else {
                    0i32
                }
                &&& r.sys_ints@[10 * si + 8] == if grids@[si].pbc[2] {
                    1i32
                } else {
                    0i32
                }
                &&& r.sys_ints@[10 * si + 9] == bin_slots_before(grids@, si) as i32
            },
        r.bin_start@ == batch_concat(layout_bin_start(grids@), grids@.len() as int),
        r.bin_atoms@ == batch_concat(layout_bin_atoms(grids@), grids@.len() as int),
{
    let ns = grids.len();
    let ghost gs = grids@;
    let mut system_atom_offset: Vec<usize> = Vec::new();
    let mut floor_coord: Vec<i32> = Vec::new();
    let mut atom_bin: Vec<i32> = Vec::new();
    let mut atom_system: Vec<u32> = Vec::new();
    let mut sys_ints: Vec<i32> = Vec::new();
    let mut bin_start: Vec<u32> = Vec::new();
    let mut bin_atoms: Vec<u32> = Vec::new();
    let mut n_total: usize = 0;
    let mut bin_offset: usize = 0;
    let mut si: usize = 0;
    while si < ns
        invariant
            ns == gs.len(),
            gs == grids@,
            si <= ns,
            forall|s: int| 0 <= s < gs.len() ==> (#[trigger] gs[s]).wf(),
            atoms_before(gs, ns as int) <= u32::MAX,
            n_total == atoms_before(gs, si as int),
            bin_slots_before(gs, ns as int) <= usize::MAX,
            bin_offset == bin_slots_before(gs, si as int),
            system_atom_offset@.len() == si,
            forall|s: int| 0 <= s < si ==> #[trigger] system_atom_offset@[s] == atoms_before(gs, s),
            floor_coord@ == batch_concat(layout_floor(gs), si as int),
            atom_bin@ == batch_concat(layout_atom_bin(gs), si as int),
            atom_system@ == batch_concat(layout_atom_system(gs), si as int),
            sys_ints@ == batch_concat(layout_sys_ints(gs), si as int),
            bin_start@ == batch_concat(layout_bin_start(gs), si as int),
            bin_atoms@ == batch_concat(layout_bin_atoms(gs), si as int),
        decreases ns - si,
    {
        let g = &grids[si];
        proof {
            lemma_atoms_before_monotone(gs, si + 1, ns as int);
            lemma_bin_slots_before_monotone(gs, si + 1, ns as int);
            lemma_bins_cover_atoms(g);
            assert forall|b: int, t: int|
                0 <= b < g.bins@.len() && 0 <= t < g.bins@[b]@.len() implies n_total
                    + #[trigger] g.bins@[b]@[t] <= usize::MAX by {
                lemma_bin_members(g.num_bins, g.atom_bin@, b, g.n_atoms());
            }
        }
        system_atom_offset.push(n_total);
        push_rows(&mut floor_coord, &g.floor_coord);
        push_rows(&mut atom_bin, &g.atom_bin);
        let n = g.atom_bin.len();
        let ghost tags_before = atom_system@;
        let mut a: usize = 0;
        while a < n
            invariant
                a <= n,
                atom_system@ == tags_before + Seq::new(a as nat, |b: int| si as u32),
            decreases n - a,
        {
            atom_system.push(si as u32);
            a = a + 1;
            proof {
                assert(atom_system@ =~= tags_before + Seq::new(a as nat, |b: int| si as u32));
            }
        }
        let ghost ints_before = sys_ints@;
        sys_ints.push(g.num_bins[0] as i32);
        sys_ints.push(g.num_bins[1] as i32);
        sys_ints.push(g.num_bins[2] as i32);
        sys_ints.push(g.shell[0]);
        sys_ints.push(g.shell[1]);
        sys_ints.push(g.shell[2]);
        sys_ints.push(if g.pbc[0] { 1 } else { 0 });
        sys_ints.push(if g.pbc[1] { 1 } else { 0 });
        sys_ints.push(if g.pbc[2] { 1 } else { 0 });
        sys_ints.push(bin_offset as i32);
        push_bin_starts(&mut bin_start, &g.bins, n_total);
        push_bin_atoms(&mut bin_atoms, &g.bins, n_total);
        proof {
            assert(sys_ints@ =~= ints_before + system_ints(gs[si as int], bin_slots_before(gs, si as int)));
            assert(floor_coord@ == batch_concat(layout_floor(gs), si + 1));
            assert(atom_bin@ == batch_concat(layout_atom_bin(gs), si + 1));
            assert(atom_system@ == batch_concat(layout_atom_system(gs), si + 1));
            assert(bin_start@ == batch_concat(layout_bin_start(gs), si + 1));
            assert(bin_atoms@ == batch_concat(layout_bin_atoms(gs), si + 1));
        }
        n_total = n_total + n;
        bin_offset = bin_offset + g.bins.len() + 1;
        si = si + 1;
    }
    proof {
        lemma_layout_lengths(gs, ns as int);
        assert forall|s: int| 0 <= s < ns implies {
            &&& sys_ints@[10 * s] == (#[trigger] gs[s]).num_bins[0] as i32
            &&& sys_ints@[10 * s + 1] == gs[s].num_bins[1] as i32
            &&& sys_ints@[10 * s + 2] == gs[s].num_bins[2] as i32
            &&& sys_ints@[10 * s + 3] == gs[s].shell[0]
            &&& sys_ints@[10 * s + 4] == gs[s].shell[1]
            &&& sys_ints@[10 * s + 5] == gs[s].shell[2]
            &&& sys_ints@[10 * s + 6] == if gs[s].pbc[0] {
                1i32
            } else {
                0i32
            }
            &&& sys_ints@[10 * s + 7] == if gs[s].pbc[1] {
                1i32
            } else {
                0i32
            }
            &&& sys_ints@[10 * s + 8] == if gs[s].pbc[2] {
                1i32
            } else {
                0i32
            }
            &&& sys_ints@[10 * s + 9] == bin_slots_before(gs, s) as i32
        } by {
            lemma_layout_index(gs, s);
        }
    }
    BatchLayout {
        floor_coord,
        atom_bin,
        atom_system,
        sys_ints,
        bin_start,
        bin_atoms,
        system_atom_offset,
        n_atoms_total: n_total,
    }
}

/// Where part `si` begins inside the concatenation of parts.
pub proof fn lemma_batch_concat_index<T>(f: spec_fn(int) -> Seq<T>, k: int, si: int, p: int)
    requires
        0 <= si < k,
        0 <= p < f(si).len(),
    ensures
        batch_concat(f, si).len() + p < batch_concat(f, k).len(),
        batch_concat(f, k)[batch_concat(f, si).len() + p] == f(si)[p],
    decreases k,
{
    if si < k - 1 {
        lemma_batch_concat_index(f, k - 1, si, p);
    }
}

proof fn lemma_flat3(rows: Seq<[i32; 3]>)
    ensures
        flat3(rows).len() == 3 * rows.len(),
        forall|a: int, k: int|
            0 <= a < rows.len() && 0 <= k < 3 ==> flat3(rows)[3 * a + k] == #[trigger] rows[a][k],
    decreases rows.len(),
{
    if rows.len() > 0 {
        let prev = rows.drop_last();
        lemma_flat3(prev);
        assert forall|a: int, k: int|
            0 <= a < rows.len() && 0 <= k < 3 implies flat3(rows)[3 * a + k] == #[trigger] rows[a][k] by {
            if a < rows.len() - 1 {
                assert(prev[a] == rows[a]);
            } else {
                if k == 0 {
                } else if k == 1 {
                } else {
                }
            }
        }
    }
}

proof fn lemma_bin_atoms_from(bins: Seq<Vec<usize>>, offset: int, k: int)
    requires
        0 <= k <= bins.len(),
    ensures
        bin_atoms_from(bins, offset, k).len() == bins_before(bins, k),
        forall|c: int, t: int|
            0 <= c < k && 0 <= t < bins[c]@.len() ==> bin_atoms_from(bins, offset, k)[bins_before(
                bins,
                c,
            ) + t] == (offset + #[trigger] bins[c]@[t]) as u32,
    decreases k,
{
    if k > 0 {
        lemma_bin_atoms_from(bins, offset, k - 1);
        assert forall|c: int, t: int|
            0 <= c < k && 0 <= t < bins[c]@.len() implies bin_atoms_from(bins, offset, k)[bins_before(
                bins,
                c,
            ) + t] == (offset + #[trigger] bins[c]@[t]) as u32 by {
            lemma_bin_atoms_from_step(bins, offset, k, c, t);
        }
    }
}

proof fn lemma_bin_atoms_from_step(bins: Seq<Vec<usize>>, offset: int, k: int, c: int, t: int)
    requires
        0 < k <= bins.len(),
        0 <= c < k,
        0 <= t < bins[c]@.len(),
        bin_atoms_from(bins, offset, k - 1).len() == bins_before(bins, k - 1),
        c < k - 1 ==> bin_atoms_from(bins, offset, k - 1)[bins_before(bins, c) + t] == (offset
            + bins[c]@[t]) as u32,
    ensures
        bin_atoms_from(bins, offset, k)[bins_before(bins, c) + t] == (offset + bins[c]@[t]) as u32,
{
    let prev = bin_atoms_from(bins, offset, k - 1);
    let last = bins[k - 1]@.map_values(|j: usize| (offset + j) as u32);
    let idx = bins_before(bins, c) + t;
    assert(bin_atoms_from(bins, offset, k) == prev + last);
    lemma_bins_before_monotone(bins, 0, c);
    if c < k - 1 {
        lemma_bins_before_monotone(bins, c + 1, k - 1);
        assert(idx < prev.len());
        assert((prev + last)[idx] == prev[idx]);
    } else {
        assert((prev + last)[idx] == last[t]);
    }
}

proof fn lemma_layout_lengths(grids: Seq<BinGrid>, k: int)
    requires
        0 <= k <= grids.len(),
        forall|si: int| 0 <= si < grids.len() ==> (#[trigger] grids[si]).wf(),
    ensures
        batch_concat(layout_floor(grids), k).len() == 3 * atoms_before(grids, k),
        batch_concat(layout_atom_bin(grids), k).len() == 3 * atoms_before(grids, k),
        batch_concat(layout_atom_system(grids), k).len() == atoms_before(grids, k),
        batch_concat(layout_sys_ints(grids), k).len() == 10 * k,
        batch_concat(layout_bin_start(grids), k).len() == bin_slots_before(grids, k),
        batch_concat(layout_bin_atoms(grids), k).len() == atoms_before(grids, k),
    decreases k,
{
    if k > 0 {
        lemma_layout_lengths(grids, k - 1);
        let g = grids[k - 1];
        assert(g.wf());
        lemma_flat3(g.floor_coord@);
        lemma_flat3(g.atom_bin@);
        lemma_bin_atoms_from(g.bins@, atoms_before(grids, k - 1), g.bins@.len() as int);
        lemma_bins_cover_atoms(&g);
    }
}

/// Reading the batch buffers back: row `k` of atom `a` of system `si` sits
/// at `3 * (atoms_before(si) + a) + k`; that atom's system index at
/// `atoms_before(si) + a`; the ten integers of system `si` at `10 * si`
/// (bin counts along x, y, z, then shells, then periodicity flags, then its
/// first bin slot);
/// the start of bin `b` of system `si` at `bin_slots_before(si) + b`, and
/// the atoms of that bin from there on, in global numbers.
pub proof fn lemma_layout_index(grids: Seq<BinGrid>, si: int)
    requires
        forall|s: int| 0 <= s < grids.len() ==> (#[trigger] grids[s]).wf(),
        0 <= si < grids.len(),
    ensures
        forall|a: int, k: int|
            0 <= a < grids[si].n_atoms() && 0 <= k < 3 ==> {
                &&& batch_concat(layout_floor(grids), grids.len() as int)[3 * (atoms_before(grids, si)
                    + a) + k] == #[trigger] grids[si].floor_coord@[a][k]
                &&& batch_concat(layout_atom_bin(grids), grids.len() as int)[3 * (atoms_before(
                    grids,
                    si,
                ) + a) + k] == grids[si].atom_bin@[a][k]
            },
        forall|a: int|
            0 <= a < grids[si].n_atoms() ==> batch_concat(layout_atom_system(grids), grids.len() as int)[#[trigger] global_atom(
                grids,
                si,
                a,
            )] == si as u32,
        batch_concat(layout_sys_ints(grids), grids.len() as int).subrange(10 * si, 10 * si + 10)
            == system_ints(grids[si], bin_slots_before(grids, si)),
        batch_concat(layout_sys_ints(grids), grids.len() as int)[10 * si] == grids[si].num_bins[0] as i32,
        batch_concat(layout_sys_ints(grids), grids.len() as int)[10 * si + 1] == grids[si].num_bins[1] as i32,
        batch_concat(layout_sys_ints(grids), grids.len() as int)[10 * si + 2] == grids[si].num_bins[2] as i32,
        batch_concat(layout_sys_ints(grids), grids.len() as int)[10 * si + 3] == grids[si].shell[0],
        batch_concat(layout_sys_ints(grids), grids.len() as int)[10 * si + 4] == grids[si].shell[1],
        batch_concat(layout_sys_ints(grids), grids.len() as int)[10 * si + 5] == grids[si].shell[2],
        batch_concat(layout_sys_ints(grids), grids.len() as int)[10 * si + 6] == if grids[si].pbc[0] {
            1i32
        } else {
            0i32
        },
        batch_concat(layout_sys_ints(grids), grids.len() as int)[10 * si + 7] == if grids[si].pbc[1] {
            1i32
        } else {
            0i32
        },
        batch_concat(layout_sys_ints(grids), grids.len() as int)[10 * si + 8] == if grids[si].pbc[2] {
            1i32
        } else {
            0i32
        },
        batch_concat(layout_sys_ints(grids), grids.len() as int)[10 * si + 9] == bin_slots_before(
            grids,
            si,
        ) as i32,
        forall|b: int|
            0 <= b <= grids[si].bins@.len() ==> batch_concat(layout_bin_start(grids), grids.len() as int)[bin_slots_before(
                grids,
                si,
            ) + b] == (atoms_before(grids, si) + #[trigger] bins_before(grids[si].bins@, b)) as u32,
        forall|b: int, t: int|
            0 <= b < grids[si].bins@.len() && 0 <= t < grids[si].bins@[b]@.len() ==> batch_concat(
                layout_bin_atoms(grids),
                grids.len() as int,
            )[atoms_before(grids, si) + bins_before(grids[si].bins@, b) + t] == (atoms_before(
                grids,
                si,
            ) + #[trigger] grids[si].bins@[b]@[t]) as u32,
{
    let n = grids.len() as int;
    let g = grids[si];
    lemma_layout_lengths(grids, si);
    lemma_flat3(g.floor_coord@);
    lemma_flat3(g.atom_bin@);
    assert(g.wf());
    assert forall|a: int, k: int| 0 <= a < g.n_atoms() && 0 <= k < 3 implies {
        &&& batch_concat(layout_floor(grids), n)[3 * (atoms_before(grids, si) + a) + k]
            == #[trigger] grids[si].floor_coord@[a][k]
        &&& batch_concat(layout_atom_bin(grids), n)[3 * (atoms_before(grids, si) + a) + k]
            == grids[si].atom_bin@[a][k]
    } by {
        lemma_batch_concat_index(layout_floor(grids), n, si, 3 * a + k);
        lemma_batch_concat_index(layout_atom_bin(grids), n, si, 3 * a + k);
    }
    assert forall|a: int| 0 <= a < g.n_atoms() implies batch_concat(layout_atom_system(grids), n)[#[trigger] global_atom(
        grids,
        si,
        a,
    )] == si as u32 by {
        lemma_batch_concat_index(layout_atom_system(grids), n, si, a);
    }
    lemma_batch_concat_index(layout_sys_ints(grids), n, si, 9);
    assert forall|p: int| 0 <= p < 10 implies batch_concat(layout_sys_ints(grids), n)[10 * si + p]
        == #[trigger] system_ints(g, bin_slots_before(grids, si))[p] by {
        lemma_batch_concat_index(layout_sys_ints(grids), n, si, p);
    }
    assert(batch_concat(layout_sys_ints(grids), n).subrange(10 * si, 10 * si + 10) =~= system_ints(
        g,
        bin_slots_before(grids, si),
    ));
    assert forall|b: int| 0 <= b <= g.bins@.len() implies batch_concat(layout_bin_start(grids), n)[bin_slots_before(
        grids,
        si,
    ) + b] == (atoms_before(grids, si) + #[trigger] bins_before(grids[si].bins@, b)) as u32 by {
        lemma_batch_concat_index(layout_bin_start(grids), n, si, b);
    }
    lemma_bin_atoms_from(g.bins@, atoms_before(grids, si), g.bins@.len() as int);
    assert forall|b: int, t: int|
        0 <= b < g.bins@.len() && 0 <= t < g.bins@[b]@.len() implies batch_concat(
        layout_bin_atoms(grids),
        n,
    )[atoms_before(grids, si) + bins_before(grids[si].bins@, b) + t] == (atoms_before(grids, si)
        + #[trigger] grids[si].bins@[b]@[t]) as u32 by {
        lemma_bins_before_monotone(g.bins@, b + 1, g.bins@.len() as int);
        assert(bins_before(g.bins@, b + 1) == bins_before(g.bins@, b) + g.bins@[b]@.len());
        lemma_bins_before_monotone(g.bins@, 0, b);
        lemma_bins_cover_atoms(&g);
        assert(layout_bin_atoms(grids)(si) == bin_atoms_from(
            g.bins@,
            atoms_before(grids, si),
            g.bins@.len() as int,
        ));
        lemma_batch_concat_index(layout_bin_atoms(grids), n, si, bins_before(g.bins@, b) + t);
    }
}

/// The entry that closes a system's bins in `bin_start` is where the next
/// system's atoms begin, so every bin's atoms end where the next entry says.
pub proof fn lemma_bin_start_closes_system(grids: Seq<BinGrid>, si: int)
    requires
        forall|s: int| 0 <= s < grids.len() ==> (#[trigger] grids[s]).wf(),
        0 <= si < grids.len(),
    ensures
        batch_concat(layout_bin_start(grids), grids.len() as int)[bin_slots_before(grids, si)
            + grids[si].bins@.len()] == atoms_before(grids, si + 1) as u32,
{
    let g = grids[si];
    lemma_layout_lengths(grids, si);
    lemma_batch_concat_index(layout_bin_start(grids), grids.len() as int, si, g.bins@.len() as int);
    assert(g.wf());
    lemma_bins_cover_atoms(&g);
}

/// Record `k` of the GPU output (five integers per record: source atom,
/// destination atom, shift) can be read back: its source atom exists and
/// belongs to a system of the batch, and both atoms are numbered at or after
/// that system's first atom.
pub open spec fn gpu_record_ok(
    pairs: Seq<i32>,
    atom_system: Seq<u32>,
    offsets: Seq<usize>,
    n_systems: int,
    k: int,
) -> bool {
    let ig = pairs[5 * k] as usize;
    let jg = pairs[5 * k + 1] as usize;
    let si = atom_system[ig as int] as int;
    &&& (ig as int) < atom_system.len()
    &&& si < n_systems
    &&& si < offsets.len()
    &&& offsets[si] <= ig
    &&& offsets[si] <= jg
}

/// Record `k` of the GPU output, tagged with its system and renumbered
/// within that system.
pub open spec fn gpu_record(pairs: Seq<i32>, atom_system: Seq<u32>, offsets: Seq<usize>, k: int) -> TaggedPair {
    let ig = pairs[5 * k] as usize;
    let jg = pairs[5 * k + 1] as usize;
    let si = atom_system[ig as int];
    let off = offsets[si as int];
    (
        si as usize,
        (ig - off) as u32,
        (jg - off) as u32,
        [pairs[5 * k + 2], pairs[5 * k + 3], pairs[5 * k + 4]],
    )
}

/// The first `count` records of the GPU output, tagged and renumbered.
pub open spec fn gpu_stream(pairs: Seq<i32>, atom_system: Seq<u32>, offsets: Seq<usize>, count: int) -> Seq<
    TaggedPair,
> {
    Seq::new(count as nat, |k: int| gpu_record(pairs, atom_system, offsets, k))
}

/// Splits the records found by the GPU search into one neighbor list per
/// system of the batch, renumbering atoms within their system. Nothing is
/// returned when the output is too short for `count` records or a record
/// names an atom outside the batch.
pub fn decode_gpu_pairs(
    count: u32,
    pairs: &Vec<i32>,
    atom_system: &Vec<u32>,
    system_atom_offset: &Vec<usize>,
    n_systems: usize,
) -> (r: Option<Vec<NeighborList>>)
    ensures
        r is Some <==> 5 * count <= pairs@.len() && forall|k: int|
            0 <= k < count ==> #[trigger] gpu_record_ok(
                pairs@,
                atom_system@,
                system_atom_offset@,
                n_systems as int,
                k,
            ),
        r matches Some(out) ==> {
            &&& out@.len() == n_systems
            &&& forall|si: int| 0 <= si < n_systems ==> (#[trigger] out@[si]).wf()
            &&& forall|si: int|
                0 <= si < n_systems ==> (#[trigger] out@[si])@ == records_of(
                    gpu_stream(pairs@, atom_system@, system_atom_offset@, count as int),
                    si,
                )
            &&& lists_total(out@, n_systems as int) == count
        },
{
    if (pairs.len() as u64) < 5 * (count as u64) {
        return None;
    }
    let mut stream: Vec<TaggedPair> = Vec::new();
    let mut k: usize = 0;
    while k < count as usize
        invariant
            5 * count <= pairs@.len(),
            pairs@.len() <= usize::MAX,
            k <= count,
            stream@ == gpu_stream(pairs@, atom_system@, system_atom_offset@, k as int),
            forall|t: int| 0 <= t < stream@.len() ==> (#[trigger] stream@[t]).0 < n_systems,
            forall|t: int|
                0 <= t < k ==> #[trigger] gpu_record_ok(
                    pairs@,
                    atom_system@,
                    system_atom_offset@,
                    n_systems as int,
                    t,
                ),
        decreases count - k,
    {
        let base = k * 5;
        let i_global = pairs[base] as usize;
        let j_global = pairs[base + 1] as usize;
        if i_global >= atom_system.len() {
            proof {
                assert(!gpu_record_ok(pairs@, atom_system@, system_atom_offset@, n_systems as int, k as int));
            }
            return None;
        }
        let si = atom_system[i_global] as usize;
        if si >= n_systems || si >= system_atom_offset.len() {
            proof {
                assert(!gpu_record_ok(pairs@, atom_system@, system_atom_offset@, n_systems as int, k as int));
            }
            return None;
        }
        let off = system_atom_offset[si];
        if i_global < off || j_global < off {
            proof {
                assert(!gpu_record_ok(pairs@, atom_system@, system_atom_offset@, n_systems as int, k as int));
            }
            return None;
        }
        let s: [i32; 3] = [pairs[base + 2], pairs[base + 3], pairs[base + 4]];
        stream.push((si, (i_global - off) as u32, (j_global - off) as u32, s));
        proof {
            assert(gpu_record_ok(pairs@, atom_system@, system_atom_offset@, n_systems as int, k as int));
            assert(stream@ =~= gpu_stream(pairs@, atom_system@, system_atom_offset@, k + 1));
        }
        k = k + 1;
    }
    Some(group_by_system(n_systems, stream))
}

/// What to do once the GPU has reported how many records it found.
pub enum CapacityStep {
    /// All records fit in the output buffer.
    Accept,
    /// Too many records: search again with an output buffer of this size.
    Grow(u32),
    /// Too many records even for the largest buffer tried.
    GiveUp,
}

/// Largest output capacity (in records) that is still doubled on overflow.
pub const MAX_GROWN_CAPACITY: u32 = 268435456;

/// Decides, after a GPU search that found `count` records with room for
/// `max_output_pairs`, whether to keep the result, double the room and
/// search again, or give up.
pub fn next_output_capacity(count: u32, max_output_pairs: u32) -> (r: CapacityStep)
    ensures
        count <= max_output_pairs ==> r is Accept,
        count > max_output_pairs && max_output_pairs < MAX_GROWN_CAPACITY ==> r == CapacityStep::Grow(
            (2 * max_output_pairs) as u32,
        ),
        count > max_output_pairs && max_output_pairs >= MAX_GROWN_CAPACITY ==> r is GiveUp,
{
    if count <= max_output_pairs {
        CapacityStep::Accept
    } else if max_output_pairs < MAX_GROWN_CAPACITY {
        CapacityStep::Grow(max_output_pairs * 2)
    } else {
        CapacityStep::GiveUp
    }
}

/// Output capacity (in records) of the first GPU search of a batch:
/// 150 records per atom, and at least 1024.
pub fn initial_output_capacity(n_atoms_total: u32) -> (r: u32)
    requires
        150 * n_atoms_total <= u32::MAX,
    ensures
        r == if 150 * n_atoms_total >= 1024 {
            150 * n_atoms_total
        } else {
            1024
        },
{
    let guess = n_atoms_total * 150;
    if guess >= 1024 {
        guess
    } else {
        1024
    }
}

/// Number of 64-thread workgroups that cover one thread per atom, and at
/// least one.
pub fn workgroup_count(n_atoms_total: u32) -> (r: u32)
    ensures
        r == if n_atoms_total == 0 {
            1
        } else {
            (n_atoms_total + 63) / 64
        },
        n_atoms_total <= 64 * r,
        r >= 1,
{
    let full = n_atoms_total / 64;
    let groups = if n_atoms_total % 64 == 0 {
        full
    } else {
        full + 1
    };
    if groups == 0 {
        1
    } else {
        groups
    }
}

/// Length, in `i32` words, of an output buffer with room for
/// `max_output_pairs` records of five words, and at least one record.
pub fn output_buffer_words(max_output_pairs: u32) -> (r: usize)
    requires
        5 * max_output_pairs <= usize::MAX,
    ensures
        r == if max_output_pairs == 0 {
            5
        } else {
            5 * max_output_pairs
        },
{
    let words = max_output_pairs as usize * 5;
    if words < 5 {
        5
    } else {
        words
    }
}

/// Number of `i32` words to read back after a search that found `count`
/// records with room for `max_output_pairs`: the records that were written.
pub fn readback_words(count: u32, max_output_pairs: u32) -> (r: usize)
    requires
        5 * max_output_pairs <= usize::MAX,
    ensures
        r == 5 * if count <= max_output_pairs {
            count
        } else {
            max_output_pairs
        },
{
    let written = if count <= max_output_pairs {
        count
    } else {
        max_output_pairs
    };
    written as usize * 5
}

/// Numbering round trip: a GPU record that names atoms `a` and `b` of
/// system `si` by their global numbers in the batch layout is read back as
/// the record `(a, b)` of system `si`, with its shift untouched.
pub proof fn lemma_gpu_record_roundtrip(
    grids: Seq<BinGrid>,
    offsets: Seq<usize>,
    pairs: Seq<i32>,
    k: int,
    si: int,
    a: int,
    b: int,
)
    requires
        forall|s: int| 0 <= s < grids.len() ==> (#[trigger] grids[s]).wf(),
        grids.len() <= u32::MAX,
        atoms_before(grids, grids.len() as int) <= i32::MAX,
        offsets.len() == grids.len(),
        forall|s: int| 0 <= s < grids.len() ==> #[trigger] offsets[s] == atoms_before(grids, s),
        0 <= si < grids.len(),
        0 <= a < grids[si].n_atoms(),
        0 <= b < grids[si].n_atoms(),
        0 <= k,
        5 * k + 4 < pairs.len(),
        pairs[5 * k] == global_atom(grids, si, a),
        pairs[5 * k + 1] == global_atom(grids, si, b),
    ensures
        gpu_record_ok(
            pairs,
            batch_concat(layout_atom_system(grids), grids.len() as int),
            offsets,
            grids.len() as int,
            k,
        ),
        gpu_record(pairs, batch_concat(layout_atom_system(grids), grids.len() as int), offsets, k)
            == (si as usize, a as u32, b as u32, [pairs[5 * k + 2], pairs[5 * k + 3], pairs[5 * k
            + 4]]),
{
    lemma_layout_index(grids, si);
    lemma_layout_lengths(grids, grids.len() as int);
    lemma_atoms_before_monotone(grids, si + 1, grids.len() as int);
    lemma_atoms_before_monotone(grids, 0, si);
    let atom_system = batch_concat(layout_atom_system(grids), grids.len() as int);
    assert(atom_system[global_atom(grids, si, a)] == si as u32);
}

} // verus!
