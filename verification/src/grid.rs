use vstd::prelude::*;

use crate::neighbor_list::PairEntry;

verus! {

/// Largest magnitude accepted for bin counts, search shells and the integer
/// part of fractional coordinates; it keeps every periodic shift that the
/// search reconstructs inside `i32`.
pub const GRID_LIMIT: i32 = 268435456;

/// What `wrap_axis` computes, over the integers: on a periodic axis the bin
/// index brought into `[0, n_bins)` and the number of whole cells crossed; on
/// an open axis the index itself when it lies inside the grid, else nothing.
pub open spec fn wrap_spec(idx: int, n_bins: int, periodic: bool) -> Option<(int, int)> {
    if periodic {
        Some((idx % n_bins, idx / n_bins))
    } else if idx < 0 || idx >= n_bins {
        None
    } else {
        Some((idx, 0))
    }
}

/// For a candidate bin index `idx` along one axis with `n_bins` bins: on a
/// periodic axis, wraps it into `[0, n_bins)` and returns the number of whole
/// periodic cells crossed; on an open axis, returns it only when it already
/// lies inside `[0, n_bins)`.
pub fn wrap_axis(idx: i32, n_bins: i32, periodic: bool) -> (r: Option<(i32, i32)>)
    requires
        n_bins > 0,
    ensures
        match wrap_spec(idx as int, n_bins as int, periodic) {
            Some((w, s)) => r == Some((w as i32, s as i32)),
            None => r is None,
        },
        r matches Some((w, s)) ==> 0 <= w < n_bins && idx == w + s * n_bins,
        r matches Some((w, s)) ==> wrap_spec(idx as int, n_bins as int, periodic) == Some(
            (w as int, s as int),
        ),
        !periodic ==> (r matches Some((w, s)) ==> s == 0),
        r matches Some((w, s)) ==> (idx >= 0 ==> 0 <= s <= idx) && (idx < 0 ==> idx <= s <= 0),
{
    if periodic {
        proof {
            vstd::arithmetic::div_mod::lemma_fundamental_div_mod(idx as int, n_bins as int);
            vstd::arithmetic::div_mod::lemma_mod_bound(idx as int, n_bins as int);
            lemma_floor_div_bound(idx as int, n_bins as int);
        }
        let wrapped = idx.checked_rem_euclid(n_bins).unwrap();
        let shift = idx.checked_div_euclid(n_bins).unwrap();
        proof {
            assert(idx as int == (n_bins as int) * (idx as int / n_bins as int) + (idx as int
                % n_bins as int));
            assert(idx as int == wrapped as int + (shift as int) * (n_bins as int)) by (nonlinear_arith)
                requires
                    idx as int == (n_bins as int) * (shift as int) + wrapped as int,
            ;
        }
        Some((wrapped, shift))
    } else if idx < 0 || idx >= n_bins {
        None
    } else {
        Some((idx, 0))
    }
}

/// Floor division by a positive number never grows the magnitude.
pub(crate) proof fn lemma_floor_div_bound(x: int, n: int)
    requires
        n >= 1,
    ensures
        x >= 0 ==> 0 <= x / n <= x,
        x < 0 ==> x <= x / n < 0,
{
    vstd::arithmetic::div_mod::lemma_fundamental_div_mod(x, n);
    vstd::arithmetic::div_mod::lemma_mod_bound(x, n);
    let q = x / n;
    let r = x % n;
    assert(x >= 0 ==> 0 <= q <= x) by (nonlinear_arith)
        requires
            x == n * q + r,
            0 <= r < n,
            n >= 1,
    ;
    assert(x < 0 ==> x <= q < 0) by (nonlinear_arith)
        requires
            x == n * q + r,
            0 <= r < n,
            n >= 1,
    ;
}

/// Linear id of the bin `(x, y, z)`: `x + nx * (y + ny * z)`.
pub open spec fn bin_index(nb: [usize; 3], x: int, y: int, z: int) -> int {
    x + nb[0] * (y + nb[1] * z)
}

/// Number of bins of the grid.
pub open spec fn grid_volume(nb: [usize; 3]) -> int {
    nb[0] * nb[1] * nb[2]
}

/// The bin coordinate `b` lies inside the grid.
pub open spec fn bin_in_grid(nb: [usize; 3], b: [i32; 3]) -> bool {
    &&& 0 <= b[0] < nb[0]
    &&& 0 <= b[1] < nb[1]
    &&& 0 <= b[2] < nb[2]
}

/// Atoms `0..upto` whose bin has linear id `id`, in increasing order.
pub open spec fn bin_members(nb: [usize; 3], atom_bin: Seq<[i32; 3]>, id: int, upto: int) -> Seq<
    usize,
>
    decreases upto,
{
    if upto <= 0 {
        Seq::empty()
    } else {
        let prev = bin_members(nb, atom_bin, id, upto - 1);
        let b = atom_bin[upto - 1];
        if bin_index(nb, b[0] as int, b[1] as int, b[2] as int) == id {
            prev.push((upto - 1) as usize)
        } else {
            prev
        }
    }
}

/// The smaller of two integers.
pub open spec fn int_min(a: int, b: int) -> int {
    if a <= b {
        a
    } else {
        b
    }
}

/// `v` brought into `[lo, hi]`.
pub open spec fn clamp_spec(v: int, lo: int, hi: int) -> int {
    if v < lo {
        lo
    } else if v > hi {
        hi
    } else {
        v
    }
}

/// A cell-list grid: per-axis bin counts, search shells and periodicity;
/// each atom's bin and the integer part removed from its fractional
/// coordinates; and the atoms of each bin, listed by linear bin id.
pub struct BinGrid {
    pub num_bins: [usize; 3],
    pub shell: [i32; 3],
    pub pbc: [bool; 3],
    pub floor_coord: Vec<[i32; 3]>,
    pub atom_bin: Vec<[i32; 3]>,
    pub bins: Vec<Vec<usize>>,
}

impl BinGrid {
    /// Number of atoms binned.
    pub open spec fn n_atoms(&self) -> int {
        self.atom_bin@.len() as int
    }

    /// Bin counts, shells and floors are in range, every atom lies in a bin of
    /// the grid, and each bin lists exactly its atoms in increasing order.
    pub open spec fn wf(&self) -> bool {
        &&& forall|k: int| 0 <= k < 3 ==> 1 <= #[trigger] self.num_bins[k] <= GRID_LIMIT
        &&& forall|k: int| 0 <= k < 3 ==> 1 <= #[trigger] self.shell[k] <= GRID_LIMIT
        &&& grid_volume(self.num_bins) <= usize::MAX
        &&& self.floor_coord@.len() == self.atom_bin@.len()
        &&& self.atom_bin@.len() <= u32::MAX
        &&& forall|a: int|
            0 <= a < self.atom_bin@.len() ==> bin_in_grid(self.num_bins, #[trigger] self.atom_bin@[a])
        &&& forall|a: int, k: int|
            0 <= a < self.floor_coord@.len() && 0 <= k < 3 ==> -GRID_LIMIT <= #[trigger] self.floor_coord@[a][k]
                <= GRID_LIMIT
        &&& self.bins@.len() == grid_volume(self.num_bins)
        &&& forall|id: int|
            0 <= id < self.bins@.len() ==> #[trigger] self.bins@[id]@ == bin_members(
                self.num_bins,
                self.atom_bin@,
                id,
                self.atom_bin@.len() as int,
            )
    }
}

/// A bin inside the grid has a linear id in `[0, volume)`.
pub proof fn lemma_bin_index_in_range(nb: [usize; 3], x: int, y: int, z: int)
    requires
        0 <= x < nb[0],
        0 <= y < nb[1],
        0 <= z < nb[2],
    ensures
        0 <= bin_index(nb, x, y, z) < grid_volume(nb),
{
    let n0 = nb[0] as int;
    let n1 = nb[1] as int;
    let n2 = nb[2] as int;
    assert(0 <= x + n0 * (y + n1 * z) < n0 * n1 * n2) by (nonlinear_arith)
        requires
            0 <= x < n0,
            0 <= y < n1,
            0 <= z < n2,
    ;
}

/// Bins are numbered with `x` fastest, then `y`, then `z`: bin `(0, 0, 0)`
/// is first, and a step along `x`, `y` or `z` moves the id by `1`, `nx` or
/// `nx * ny`.
pub proof fn lemma_bin_index_strides(nb: [usize; 3], x: int, y: int, z: int)
    ensures
        bin_index(nb, 0, 0, 0) == 0,
        bin_index(nb, x + 1, y, z) == bin_index(nb, x, y, z) + 1,
        bin_index(nb, x, y + 1, z) == bin_index(nb, x, y, z) + nb[0],
        bin_index(nb, x, y, z + 1) == bin_index(nb, x, y, z) + nb[0] * nb[1],
{
    let n0 = nb[0] as int;
    let n1 = nb[1] as int;
    assert(n0 * (y + 1 + n1 * z) == n0 * (y + n1 * z) + n0) by (nonlinear_arith);
    assert(n0 * (y + n1 * (z + 1)) == n0 * (y + n1 * z) + n0 * n1) by (nonlinear_arith);
    assert(n0 * (0 + n1 * 0) == 0) by (nonlinear_arith);
}

/// Two bins inside the grid with the same linear id are the same bin.
pub proof fn lemma_bin_index_injective(
    nb: [usize; 3],
    x: int,
    y: int,
    z: int,
    x2: int,
    y2: int,
    z2: int,
)
    requires
        0 <= x < nb[0],
        0 <= y < nb[1],
        0 <= z < nb[2],
        0 <= x2 < nb[0],
        0 <= y2 < nb[1],
        0 <= z2 < nb[2],
        bin_index(nb, x, y, z) == bin_index(nb, x2, y2, z2),
    ensures
        x == x2 && y == y2 && z == z2,
{
    let n0 = nb[0] as int;
    let n1 = nb[1] as int;
    assert(x == x2 && y + n1 * z == y2 + n1 * z2) by (nonlinear_arith)
        requires
            0 <= x < n0,
            0 <= x2 < n0,
            0 <= y < n1,
            0 <= y2 < n1,
            0 <= z,
            0 <= z2,
            x + n0 * (y + n1 * z) == x2 + n0 * (y2 + n1 * z2),
    ;
    assert(y == y2 && z == z2) by (nonlinear_arith)
        requires
            0 <= y < n1,
            0 <= y2 < n1,
            y + n1 * z == y2 + n1 * z2,
    ;
}

/// The members listed for a bin are atoms below `upto`, in strictly
/// increasing order, and an atom is listed exactly when it lies in the bin.
pub proof fn lemma_bin_members(nb: [usize; 3], atom_bin: Seq<[i32; 3]>, id: int, upto: int)
    requires
        0 <= upto <= atom_bin.len(),
        upto <= usize::MAX,
    ensures
        forall|k: int|
            0 <= k < bin_members(nb, atom_bin, id, upto).len() ==> #[trigger] bin_members(
                nb,
                atom_bin,
                id,
                upto,
            )[k] < upto,
        forall|k: int, l: int|
            0 <= k < l < bin_members(nb, atom_bin, id, upto).len() ==> #[trigger] bin_members(
                nb,
                atom_bin,
                id,
                upto,
            )[k] < #[trigger] bin_members(nb, atom_bin, id, upto)[l],
        forall|a: int|
            0 <= a < upto ==> (bin_members(nb, atom_bin, id, upto).contains(a as usize) <==> {
                let b = #[trigger] atom_bin[a];
                bin_index(nb, b[0] as int, b[1] as int, b[2] as int) == id
            }),
    decreases upto,
{
    if upto > 0 {
        lemma_bin_members(nb, atom_bin, id, upto - 1);
        let prev = bin_members(nb, atom_bin, id, upto - 1);
        let cur = bin_members(nb, atom_bin, id, upto);
        let last = atom_bin[upto - 1];
        let hit = bin_index(nb, last[0] as int, last[1] as int, last[2] as int) == id;
        if hit {
            assert(cur == prev.push((upto - 1) as usize));
        } else {
            assert(cur == prev);
        }
        assert forall|k: int| 0 <= k < cur.len() implies #[trigger] cur[k] < upto by {
            if k < prev.len() {
                assert(cur[k] == prev[k]);
            }
        }
        assert forall|k: int, l: int| 0 <= k < l < cur.len() implies #[trigger] cur[k]
            < #[trigger] cur[l] by {
            assert(cur[k] == prev[k]);
            if l < prev.len() {
                assert(cur[l] == prev[l]);
            }
        }
        assert forall|a: int| 0 <= a < upto implies (cur.contains(a as usize) <==> {
            let b = #[trigger] atom_bin[a];
            bin_index(nb, b[0] as int, b[1] as int, b[2] as int) == id
        }) by {
            if a < upto - 1 {
                if prev.contains(a as usize) {
                    let k = choose|k: int| 0 <= k < prev.len() && prev[k] == a as usize;
                    assert(cur[k] == a as usize);
                }
                if cur.contains(a as usize) {
                    let k = choose|k: int| 0 <= k < cur.len() && cur[k] == a as usize;
                    if k < prev.len() {
                        assert(prev[k] == a as usize);
                    } else {
                        assert(cur[k] == (upto - 1) as usize);
                    }
                }
            } else {
                if hit {
                    assert(cur[cur.len() - 1] == a as usize);
                } else if cur.contains(a as usize) {
                    let k = choose|k: int| 0 <= k < cur.len() && cur[k] == a as usize;
                    assert(prev[k] < upto - 1);
                }
            }
        }
    }
}

/// Grid construction: bin counts become at least 1; each raw bin coordinate
/// is clamped into the grid; an open axis searches at most as many shells as
/// it has bins; each bin then lists its atoms in increasing order.
pub fn build_bin_grid(
    raw_num_bins: [usize; 3],
    raw_shell: [i32; 3],
    pbc: [bool; 3],
    raw_bin: Vec<[i32; 3]>,
    floor_coord: Vec<[i32; 3]>,
) -> (g: BinGrid)
    requires
        forall|k: int| 0 <= k < 3 ==> #[trigger] raw_num_bins[k] <= GRID_LIMIT,
        forall|k: int|
            0 <= k < 3 ==> 1 <= #[trigger] raw_shell[k] && (pbc[k] ==> raw_shell[k] <= GRID_LIMIT),
        bin_count_spec(raw_num_bins[0]) * bin_count_spec(raw_num_bins[1]) * bin_count_spec(
            raw_num_bins[2],
        ) <= usize::MAX,
        raw_bin@.len() == floor_coord@.len(),
        raw_bin@.len() <= u32::MAX,
        forall|a: int, k: int|
            0 <= a < floor_coord@.len() && 0 <= k < 3 ==> -GRID_LIMIT <= #[trigger] floor_coord@[a][k]
                <= GRID_LIMIT,
    ensures
        g.wf(),
        forall|k: int| 0 <= k < 3 ==> #[trigger] g.num_bins[k] == bin_count_spec(raw_num_bins[k]),
        forall|k: int|
            0 <= k < 3 ==> #[trigger] g.shell[k] == if pbc[k] {
                raw_shell[k] as int
            } else {
                int_min(raw_shell[k] as int, g.num_bins[k] as int)
            },
        g.pbc == pbc,
        g.floor_coord@ == floor_coord@,
        g.atom_bin@.len() == raw_bin@.len(),
        forall|a: int, k: int|
            0 <= a < raw_bin@.len() && 0 <= k < 3 ==> #[trigger] g.atom_bin@[a][k] == clamp_spec(
                raw_bin@[a][k] as int,
                0,
                g.num_bins[k] - 1,
            ),
{
    let nb0: usize = bin_count(raw_num_bins[0]);
    let nb1: usize = bin_count(raw_num_bins[1]);
    let nb2: usize = bin_count(raw_num_bins[2]);
    let num_bins: [usize; 3] = [nb0, nb1, nb2];
    let mut shell: [i32; 3] = [raw_shell[0], raw_shell[1], raw_shell[2]];
    if !pbc[0] && (nb0 as i32) < shell[0] {
        shell[0] = nb0 as i32;
    }
    if !pbc[1] && (nb1 as i32) < shell[1] {
        shell[1] = nb1 as i32;
    }
    if !pbc[2] && (nb2 as i32) < shell[2] {
        shell[2] = nb2 as i32;
    }
    proof {
        assert(num_bins[0] == nb0 && num_bins[1] == nb1 && num_bins[2] == nb2);
        assert(nb0 * nb1 <= nb0 * nb1 * nb2) by (nonlinear_arith)
            requires
                nb0 >= 1,
                nb1 >= 1,
                nb2 >= 1,
        ;
    }
    let volume: usize = nb0 * nb1 * nb2;
    let n = raw_bin.len();

    // Clamp every atom's raw bin coordinate into the grid.
    let mut atom_bin: Vec<[i32; 3]> = Vec::new();
    let mut a: usize = 0;
    while a < n
        invariant
            n == raw_bin@.len(),
            num_bins == [nb0, nb1, nb2],
            1 <= nb0 <= GRID_LIMIT,
            1 <= nb1 <= GRID_LIMIT,
            1 <= nb2 <= GRID_LIMIT,
            a <= n,
            atom_bin@.len() == a,
            forall|b: int| 0 <= b < a ==> bin_in_grid(num_bins, #[trigger] atom_bin@[b]),
            forall|b: int, k: int|
                0 <= b < a && 0 <= k < 3 ==> #[trigger] atom_bin@[b][k] == clamp_spec(
                    raw_bin@[b][k] as int,
                    0,
                    num_bins[k] - 1,
                ),
        decreases n - a,
    {
        let r = raw_bin[a];
        let c0 = clamp_bin(r[0], nb0 as i32);
        let c1 = clamp_bin(r[1], nb1 as i32);
        let c2 = clamp_bin(r[2], nb2 as i32);
        atom_bin.push([c0, c1, c2]);
        proof {
            let e = atom_bin@[a as int];
            assert(e[0] == c0 && e[1] == c1 && e[2] == c2);
            assert forall|k: int| 0 <= k < 3 implies #[trigger] e[k] == clamp_spec(
                raw_bin@[a as int][k] as int,
                0,
                num_bins[k] - 1,
            ) by {
                if k == 0 {
                } else if k == 1 {
                } else {
                }
            }
        }
        a = a + 1;
    }

    // One empty list per bin.
    let mut bins: Vec<Vec<usize>> = Vec::new();
    let mut id: usize = 0;
    while id < volume
        invariant
            id <= volume,
            bins@.len() == id,
            forall|b: int| 0 <= b < id ==> (#[trigger] bins@[b])@ == Seq::<usize>::empty(),
        decreases volume - id,
    {
        bins.push(Vec::new());
        id = id + 1;
    }

    // Each atom joins its bin, in increasing atom order.
    let mut a: usize = 0;
    while a < n
        invariant
            n == atom_bin@.len(),
            num_bins == [nb0, nb1, nb2],
            volume == grid_volume(num_bins),
            volume as int == (nb0 as int) * (nb1 as int) * (nb2 as int),
            1 <= nb0,
            1 <= nb1,
            1 <= nb2,
            bins@.len() == volume,
            forall|b: int| 0 <= b < n ==> bin_in_grid(num_bins, #[trigger] atom_bin@[b]),
            a <= n,
            forall|b: int|
                0 <= b < volume ==> #[trigger] bins@[b]@ == bin_members(
                    num_bins,
                    atom_bin@,
                    b,
                    a as int,
                ),
        decreases n - a,
    {
        let p = atom_bin[a];
        proof {
            assert(bin_in_grid(num_bins, atom_bin@[a as int]));
            lemma_bin_index_in_range(num_bins, p[0] as int, p[1] as int, p[2] as int);
            assert((nb1 as int) * (nb2 as int) <= (nb0 as int) * (nb1 as int) * (nb2 as int)) by (nonlinear_arith)
                requires
                    nb0 >= 1,
                    nb1 >= 1,
                    nb2 >= 1,
            ;
            assert((nb1 as int) * (p[2] as int) <= (nb1 as int) * (nb2 as int)) by (nonlinear_arith)
                requires
                    0 <= p[2] < nb2,
                    nb1 >= 1,
            ;
            assert(p[1] as int + (nb1 as int) * (p[2] as int) < (nb1 as int) * (nb2 as int)) by (nonlinear_arith)
                requires
                    0 <= p[1] < nb1,
                    0 <= p[2] < nb2,
            ;
            assert((nb0 as int) * ((p[1] as int) + (nb1 as int) * (p[2] as int)) <= (nb0 as int) * (
            nb1 as int) * (nb2 as int)) by (nonlinear_arith)
                requires
                    0 <= p[1] as int + (nb1 as int) * (p[2] as int) < (nb1 as int) * (nb2 as int),
                    nb0 >= 1,
            ;
        }
        let b = (p[0] as usize) + nb0 * ((p[1] as usize) + nb1 * (p[2] as usize));
        let ghost old_bins = bins@;
        bins[b].push(a);
        proof {
            assert(b as int == bin_index(num_bins, p[0] as int, p[1] as int, p[2] as int));
            assert forall|c: int| 0 <= c < volume implies #[trigger] bins@[c]@ == bin_members(
                num_bins,
                atom_bin@,
                c,
                a + 1,
            ) by {
                assert(bin_members(num_bins, atom_bin@, c, a + 1) == if bin_index(
                    num_bins,
                    p[0] as int,
                    p[1] as int,
                    p[2] as int,
                ) == c {
                    bin_members(num_bins, atom_bin@, c, a as int).push(a)
                } else {
                    bin_members(num_bins, atom_bin@, c, a as int)
                });
                if c != b {
                    assert(bins@[c] == old_bins[c]);
                }
            }
        }
        a = a + 1;
    }
    proof {
        assert forall|k: int| 0 <= k < 3 implies 1 <= #[trigger] num_bins[k] <= GRID_LIMIT by {
            if k == 0 {
            } else if k == 1 {
            } else {
            }
        }
    }
    let g = BinGrid { num_bins, shell, pbc, floor_coord, atom_bin, bins };
    proof {
        assert forall|k: int| 0 <= k < 3 implies 1 <= #[trigger] g.shell[k] <= GRID_LIMIT by {
            if k == 0 {
            } else if k == 1 {
            } else {
            }
        }
        assert forall|k: int|
            0 <= k < 3 implies #[trigger] g.shell[k] == if pbc[k] {
                raw_shell[k] as int
            } else {
                int_min(raw_shell[k] as int, g.num_bins[k] as int)
            } by {
            if k == 0 {
            } else if k == 1 {
            } else {
            }
        }
    }
    g
}

/// The raw bin count along an axis, but at least one.
pub open spec fn bin_count_spec(raw: usize) -> int {
    if raw == 0 {
        1
    } else {
        raw as int
    }
}

/// Number of bins along an axis: the raw count, but at least one.
pub fn bin_count(raw: usize) -> (r: usize)
    ensures
        r == bin_count_spec(raw),
        r >= 1,
{
    if raw == 0 {
        1
    } else {
        raw
    }
}

/// Clamps a raw bin coordinate into `[0, n_bins - 1]`.
fn clamp_bin(v: i32, n_bins: i32) -> (r: i32)
    requires
        n_bins >= 1,
    ensures
        r == clamp_spec(v as int, 0, n_bins - 1),
        0 <= r < n_bins,
{
    if v < 0 {
        0
    } else if v > n_bins - 1 {
        n_bins - 1
    } else {
        v
    }
}

impl BinGrid {
    /// Shift of the record `(i, j)` found through a bin reached after crossing
    /// `(b0, b1, b2)` whole cells: the crossing corrected by the integer parts
    /// removed from both atoms' fractional coordinates.
    pub open spec fn record_shift(&self, i: int, j: int, b0: int, b1: int, b2: int) -> [i32; 3] {
        [
            (b0 - self.floor_coord@[j][0] + self.floor_coord@[i][0]) as i32,
            (b1 - self.floor_coord@[j][1] + self.floor_coord@[i][1]) as i32,
            (b2 - self.floor_coord@[j][2] + self.floor_coord@[i][2]) as i32,
        ]
    }

    /// The records that atom `i` gets from the atoms `js` of one bin reached
    /// after crossing `(b0, b1, b2)` whole cells: every atom, but atom `i`
    /// itself at zero shift, in the order of `js`.
    pub open spec fn bin_records(&self, i: int, b0: int, b1: int, b2: int, js: Seq<usize>) -> Seq<
        PairEntry,
    >
        decreases js.len(),
    {
        if js.len() == 0 {
            Seq::empty()
        } else {
            let prev = self.bin_records(i, b0, b1, b2, js.drop_last());
            let j = js.last() as int;
            let s = self.record_shift(i, j, b0, b1, b2);
            if i == j && s[0] == 0 && s[1] == 0 && s[2] == 0 {
                prev
            } else {
                prev.push((i as u32, j as u32, s))
            }
        }
    }

    /// Where the search of atom `i` lands along axis `k` for offset `d`.
    pub open spec fn wrap_at(&self, i: int, k: int, d: int) -> Option<(int, int)> {
        wrap_spec(self.atom_bin@[i][k] + d, self.num_bins[k] as int, self.pbc[k])
    }

    /// The records that atom `i` gets from the bin at offset `(d0, d1, d2)`
    /// from its own bin; none when that bin lies outside an open axis.
    pub open spec fn cell_records(&self, i: int, d0: int, d1: int, d2: int) -> Seq<PairEntry> {
        let w0 = self.wrap_at(i, 0, d0);
        let w1 = self.wrap_at(i, 1, d1);
        let w2 = self.wrap_at(i, 2, d2);
        if w0 is Some && w1 is Some && w2 is Some {
            let (x, b0) = w0.unwrap();
            let (y, b1) = w1.unwrap();
            let (z, b2) = w2.unwrap();
            self.bin_records(i, b0, b1, b2, self.bins@[bin_index(self.num_bins, x, y, z)]@)
        } else {
            Seq::empty()
        }
    }

    /// Records of atom `i` over `d2` in `[-shell, upto)`, for fixed `d0, d1`.
    pub open spec fn sweep_z(&self, i: int, d0: int, d1: int, upto: int) -> Seq<PairEntry>
        decreases upto + self.shell[2],
    {
        if upto <= -self.shell[2] {
            Seq::empty()
        } else {
            self.sweep_z(i, d0, d1, upto - 1) + self.cell_records(i, d0, d1, upto - 1)
        }
    }

    /// Records of atom `i` over `d1` in `[-shell, upto)` and all `d2`, for fixed `d0`.
    pub open spec fn sweep_y(&self, i: int, d0: int, upto: int) -> Seq<PairEntry>
        decreases upto + self.shell[1],
    {
        if upto <= -self.shell[1] {
            Seq::empty()
        } else {
            self.sweep_y(i, d0, upto - 1) + if self.wrap_at(i, 1, upto - 1) is Some {
                self.sweep_z(i, d0, upto - 1, self.shell[2] + 1)
            } else {
                Seq::empty()
            }
        }
    }

    /// Records of atom `i` over `d0` in `[-shell, upto)` and all `d1, d2`.
    pub open spec fn sweep_x(&self, i: int, upto: int) -> Seq<PairEntry>
        decreases upto + self.shell[0],
    {
        if upto <= -self.shell[0] {
            Seq::empty()
        } else {
            self.sweep_x(i, upto - 1) + if self.wrap_at(i, 0, upto - 1) is Some {
                self.sweep_y(i, upto - 1, self.shell[1] + 1)
            } else {
                Seq::empty()
            }
        }
    }

    /// Every candidate record of atom `i`: the bins within the search shell
    /// of its own bin, visited with `d0` outermost and `d2` innermost, each
    /// bin's atoms in increasing order, atom `i` itself at zero shift left out.
    pub open spec fn atom_candidates(&self, i: int) -> Seq<PairEntry> {
        self.sweep_x(i, self.shell[0] + 1)
    }

    /// The candidate records of atom `i`: the records, before any distance
    /// test, that the cell-list search of atom `i` visits.
    pub fn neighbor_candidates(&self, i: usize) -> (r: Vec<PairEntry>)
        requires
            self.wf(),
            i < self.atom_bin@.len(),
        ensures
            r@ == self.atom_candidates(i as int),
    {
        let bi = self.atom_bin[i];
        let fi = self.floor_coord[i];
        let n0 = self.num_bins[0] as i32;
        let n1 = self.num_bins[1] as i32;
        let n2 = self.num_bins[2] as i32;
        let sh0 = self.shell[0];
        let sh1 = self.shell[1];
        let sh2 = self.shell[2];
        proof {
            assert(1 <= self.num_bins[0] <= GRID_LIMIT);
            assert(1 <= self.num_bins[1] <= GRID_LIMIT);
            assert(1 <= self.num_bins[2] <= GRID_LIMIT);
            assert(1 <= sh0 <= GRID_LIMIT && 1 <= sh1 <= GRID_LIMIT && 1 <= sh2 <= GRID_LIMIT);
            assert(bin_in_grid(self.num_bins, self.atom_bin@[i as int]));
            assert(-GRID_LIMIT <= fi[0] <= GRID_LIMIT);
            assert(-GRID_LIMIT <= fi[1] <= GRID_LIMIT);
            assert(-GRID_LIMIT <= fi[2] <= GRID_LIMIT);
        }
        let mut out: Vec<PairEntry> = Vec::new();
        let mut d0: i32 = -sh0;
        while d0 <= sh0
            invariant
                self.wf(),
                i < self.atom_bin@.len(),
                bi == self.atom_bin@[i as int],
                fi == self.floor_coord@[i as int],
                n0 == self.num_bins[0],
                n1 == self.num_bins[1],
                n2 == self.num_bins[2],
                sh0 == self.shell[0],
                sh1 == self.shell[1],
                sh2 == self.shell[2],
                1 <= n0 <= GRID_LIMIT,
                1 <= n1 <= GRID_LIMIT,
                1 <= n2 <= GRID_LIMIT,
                1 <= sh0 <= GRID_LIMIT,
                1 <= sh1 <= GRID_LIMIT,
                1 <= sh2 <= GRID_LIMIT,
                bin_in_grid(self.num_bins, bi),
                -GRID_LIMIT <= fi[0] <= GRID_LIMIT,
                -GRID_LIMIT <= fi[1] <= GRID_LIMIT,
                -GRID_LIMIT <= fi[2] <= GRID_LIMIT,
                -sh0 <= d0 <= sh0 + 1,
                out@ == self.sweep_x(i as int, d0 as int),
            decreases sh0 + 1 - d0,
        {
            let ghost before_x = out@;
            if let Some((x, b0)) = wrap_axis(bi[0] + d0, n0, self.pbc[0]) {
                let mut d1: i32 = -sh1;
                while d1 <= sh1
                    invariant
                        self.wf(),
                        i < self.atom_bin@.len(),
                        bi == self.atom_bin@[i as int],
                        fi == self.floor_coord@[i as int],
                        n0 == self.num_bins[0],
                        n1 == self.num_bins[1],
                        n2 == self.num_bins[2],
                        sh1 == self.shell[1],
                        sh2 == self.shell[2],
                        1 <= n0 <= GRID_LIMIT,
                        1 <= n1 <= GRID_LIMIT,
                        1 <= n2 <= GRID_LIMIT,
                        1 <= sh1 <= GRID_LIMIT,
                        1 <= sh2 <= GRID_LIMIT,
                        bin_in_grid(self.num_bins, bi),
                        -GRID_LIMIT <= fi[0] <= GRID_LIMIT,
                        -GRID_LIMIT <= fi[1] <= GRID_LIMIT,
                        -GRID_LIMIT <= fi[2] <= GRID_LIMIT,
                        self.wrap_at(i as int, 0, d0 as int) == Some((x as int, b0 as int)),
                        0 <= x < n0,
                        -2 * GRID_LIMIT <= b0 <= 2 * GRID_LIMIT,
                        -sh1 <= d1 <= sh1 + 1,
                        out@ == before_x + self.sweep_y(i as int, d0 as int, d1 as int),
                    decreases sh1 + 1 - d1,
                {
                    let ghost before_y = out@;
                    if let Some((y, b1)) = wrap_axis(bi[1] + d1, n1, self.pbc[1]) {
                        let mut d2: i32 = -sh2;
                        while d2 <= sh2
                            invariant
                                self.wf(),
                                i < self.atom_bin@.len(),
                                bi == self.atom_bin@[i as int],
                                fi == self.floor_coord@[i as int],
                                n0 == self.num_bins[0],
                                n1 == self.num_bins[1],
                                n2 == self.num_bins[2],
                                sh2 == self.shell[2],
                                1 <= n0 <= GRID_LIMIT,
                                1 <= n1 <= GRID_LIMIT,
                                1 <= n2 <= GRID_LIMIT,
                                1 <= sh2 <= GRID_LIMIT,
                                bin_in_grid(self.num_bins, bi),
                                -GRID_LIMIT <= fi[0] <= GRID_LIMIT,
                                -GRID_LIMIT <= fi[1] <= GRID_LIMIT,
                                -GRID_LIMIT <= fi[2] <= GRID_LIMIT,
                                self.wrap_at(i as int, 0, d0 as int) == Some((x as int, b0 as int)),
                                self.wrap_at(i as int, 1, d1 as int) == Some((y as int, b1 as int)),
                                0 <= x < n0,
                                0 <= y < n1,
                                -2 * GRID_LIMIT <= b0 <= 2 * GRID_LIMIT,
                                -2 * GRID_LIMIT <= b1 <= 2 * GRID_LIMIT,
                                -sh2 <= d2 <= sh2 + 1,
                                out@ == before_y + self.sweep_z(
                                    i as int,
                                    d0 as int,
                                    d1 as int,
                                    d2 as int,
                                ),
                            decreases sh2 + 1 - d2,
                        {
                            let ghost before_z = out@;
                            if let Some((z, b2)) = wrap_axis(bi[2] + d2, n2, self.pbc[2]) {
                                proof {
                                    lemma_bin_index_in_range(
                                        self.num_bins,
                                        x as int,
                                        y as int,
                                        z as int,
                                    );
                                    lemma_linear_id_fits(self.num_bins, x as int, y as int, z as int);
                                }
                                let id = (x as usize) + (n0 as usize) * ((y as usize) + (n1 as usize)
                                    * (z as usize));
                                let atoms = &self.bins[id];
                                proof {
                                    lemma_bin_members(
                                        self.num_bins,
                                        self.atom_bin@,
                                        id as int,
                                        self.atom_bin@.len() as int,
                                    );
                                }
                                let mut k: usize = 0;
                                while k < atoms.len()
                                    invariant
                                        self.wf(),
                                        i < self.atom_bin@.len(),
                                        fi == self.floor_coord@[i as int],
                                        -GRID_LIMIT <= fi[0] <= GRID_LIMIT,
                                        -GRID_LIMIT <= fi[1] <= GRID_LIMIT,
                                        -GRID_LIMIT <= fi[2] <= GRID_LIMIT,
                                        -2 * GRID_LIMIT <= b0 <= 2 * GRID_LIMIT,
                                        -2 * GRID_LIMIT <= b1 <= 2 * GRID_LIMIT,
                                        -2 * GRID_LIMIT <= b2 <= 2 * GRID_LIMIT,
                                        forall|t: int|
                                            0 <= t < atoms@.len() ==> #[trigger] atoms@[t]
                                                < self.atom_bin@.len(),
                                        k <= atoms@.len(),
                                        out@ == before_z + self.bin_records(
                                            i as int,
                                            b0 as int,
                                            b1 as int,
                                            b2 as int,
                                            atoms@.take(k as int),
                                        ),
                                    decreases atoms.len() - k,
                                {
                                    let j = atoms[k];
                                    let fj = self.floor_coord[j];
                                    proof {
                                        assert(-GRID_LIMIT <= fj[0] <= GRID_LIMIT);
                                        assert(-GRID_LIMIT <= fj[1] <= GRID_LIMIT);
                                        assert(-GRID_LIMIT <= fj[2] <= GRID_LIMIT);
                                    }
                                    let s: [i32; 3] = [
                                        b0 - fj[0] + fi[0],
                                        b1 - fj[1] + fi[1],
                                        b2 - fj[2] + fi[2],
                                    ];
                                    proof {
                                        assert(atoms@.take(k + 1).drop_last() =~= atoms@.take(
                                            k as int,
                                        ));
                                        assert(atoms@.take(k + 1).last() == j);
                                        let rs = self.record_shift(
                                            i as int,
                                            j as int,
                                            b0 as int,
                                            b1 as int,
                                            b2 as int,
                                        );
                                        assert(rs[0] == s[0] && rs[1] == s[1] && rs[2] == s[2]);
                                        assert(rs =~= s);
                                    }
                                    if !(i == j && s[0] == 0 && s[1] == 0 && s[2] == 0) {
                                        out.push((i as u32, j as u32, s));
                                    }
                                    k = k + 1;
                                }
                                proof {
                                    assert(atoms@.take(atoms@.len() as int) =~= atoms@);
                                    assert(id as int == bin_index(
                                        self.num_bins,
                                        x as int,
                                        y as int,
                                        z as int,
                                    ));
                                    assert(self.wrap_at(i as int, 2, d2 as int) == Some(
                                        (z as int, b2 as int),
                                    ));
                                    assert(self.cell_records(i as int, d0 as int, d1 as int, d2 as int)
                                        == self.bin_records(
                                        i as int,
                                        b0 as int,
                                        b1 as int,
                                        b2 as int,
                                        atoms@,
                                    ));
                                }
                            } else {
                                proof {
                                    assert(self.wrap_at(i as int, 2, d2 as int) is None);
                                    assert(self.cell_records(i as int, d0 as int, d1 as int, d2 as int)
                                        =~= Seq::<PairEntry>::empty());
                                }
                            }
                            proof {
                                assert(self.sweep_z(i as int, d0 as int, d1 as int, d2 + 1)
                                    == self.sweep_z(i as int, d0 as int, d1 as int, d2 as int)
                                    + self.cell_records(i as int, d0 as int, d1 as int, d2 as int));
                                assert(out@ =~= before_y + self.sweep_z(
                                    i as int,
                                    d0 as int,
                                    d1 as int,
                                    d2 + 1,
                                ));
                            }
                            d2 = d2 + 1;
                        }
                        proof {
                            assert(self.wrap_at(i as int, 1, d1 as int) is Some);
                        }
                    } else {
                        proof {
                            assert(self.wrap_at(i as int, 1, d1 as int) is None);
                        }
                    }
                    proof {
                        assert(self.sweep_y(i as int, d0 as int, d1 + 1) =~= self.sweep_y(
                            i as int,
                            d0 as int,
                            d1 as int,
                        ) + if self.wrap_at(i as int, 1, d1 as int) is Some {
                            self.sweep_z(i as int, d0 as int, d1 as int, self.shell[2] + 1)
                        } else {
                            Seq::empty()
                        });
                        assert(out@ =~= before_x + self.sweep_y(i as int, d0 as int, d1 + 1));
                    }
                    d1 = d1 + 1;
                }
                proof {
                    assert(self.wrap_at(i as int, 0, d0 as int) is Some);
                }
            } else {
                proof {
                    assert(self.wrap_at(i as int, 0, d0 as int) is None);
                }
            }
            proof {
                assert(self.sweep_x(i as int, d0 + 1) =~= self.sweep_x(i as int, d0 as int)
                    + if self.wrap_at(i as int, 0, d0 as int) is Some {
                    self.sweep_y(i as int, d0 as int, self.shell[1] + 1)
                } else {
                    Seq::empty()
                });
                assert(out@ =~= self.sweep_x(i as int, d0 + 1));
            }
            d0 = d0 + 1;
        }
        out
    }
}

/// The linear id of a bin inside the grid, computed term by term, stays
/// within the grid's volume.
proof fn lemma_linear_id_fits(nb: [usize; 3], x: int, y: int, z: int)
    requires
        0 <= x < nb[0],
        0 <= y < nb[1],
        0 <= z < nb[2],
    ensures
        nb[1] * z <= grid_volume(nb),
        y + nb[1] * z <= grid_volume(nb),
        nb[0] * (y + nb[1] * z) <= grid_volume(nb),
{
    let n0 = nb[0] as int;
    let n1 = nb[1] as int;
    let n2 = nb[2] as int;
    assert(n1 * z <= n0 * n1 * n2 && y + n1 * z <= n0 * n1 * n2 && n0 * (y + n1 * z) <= n0 * n1
        * n2) by (nonlinear_arith)
        requires
            0 <= x < n0,
            0 <= y < n1,
            0 <= z < n2,
    ;
}

/// Number of atoms listed by the bins with linear id below `k`.
pub open spec fn bins_before(bins: Seq<Vec<usize>>, k: int) -> int
    decreases k,
{
    if k <= 0 {
        0
    } else {
        bins_before(bins, k - 1) + bins[k - 1]@.len()
    }
}

/// Number of atoms below `upto` whose bin has linear id below `k`.
pub open spec fn members_total(nb: [usize; 3], atom_bin: Seq<[i32; 3]>, upto: int, k: int) -> int
    decreases k,
{
    if k <= 0 {
        0
    } else {
        members_total(nb, atom_bin, upto, k - 1) + bin_members(nb, atom_bin, k - 1, upto).len()
    }
}

proof fn lemma_members_total_step(nb: [usize; 3], atom_bin: Seq<[i32; 3]>, upto: int, k: int)
    requires
        1 <= upto <= atom_bin.len(),
    ensures
        ({
            let b = atom_bin[upto - 1];
            let id = bin_index(nb, b[0] as int, b[1] as int, b[2] as int);
            members_total(nb, atom_bin, upto, k) == members_total(nb, atom_bin, upto - 1, k) + if 0
                <= id < k {
                1int
            } else {
                0int
            }
        }),
    decreases k,
{
    if k > 0 {
        lemma_members_total_step(nb, atom_bin, upto, k - 1);
    }
}

proof fn lemma_members_total_all(nb: [usize; 3], atom_bin: Seq<[i32; 3]>, upto: int)
    requires
        0 <= upto <= atom_bin.len(),
        forall|a: int| 0 <= a < atom_bin.len() ==> bin_in_grid(nb, #[trigger] atom_bin[a]),
    ensures
        members_total(nb, atom_bin, upto, grid_volume(nb)) == upto,
    decreases upto,
{
    if upto > 0 {
        lemma_members_total_all(nb, atom_bin, upto - 1);
        lemma_members_total_step(nb, atom_bin, upto, grid_volume(nb));
        let b = atom_bin[upto - 1];
        assert(bin_in_grid(nb, b));
        lemma_bin_index_in_range(nb, b[0] as int, b[1] as int, b[2] as int);
    } else {
        lemma_members_total_zero(nb, atom_bin, grid_volume(nb));
    }
}

proof fn lemma_members_total_zero(nb: [usize; 3], atom_bin: Seq<[i32; 3]>, k: int)
    ensures
        members_total(nb, atom_bin, 0, k) == 0,
    decreases k,
{
    if k > 0 {
        lemma_members_total_zero(nb, atom_bin, k - 1);
    }
}

proof fn lemma_bins_before_members(g: &BinGrid, k: int)
    requires
        g.wf(),
        0 <= k <= g.bins@.len(),
    ensures
        bins_before(g.bins@, k) == members_total(g.num_bins, g.atom_bin@, g.n_atoms(), k),
    decreases k,
{
    if k > 0 {
        lemma_bins_before_members(g, k - 1);
    }
}

/// Every atom is listed by exactly one bin: the bins together list all of
/// the grid's atoms.
pub proof fn lemma_bins_cover_atoms(g: &BinGrid)
    requires
        g.wf(),
    ensures
        bins_before(g.bins@, g.bins@.len() as int) == g.n_atoms(),
{
    lemma_bins_before_members(g, g.bins@.len() as int);
    lemma_members_total_all(g.num_bins, g.atom_bin@, g.n_atoms());
}

/// Prefix counts of the bins grow with the bin id.
pub proof fn lemma_bins_before_monotone(bins: Seq<Vec<usize>>, k: int, l: int)
    requires
        k <= l,
    ensures
        bins_before(bins, k) <= bins_before(bins, l),
    decreases l - k,
{
    if k < l {
        lemma_bins_before_monotone(bins, k, l - 1);
    }
}

} // verus!
