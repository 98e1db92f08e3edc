use vstd::prelude::*;

use crate::grid::GRID_LIMIT;
use crate::neighbor_list::{NeighborList, PairEntry};
use crate::search_laws::{is_reverse_shift, is_zero_shift};

verus! {

broadcast use vstd::seq_lib::lemma_seq_concat_contains_all_elements,
    vstd::seq_lib::lemma_seq_contains_after_push, vstd::seq_lib::lemma_seq_empty_contains_nothing,
    vstd::multiset::group_multiset_axioms, vstd::seq_lib::group_to_multiset_ensures;

/// Lowest periodic image index along axis `k`: `-n_shell[k]` on a periodic
/// axis, `0` on an open one.
pub open spec fn image_lo(n_shell: [i32; 3], pbc: [bool; 3], k: int) -> int {
    if pbc[k] {
        -n_shell[k]
    } else {
        0
    }
}

/// Highest periodic image index along axis `k`.
pub open spec fn image_hi(n_shell: [i32; 3], pbc: [bool; 3], k: int) -> int {
    if pbc[k] {
        n_shell[k] as int
    } else {
        0
    }
}

/// The image `(s0, s1, s2)`, unless it is the zero image of an atom paired
/// with itself.
pub open spec fn image_cell(same_atom: bool, s0: int, s1: int, s2: int) -> Seq<[i32; 3]> {
    if same_atom && s0 == 0 && s1 == 0 && s2 == 0 {
        Seq::empty()
    } else {
        seq![[s0 as i32, s1 as i32, s2 as i32]]
    }
}

/// Images with `s2` below `upto`, for fixed `s0, s1`.
pub open spec fn images_z(
    n_shell: [i32; 3],
    pbc: [bool; 3],
    same_atom: bool,
    s0: int,
    s1: int,
    upto: int,
) -> Seq<[i32; 3]>
    decreases upto - image_lo(n_shell, pbc, 2),
{
    if upto <= image_lo(n_shell, pbc, 2) {
        Seq::empty()
    } else {
        images_z(n_shell, pbc, same_atom, s0, s1, upto - 1) + image_cell(same_atom, s0, s1, upto - 1)
    }
}

/// Images with `s1` below `upto`, for fixed `s0`.
pub open spec fn images_y(n_shell: [i32; 3], pbc: [bool; 3], same_atom: bool, s0: int, upto: int) -> Seq<
    [i32; 3],
>
    decreases upto - image_lo(n_shell, pbc, 1),
{
    if upto <= image_lo(n_shell, pbc, 1) {
        Seq::empty()
    } else {
        images_y(n_shell, pbc, same_atom, s0, upto - 1) + images_z(
            n_shell,
            pbc,
            same_atom,
            s0,
            upto - 1,
            image_hi(n_shell, pbc, 2) + 1,
        )
    }
}

/// Images with `s0` below `upto`.
pub open spec fn images_x(n_shell: [i32; 3], pbc: [bool; 3], same_atom: bool, upto: int) -> Seq<
    [i32; 3],
>
    decreases upto - image_lo(n_shell, pbc, 0),
{
    if upto <= image_lo(n_shell, pbc, 0) {
        Seq::empty()
    } else {
        images_x(n_shell, pbc, same_atom, upto - 1) + images_y(
            n_shell,
            pbc,
            same_atom,
            upto - 1,
            image_hi(n_shell, pbc, 1) + 1,
        )
    }
}

/// Every periodic image index of the box `[-n_shell, n_shell]` on periodic
/// axes (`0` on open ones), `s0` outermost and `s2` innermost, without the
/// zero image when an atom is paired with itself.
pub open spec fn image_box(n_shell: [i32; 3], pbc: [bool; 3], same_atom: bool) -> Seq<[i32; 3]> {
    images_x(n_shell, pbc, same_atom, image_hi(n_shell, pbc, 0) + 1)
}

/// The periodic images that the brute-force search visits for one pair of
/// atoms, in its loop order.
pub fn image_shifts(n_shell: [i32; 3], pbc: [bool; 3], same_atom: bool) -> (r: Vec<[i32; 3]>)
    requires
        forall|k: int| 0 <= k < 3 ==> 0 <= #[trigger] n_shell[k] <= GRID_LIMIT,
    ensures
        r@ == image_box(n_shell, pbc, same_atom),
        r@.no_duplicates(),
        forall|s: [i32; 3]|
            #![trigger r@.contains(s)]
            r@.contains(s) <==> in_image_box(n_shell, pbc, s) && !(same_atom && is_zero_shift(s)),
{
    let lo0: i32 = if pbc[0] { -n_shell[0] } else { 0 };
    let hi0: i32 = if pbc[0] { n_shell[0] } else { 0 };
    let lo1: i32 = if pbc[1] { -n_shell[1] } else { 0 };
    let hi1: i32 = if pbc[1] { n_shell[1] } else { 0 };
    let lo2: i32 = if pbc[2] { -n_shell[2] } else { 0 };
    let hi2: i32 = if pbc[2] { n_shell[2] } else { 0 };
    proof {
        assert(0 <= n_shell[0] <= GRID_LIMIT);
        assert(0 <= n_shell[1] <= GRID_LIMIT);
        assert(0 <= n_shell[2] <= GRID_LIMIT);
    }
    let mut out: Vec<[i32; 3]> = Vec::new();
    let mut s0: i32 = lo0;
    while s0 <= hi0
        invariant
            lo0 == image_lo(n_shell, pbc, 0),
            hi0 == image_hi(n_shell, pbc, 0),
            lo1 == image_lo(n_shell, pbc, 1),
            hi1 == image_hi(n_shell, pbc, 1),
            lo2 == image_lo(n_shell, pbc, 2),
            hi2 == image_hi(n_shell, pbc, 2),
            -GRID_LIMIT <= lo0 <= 0 <= hi0 <= GRID_LIMIT,
            -GRID_LIMIT <= lo1 <= 0 <= hi1 <= GRID_LIMIT,
            -GRID_LIMIT <= lo2 <= 0 <= hi2 <= GRID_LIMIT,
            lo0 <= s0 <= hi0 + 1,
            out@ == images_x(n_shell, pbc, same_atom, s0 as int),
        decreases hi0 + 1 - s0,
    {
        let ghost before_x = out@;
        let mut s1: i32 = lo1;
        while s1 <= hi1
            invariant
                lo1 == image_lo(n_shell, pbc, 1),
                hi1 == image_hi(n_shell, pbc, 1),
                lo2 == image_lo(n_shell, pbc, 2),
                hi2 == image_hi(n_shell, pbc, 2),
                -GRID_LIMIT <= lo1 <= 0 <= hi1 <= GRID_LIMIT,
                -GRID_LIMIT <= lo2 <= 0 <= hi2 <= GRID_LIMIT,
                lo1 <= s1 <= hi1 + 1,
                out@ == before_x + images_y(n_shell, pbc, same_atom, s0 as int, s1 as int),
            decreases hi1 + 1 - s1,
        {
            let ghost before_y = out@;
            let mut s2: i32 = lo2;
            while s2 <= hi2
                invariant
                    lo2 == image_lo(n_shell, pbc, 2),
                    hi2 == image_hi(n_shell, pbc, 2),
                    -GRID_LIMIT <= lo2 <= 0 <= hi2 <= GRID_LIMIT,
                    lo2 <= s2 <= hi2 + 1,
                    out@ == before_y + images_z(
                        n_shell,
                        pbc,
                        same_atom,
                        s0 as int,
                        s1 as int,
                        s2 as int,
                    ),
                decreases hi2 + 1 - s2,
            {
                let ghost before_z = out@;
                if !(same_atom && s0 == 0 && s1 == 0 && s2 == 0) {
                    out.push([s0, s1, s2]);
                }
                proof {
                    assert(images_z(n_shell, pbc, same_atom, s0 as int, s1 as int, s2 + 1) == images_z(
                        n_shell,
                        pbc,
                        same_atom,
                        s0 as int,
                        s1 as int,
                        s2 as int,
                    ) + image_cell(same_atom, s0 as int, s1 as int, s2 as int));
                    assert(out@ =~= before_y + images_z(
                        n_shell,
                        pbc,
                        same_atom,
                        s0 as int,
                        s1 as int,
                        s2 + 1,
                    ));
                }
                s2 = s2 + 1;
            }
            proof {
                assert(out@ =~= before_x + images_y(n_shell, pbc, same_atom, s0 as int, s1 + 1));
            }
            s1 = s1 + 1;
        }
        proof {
            assert(out@ =~= images_x(n_shell, pbc, same_atom, s0 + 1));
        }
        s0 = s0 + 1;
    }
    proof {
        lemma_image_box_no_duplicates(n_shell, pbc, same_atom);
        assert forall|s: [i32; 3]|
            #![trigger out@.contains(s)]
            out@.contains(s) <==> in_image_box(n_shell, pbc, s) && !(same_atom && is_zero_shift(
                s,
            )) by {
            lemma_image_box_contains(n_shell, pbc, same_atom, s);
        }
    }
    out
}

/// The image `s` lies within the box searched for a pair of atoms.
pub open spec fn in_image_box(n_shell: [i32; 3], pbc: [bool; 3], s: [i32; 3]) -> bool {
    &&& image_lo(n_shell, pbc, 0) <= s[0] <= image_hi(n_shell, pbc, 0)
    &&& image_lo(n_shell, pbc, 1) <= s[1] <= image_hi(n_shell, pbc, 1)
    &&& image_lo(n_shell, pbc, 2) <= s[2] <= image_hi(n_shell, pbc, 2)
}

proof fn lemma_images_z_contains(
    n_shell: [i32; 3],
    pbc: [bool; 3],
    same_atom: bool,
    s0: int,
    s1: int,
    upto: int,
    s: [i32; 3],
)
    requires
        i32::MIN <= s0 <= i32::MAX,
        i32::MIN <= s1 <= i32::MAX,
        upto <= i32::MAX + 1,
        image_lo(n_shell, pbc, 2) >= i32::MIN,
    ensures
        images_z(n_shell, pbc, same_atom, s0, s1, upto).contains(s) <==> {
            &&& s[0] == s0
            &&& s[1] == s1
            &&& image_lo(n_shell, pbc, 2) <= s[2] < upto
            &&& !(same_atom && is_zero_shift(s))
        },
    decreases upto - image_lo(n_shell, pbc, 2),
{
    broadcast use vstd::array::group_array_axioms;

    if upto > image_lo(n_shell, pbc, 2) {
        lemma_images_z_contains(n_shell, pbc, same_atom, s0, s1, upto - 1, s);
        let c: [i32; 3] = [s0 as i32, s1 as i32, (upto - 1) as i32];
        if s[0] == s0 && s[1] == s1 && s[2] == upto - 1 {
            assert(s =~= c);
        }
    }
}

proof fn lemma_images_y_contains(
    n_shell: [i32; 3],
    pbc: [bool; 3],
    same_atom: bool,
    s0: int,
    upto: int,
    s: [i32; 3],
)
    requires
        i32::MIN <= s0 <= i32::MAX,
        upto <= i32::MAX + 1,
        image_lo(n_shell, pbc, 1) >= i32::MIN,
        image_lo(n_shell, pbc, 2) >= i32::MIN,
        image_hi(n_shell, pbc, 2) < i32::MAX,
    ensures
        images_y(n_shell, pbc, same_atom, s0, upto).contains(s) <==> {
            &&& s[0] == s0
            &&& image_lo(n_shell, pbc, 1) <= s[1] < upto
            &&& image_lo(n_shell, pbc, 2) <= s[2] <= image_hi(n_shell, pbc, 2)
            &&& !(same_atom && is_zero_shift(s))
        },
    decreases upto - image_lo(n_shell, pbc, 1),
{
    if upto > image_lo(n_shell, pbc, 1) {
        lemma_images_y_contains(n_shell, pbc, same_atom, s0, upto - 1, s);
        lemma_images_z_contains(
            n_shell,
            pbc,
            same_atom,
            s0,
            upto - 1,
            image_hi(n_shell, pbc, 2) + 1,
            s,
        );
    }
}

/// The images visited for a pair are exactly the box, without the zero
/// image of an atom paired with itself.
pub proof fn lemma_image_box_contains(
    n_shell: [i32; 3],
    pbc: [bool; 3],
    same_atom: bool,
    s: [i32; 3],
)
    requires
        forall|k: int| 0 <= k < 3 ==> 0 <= #[trigger] n_shell[k] <= GRID_LIMIT,
    ensures
        image_box(n_shell, pbc, same_atom).contains(s) <==> in_image_box(n_shell, pbc, s) && !(
        same_atom && is_zero_shift(s)),
{
    assert(0 <= n_shell[0] <= GRID_LIMIT);
    assert(0 <= n_shell[1] <= GRID_LIMIT);
    assert(0 <= n_shell[2] <= GRID_LIMIT);
    lemma_images_x_contains(n_shell, pbc, same_atom, image_hi(n_shell, pbc, 0) + 1, s);
}

proof fn lemma_images_x_contains(
    n_shell: [i32; 3],
    pbc: [bool; 3],
    same_atom: bool,
    upto: int,
    s: [i32; 3],
)
    requires
        upto <= i32::MAX + 1,
        0 <= n_shell[0] <= GRID_LIMIT,
        0 <= n_shell[1] <= GRID_LIMIT,
        0 <= n_shell[2] <= GRID_LIMIT,
    ensures
        images_x(n_shell, pbc, same_atom, upto).contains(s) <==> {
            &&& image_lo(n_shell, pbc, 0) <= s[0] < upto
            &&& image_lo(n_shell, pbc, 1) <= s[1] <= image_hi(n_shell, pbc, 1)
            &&& image_lo(n_shell, pbc, 2) <= s[2] <= image_hi(n_shell, pbc, 2)
            &&& !(same_atom && is_zero_shift(s))
        },
    decreases upto - image_lo(n_shell, pbc, 0),
{
    if upto > image_lo(n_shell, pbc, 0) {
        lemma_images_x_contains(n_shell, pbc, same_atom, upto - 1, s);
        lemma_images_y_contains(
            n_shell,
            pbc,
            same_atom,
            upto - 1,
            image_hi(n_shell, pbc, 1) + 1,
            s,
        );
    }
}

proof fn lemma_images_z_no_duplicates(
    n_shell: [i32; 3],
    pbc: [bool; 3],
    same_atom: bool,
    s0: int,
    s1: int,
    upto: int,
)
    requires
        i32::MIN <= s0 <= i32::MAX,
        i32::MIN <= s1 <= i32::MAX,
        upto <= i32::MAX + 1,
        image_lo(n_shell, pbc, 2) >= i32::MIN,
    ensures
        images_z(n_shell, pbc, same_atom, s0, s1, upto).no_duplicates(),
    decreases upto - image_lo(n_shell, pbc, 2),
{
    if upto > image_lo(n_shell, pbc, 2) {
        let a = images_z(n_shell, pbc, same_atom, s0, s1, upto - 1);
        let b = image_cell(same_atom, s0, s1, upto - 1);
        lemma_images_z_no_duplicates(n_shell, pbc, same_atom, s0, s1, upto - 1);
        assert forall|i: int, j: int| 0 <= i < a.len() && 0 <= j < b.len() implies a[i]
            != b[j] by {
            assert(a.contains(a[i]));
            lemma_images_z_contains(n_shell, pbc, same_atom, s0, s1, upto - 1, a[i]);
        }
        vstd::seq_lib::lemma_no_dup_in_concat(a, b);
    }
}

proof fn lemma_images_y_no_duplicates(
    n_shell: [i32; 3],
    pbc: [bool; 3],
    same_atom: bool,
    s0: int,
    upto: int,
)
    requires
        i32::MIN <= s0 <= i32::MAX,
        upto <= i32::MAX + 1,
        image_lo(n_shell, pbc, 1) >= i32::MIN,
        image_lo(n_shell, pbc, 2) >= i32::MIN,
        image_hi(n_shell, pbc, 2) < i32::MAX,
    ensures
        images_y(n_shell, pbc, same_atom, s0, upto).no_duplicates(),
    decreases upto - image_lo(n_shell, pbc, 1),
{
    if upto > image_lo(n_shell, pbc, 1) {
        let top = image_hi(n_shell, pbc, 2) + 1;
        let a = images_y(n_shell, pbc, same_atom, s0, upto - 1);
        let b = images_z(n_shell, pbc, same_atom, s0, upto - 1, top);
        lemma_images_y_no_duplicates(n_shell, pbc, same_atom, s0, upto - 1);
        lemma_images_z_no_duplicates(n_shell, pbc, same_atom, s0, upto - 1, top);
        assert forall|i: int, j: int| 0 <= i < a.len() && 0 <= j < b.len() implies a[i]
            != b[j] by {
            assert(a.contains(a[i]));
            assert(b.contains(b[j]));
            lemma_images_y_contains(n_shell, pbc, same_atom, s0, upto - 1, a[i]);
            lemma_images_z_contains(n_shell, pbc, same_atom, s0, upto - 1, top, b[j]);
        }
        vstd::seq_lib::lemma_no_dup_in_concat(a, b);
    }
}

proof fn lemma_images_x_no_duplicates(n_shell: [i32; 3], pbc: [bool; 3], same_atom: bool, upto: int)
    requires
        upto <= i32::MAX + 1,
        0 <= n_shell[0] <= GRID_LIMIT,
        0 <= n_shell[1] <= GRID_LIMIT,
        0 <= n_shell[2] <= GRID_LIMIT,
    ensures
        images_x(n_shell, pbc, same_atom, upto).no_duplicates(),
    decreases upto - image_lo(n_shell, pbc, 0),
{
    if upto > image_lo(n_shell, pbc, 0) {
        let top = image_hi(n_shell, pbc, 1) + 1;
        let a = images_x(n_shell, pbc, same_atom, upto - 1);
        let b = images_y(n_shell, pbc, same_atom, upto - 1, top);
        lemma_images_x_no_duplicates(n_shell, pbc, same_atom, upto - 1);
        lemma_images_y_no_duplicates(n_shell, pbc, same_atom, upto - 1, top);
        assert forall|i: int, j: int| 0 <= i < a.len() && 0 <= j < b.len() implies a[i]
            != b[j] by {
            assert(a.contains(a[i]));
            assert(b.contains(b[j]));
            lemma_images_x_contains(n_shell, pbc, same_atom, upto - 1, a[i]);
            lemma_images_y_contains(n_shell, pbc, same_atom, upto - 1, top, b[j]);
        }
        vstd::seq_lib::lemma_no_dup_in_concat(a, b);
    }
}

/// Each periodic image of the box is visited once: the images searched for
/// a pair of atoms hold no shift twice.
pub proof fn lemma_image_box_no_duplicates(n_shell: [i32; 3], pbc: [bool; 3], same_atom: bool)
    requires
        forall|k: int| 0 <= k < 3 ==> 0 <= #[trigger] n_shell[k] <= GRID_LIMIT,
    ensures
        image_box(n_shell, pbc, same_atom).no_duplicates(),
{
    assert(0 <= n_shell[0] <= GRID_LIMIT);
    assert(0 <= n_shell[1] <= GRID_LIMIT);
    assert(0 <= n_shell[2] <= GRID_LIMIT);
    lemma_images_x_no_duplicates(n_shell, pbc, same_atom, image_hi(n_shell, pbc, 0) + 1);
}

/// The opposite of a shift, component by component.
pub open spec fn neg_shift(s: [i32; 3]) -> [i32; 3] {
    [(-s[0]) as i32, (-s[1]) as i32, (-s[2]) as i32]
}

/// `f` is the mirror record of `e`: the same pair seen from the other atom,
/// with the opposite shift.
pub open spec fn is_mirror(e: PairEntry, f: PairEntry) -> bool {
    f.0 == e.1 && f.1 == e.0 && is_reverse_shift(e.2, f.2)
}

/// Every record between two distinct atoms is present exactly as many times
/// as its mirror record.
pub open spec fn mirror_balanced(records: Seq<PairEntry>) -> bool {
    forall|e: PairEntry, f: PairEntry|
        is_mirror(e, f) && e.0 != e.1 ==> #[trigger] records.to_multiset().count(e)
            == #[trigger] records.to_multiset().count(f)
}

impl NeighborList {
    /// Records a pair found within the cutoff: `(i, j, shift)` and, for two
    /// distinct atoms, the mirror record `(j, i, -shift)` too.
    pub fn push_pair(&mut self, i: u32, j: u32, shift: [i32; 3])
        requires
            old(self).wf(),
            shift[0] > i32::MIN,
            shift[1] > i32::MIN,
            shift[2] > i32::MIN,
        ensures
            final(self).wf(),
            i == j ==> final(self)@ == old(self)@.push((i, j, shift)),
            i != j ==> final(self)@ == old(self)@.push((i, j, shift)).push(
                (j, i, neg_shift(shift)),
            ),
            is_reverse_shift(shift, neg_shift(shift)),
    {
        if i == j {
            self.push(i, j, shift);
        } else {
            self.push(i, j, shift);
            let back: [i32; 3] = [-shift[0], -shift[1], -shift[2]];
            proof {
                broadcast use vstd::array::group_array_axioms;

                assert(back =~= neg_shift(shift));
            }
            self.push(j, i, back);
        }
    }
}

/// Full-list law of the brute-force construction: recording a found pair
/// keeps every record between distinct atoms matched by its mirror record.
pub proof fn lemma_push_pair_keeps_mirror_balance(
    records: Seq<PairEntry>,
    i: u32,
    j: u32,
    s: [i32; 3],
    t: [i32; 3],
)
    requires
        mirror_balanced(records),
        is_reverse_shift(s, t),
    ensures
        i == j ==> mirror_balanced(records.push((i, j, s))),
        i != j ==> mirror_balanced(records.push((i, j, s)).push((j, i, t))),
{
    broadcast use vstd::array::group_array_axioms;

    let x = (i, j, s);
    let y = (j, i, t);
    if i == j {
        let r2 = records.push(x);
        assert(r2.to_multiset() =~= records.to_multiset().insert(x));
        assert forall|e: PairEntry, f: PairEntry|
            is_mirror(e, f) && e.0 != e.1 implies #[trigger] r2.to_multiset().count(e)
            == #[trigger] r2.to_multiset().count(f) by {
            assert(records.to_multiset().count(e) == records.to_multiset().count(f));
        }
    } else {
        let r2 = records.push(x).push(y);
        assert(r2.to_multiset() =~= records.to_multiset().insert(x).insert(y));
        assert forall|e: PairEntry, f: PairEntry|
            is_mirror(e, f) && e.0 != e.1 implies #[trigger] r2.to_multiset().count(e)
            == #[trigger] r2.to_multiset().count(f) by {
            assert(records.to_multiset().count(e) == records.to_multiset().count(f));
            if e == x {
                assert(f.2 =~= t);
            }
            if e == y {
                assert(f.2 =~= s);
            }
            if f == x {
                assert(e.2 =~= t);
            }
            if f == y {
                assert(e.2 =~= s);
            }
        }
    }
}

/// Number of periodic images searched each way along a periodic axis: the
/// cells the cutoff spans, plus the cells the atoms themselves spread over,
/// plus one.
pub fn image_shell_count(cutoff_cells: i32, spread_cells: i32) -> (r: i32)
    requires
        0 <= cutoff_cells,
        0 <= spread_cells,
        cutoff_cells + spread_cells + 1 <= i32::MAX,
    ensures
        r == cutoff_cells + spread_cells + 1,
{
    cutoff_cells + spread_cells + 1
}

} // verus!
