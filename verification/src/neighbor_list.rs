use vstd::prelude::*;
use vstd::relations::{sorted_by, total_ordering};

verus! {

broadcast use vstd::seq_lib::group_to_multiset_ensures, vstd::multiset::group_multiset_axioms;

/// One directed neighbor record: source atom `i`, destination atom `j`, and
/// the periodic shift (in lattice-vector units) that carries atom `j` to the
/// image of it that lies within the cutoff of atom `i`.
pub type PairEntry = (u32, u32, [i32; 3]);

/// Lexicographic order on shift vectors (the order std gives `[i32; 3]`).
pub open spec fn shift_le(a: [i32; 3], b: [i32; 3]) -> bool {
    a[0] < b[0] || (a[0] == b[0] && (a[1] < b[1] || (a[1] == b[1] && a[2] <= b[2])))
}

/// Lexicographic order on `(i, j, shift)` records (the order std gives the tuple).
pub open spec fn pair_le(a: PairEntry, b: PairEntry) -> bool {
    a.0 < b.0 || (a.0 == b.0 && (a.1 < b.1 || (a.1 == b.1 && shift_le(a.2, b.2))))
}

/// `pair_le` as a relation, the form the sorting specifications of vstd take.
pub open spec fn pair_order() -> spec_fn(PairEntry, PairEntry) -> bool {
    |a: PairEntry, b: PairEntry| pair_le(a, b)
}

/// The record order is a total order.
pub proof fn lemma_pair_order_total()
    ensures
        total_ordering(pair_order()),
{
    broadcast use vstd::array::group_array_axioms;

    assert forall|a: PairEntry, b: PairEntry|
        #[trigger] pair_order()(a, b) && #[trigger] pair_order()(b, a) implies a == b by {
        assert(a.2 =~= b.2);
    }
}

/// Output of a neighbor-list construction: parallel arrays of source and
/// destination atom indices plus the periodic shift of each record (the
/// `i, j, S` convention of ASE and torch_nl).
#[derive(Debug, Clone, PartialEq)]
pub struct NeighborList {
    pub i: Vec<u32>,
    pub j: Vec<u32>,
    pub shift: Vec<[i32; 3]>,
}

/// Number of whole records held by three parallel arrays of these lengths.
pub open spec fn min3(a: nat, b: nat, c: nat) -> nat {
    if a <= b && a <= c {
        a
    } else if b <= c {
        b
    } else {
        c
    }
}

impl NeighborList {
    /// The three parallel arrays have the same length.
    pub open spec fn wf(&self) -> bool {
        self.i@.len() == self.j@.len() && self.j@.len() == self.shift@.len()
    }

    /// The records, read by zipping the three arrays.
    pub open spec fn records(&self) -> Seq<PairEntry> {
        Seq::new(
            min3(self.i@.len(), self.j@.len(), self.shift@.len()),
            |k: int| (self.i@[k], self.j@[k], self.shift@[k]),
        )
    }
}

impl View for NeighborList {
    type V = Seq<PairEntry>;

    open spec fn view(&self) -> Seq<PairEntry> {
        self.records()
    }
}

impl Default for NeighborList {
    fn default() -> (r: Self)
        ensures
            r.wf(),
            r@ == Seq::<PairEntry>::empty(),
    {
        let r = NeighborList { i: Vec::new(), j: Vec::new(), shift: Vec::new() };
        assert(r@ =~= Seq::<PairEntry>::empty());
        r
    }
}

/// Compares two records in the order of `pair_le`.
pub fn pair_le_exec(a: &PairEntry, b: &PairEntry) -> (r: bool)
    ensures
        r == pair_le(*a, *b),
{
    if a.0 != b.0 {
        a.0 < b.0
    } else if a.1 != b.1 {
        a.1 < b.1
    } else if a.2[0] != b.2[0] {
        a.2[0] < b.2[0]
    } else if a.2[1] != b.2[1] {
        a.2[1] < b.2[1]
    } else {
        a.2[2] <= b.2[2]
    }
}

/// Merges two sorted record vectors into one sorted vector holding both.
fn merge_sorted(left: Vec<PairEntry>, right: Vec<PairEntry>) -> (out: Vec<PairEntry>)
    requires
        sorted_by(left@, pair_order()),
        sorted_by(right@, pair_order()),
    ensures
        sorted_by(out@, pair_order()),
        out@.to_multiset() == left@.to_multiset().add(right@.to_multiset()),
{
    proof {
        lemma_pair_order_total();
    }
    let ghost ord = pair_order();
    let mut out: Vec<PairEntry> = Vec::new();
    let mut a: usize = 0;
    let mut b: usize = 0;
    while a < left.len() || b < right.len()
        invariant
            ord == pair_order(),
            total_ordering(ord),
            sorted_by(left@, ord),
            sorted_by(right@, ord),
            a <= left.len(),
            b <= right.len(),
            out.len() == a + b,
            sorted_by(out@, ord),
            out@.to_multiset() == left@.take(a as int).to_multiset().add(
                right@.take(b as int).to_multiset(),
            ),
            out.len() > 0 && a < left.len() ==> pair_le(out@.last(), left@[a as int]),
            out.len() > 0 && b < right.len() ==> pair_le(out@.last(), right@[b as int]),
        decreases left.len() - a + right.len() - b,
    {
        let take_left = if b >= right.len() {
            true
        } else if a >= left.len() {
            false
        } else {
            pair_le_exec(&left[a], &right[b])
        };
        let x = if take_left {
            left[a]
        } else {
            right[b]
        };
        let ghost old_out = out@;
        proof {
            assert forall|k: int| 0 <= k < old_out.len() implies #[trigger] pair_le(
                old_out[k],
                x,
            ) by {
                if k < old_out.len() - 1 {
                    assert(ord(old_out[k], old_out[old_out.len() - 1]));
                }
                assert(ord(old_out[k], old_out.last()));
                assert(ord(old_out.last(), x));
            }
        }
        out.push(x);
        proof {
            assert forall|p: int, q: int| 0 <= p < q < out@.len() implies #[trigger] ord(
                out@[p],
                out@[q],
            ) by {
                if q < old_out.len() {
                    assert(ord(old_out[p], old_out[q]));
                } else {
                    assert(pair_le(old_out[p], x));
                }
            }
        }
        if take_left {
            proof {
                assert(left@.take(a + 1) =~= left@.take(a as int).push(x));
                if a + 1 < left.len() {
                    assert(ord(left@[a as int], left@[a + 1]));
                }
                if b < right.len() {
                    assert(ord(left@[a as int], right@[b as int]));
                }
            }
            a = a + 1;
        } else {
            proof {
                assert(right@.take(b + 1) =~= right@.take(b as int).push(x));
                if b + 1 < right.len() {
                    assert(ord(right@[b as int], right@[b + 1]));
                }
                if a < left.len() {
                    assert(!pair_le(left@[a as int], right@[b as int]));
                    assert(ord(right@[b as int], left@[a as int]));
                }
            }
            b = b + 1;
        }
    }
    proof {
        assert(left@.take(a as int) =~= left@);
        assert(right@.take(b as int) =~= right@);
    }
    out
}

/// Sorts the records `v[lo..hi]` into a new vector.
fn merge_sort_range(v: &Vec<PairEntry>, lo: usize, hi: usize) -> (out: Vec<PairEntry>)
    requires
        lo <= hi <= v.len(),
    ensures
        sorted_by(out@, pair_order()),
        out@.to_multiset() == v@.subrange(lo as int, hi as int).to_multiset(),
    decreases hi - lo,
{
    if hi - lo <= 1 {
        let mut out: Vec<PairEntry> = Vec::new();
        if hi - lo == 1 {
            out.push(v[lo]);
        }
        proof {
            assert(out@ =~= v@.subrange(lo as int, hi as int));
        }
        out
    } else {
        let mid = lo + (hi - lo) / 2;
        let left = merge_sort_range(v, lo, mid);
        let right = merge_sort_range(v, mid, hi);
        proof {
            assert(v@.subrange(lo as int, hi as int) =~= v@.subrange(lo as int, mid as int)
                + v@.subrange(mid as int, hi as int));
            vstd::seq_lib::lemma_multiset_commutative(
                v@.subrange(lo as int, mid as int),
                v@.subrange(mid as int, hi as int),
            );
        }
        merge_sorted(left, right)
    }
}

impl NeighborList {
    /// Number of records (the length of the source-index array).
    pub fn len(&self) -> (r: usize)
        ensures
            r == self.i@.len(),
            self.wf() ==> r == self@.len(),
    {
        self.i.len()
    }

    /// Whether the list holds no record.
    pub fn is_empty(&self) -> (r: bool)
        ensures
            r == (self.i@.len() == 0),
            self.wf() ==> (r <==> self@.len() == 0),
    {
        self.i.len() == 0
    }

    /// Appends the record `(i, j, shift)`.
    pub fn push(&mut self, i: u32, j: u32, shift: [i32; 3])
        ensures
            final(self).i@ == old(self).i@.push(i),
            final(self).j@ == old(self).j@.push(j),
            final(self).shift@ == old(self).shift@.push(shift),
            old(self).wf() ==> final(self).wf(),
            old(self).wf() ==> final(self)@ == old(self)@.push((i, j, shift)),
    {
        self.i.push(i);
        self.j.push(j);
        self.shift.push(shift);
        proof {
            if old(self).wf() {
                assert(self@ =~= old(self)@.push((i, j, shift)));
            }
        }
    }

    /// The records as one vector of `(i, j, shift)` tuples, in list order.
    pub fn pairs(&self) -> (r: Vec<PairEntry>)
        ensures
            r@ == self@,
    {
        let n = if self.i.len() <= self.j.len() && self.i.len() <= self.shift.len() {
            self.i.len()
        } else if self.j.len() <= self.shift.len() {
            self.j.len()
        } else {
            self.shift.len()
        };
        let mut r: Vec<PairEntry> = Vec::new();
        let mut k: usize = 0;
        while k < n
            invariant
                n == self@.len(),
                n <= self.i@.len(),
                n <= self.j@.len(),
                n <= self.shift@.len(),
                k <= n,
                r@ == self@.take(k as int),
            decreases n - k,
        {
            r.push((self.i[k], self.j[k], self.shift[k]));
            k = k + 1;
            proof {
                assert(r@ =~= self@.take(k as int));
            }
        }
        proof {
            assert(self@.take(n as int) =~= self@);
        }
        r
    }

    /// Canonical (sorted) form of the records, so that two lists holding the
    /// same records in different orders give equal results.
    pub fn sorted(&self) -> (r: Vec<PairEntry>)
        ensures
            r@ == self@.sort_by(pair_order()),
            sorted_by(r@, pair_order()),
            r@.to_multiset() == self@.to_multiset(),
            forall|p: int, q: int|
                0 <= p < q < r@.len() ==> {
                    &&& r@[p].0 <= r@[q].0
                    &&& (r@[p].0 == r@[q].0 ==> r@[p].1 <= r@[q].1)
                    &&& (r@[p].0 == r@[q].0 && r@[p].1 == r@[q].1 ==> r@[p].2[0] <= r@[q].2[0])
                    &&& (r@[p].0 == r@[q].0 && r@[p].1 == r@[q].1 && r@[p].2[0] == r@[q].2[0]
                        ==> r@[p].2[1] <= r@[q].2[1])
                    &&& (r@[p].0 == r@[q].0 && r@[p].1 == r@[q].1 && r@[p].2[0] == r@[q].2[0]
                        && r@[p].2[1] == r@[q].2[1] ==> r@[p].2[2] <= r@[q].2[2])
                },
    {
        let v = self.pairs();
        let out = merge_sort_range(&v, 0, v.len());
        proof {
            assert(v@.subrange(0, v@.len() as int) =~= v@);
            lemma_pair_order_total();
            self@.lemma_sort_by_ensures(pair_order());
            vstd::seq_lib::lemma_sorted_unique(out@, self@.sort_by(pair_order()), pair_order());
            lemma_sorted_records_lexicographic(out@);
        }
        out
    }
}

/// Two record lists that hold the same records, counted with multiplicity,
/// have the same canonical (sorted) form, whatever their order.
pub proof fn lemma_sorted_depends_only_on_records(a: Seq<PairEntry>, b: Seq<PairEntry>)
    requires
        a.to_multiset() == b.to_multiset(),
    ensures
        a.sort_by(pair_order()) == b.sort_by(pair_order()),
{
    lemma_pair_order_total();
    a.lemma_sort_by_ensures(pair_order());
    b.lemma_sort_by_ensures(pair_order());
    vstd::seq_lib::lemma_sorted_unique(a.sort_by(pair_order()), b.sort_by(pair_order()), pair_order());
}

/// The candidates whose mark is set, in candidate order.
pub open spec fn kept_records(cands: Seq<PairEntry>, keep: Seq<bool>) -> Seq<PairEntry>
    decreases cands.len(),
{
    if cands.len() == 0 {
        Seq::empty()
    } else {
        let prev = kept_records(cands.drop_last(), keep);
        if keep[cands.len() - 1] {
            prev.push(cands.last())
        } else {
            prev
        }
    }
}

impl NeighborList {
    /// Appends, in order, the candidate records whose mark is set.
    pub fn push_kept(&mut self, cands: &Vec<PairEntry>, keep: &Vec<bool>)
        requires
            old(self).wf(),
            keep@.len() == cands@.len(),
        ensures
            final(self).wf(),
            final(self)@ == old(self)@ + kept_records(cands@, keep@),
    {
        let ghost start = self@;
        let mut k: usize = 0;
        while k < cands.len()
            invariant
                self.wf(),
                keep@.len() == cands@.len(),
                k <= cands@.len(),
                self@ == start + kept_records(cands@.take(k as int), keep@),
            decreases cands.len() - k,
        {
            proof {
                assert(cands@.take(k + 1).drop_last() =~= cands@.take(k as int));
            }
            if keep[k] {
                let c = cands[k];
                self.push(c.0, c.1, c.2);
                proof {
                    assert(self@ =~= start + kept_records(cands@.take(k + 1), keep@));
                }
            }
            k = k + 1;
        }
        proof {
            assert(cands@.take(cands@.len() as int) =~= cands@);
        }
    }
}

/// The record order is the lexicographic order of `(i, j, shift[0],
/// shift[1], shift[2])` read as integers: the first component that differs
/// decides, strictly, and equal records are ordered both ways.
pub proof fn lemma_pair_order_lexicographic(a: PairEntry, b: PairEntry)
    ensures
        a.0 < b.0 ==> pair_le(a, b) && !pair_le(b, a),
        a.0 == b.0 && a.1 < b.1 ==> pair_le(a, b) && !pair_le(b, a),
        a.0 == b.0 && a.1 == b.1 && a.2[0] < b.2[0] ==> pair_le(a, b) && !pair_le(b, a),
        a.0 == b.0 && a.1 == b.1 && a.2[0] == b.2[0] && a.2[1] < b.2[1] ==> pair_le(a, b)
            && !pair_le(b, a),
        a.0 == b.0 && a.1 == b.1 && a.2[0] == b.2[0] && a.2[1] == b.2[1] && a.2[2] < b.2[2]
            ==> pair_le(a, b) && !pair_le(b, a),
        a == b ==> pair_le(a, b),
{
}

/// The canonical form lists records by increasing source atom, then
/// destination atom, then shift components, compared as integers.
pub proof fn lemma_sorted_records_lexicographic(r: Seq<PairEntry>)
    requires
        sorted_by(r, pair_order()),
    ensures
        forall|p: int, q: int|
            0 <= p < q < r.len() ==> {
                &&& r[p].0 <= r[q].0
                &&& (r[p].0 == r[q].0 ==> r[p].1 <= r[q].1)
                &&& (r[p].0 == r[q].0 && r[p].1 == r[q].1 ==> r[p].2[0] <= r[q].2[0])
                &&& (r[p].0 == r[q].0 && r[p].1 == r[q].1 && r[p].2[0] == r[q].2[0] ==> r[p].2[1]
                    <= r[q].2[1])
                &&& (r[p].0 == r[q].0 && r[p].1 == r[q].1 && r[p].2[0] == r[q].2[0] && r[p].2[1]
                    == r[q].2[1] ==> r[p].2[2] <= r[q].2[2])
            },
{
    assert forall|p: int, q: int| 0 <= p < q < r.len() implies {
        &&& r[p].0 <= r[q].0
        &&& (r[p].0 == r[q].0 ==> r[p].1 <= r[q].1)
        &&& (r[p].0 == r[q].0 && r[p].1 == r[q].1 ==> r[p].2[0] <= r[q].2[0])
        &&& (r[p].0 == r[q].0 && r[p].1 == r[q].1 && r[p].2[0] == r[q].2[0] ==> r[p].2[1]
            <= r[q].2[1])
        &&& (r[p].0 == r[q].0 && r[p].1 == r[q].1 && r[p].2[0] == r[q].2[0] && r[p].2[1]
            == r[q].2[1] ==> r[p].2[2] <= r[q].2[2])
    } by {
        assert(pair_order()(r[p], r[q]));
        lemma_pair_order_lexicographic(r[q], r[p]);
    }
}

/// Keeping from no candidate keeps nothing.
pub proof fn lemma_kept_records_empty(keep: Seq<bool>)
    ensures
        kept_records(Seq::empty(), keep) == Seq::<PairEntry>::empty(),
{
}

/// Keeping from one more candidate: it is appended exactly when its mark is
/// set, whatever the record holds; the earlier ones are kept as before.
pub proof fn lemma_kept_records_push(cands: Seq<PairEntry>, keep: Seq<bool>, x: PairEntry)
    requires
        cands.len() < keep.len(),
    ensures
        keep[cands.len() as int] ==> kept_records(cands.push(x), keep) == kept_records(
            cands,
            keep,
        ).push(x),
        !keep[cands.len() as int] ==> kept_records(cands.push(x), keep) == kept_records(cands, keep),
{
    assert(cands.push(x).drop_last() =~= cands);
}

/// The kept records are the marked candidates: every candidate whose mark
/// is set is kept, every kept record is a marked candidate, and there are as
/// many kept records as set marks.
pub proof fn lemma_kept_records_are_the_marked(cands: Seq<PairEntry>, keep: Seq<bool>)
    requires
        cands.len() <= keep.len(),
    ensures
        forall|t: int| 0 <= t < cands.len() && keep[t] ==> kept_records(cands, keep).contains(
            #[trigger] cands[t],
        ),
        forall|e: PairEntry|
            kept_records(cands, keep).contains(e) ==> exists|t: int|
                0 <= t < cands.len() && keep[t] && #[trigger] cands[t] == e,
        kept_records(cands, keep).len() == keep.take(cands.len() as int).filter(|b: bool| b).len(),
    decreases cands.len(),
{
    broadcast use vstd::seq_lib::lemma_seq_contains_after_push;

    if cands.len() > 0 {
        let prev = cands.drop_last();
        let x = cands.last();
        lemma_kept_records_are_the_marked(prev, keep);
        assert(prev.push(x) =~= cands);
        lemma_kept_records_push(prev, keep, x);
        assert(keep.take(cands.len() as int).drop_last() =~= keep.take(prev.len() as int));
        assert(keep.take(cands.len() as int) =~= keep.take(prev.len() as int).push(
            keep[prev.len() as int],
        ));
        keep.take(prev.len() as int).lemma_filter_push(keep[prev.len() as int], |b: bool| b);
        assert forall|t: int| 0 <= t < cands.len() && keep[t] implies kept_records(
            cands,
            keep,
        ).contains(#[trigger] cands[t]) by {
            if t < prev.len() {
                assert(prev[t] == cands[t]);
            }
        }
        assert forall|e: PairEntry| kept_records(cands, keep).contains(e) implies exists|t: int|
            0 <= t < cands.len() && keep[t] && #[trigger] cands[t] == e by {
            if kept_records(prev, keep).contains(e) {
                let t = choose|t: int| 0 <= t < prev.len() && keep[t] && #[trigger] prev[t] == e;
                assert(cands[t] == prev[t]);
            } else {
                assert(cands[prev.len() as int] == e);
            }
        }
    } else {
        assert(keep.take(0) =~= Seq::<bool>::empty());
    }
}

} // verus!
