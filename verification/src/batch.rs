use vstd::prelude::*;

use crate::neighbor_list::{NeighborList, PairEntry};

verus! {

/// A record tagged with the index of the system it belongs to.
pub type TaggedPair = (usize, u32, u32, [i32; 3]);

/// The records `rs` of system `si`, tagged with `si`.
pub open spec fn tag_records(si: int, rs: Seq<PairEntry>) -> Seq<TaggedPair> {
    rs.map_values(|e: PairEntry| (si as usize, e.0, e.1, e.2))
}

/// The records of system `si` in a tagged stream, in stream order, untagged.
pub open spec fn records_of(stream: Seq<TaggedPair>, si: int) -> Seq<PairEntry>
    decreases stream.len(),
{
    if stream.len() == 0 {
        Seq::empty()
    } else {
        let prev = records_of(stream.drop_last(), si);
        let t = stream.last();
        if t.0 as int == si {
            prev.push((t.1, t.2, t.3))
        } else {
            prev
        }
    }
}

/// The work items `(system, atom)` of the first `k` systems, system by
/// system and atom by atom.
pub open spec fn work_upto(counts: Seq<usize>, k: int) -> Seq<(usize, usize)>
    decreases k,
{
    if k <= 0 {
        Seq::empty()
    } else {
        work_upto(counts, k - 1) + Seq::new(
            counts[k - 1] as nat,
            |a: int| ((k - 1) as usize, a as usize),
        )
    }
}

/// Number of atoms of the systems before `k`.
pub open spec fn counts_before(counts: Seq<usize>, k: int) -> int
    decreases k,
{
    if k <= 0 {
        0
    } else {
        counts_before(counts, k - 1) + counts[k - 1]
    }
}

/// The work items of the first `k` systems are one per atom: item number
/// `counts_before(si) + a` is atom `a` of system `si`, for every atom of each
/// of those systems, and there are no others.
pub proof fn lemma_work_items_index(counts: Seq<usize>, k: int)
    requires
        0 <= k <= counts.len(),
    ensures
        work_upto(counts, k).len() == counts_before(counts, k),
        forall|si: int, t: int|
            #![trigger work_upto(counts, k)[t], counts_before(counts, si)]
            0 <= si < k && counts_before(counts, si) <= t < counts_before(counts, si) + counts[si]
                ==> work_upto(counts, k)[t] == (si as usize, (t - counts_before(counts, si)) as usize),
    decreases k,
{
    if k > 0 {
        lemma_work_items_index(counts, k - 1);
        let prev = work_upto(counts, k - 1);
        assert forall|si: int, t: int|
            #![trigger work_upto(counts, k)[t], counts_before(counts, si)]
            0 <= si < k && counts_before(counts, si) <= t < counts_before(counts, si) + counts[si]
                implies work_upto(counts, k)[t] == (si as usize, (t - counts_before(counts, si)) as usize) by {
            if si < k - 1 {
                lemma_counts_before_monotone(counts, si + 1, k - 1);
                lemma_counts_before_monotone(counts, 0, si);
                assert(counts_before(counts, si + 1) == counts_before(counts, si) + counts[si]);
                assert(work_upto(counts, k)[t] == prev[t]);
            }
        }
    }
}

proof fn lemma_counts_before_monotone(counts: Seq<usize>, k: int, l: int)
    requires
        0 <= k <= l,
    ensures
        counts_before(counts, k) <= counts_before(counts, l),
    decreases l - k,
{
    if k < l {
        lemma_counts_before_monotone(counts, k, l - 1);
    }
}

/// One work item per atom of every system of a batch, system by system.
pub fn atom_work_items(counts: &Vec<usize>) -> (r: Vec<(usize, usize)>)
    ensures
        r@ == work_upto(counts@, counts@.len() as int),
        r@.len() == counts_before(counts@, counts@.len() as int),
        forall|si: int, t: int|
            #![trigger r@[t], counts_before(counts@, si)]
            0 <= si < counts@.len() && counts_before(counts@, si) <= t < counts_before(counts@, si)
                + counts@[si] ==> r@[t] == (si as usize, (t - counts_before(counts@, si)) as usize),
{
    let mut r: Vec<(usize, usize)> = Vec::new();
    let mut si: usize = 0;
    while si < counts.len()
        invariant
            si <= counts@.len(),
            r@ == work_upto(counts@, si as int),
        decreases counts.len() - si,
    {
        let ghost before = r@;
        let m = counts[si];
        let mut a: usize = 0;
        while a < m
            invariant
                si < counts@.len(),
                m == counts@[si as int],
                a <= m,
                r@ == before + Seq::new(a as nat, |b: int| (si, b as usize)),
            decreases m - a,
        {
            r.push((si, a));
            a = a + 1;
            proof {
                assert(r@ =~= before + Seq::new(a as nat, |b: int| (si, b as usize)));
            }
        }
        proof {
            assert(work_upto(counts@, si + 1) =~= before + Seq::new(
                m as nat,
                |b: int| (si, b as usize),
            ));
        }
        si = si + 1;
    }
    proof {
        lemma_work_items_index(counts@, counts@.len() as int);
    }
    r
}

/// Number of records held by the lists `0..k`.
pub open spec fn lists_total(lists: Seq<NeighborList>, k: int) -> int
    decreases k,
{
    if k <= 0 {
        0
    } else {
        lists_total(lists, k - 1) + lists[k - 1]@.len()
    }
}

/// Number of records of a tagged stream picked out for the systems `0..m`.
pub open spec fn stream_total(stream: Seq<TaggedPair>, m: int) -> int
    decreases m,
{
    if m <= 0 {
        0
    } else {
        stream_total(stream, m - 1) + records_of(stream, m - 1).len()
    }
}

proof fn lemma_stream_total_step(stream: Seq<TaggedPair>, m: int)
    requires
        stream.len() > 0,
    ensures
        stream_total(stream, m) == stream_total(stream.drop_last(), m) + if (stream.last().0 as int)
            < m {
            1int
        } else {
            0int
        },
    decreases m,
{
    if m > 0 {
        lemma_stream_total_step(stream, m - 1);
    }
}

/// Every record of a stream whose tags are all below `n` is picked out for
/// exactly one of the systems `0..n`: together they hold as many records as
/// the stream.
pub proof fn lemma_records_of_partition(stream: Seq<TaggedPair>, n: int)
    requires
        forall|k: int| 0 <= k < stream.len() ==> (#[trigger] stream[k]).0 < n,
    ensures
        stream_total(stream, n) == stream.len(),
    decreases stream.len(),
{
    if stream.len() == 0 {
        lemma_stream_total_empty(stream, n);
    } else {
        let rest = stream.drop_last();
        assert forall|k: int| 0 <= k < rest.len() implies (#[trigger] rest[k]).0 < n by {
            assert(rest[k] == stream[k]);
        }
        lemma_records_of_partition(rest, n);
        lemma_stream_total_step(stream, n);
        assert(stream[stream.len() - 1].0 < n);
    }
}

proof fn lemma_stream_total_empty(stream: Seq<TaggedPair>, m: int)
    requires
        stream.len() == 0,
    ensures
        stream_total(stream, m) == 0,
    decreases m,
{
    if m > 0 {
        lemma_stream_total_empty(stream, m - 1);
    }
}

proof fn lemma_lists_total_matches(lists: Seq<NeighborList>, stream: Seq<TaggedPair>, m: int)
    requires
        0 <= m <= lists.len(),
        forall|si: int| 0 <= si < m ==> (#[trigger] lists[si])@ == records_of(stream, si),
    ensures
        lists_total(lists, m) == stream_total(stream, m),
    decreases m,
{
    if m > 0 {
        lemma_lists_total_matches(lists, stream, m - 1);
    }
}

/// Splits a tagged stream of records into one neighbor list per system,
/// each keeping its records in stream order.
pub fn group_by_system(n_systems: usize, stream: Vec<TaggedPair>) -> (out: Vec<NeighborList>)
    requires
        forall|k: int| 0 <= k < stream@.len() ==> (#[trigger] stream@[k]).0 < n_systems,
    ensures
        out@.len() == n_systems,
        forall|si: int| 0 <= si < n_systems ==> (#[trigger] out@[si]).wf(),
        forall|si: int| 0 <= si < n_systems ==> (#[trigger] out@[si])@ == records_of(stream@, si),
        lists_total(out@, n_systems as int) == stream@.len(),
{
    let mut out: Vec<NeighborList> = Vec::new();
    let mut s: usize = 0;
    while s < n_systems
        invariant
            s <= n_systems,
            out@.len() == s,
            forall|si: int| 0 <= si < s ==> (#[trigger] out@[si]).wf(),
            forall|si: int| 0 <= si < s ==> (#[trigger] out@[si])@ == Seq::<PairEntry>::empty(),
        decreases n_systems - s,
    {
        out.push(NeighborList::default());
        s = s + 1;
    }
    let mut k: usize = 0;
    while k < stream.len()
        invariant
            forall|t: int| 0 <= t < stream@.len() ==> (#[trigger] stream@[t]).0 < n_systems,
            k <= stream@.len(),
            out@.len() == n_systems,
            forall|si: int| 0 <= si < n_systems ==> (#[trigger] out@[si]).wf(),
            forall|si: int|
                0 <= si < n_systems ==> (#[trigger] out@[si])@ == records_of(
                    stream@.take(k as int),
                    si,
                ),
        decreases stream.len() - k,
    {
        let t = stream[k];
        proof {
            assert(stream@[k as int].0 < n_systems);
        }
        let ghost old_out = out@;
        out[t.0].push(t.1, t.2, t.3);
        proof {
            assert(stream@.take(k + 1).drop_last() =~= stream@.take(k as int));
            assert forall|si: int| 0 <= si < n_systems implies #[trigger] out@[si].wf() && out@[si]@
                == records_of(stream@.take(k + 1), si) by {
                if si != t.0 {
                    assert(out@[si] == old_out[si]);
                }
            }
        }
        k = k + 1;
    }
    proof {
        assert(stream@.take(stream@.len() as int) =~= stream@);
        lemma_records_of_partition(stream@, n_systems as int);
        lemma_lists_total_matches(out@, stream@, n_systems as int);
    }
    out
}

/// Picking one system's records out of a concatenation picks them out of
/// each part.
pub proof fn lemma_records_of_concat(a: Seq<TaggedPair>, b: Seq<TaggedPair>, si: int)
    ensures
        records_of(a + b, si) == records_of(a, si) + records_of(b, si),
    decreases b.len(),
{
    if b.len() == 0 {
        assert(a + b =~= a);
        assert(records_of(a, si) + records_of(b, si) =~= records_of(a, si));
    } else {
        lemma_records_of_concat(a, b.drop_last(), si);
        assert((a + b).drop_last() =~= a + b.drop_last());
        assert((a + b).last() == b.last());
        let t = b.last();
        if t.0 as int == si {
            assert(records_of(a, si) + records_of(b.drop_last(), si).push((t.1, t.2, t.3))
                =~= (records_of(a, si) + records_of(b.drop_last(), si)).push((t.1, t.2, t.3)));
        }
    }
}

/// Picking system `si` out of records tagged with system `sj` gives them
/// all when `sj == si` and none otherwise.
pub proof fn lemma_records_of_tagged(sj: int, rs: Seq<PairEntry>, si: int)
    requires
        0 <= sj <= usize::MAX,
        0 <= si,
    ensures
        records_of(tag_records(sj, rs), si) == if sj == si {
            rs
        } else {
            Seq::<PairEntry>::empty()
        },
    decreases rs.len(),
{
    if rs.len() > 0 {
        lemma_records_of_tagged(sj, rs.drop_last(), si);
        assert(tag_records(sj, rs).drop_last() =~= tag_records(sj, rs.drop_last()));
        let e = rs.last();
        assert(tag_records(sj, rs).last() == (sj as usize, e.0, e.1, e.2));
        if sj == si {
            assert(rs.drop_last().push(e) =~= rs);
        }
    } else {
        assert(tag_records(sj, rs) =~= Seq::<TaggedPair>::empty());
    }
}

/// The records of the atoms `0..m` of system `si`, atom by atom.
pub open spec fn system_records(
    per_atom: spec_fn(usize, usize) -> Seq<PairEntry>,
    si: int,
    m: int,
) -> Seq<PairEntry>
    decreases m,
{
    if m <= 0 {
        Seq::empty()
    } else {
        system_records(per_atom, si, m - 1) + per_atom(si as usize, (m - 1) as usize)
    }
}

/// The tagged stream of a batch: for each work item in order, the records
/// of that atom tagged with its system.
pub open spec fn batch_stream(
    per_atom: spec_fn(usize, usize) -> Seq<PairEntry>,
    work: Seq<(usize, usize)>,
) -> Seq<TaggedPair>
    decreases work.len(),
{
    if work.len() == 0 {
        Seq::empty()
    } else {
        let w = work.last();
        batch_stream(per_atom, work.drop_last()) + tag_records(w.0 as int, per_atom(w.0, w.1))
    }
}

proof fn lemma_batch_stream_concat(
    per_atom: spec_fn(usize, usize) -> Seq<PairEntry>,
    a: Seq<(usize, usize)>,
    b: Seq<(usize, usize)>,
)
    ensures
        batch_stream(per_atom, a + b) == batch_stream(per_atom, a) + batch_stream(per_atom, b),
    decreases b.len(),
{
    if b.len() == 0 {
        assert(a + b =~= a);
        assert(batch_stream(per_atom, a) + batch_stream(per_atom, b) =~= batch_stream(per_atom, a));
    } else {
        lemma_batch_stream_concat(per_atom, a, b.drop_last());
        assert((a + b).drop_last() =~= a + b.drop_last());
        assert((a + b).last() == b.last());
        let w = b.last();
        let t = tag_records(w.0 as int, per_atom(w.0, w.1));
        assert(batch_stream(per_atom, a) + batch_stream(per_atom, b.drop_last()) + t
            =~= batch_stream(per_atom, a) + (batch_stream(per_atom, b.drop_last()) + t));
    }
}

/// The part of system `sj`'s work items `(sj, 0..m)`, picked out for system `si`.
proof fn lemma_one_system_records(
    per_atom: spec_fn(usize, usize) -> Seq<PairEntry>,
    sj: int,
    m: int,
    si: int,
)
    requires
        0 <= sj <= usize::MAX,
        0 <= si,
        0 <= m <= usize::MAX + 1,
    ensures
        records_of(
            batch_stream(per_atom, Seq::new(m as nat, |a: int| (sj as usize, a as usize))),
            si,
        ) == if sj == si {
            system_records(per_atom, si, m)
        } else {
            Seq::<PairEntry>::empty()
        },
    decreases m,
{
    let items = Seq::new(m as nat, |a: int| (sj as usize, a as usize));
    if m > 0 {
        let fewer = Seq::new((m - 1) as nat, |a: int| (sj as usize, a as usize));
        assert(items.drop_last() =~= fewer);
        lemma_one_system_records(per_atom, sj, m - 1, si);
        let rs = per_atom(sj as usize, (m - 1) as usize);
        lemma_records_of_concat(batch_stream(per_atom, fewer), tag_records(sj, rs), si);
        lemma_records_of_tagged(sj, rs, si);
        if sj != si {
            assert(Seq::<PairEntry>::empty() + Seq::<PairEntry>::empty() =~= Seq::<PairEntry>::empty());
        }
    } else {
        assert(items =~= Seq::<(usize, usize)>::empty());
    }
}

/// Batching law: in the tagged stream of a whole batch, the records of
/// system `si` are exactly those that the atoms of system `si`, taken one
/// after another, yield on their own.
pub proof fn lemma_batch_matches_single_system(
    per_atom: spec_fn(usize, usize) -> Seq<PairEntry>,
    counts: Seq<usize>,
    k: int,
    si: int,
)
    requires
        0 <= k <= counts.len(),
        counts.len() <= usize::MAX + 1,
        0 <= si,
    ensures
        records_of(batch_stream(per_atom, work_upto(counts, k)), si) == if si < k {
            system_records(per_atom, si, counts[si] as int)
        } else {
            Seq::<PairEntry>::empty()
        },
    decreases k,
{
    if k > 0 {
        lemma_batch_matches_single_system(per_atom, counts, k - 1, si);
        let items = Seq::new(counts[k - 1] as nat, |a: int| ((k - 1) as usize, a as usize));
        lemma_batch_stream_concat(per_atom, work_upto(counts, k - 1), items);
        lemma_records_of_concat(
            batch_stream(per_atom, work_upto(counts, k - 1)),
            batch_stream(per_atom, items),
            si,
        );
        lemma_one_system_records(per_atom, k - 1, counts[k - 1] as int, si);
        assert(items =~= Seq::new(counts[k - 1] as nat, |a: int| (((k - 1) as int) as usize, a as usize)));
        if si < k - 1 {
            assert(system_records(per_atom, si, counts[si] as int) + Seq::<PairEntry>::empty()
                =~= system_records(per_atom, si, counts[si] as int));
        } else if si == k - 1 {
            assert(Seq::<PairEntry>::empty() + system_records(per_atom, si, counts[si] as int)
                =~= system_records(per_atom, si, counts[si] as int));
        } else {
            assert(Seq::<PairEntry>::empty() + Seq::<PairEntry>::empty() =~= Seq::<PairEntry>::empty());
        }
    } else {
        assert(batch_stream(per_atom, work_upto(counts, k)) =~= Seq::<TaggedPair>::empty());
    }
}

} // verus!
