use vstd::prelude::*;
use crate::lane::{bounded, sorted, strictly_sorted, lane_val, lemma_lane_swap};

verus! {

/// The indices of a sequence of (index, value) pairs.
pub open spec fn keys(b: Seq<(usize, i64)>) -> Seq<usize> {
    b.map_values(|p: (usize, i64)| p.0)
}

/// The values of a sequence of (index, value) pairs.
pub open spec fn vals(b: Seq<(usize, i64)>) -> Seq<i64> {
    b.map_values(|p: (usize, i64)| p.1)
}

/// The (index, value) pairs of two parallel sequences.
pub open spec fn pairs(indices: Seq<usize>, data: Seq<i64>) -> Seq<(usize, i64)> {
    Seq::new(indices.len(), |i: int| (indices[i], data[i]))
}

/// The entries of `s` whose index is `k`, in the order they stand in `s`.
pub open spec fn with_index(s: Seq<(usize, i64)>, k: usize) -> Seq<(usize, i64)>
    decreases s.len(),
{
    if s.len() == 0 {
        s
    } else {
        let rest = with_index(s.drop_last(), k);
        if s.last().0 == k {
            rest.push(s.last())
        } else {
            rest
        }
    }
}

/// No index occurs twice.
pub open spec fn distinct(s: Seq<usize>) -> bool {
    forall|a: int, b: int| 0 <= a < s.len() && 0 <= b < s.len() && a != b ==> s[a] != s[b]
}

/// Swapping two neighbours with different indices keeps, for every index, the
/// order of the entries that have it.
proof fn lemma_swap_with_index(s: Seq<(usize, i64)>, p: int, k: usize)
    requires
        0 <= p,
        p + 1 < s.len(),
        s[p].0 != s[p + 1].0,
    ensures
        with_index(s.update(p, s[p + 1]).update(p + 1, s[p]), k) == with_index(s, k),
    decreases s.len(),
{
    let t = s.update(p, s[p + 1]).update(p + 1, s[p]);
    let n = s.len() - 1;
    if p + 1 == n {
        assert(t.drop_last().drop_last() =~= s.drop_last().drop_last());
        assert(t.drop_last().last() == s.last());
        assert(s.drop_last().last() == t.last());
        let base = with_index(s.drop_last().drop_last(), k);
        assert(with_index(t.drop_last(), k) == if t.drop_last().last().0 == k {
            base.push(t.drop_last().last())
        } else {
            base
        });
        assert(with_index(s.drop_last(), k) == if s.drop_last().last().0 == k {
            base.push(s.drop_last().last())
        } else {
            base
        });
    } else {
        lemma_swap_with_index(s.drop_last(), p, k);
        assert(t.drop_last() =~= s.drop_last().update(p, s[p + 1]).update(p + 1, s[p]));
        assert(t.last() == s.last());
    }
}

/// An index whose entry sequence is not empty occurs in the sequence.
proof fn lemma_with_index_occurs(s: Seq<(usize, i64)>, k: usize)
    requires
        with_index(s, k).len() > 0,
    ensures
        exists|a: int| 0 <= a < s.len() && s[a].0 == k,
    decreases s.len(),
{
    if s.last().0 != k {
        lemma_with_index_occurs(s.drop_last(), k);
        let a = choose|a: int| 0 <= a < s.drop_last().len() && s.drop_last()[a].0 == k;
        assert(s[a].0 == k);
    } else {
        assert(s[s.len() - 1].0 == k);
    }
}

/// Sorting is determined: two sequences sorted by index whose entries of each
/// index stand in the same order are equal. So a stable sort has one result,
/// and sorting gives back any sorted sequence whose entries it was handed.
pub proof fn lemma_stable_sort_unique(s1: Seq<(usize, i64)>, s2: Seq<(usize, i64)>)
    requires
        sorted(keys(s1)),
        sorted(keys(s2)),
        forall|k: usize| #[trigger] with_index(s1, k) == with_index(s2, k),
    ensures
        s1 == s2,
    decreases s1.len(),
{
    if s1.len() == 0 {
        if s2.len() > 0 {
            let k = s2.last().0;
            assert(with_index(s2, k).len() > 0);
            assert(with_index(s1, k) == with_index(s2, k));
        }
        assert(s1 =~= s2);
    } else {
        let m1 = s1.last().0;
        assert(with_index(s1, m1).len() > 0);
        assert(with_index(s1, m1) == with_index(s2, m1));
        lemma_with_index_occurs(s2, m1);
        let m2 = s2.last().0;
        assert(with_index(s2, m2).len() > 0);
        assert(with_index(s1, m2) == with_index(s2, m2));
        lemma_with_index_occurs(s1, m2);
        let a1 = choose|a: int| 0 <= a < s2.len() && s2[a].0 == m1;
        let a2 = choose|a: int| 0 <= a < s1.len() && s1[a].0 == m2;
        assert(keys(s2)[a1] <= keys(s2)[s2.len() - 1]);
        assert(keys(s1)[a2] <= keys(s1)[s1.len() - 1]);
        assert(m1 == m2);
        assert(with_index(s1, m1).last() == s1.last());
        assert(with_index(s2, m1).last() == s2.last());
        let t1 = s1.drop_last();
        let t2 = s2.drop_last();
        assert forall|k: usize| #[trigger] with_index(t1, k) == with_index(t2, k) by {
            assert(with_index(s1, k) == with_index(s2, k));
            if k == m1 {
                assert(with_index(t1, k) == with_index(s1, k).drop_last());
                assert(with_index(t2, k) == with_index(s2, k).drop_last());
            }
        }
        assert(sorted(keys(t1))) by {
            assert forall|a: int, b: int| 0 <= a <= b < keys(t1).len() implies keys(t1)[a] <= keys(t1)[b] by {
                assert(keys(t1)[a] == keys(s1)[a] && keys(t1)[b] == keys(s1)[b]);
            }
        }
        assert(sorted(keys(t2))) by {
            assert forall|a: int, b: int| 0 <= a <= b < keys(t2).len() implies keys(t2)[a] <= keys(t2)[b] by {
                assert(keys(t2)[a] == keys(s2)[a] && keys(t2)[b] == keys(s2)[b]);
            }
        }
        lemma_stable_sort_unique(t1, t2);
        assert(s1 =~= t1.push(s1.last()));
        assert(s2 =~= t2.push(s2.last()));
    }
}

/// Swapping two neighbours keeps the multiset of a sequence.
proof fn lemma_swap_multiset(s: Seq<(usize, i64)>, p: int)
    requires
        0 <= p,
        p + 1 < s.len(),
    ensures
        s.update(p, s[p + 1]).update(p + 1, s[p]).to_multiset() == s.to_multiset(),
{
    broadcast use vstd::multiset::group_multiset_axioms;

    let y = s[p + 1];
    let t = s.update(p, y).update(p + 1, s[p]);
    assert(t =~= s.remove(p + 1).insert(p, y));
    vstd::seq_lib::to_multiset_remove(s, p + 1);
    vstd::seq_lib::to_multiset_insert(s.remove(p + 1), p, y);
    vstd::seq_lib::to_multiset_contains(s, y);
    assert(s.to_multiset().remove(y).insert(y) =~= s.to_multiset());
}

/// Sorts the parallel `indices` and `data` by index, keeping equal indices in
/// the order they came in. `buf` is scratch space, cleared and refilled, so that
/// repeated calls can share one allocation.
///
/// The (index, value) pairs are permuted, never merged: their multiset is
/// kept, and so is the sequence of entries of every single index. Hence the
/// value held at each index is unchanged, already sorted input is left as it
/// is, and input without repeated indices comes out strictly increasing. On
/// return `buf` holds the sorted pairs.
pub fn sort_indices_data_slices(
    indices: &mut Vec<usize>,
    data: &mut Vec<i64>,
    buf: &mut Vec<(usize, i64)>,
)
    requires
        old(indices).len() == old(data).len(),
    ensures
        final(indices).len() == old(indices).len(),
        final(data).len() == old(data).len(),
        sorted(final(indices)@),
        forall|k: int| #[trigger]
            lane_val(final(indices)@, final(data)@, k) == lane_val(old(indices)@, old(data)@, k),
        sorted(old(indices)@) ==> final(indices)@ == old(indices)@ && final(data)@ == old(data)@,
        forall|b: int| bounded(old(indices)@, b) ==> bounded(final(indices)@, b),
        pairs(final(indices)@, final(data)@).to_multiset() == pairs(old(indices)@, old(data)@).to_multiset(),
        forall|k: usize| #[trigger]
            with_index(pairs(final(indices)@, final(data)@), k) == with_index(
                pairs(old(indices)@, old(data)@),
                k,
            ),
        distinct(old(indices)@) ==> strictly_sorted(final(indices)@),
        final(buf)@ == pairs(final(indices)@, final(data)@),
{
    let len = indices.len();
    buf.clear();
    let mut i: usize = 0;
    while i < len
        invariant
            len == indices.len(),
            len == data.len(),
            i <= len,
            buf.len() == i,
            keys(buf@) =~= indices@.take(i as int),
            vals(buf@) =~= data@.take(i as int),
        decreases len - i,
    {
        buf.push((indices[i], data[i]));
        i = i + 1;
    }
    assert(indices@.take(len as int) =~= indices@);
    assert(data@.take(len as int) =~= data@);
    let ghost init = buf@;
    assert forall|a: int| 0 <= a < len implies init[a] == pairs(indices@, data@)[a] by {
        assert(keys(init)[a] == indices@[a]);
        assert(vals(init)[a] == data@[a]);
    }
    assert(init =~= pairs(indices@, data@));
    let mut i: usize = 0;
    while i < len
        invariant
            buf.len() == len,
            init.len() == len,
            keys(init) == indices@,
            vals(init) == data@,
            indices.len() == len,
            data.len() == len,
            i <= len,
            sorted(keys(buf@).take(i as int)),
            forall|k: int| #[trigger]
                lane_val(keys(buf@), vals(buf@), k) == lane_val(keys(init), vals(init), k),
            sorted(keys(init)) ==> buf@ == init,
            forall|b: int| bounded(keys(init), b) ==> bounded(keys(buf@), b),
            buf@.to_multiset() == init.to_multiset(),
            forall|k: usize| #[trigger] with_index(buf@, k) == with_index(init, k),
            distinct(keys(init)) ==> distinct(keys(buf@)),
        decreases len - i,
    {
        proof {
            let t = keys(buf@).take(i as int);
            assert forall|a: int, b: int| 0 <= a < b < i implies buf@[a].0 <= buf@[b].0 by {
                assert(t[a] == buf@[a].0 && t[b] == buf@[b].0);
            }
        }
        let mut j: usize = i;
        while j > 0 && buf[j - 1].0 > buf[j].0
            invariant
                buf.len() == len,
                i < len,
                j <= i,
                forall|a: int, b: int|
                    0 <= a < b <= i && a != j && b != j ==> buf@[a].0 <= buf@[b].0,
                forall|b: int| j < b <= i ==> buf@[j as int].0 < buf@[b].0,
                0 < j < i ==> buf@[j - 1].0 <= buf@[j + 1].0,
                forall|k: int| #[trigger]
                    lane_val(keys(buf@), vals(buf@), k) == lane_val(keys(init), vals(init), k),
                sorted(keys(init)) ==> buf@ == init && j == i,
                forall|b: int| bounded(keys(init), b) ==> bounded(keys(buf@), b),
                buf@.to_multiset() == init.to_multiset(),
                forall|k: usize| #[trigger] with_index(buf@, k) == with_index(init, k),
                distinct(keys(init)) ==> distinct(keys(buf@)),
            decreases j,
        {
            let x = buf[j - 1];
            let y = buf[j];
            let ghost before = buf@;
            buf.set(j - 1, y);
            buf.set(j, x);
            proof {
                let p = j - 1;
                assert(buf@ =~= before.update(p as int, before[p + 1]).update(p + 1, before[p as int]));
                lemma_swap_multiset(before, p as int);
                assert forall|k: usize| #[trigger] with_index(buf@, k) == with_index(init, k) by {
                    lemma_swap_with_index(before, p as int, k);
                }
                if distinct(keys(init)) {
                    assert forall|a: int, b: int|
                        0 <= a < len && 0 <= b < len && a != b implies keys(buf@)[a] != keys(buf@)[b] by {
                        let a0 = if a == p { p + 1 } else if a == p + 1 { p as int } else { a };
                        let b0 = if b == p { p + 1 } else if b == p + 1 { p as int } else { b };
                        assert(keys(buf@)[a] == keys(before)[a0]);
                        assert(keys(buf@)[b] == keys(before)[b0]);
                    }
                }
                assert(keys(buf@) =~= keys(before).update(p, keys(before)[p + 1]).update(
                    p + 1,
                    keys(before)[p],
                ));
                assert(vals(buf@) =~= vals(before).update(p, vals(before)[p + 1]).update(
                    p + 1,
                    vals(before)[p],
                ));
                assert forall|k: int| #[trigger]
                    lane_val(keys(buf@), vals(buf@), k) == lane_val(keys(init), vals(init), k) by {
                    lemma_lane_swap(keys(before), vals(before), p as int, k);
                }
                assert forall|b: int| bounded(keys(init), b) implies bounded(keys(buf@), b) by {
                    assert(bounded(keys(before), b));
                    assert forall|a: int| 0 <= a < keys(buf@).len() implies keys(buf@)[a] < b by {
                        assert(keys(before)[a] < b);
                    }
                }
                if sorted(keys(init)) {
                    assert(keys(init)[p as int] <= keys(init)[p + 1]);
                }
            }
            j = j - 1;
        }
        proof {
            let t = keys(buf@).take(i + 1);
            assert forall|a: int, b: int| 0 <= a <= b < i + 1 implies #[trigger] t[a] <= #[trigger] t[b] by {
                assert(t[a] == buf@[a].0 && t[b] == buf@[b].0);
                if a < b && a == j && j > 0 {
                }
            }
        }
        i = i + 1;
    }
    let mut i: usize = 0;
    while i < len
        invariant
            buf.len() == len,
            init.len() == len,
            indices.len() == len,
            data.len() == len,
            i <= len,
            forall|a: int| 0 <= a < i ==> indices@[a] == buf@[a].0 && data@[a] == buf@[a].1,
            forall|a: int| i <= a < len ==> indices@[a] == init[a].0 && data@[a] == init[a].1,
        decreases len - i,
    {
        indices.set(i, buf[i].0);
        data.set(i, buf[i].1);
        i = i + 1;
    }
    assert(indices@ =~= keys(buf@));
    assert(data@ =~= vals(buf@));
    assert(pairs(indices@, data@) =~= buf@);
    assert(keys(buf@).take(len as int) =~= keys(buf@));
    proof {
        if distinct(old(indices)@) {
            assert(keys(init) =~= old(indices)@);
            assert(distinct(keys(buf@)));
            assert forall|a: int, b: int| 0 <= a < b < len implies indices@[a] < indices@[b] by {
                assert(keys(buf@).take(len as int)[a] <= keys(buf@).take(len as int)[b]);
                assert(keys(buf@)[a] != keys(buf@)[b]);
            }
        }
    }
}

} // verus!
