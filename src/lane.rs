use vstd::prelude::*;
use crate::ring::{wrap, lemma_wrap_shift, lemma_wrap_inner};

verus! {

/// Strictly increasing indices: sorted and free of duplicates.
pub open spec fn strictly_sorted(s: Seq<usize>) -> bool {
    forall|i: int, j: int| 0 <= i < j < s.len() ==> s[i] < s[j]
}

/// Non-decreasing indices.
pub open spec fn sorted(s: Seq<usize>) -> bool {
    forall|i: int, j: int| 0 <= i <= j < s.len() ==> s[i] <= s[j]
}

/// Every index is below `bound`.
pub open spec fn bounded(s: Seq<usize>, bound: int) -> bool {
    forall|i: int| 0 <= i < s.len() ==> s[i] < bound
}

/// Whether index `k` is stored in `s`.
pub open spec fn has(s: Seq<usize>, k: int) -> bool {
    exists|a: int| 0 <= a < s.len() && s[a] == k
}

pub proof fn lemma_has_push(s: Seq<usize>, x: usize, k: int)
    ensures
        has(s.push(x), k) == (has(s, k) || x == k),
{
    if has(s, k) {
        let a = choose|a: int| 0 <= a < s.len() && s[a] == k;
        assert(s.push(x)[a] == k);
    }
    if x == k {
        assert(s.push(x)[s.len() as int] == k);
    }
    if has(s.push(x), k) && x != k {
        let a = choose|a: int| 0 <= a < s.push(x).len() && s.push(x)[a] == k;
        assert(s[a] == k);
    }
}

/// Two strictly increasing sequences that hold the same indices are equal.
pub proof fn lemma_sorted_unique(s1: Seq<usize>, s2: Seq<usize>)
    requires
        strictly_sorted(s1),
        strictly_sorted(s2),
        forall|k: int| #[trigger] has(s1, k) == has(s2, k),
    ensures
        s1 == s2,
    decreases s1.len(),
{
    if s1.len() == 0 {
        if s2.len() > 0 {
            assert(has(s2, s2[0] as int));
            assert(has(s1, s2[0] as int));
        }
        assert(s1 =~= s2);
    } else if s2.len() == 0 {
        assert(has(s1, s1[0] as int));
        assert(has(s2, s1[0] as int));
    } else {
        assert(has(s1, s1[0] as int));
        assert(has(s2, s2[0] as int));
        assert(has(s2, s1[0] as int));
        assert(has(s1, s2[0] as int));
        let b = choose|b: int| 0 <= b < s2.len() && s2[b] == s1[0] as int;
        let a = choose|a: int| 0 <= a < s1.len() && s1[a] == s2[0] as int;
        assert(s1[0] == s2[0]) by {
            if b > 0 {
                assert(s2[0] < s2[b]);
            }
            if a > 0 {
                assert(s1[0] < s1[a]);
            }
        }
        let t1 = s1.drop_first();
        let t2 = s2.drop_first();
        assert forall|k: int| #[trigger] has(t1, k) == has(t2, k) by {
            if has(t1, k) {
                let x = choose|x: int| 0 <= x < t1.len() && t1[x] == k;
                assert(s1[x + 1] == k && s1[0] < s1[x + 1]);
                assert(has(s1, k));
                assert(has(s2, k));
                let y = choose|y: int| 0 <= y < s2.len() && s2[y] == k;
                assert(y != 0);
                assert(t2[y - 1] == k);
            }
            if has(t2, k) {
                let x = choose|x: int| 0 <= x < t2.len() && t2[x] == k;
                assert(s2[x + 1] == k && s2[0] < s2[x + 1]);
                assert(has(s2, k));
                assert(has(s1, k));
                let y = choose|y: int| 0 <= y < s1.len() && s1[y] == k;
                assert(y != 0);
                assert(t1[y - 1] == k);
            }
        }
        lemma_sorted_unique(t1, t2);
        assert(s1 =~= s2) by {
            assert forall|i: int| 0 <= i < s1.len() implies s1[i] == s2[i] by {
                if i > 0 {
                    assert(s1[i] == t1[i - 1]);
                    assert(s2[i] == t2[i - 1]);
                }
            }
        }
    }
}

/// The exact sum of the values stored at index `k` of a lane, duplicates included.
pub open spec fn lane_val(idx: Seq<usize>, data: Seq<i64>, k: int) -> int
    decreases idx.len(),
{
    if idx.len() == 0 {
        0
    } else {
        let n = idx.len() - 1;
        lane_val(idx.take(n), data.take(n), k) + (if idx[n] == k {
            data[n] as int
        } else {
            0
        })
    }
}

/// `sum_a data[a] * g(idx[a])`: a lane weighted by a function of its indices.
pub open spec fn weighted(idx: Seq<usize>, data: Seq<i64>, g: spec_fn(int) -> int) -> int
    decreases idx.len(),
{
    if idx.len() == 0 {
        0
    } else {
        let n = idx.len() - 1;
        weighted(idx.take(n), data.take(n), g) + data[n] * g(idx[n] as int)
    }
}

/// `sum_{k < m} f(k)`.
pub open spec fn range_sum(f: spec_fn(int) -> int, m: nat) -> int
    decreases m,
{
    if m == 0 {
        0
    } else {
        range_sum(f, (m - 1) as nat) + f(m - 1)
    }
}

pub proof fn lemma_range_sum_ext(f: spec_fn(int) -> int, g: spec_fn(int) -> int, m: nat)
    requires
        forall|k: int| 0 <= k < m ==> #[trigger] f(k) == g(k),
    ensures
        range_sum(f, m) == range_sum(g, m),
    decreases m,
{
    if m > 0 {
        lemma_range_sum_ext(f, g, (m - 1) as nat);
    }
}

pub proof fn lemma_range_sum_add(
    f: spec_fn(int) -> int,
    g: spec_fn(int) -> int,
    h: spec_fn(int) -> int,
    m: nat,
)
    requires
        forall|k: int| 0 <= k < m ==> #[trigger] f(k) == g(k) + h(k),
    ensures
        range_sum(f, m) == range_sum(g, m) + range_sum(h, m),
    decreases m,
{
    if m > 0 {
        lemma_range_sum_add(f, g, h, (m - 1) as nat);
    }
}

/// Sums of pointwise congruent terms are congruent.
pub proof fn lemma_range_sum_wrap(f: spec_fn(int) -> int, g: spec_fn(int) -> int, m: nat)
    requires
        forall|k: int| 0 <= k < m ==> wrap(#[trigger] f(k)) == wrap(g(k)),
    ensures
        wrap(range_sum(f, m)) == wrap(range_sum(g, m)),
    decreases m,
{
    if m > 0 {
        let m1 = (m - 1) as nat;
        lemma_range_sum_wrap(f, g, m1);
        let sf = range_sum(f, m1);
        let sg = range_sum(g, m1);
        lemma_wrap_shift(sf, sg, f(m - 1));
        lemma_wrap_inner(sg, f(m - 1));
        lemma_wrap_inner(sg, g(m - 1));
    }
}

/// A function that is zero but at one point `c < m` sums to its value there.
pub proof fn lemma_range_sum_point(h: spec_fn(int) -> int, c: int, m: nat)
    requires
        0 <= c,
        forall|k: int| 0 <= k < m && k != c ==> #[trigger] h(k) == 0,
    ensures
        range_sum(h, m) == (if c < m {
            h(c)
        } else {
            0
        }),
    decreases m,
{
    if m > 0 {
        lemma_range_sum_point(h, c, (m - 1) as nat);
    }
}

/// A lane weighted by `g` equals the dense sum over `[0, m)` of its values times `g`.
pub proof fn lemma_weighted_dense(idx: Seq<usize>, data: Seq<i64>, g: spec_fn(int) -> int, m: nat)
    requires
        bounded(idx, m as int),
        idx.len() == data.len(),
    ensures
        weighted(idx, data, g) == range_sum(|k: int| lane_val(idx, data, k) * g(k), m),
    decreases idx.len(),
{
    let f = |k: int| lane_val(idx, data, k) * g(k);
    if idx.len() == 0 {
        lemma_range_sum_point(f, 0, m);
    } else {
        let n = idx.len() - 1;
        let i2 = idx.take(n);
        let d2 = data.take(n);
        lemma_weighted_dense(i2, d2, g, m);
        let f2 = |k: int| lane_val(i2, d2, k) * g(k);
        let c = idx[n] as int;
        let h = |k: int| if k == c { data[n] * g(k) } else { 0 };
        assert forall|k: int| 0 <= k < m implies #[trigger] f(k) == f2(k) + h(k) by {
            let a = lane_val(i2, d2, k);
            let b = if idx[n] == k { data[n] as int } else { 0 };
            assert((a + b) * g(k) == a * g(k) + b * g(k)) by (nonlinear_arith);
        }
        lemma_range_sum_add(f, f2, h, m);
        lemma_range_sum_point(h, c, m);
    }
}

/// An index that does not occur in a lane has value zero.
pub proof fn lemma_lane_absent(idx: Seq<usize>, data: Seq<i64>, k: int)
    requires
        forall|a: int| 0 <= a < idx.len() ==> idx[a] != k,
    ensures
        lane_val(idx, data, k) == 0,
    decreases idx.len(),
{
    if idx.len() > 0 {
        lemma_lane_absent(idx.take(idx.len() - 1), data.take(idx.len() - 1), k);
    }
}

/// In a lane without duplicates, the value at a stored index is the stored value.
pub proof fn lemma_lane_lookup(idx: Seq<usize>, data: Seq<i64>, p: int)
    requires
        strictly_sorted(idx),
        idx.len() == data.len(),
        0 <= p < idx.len(),
    ensures
        lane_val(idx, data, idx[p] as int) == data[p],
    decreases idx.len(),
{
    let n = idx.len() - 1;
    if p == n {
        lemma_lane_absent(idx.take(n), data.take(n), idx[p] as int);
    } else {
        lemma_lane_lookup(idx.take(n), data.take(n), p);
    }
}

/// The value of a lane that ends in one more entry.
pub proof fn lemma_lane_push(idx: Seq<usize>, data: Seq<i64>, i: usize, d: i64, k: int)
    requires
        idx.len() == data.len(),
    ensures
        lane_val(idx.push(i), data.push(d), k) == lane_val(idx, data, k) + (if i == k {
            d as int
        } else {
            0
        }),
{
    assert(idx.push(i).take(idx.len() as int) =~= idx);
    assert(data.push(d).take(idx.len() as int) =~= data);
}

/// The weight of a lane that ends in one more entry.
pub proof fn lemma_weighted_push(
    idx: Seq<usize>,
    data: Seq<i64>,
    g: spec_fn(int) -> int,
    i: usize,
    d: i64,
)
    requires
        idx.len() == data.len(),
    ensures
        weighted(idx.push(i), data.push(d), g) == weighted(idx, data, g) + d * g(i as int),
{
    assert(idx.push(i).take(idx.len() as int) =~= idx);
    assert(data.push(d).take(idx.len() as int) =~= data);
}

/// Swapping two neighbouring entries keeps the value of every index.
pub proof fn lemma_lane_swap(idx: Seq<usize>, data: Seq<i64>, p: int, k: int)
    requires
        idx.len() == data.len(),
        0 <= p,
        p + 1 < idx.len(),
    ensures
        lane_val(
            idx.update(p, idx[p + 1]).update(p + 1, idx[p]),
            data.update(p, data[p + 1]).update(p + 1, data[p]),
            k,
        ) == lane_val(idx, data, k),
    decreases idx.len(),
{
    let i2 = idx.update(p, idx[p + 1]).update(p + 1, idx[p]);
    let d2 = data.update(p, data[p + 1]).update(p + 1, data[p]);
    let n = idx.len() - 1;
    if p + 1 == n {
        assert(i2.take(n).take(n - 1) =~= idx.take(n).take(n - 1));
        assert(d2.take(n).take(n - 1) =~= data.take(n).take(n - 1));
        assert(lane_val(i2, d2, k) == lane_val(i2.take(n), d2.take(n), k) + (if i2[n] == k {
            d2[n] as int
        } else {
            0
        }));
        assert(lane_val(idx, data, k) == lane_val(idx.take(n), data.take(n), k) + (if idx[n] == k {
            data[n] as int
        } else {
            0
        }));
        let a = lane_val(i2.take(n), d2.take(n), k);
        let b = lane_val(idx.take(n), data.take(n), k);
        assert(a == lane_val(i2.take(n).take(n - 1), d2.take(n).take(n - 1), k) + (if i2[n - 1] == k {
            d2[n - 1] as int
        } else {
            0
        }));
        assert(b == lane_val(idx.take(n).take(n - 1), data.take(n).take(n - 1), k) + (if idx[n - 1] == k {
            data[n - 1] as int
        } else {
            0
        }));
    } else {
        lemma_lane_swap(idx.take(n), data.take(n), p, k);
        assert(i2.take(n) =~= idx.take(n).update(p, idx[p + 1]).update(p + 1, idx[p]));
        assert(d2.take(n) =~= data.take(n).update(p, data[p + 1]).update(p + 1, data[p]));
    }
}

/// The number of times `j` occurs in `s`.
pub open spec fn cnt(s: Seq<usize>, j: int) -> nat
    decreases s.len(),
{
    if s.len() == 0 {
        0
    } else {
        cnt(s.drop_last(), j) + (if s.last() == j {
            1nat
        } else {
            0nat
        })
    }
}

/// A value occurs at most as often as the sequence is long.
pub proof fn lemma_cnt_len(s: Seq<usize>, j: int)
    ensures
        cnt(s, j) <= s.len(),
    decreases s.len(),
{
    if s.len() > 0 {
        lemma_cnt_len(s.drop_last(), j);
    }
}

/// Counting over one more element of a prefix.
pub proof fn lemma_cnt_step(s: Seq<usize>, p: int, j: int)
    requires
        0 <= p < s.len(),
    ensures
        cnt(s.take(p + 1), j) == cnt(s.take(p), j) + (if s[p] == j {
            1nat
        } else {
            0nat
        }),
{
    assert(s.take(p + 1).drop_last() =~= s.take(p));
}

/// A prefix holds no more occurrences than the whole sequence.
pub proof fn lemma_cnt_prefix(s: Seq<usize>, p: int, j: int)
    requires
        0 <= p <= s.len(),
    ensures
        cnt(s.take(p), j) <= cnt(s, j),
    decreases s.len() - p,
{
    if p < s.len() {
        lemma_cnt_step(s, p, j);
        lemma_cnt_prefix(s, p + 1, j);
    } else {
        assert(s.take(p) =~= s);
    }
}

/// The occurrences of all values below `n` add up to the length.
pub proof fn lemma_cnt_total(s: Seq<usize>, n: nat)
    requires
        bounded(s, n as int),
    ensures
        range_sum(|k: int| cnt(s, k) as int, n) == s.len(),
    decreases s.len(),
{
    let f = |k: int| cnt(s, k) as int;
    if s.len() == 0 {
        lemma_range_sum_point(f, 0, n);
    } else {
        let t = s.drop_last();
        lemma_cnt_total(t, n);
        let g = |k: int| cnt(t, k) as int;
        let c = s.last() as int;
        let h = |k: int| if k == c { 1int } else { 0int };
        assert forall|k: int| 0 <= k < n implies #[trigger] f(k) == g(k) + h(k) by {
        }
        lemma_range_sum_add(f, g, h, n);
        lemma_range_sum_point(h, c, n);
    }
}

/// A sum of non-negative terms grows with its range.
pub proof fn lemma_range_sum_mono(f: spec_fn(int) -> int, a: nat, b: nat)
    requires
        a <= b,
        forall|k: int| 0 <= k < b ==> #[trigger] f(k) >= 0,
    ensures
        range_sum(f, a) <= range_sum(f, b),
    decreases b - a,
{
    if a < b {
        lemma_range_sum_mono(f, a, (b - 1) as nat);
    }
}

} // verus!
