use vstd::prelude::*;
use crate::errors::SprsError;
use crate::lane::{
    bounded, cnt, has, lane_val, lemma_cnt_len, lemma_cnt_prefix, lemma_cnt_step, lemma_cnt_total,
    lemma_has_push, lemma_lane_lookup, lemma_lane_push, lemma_range_sum_mono, lemma_sorted_unique,
    range_sum, sorted, strictly_sorted,
};
use crate::ring::{ring_add, wrap, lemma_wrap_inner, lemma_wrap_shift};
use crate::utils::sort_indices_data_slices;
use crate::vec::CsVecBase;

verus! {

/// The layout of a compressed matrix: by rows or by columns.
#[derive(PartialEq, Eq, Structural, Debug, Clone, Copy)]
pub enum CompressedStorage {
    CSR,
    CSC,
}

impl CompressedStorage {
    /// The other layout.
    pub fn other_storage(self) -> (r: CompressedStorage)
        ensures
            r == self.flip(),
    {
        match self {
            CompressedStorage::CSR => CompressedStorage::CSC,
            CompressedStorage::CSC => CompressedStorage::CSR,
        }
    }

    pub open spec fn flip(self) -> CompressedStorage {
        match self {
            CompressedStorage::CSR => CompressedStorage::CSC,
            CompressedStorage::CSC => CompressedStorage::CSR,
        }
    }
}

/// Pointer array `indptr` cuts `nnz` entries into `outer` contiguous lanes.
pub open spec fn pointers_ok(indptr: Seq<usize>, outer: nat, nnz: nat) -> bool {
    &&& indptr.len() == outer + 1
    &&& indptr[0] == 0
    &&& indptr[outer as int] == nnz
    &&& forall|a: int, b: int| 0 <= a <= b <= outer ==> indptr[a] <= indptr[b]
}

/// Lane `q` of a buffer cut by the pointer array `ip`.
pub open spec fn seg<T>(ip: Seq<usize>, s: Seq<T>, q: int) -> Seq<T> {
    s.subrange(ip[q] as int, ip[q + 1] as int)
}

/// Appending a lane to cut buffers keeps the earlier lanes and adds the new one last.
pub proof fn lemma_seg_append<T>(ip: Seq<usize>, s: Seq<T>, t: Seq<T>, o: int)
    requires
        0 <= o,
        ip.len() == o + 1,
        ip[o] == s.len(),
        forall|a: int, b: int| 0 <= a <= b <= o ==> ip[a] <= ip[b],
        s.len() + t.len() <= usize::MAX,
    ensures
        forall|q: int|
            0 <= q < o ==> #[trigger] seg(ip.push((s.len() + t.len()) as usize), s + t, q) == seg(
                ip,
                s,
                q,
            ),
        seg(ip.push((s.len() + t.len()) as usize), s + t, o) == t,
{
    let ip2 = ip.push((s.len() + t.len()) as usize);
    assert forall|q: int| 0 <= q < o implies #[trigger] seg(ip2, s + t, q) == seg(ip, s, q) by {
        assert(ip[q] <= ip[q + 1] <= ip[o]);
        assert(seg(ip2, s + t, q) =~= seg(ip, s, q));
    }
    assert(seg(ip2, s + t, o) =~= t);
}

/// The lane holding entry `p`: pointers that start at zero and never decrease
/// put every entry below `ip[n]` in exactly one lane.
pub proof fn lemma_lane_of(ip: Seq<usize>, n: int, p: int) -> (o: int)
    requires
        0 < n < ip.len(),
        ip[0] == 0,
        forall|a: int, b: int| 0 <= a <= b <= n ==> ip[a] <= ip[b],
        0 <= p < ip[n],
    ensures
        0 <= o < n,
        ip[o] <= p < ip[o + 1],
    decreases n,
{
    if p >= ip[n - 1] {
        n - 1
    } else {
        lemma_lane_of(ip, n - 1, p)
    }
}

/// The mathematical content of a compressed matrix.
pub ghost struct SpMat {
    pub storage: CompressedStorage,
    pub nrows: nat,
    pub ncols: nat,
    pub indptr: Seq<usize>,
    pub indices: Seq<usize>,
    pub data: Seq<i64>,
}

impl SpMat {
    pub open spec fn outer(self) -> nat {
        if self.storage == CompressedStorage::CSR {
            self.nrows
        } else {
            self.ncols
        }
    }

    pub open spec fn inner(self) -> nat {
        if self.storage == CompressedStorage::CSR {
            self.ncols
        } else {
            self.nrows
        }
    }

    /// The structural invariant: pointers cut the entries into lanes, indices
    /// and values are aligned, and every index lies within the inner dimension.
    pub open spec fn wf(self) -> bool {
        &&& pointers_ok(self.indptr, self.outer(), self.indices.len())
        &&& self.data.len() == self.indices.len()
        &&& bounded(self.indices, self.inner() as int)
    }

    /// The indices of lane `o`.
    pub open spec fn lane_idx(self, o: int) -> Seq<usize> {
        seg(self.indptr, self.indices, o)
    }

    /// The values of lane `o`.
    pub open spec fn lane_data(self, o: int) -> Seq<i64> {
        seg(self.indptr, self.data, o)
    }

    /// Every lane is sorted and free of duplicates.
    pub open spec fn canonical(self) -> bool {
        forall|o: int| 0 <= o < self.outer() ==> strictly_sorted(#[trigger] self.lane_idx(o))
    }

    /// The exact value at outer position `o`, inner position `i`.
    pub open spec fn at(self, o: int, i: int) -> int {
        lane_val(self.lane_idx(o), self.lane_data(o), i)
    }

    /// The exact value at row `r`, column `c`.
    pub open spec fn val(self, r: int, c: int) -> int {
        if self.storage == CompressedStorage::CSR {
            self.at(r, c)
        } else {
            self.at(c, r)
        }
    }
}

proof fn lemma_indptr_agree(a: SpMat, b: SpMat, q: int)
    requires
        a.wf(),
        b.wf(),
        a.outer() == b.outer(),
        0 <= q <= a.outer(),
        forall|o: int| 0 <= o < a.outer() ==> #[trigger] a.lane_idx(o) == b.lane_idx(o),
    ensures
        forall|x: int| 0 <= x <= q ==> a.indptr[x] == b.indptr[x],
    decreases q,
{
    if q > 0 {
        lemma_indptr_agree(a, b, q - 1);
        let o = q - 1;
        assert(a.lane_idx(o).len() == b.lane_idx(o).len());
        assert(a.indptr[o] <= a.indptr[o + 1]);
        assert(b.indptr[o] <= b.indptr[o + 1]);
    }
}

/// Two well-formed matrices of one layout and shape whose lanes are equal,
/// indices and values, are the same matrix.
pub proof fn lemma_lanes_determine(a: SpMat, b: SpMat)
    requires
        a.wf(),
        b.wf(),
        a.storage == b.storage,
        a.nrows == b.nrows,
        a.ncols == b.ncols,
        forall|o: int| 0 <= o < a.outer() ==> #[trigger] a.lane_idx(o) == b.lane_idx(o) && a.lane_data(o) == b.lane_data(o),
    ensures
        a == b,
{
    let n = a.outer() as int;
    lemma_indptr_agree(a, b, n);
    assert(a.indptr =~= b.indptr);
    assert forall|p: int| 0 <= p < a.indices.len() implies a.indices[p] == b.indices[p] && a.data[p] == b.data[p] by {
        let o = lemma_lane_of(a.indptr, n, p);
        assert(a.lane_idx(o)[p - a.indptr[o]] == a.indices[p]);
        assert(b.lane_idx(o)[p - b.indptr[o]] == b.indices[p]);
        assert(a.lane_data(o)[p - a.indptr[o]] == a.data[p]);
        assert(b.lane_data(o)[p - b.indptr[o]] == b.data[p]);
    }
    assert(a.indices =~= b.indices);
    assert(a.data =~= b.data);
}

/// What converting `m` to the other layout guarantees of `r`: the other
/// layout, the same shape, lane `j` of `r` holds position `o` exactly where
/// lane `o` of `m` holds position `j`, with the same value, and canonical input
/// gives canonical output.
pub open spec fn converted_from(m: SpMat, r: SpMat) -> bool {
    &&& r.wf()
    &&& r.storage == m.storage.flip()
    &&& r.nrows == m.nrows
    &&& r.ncols == m.ncols
    &&& forall|o: int, i: int|
        0 <= o < r.outer() && 0 <= i < r.inner() ==> #[trigger] r.at(o, i) == m.at(i, o)
    &&& forall|o: int, i: int|
        0 <= o < r.outer() && 0 <= i < r.inner() ==> #[trigger] has(r.lane_idx(o), i) == has(
            m.lane_idx(i),
            o,
        )
    &&& m.canonical() ==> r.canonical()
}

/// Two canonical matrices of one layout and shape that store the same
/// positions with the same values are the same matrix.
#[verifier::rlimit(30)]
pub proof fn lemma_canonical_determined(a: SpMat, b: SpMat)
    requires
        a.wf(),
        b.wf(),
        a.canonical(),
        b.canonical(),
        a.storage == b.storage,
        a.nrows == b.nrows,
        a.ncols == b.ncols,
        forall|o: int, i: int|
            0 <= o < a.outer() && 0 <= i < a.inner() ==> #[trigger] has(a.lane_idx(o), i) == has(
                b.lane_idx(o),
                i,
            ) && a.at(o, i) == b.at(o, i),
    ensures
        a == b,
{
    assert forall|o: int| 0 <= o < a.outer() implies #[trigger] a.lane_idx(o) == b.lane_idx(o)
        && a.lane_data(o) == b.lane_data(o) by {
        let x1 = a.lane_idx(o);
        let x2 = b.lane_idx(o);
        assert(a.indptr[o] <= a.indptr[o + 1] <= a.indptr[a.outer() as int]);
        assert(b.indptr[o] <= b.indptr[o + 1] <= b.indptr[b.outer() as int]);
        assert forall|k: int| #[trigger] has(x1, k) == has(x2, k) by {
            if !(0 <= k < a.inner()) {
                if has(x1, k) {
                    let x = choose|x: int| 0 <= x < x1.len() && x1[x] == k;
                    assert(x1[x] == a.indices[a.indptr[o] + x]);
                }
                if has(x2, k) {
                    let x = choose|x: int| 0 <= x < x2.len() && x2[x] == k;
                    assert(x2[x] == b.indices[b.indptr[o] + x]);
                }
            } else {
                assert(has(a.lane_idx(o), k) == has(b.lane_idx(o), k));
            }
        }
        lemma_sorted_unique(x1, x2);
        let d1 = a.lane_data(o);
        let d2 = b.lane_data(o);
        assert forall|x: int| 0 <= x < d1.len() implies d1[x] == d2[x] by {
            let k = x1[x] as int;
            assert(x1[x] == a.indices[a.indptr[o] + x]);
            assert(0 <= k < a.inner());
            lemma_lane_lookup(x1, d1, x);
            lemma_lane_lookup(x2, d2, x);
            assert(has(a.lane_idx(o), k) == has(b.lane_idx(o), k));
            assert(a.at(o, k) == b.at(o, k));
            assert(a.at(o, k) == lane_val(x1, d1, k));
            assert(b.at(o, k) == lane_val(x2, d2, k));
        }
        assert(d1 =~= d2);
    }
    lemma_lanes_determine(a, b);
}

/// Converting a canonical matrix to the other layout and back gives the
/// matrix again, buffer for buffer.
pub proof fn lemma_round_trip(m: SpMat, r1: SpMat, r2: SpMat)
    requires
        m.wf(),
        m.canonical(),
        converted_from(m, r1),
        converted_from(r1, r2),
    ensures
        r2 == m,
{
    assert forall|o: int, i: int| 0 <= o < r2.outer() && 0 <= i < r2.inner() implies #[trigger] has(
        r2.lane_idx(o),
        i,
    ) == has(m.lane_idx(o), i) && r2.at(o, i) == m.at(o, i) by {
        assert(has(r2.lane_idx(o), i) == has(r1.lane_idx(i), o));
        assert(has(r1.lane_idx(i), o) == has(m.lane_idx(o), i));
        assert(r2.at(o, i) == r1.at(i, o));
    }
    lemma_canonical_determined(r2, m);
}

/// What summing duplicates guarantees of the matrix `b` made from `a`: the same
/// layout and shape, canonical lanes, the same value at every position, and no
/// change at all where `a` was canonical already.
pub open spec fn sums_duplicates_of(a: SpMat, b: SpMat) -> bool {
    &&& b.storage == a.storage
    &&& b.nrows == a.nrows
    &&& b.ncols == a.ncols
    &&& b.canonical()
    &&& forall|o: int, i: int| 0 <= o < a.outer() ==> wrap(#[trigger] b.at(o, i)) == wrap(a.at(o, i))
    &&& a.canonical() ==> b == a
}

/// Summing duplicates is idempotent: a second pass gives back what the first one gave.
pub proof fn lemma_sum_duplicates_idempotent(a: SpMat, b: SpMat, c: SpMat)
    requires
        sums_duplicates_of(a, b),
        sums_duplicates_of(b, c),
    ensures
        c == b,
{
}

/// The dense form of a matrix: row-major, `nrows` rows of `ncols` values.
pub open spec fn is_dense_of(m: SpMat, d: Seq<Vec<i64>>) -> bool {
    &&& d.len() == m.nrows
    &&& forall|r: int| 0 <= r < m.nrows ==> (#[trigger] d[r]).len() == m.ncols
    &&& forall|r: int, c: int|
        0 <= r < m.nrows && 0 <= c < m.ncols ==> (#[trigger] d[r][c]) == wrap(m.val(r, c))
}

/// A sparse matrix in compressed row (CSR) or compressed column (CSC) form.
pub struct CsMatBase {
    storage: CompressedStorage,
    nrows: usize,
    ncols: usize,
    indptr: Vec<usize>,
    indices: Vec<usize>,
    data: Vec<i64>,
}

/// The owned compressed matrix.
pub type CsMat = CsMatBase;

impl View for CsMatBase {
    type V = SpMat;

    closed spec fn view(&self) -> SpMat {
        SpMat {
            storage: self.storage,
            nrows: self.nrows as nat,
            ncols: self.ncols as nat,
            indptr: self.indptr@,
            indices: self.indices@,
            data: self.data@,
        }
    }
}

/// Checks the pointer array of a compressed structure.
fn check_pointers(indptr: &Vec<usize>, outer: usize, nnz: usize) -> (r: bool)
    ensures
        r == pointers_ok(indptr@, outer as nat, nnz as nat),
{
    if indptr.len() == 0 || indptr.len() - 1 != outer || indptr[0] != 0 || indptr[outer] != nnz {
        return false;
    }
    let mut k: usize = 0;
    while k < outer
        invariant
            k <= outer,
            indptr.len() == outer + 1,
            forall|a: int, b: int| 0 <= a <= b <= k ==> indptr@[a] <= indptr@[b],
        decreases outer - k,
    {
        if indptr[k] > indptr[k + 1] {
            return false;
        }
        k = k + 1;
    }
    true
}

/// A copy of `v[start..end]`.
fn copy_range<T: Copy>(v: &Vec<T>, start: usize, end: usize) -> (r: Vec<T>)
    requires
        start <= end <= v.len(),
    ensures
        r@ == v@.subrange(start as int, end as int),
{
    let mut r: Vec<T> = Vec::new();
    let mut p: usize = start;
    while p < end
        invariant
            start <= p <= end,
            end <= v.len(),
            r@ == v@.subrange(start as int, p as int),
        decreases end - p,
    {
        r.push(v[p]);
        proof {
            assert(r@ =~= v@.subrange(start as int, p + 1));
        }
        p = p + 1;
    }
    r
}

/// Merges neighbouring entries of a sorted lane that share an index, adding
/// their values. The result has strictly increasing indices and the same value
/// at every index; a lane without duplicates comes back as it was.
fn dedup_lane(li: &Vec<usize>, ld: &Vec<i64>) -> (r: (Vec<usize>, Vec<i64>))
    requires
        li.len() == ld.len(),
        sorted(li@),
    ensures
        r.0.len() == r.1.len(),
        r.0.len() <= li.len(),
        strictly_sorted(r.0@),
        forall|k: int| #[trigger] wrap(lane_val(r.0@, r.1@, k)) == wrap(lane_val(li@, ld@, k)),
        forall|b: int| bounded(li@, b) ==> bounded(r.0@, b),
        strictly_sorted(li@) ==> r.0@ == li@ && r.1@ == ld@,
{
    let n = li.len();
    let mut oi: Vec<usize> = Vec::new();
    let mut od: Vec<i64> = Vec::new();
    let mut p: usize = 0;
    proof {
        assert forall|k: int| #[trigger] wrap(lane_val(oi@, od@, k)) == wrap(lane_val(li@.take(0), ld@.take(0), k)) by {
        }
    }
    while p < n
        invariant
            p <= n,
            n == li.len(),
            n == ld.len(),
            sorted(li@),
            oi.len() == od.len(),
            oi.len() <= p,
            strictly_sorted(oi@),
            p > 0 ==> oi.len() > 0 && oi@[oi.len() - 1] == li@[p - 1],
            p == 0 ==> oi.len() == 0,
            forall|k: int| #[trigger] wrap(lane_val(oi@, od@, k)) == wrap(lane_val(li@.take(p as int), ld@.take(p as int), k)),
            forall|b: int| bounded(li@, b) ==> bounded(oi@, b),
            strictly_sorted(li@) ==> oi@ == li@.take(p as int) && od@ == ld@.take(p as int),
        decreases n - p,
    {
        let ghost oi0 = oi@;
        let ghost od0 = od@;
        let c = li[p];
        let d = ld[p];
        proof {
            assert(li@.take(p + 1) =~= li@.take(p as int).push(c));
            assert(ld@.take(p + 1) =~= ld@.take(p as int).push(d));
        }
        if oi.len() > 0 && oi[oi.len() - 1] == c {
            let last = oi.len() - 1;
            let x = ring_add(od[last], d);
            od.set(last, x);
            proof {
                assert(oi@ =~= oi@.take(last as int).push(c));
                assert(od@ =~= od0.take(last as int).push(x));
                assert(od0 =~= od0.take(last as int).push(od0[last as int]));
                if strictly_sorted(li@) {
                    assert(li@[p - 1] < li@[p as int]);
                }
                assert forall|k: int| #[trigger] wrap(lane_val(oi@, od@, k)) == wrap(lane_val(li@.take(p + 1), ld@.take(p + 1), k)) by {
                    let pre = lane_val(oi@.take(last as int), od0.take(last as int), k);
                    lemma_lane_push(oi@.take(last as int), od0.take(last as int), c, x, k);
                    lemma_lane_push(oi@.take(last as int), od0.take(last as int), c, od0[last as int], k);
                    lemma_lane_push(li@.take(p as int), ld@.take(p as int), c, d, k);
                    let lp = lane_val(li@.take(p as int), ld@.take(p as int), k);
                    if k == c {
                        lemma_wrap_inner(pre, od0[last as int] + d);
                        lemma_wrap_shift(pre + od0[last as int], lp, d as int);
                    }
                }
            }
        } else {
            oi.push(c);
            od.push(d);
            proof {
                if oi0.len() > 0 {
                    assert(oi0[oi0.len() - 1] <= c);
                }
                assert forall|k: int| #[trigger] wrap(lane_val(oi@, od@, k)) == wrap(lane_val(li@.take(p + 1), ld@.take(p + 1), k)) by {
                    lemma_lane_push(oi0, od0, c, d, k);
                    lemma_lane_push(li@.take(p as int), ld@.take(p as int), c, d, k);
                    let z = if c == k { d as int } else { 0 };
                    lemma_wrap_shift(lane_val(oi0, od0, k), lane_val(li@.take(p as int), ld@.take(p as int), k), z);
                }
            }
        }
        p = p + 1;
    }
    proof {
        assert(li@.take(n as int) =~= li@);
        assert(ld@.take(n as int) =~= ld@);
    }
    (oi, od)
}

impl CsMatBase {
    #[verifier::type_invariant]
    spec fn inv(&self) -> bool {
        self@.wf()
    }

    /// Builds a matrix from buffers already known to be well formed.
    pub(crate) fn from_parts(
        storage: CompressedStorage,
        nrows: usize,
        ncols: usize,
        indptr: Vec<usize>,
        indices: Vec<usize>,
        data: Vec<i64>,
    ) -> (r: CsMatBase)
        requires
            (SpMat {
                storage,
                nrows: nrows as nat,
                ncols: ncols as nat,
                indptr: indptr@,
                indices: indices@,
                data: data@,
            }).wf(),
        ensures
            r@ == (SpMat {
                storage,
                nrows: nrows as nat,
                ncols: ncols as nat,
                indptr: indptr@,
                indices: indices@,
                data: data@,
            }),
    {
        CsMatBase { storage, nrows, ncols, indptr, indices, data }
    }

    /// Builds a matrix from its buffers, checking the structural invariant.
    /// Sorted lanes are not required here: see `is_canonical` and `sum_duplicates`.
    pub fn new(
        storage: CompressedStorage,
        nrows: usize,
        ncols: usize,
        indptr: Vec<usize>,
        indices: Vec<usize>,
        data: Vec<i64>,
    ) -> (r: Result<CsMatBase, SprsError>)
        ensures
            ({
                let m = SpMat {
                    storage,
                    nrows: nrows as nat,
                    ncols: ncols as nat,
                    indptr: indptr@,
                    indices: indices@,
                    data: data@,
                };
                &&& r is Ok <==> m.wf()
                &&& r matches Ok(mat) ==> mat@ == m
                &&& !m.wf() ==> r == Err::<CsMatBase, SprsError>(SprsError::BadStructure)
            }),
    {
        let outer = if storage == CompressedStorage::CSR {
            nrows
        } else {
            ncols
        };
        let inner = if storage == CompressedStorage::CSR {
            ncols
        } else {
            nrows
        };
        if data.len() != indices.len() || !check_pointers(&indptr, outer, indices.len()) {
            return Err(SprsError::BadStructure);
        }
        let mut p: usize = 0;
        while p < indices.len()
            invariant
                p <= indices.len(),
                inner == (if storage == CompressedStorage::CSR {
                    ncols
                } else {
                    nrows
                }),
                forall|a: int| 0 <= a < p ==> indices@[a] < inner,
            decreases indices.len() - p,
        {
            if indices[p] >= inner {
                return Err(SprsError::BadStructure);
            }
            p = p + 1;
        }
        Ok(CsMatBase { storage, nrows, ncols, indptr, indices, data })
    }

    pub fn storage(&self) -> (r: CompressedStorage)
        ensures
            r == self@.storage,
    {
        self.storage
    }

    pub fn is_csr(&self) -> (r: bool)
        ensures
            r == (self@.storage == CompressedStorage::CSR),
    {
        self.storage == CompressedStorage::CSR
    }

    pub fn is_csc(&self) -> (r: bool)
        ensures
            r == (self@.storage == CompressedStorage::CSC),
    {
        self.storage == CompressedStorage::CSC
    }

    pub fn rows(&self) -> (r: usize)
        ensures
            r == self@.nrows,
    {
        self.nrows
    }

    pub fn cols(&self) -> (r: usize)
        ensures
            r == self@.ncols,
    {
        self.ncols
    }

    /// The number of lanes: rows for CSR, columns for CSC.
    pub fn outer_dims(&self) -> (r: usize)
        ensures
            r == self@.outer(),
    {
        if self.storage == CompressedStorage::CSR {
            self.nrows
        } else {
            self.ncols
        }
    }

    /// The length of a lane: columns for CSR, rows for CSC.
    pub fn inner_dims(&self) -> (r: usize)
        ensures
            r == self@.inner(),
    {
        if self.storage == CompressedStorage::CSR {
            self.ncols
        } else {
            self.nrows
        }
    }

    /// The number of stored entries.
    pub fn nnz(&self) -> (r: usize)
        ensures
            r == self@.indices.len(),
            self@.wf(),
    {
        proof {
            use_type_invariant(self);
        }
        self.indices.len()
    }

    pub fn indptr(&self) -> (r: &[usize])
        ensures
            r@ == self@.indptr,
            self@.wf(),
    {
        proof {
            use_type_invariant(self);
        }
        self.indptr.as_slice()
    }

    pub fn indices(&self) -> (r: &[usize])
        ensures
            r@ == self@.indices,
            self@.wf(),
    {
        proof {
            use_type_invariant(self);
        }
        self.indices.as_slice()
    }

    pub fn data(&self) -> (r: &[i64])
        ensures
            r@ == self@.data,
            self@.wf(),
    {
        proof {
            use_type_invariant(self);
        }
        self.data.as_slice()
    }

    /// Hands back the layout, shape and the three buffers.
    pub fn into_raw_storage(self) -> (r: (CompressedStorage, usize, usize, Vec<usize>, Vec<usize>, Vec<i64>))
        ensures
            self@.wf(),
            r.0 == self@.storage,
            r.1 == self@.nrows,
            r.2 == self@.ncols,
            r.3@ == self@.indptr,
            r.4@ == self@.indices,
            r.5@ == self@.data,
    {
        proof {
            use_type_invariant(&self);
        }
        (self.storage, self.nrows, self.ncols, self.indptr, self.indices, self.data)
    }

    /// Replaces every stored value `x` by `f(x)` in place; the structure is
    /// left untouched.
    pub fn map_inplace<F: Fn(i64) -> i64>(&mut self, f: F)
        requires
            forall|x: i64| #[trigger] f.requires((x,)),
        ensures
            final(self)@.storage == old(self)@.storage,
            final(self)@.nrows == old(self)@.nrows,
            final(self)@.ncols == old(self)@.ncols,
            final(self)@.indptr == old(self)@.indptr,
            final(self)@.indices == old(self)@.indices,
            final(self)@.data.len() == old(self)@.data.len(),
            forall|p: int|
                0 <= p < old(self)@.data.len() ==> f.ensures((old(self)@.data[p],), #[trigger] final(self)@.data[p]),
    {
        proof {
            use_type_invariant(&*self);
        }
        let n = self.data.len();
        let mut data: Vec<i64> = Vec::new();
        let mut p: usize = 0;
        while p < n
            invariant
                p <= n,
                n == self.data.len(),
                data.len() == p,
                forall|x: i64| #[trigger] f.requires((x,)),
                forall|a: int| 0 <= a < p ==> f.ensures((self.data@[a],), #[trigger] data@[a]),
            decreases n - p,
        {
            let y = f(self.data[p]);
            data.push(y);
            p = p + 1;
        }
        *self = CsMatBase {
            storage: self.storage,
            nrows: self.nrows,
            ncols: self.ncols,
            indptr: self.indptr.clone(),
            indices: self.indices.clone(),
            data,
        };
    }

    /// Whether every lane is sorted and free of duplicates.
    pub fn is_canonical(&self) -> (r: bool)
        ensures
            r == self@.canonical(),
    {
        proof {
            use_type_invariant(self);
        }
        let outer = self.outer_dims();
        let mut o: usize = 0;
        while o < outer
            invariant
                o <= outer,
                outer == self@.outer(),
                self@.wf(),
                forall|q: int| 0 <= q < o ==> strictly_sorted(#[trigger] self@.lane_idx(q)),
            decreases outer - o,
        {
            let start = self.indptr[o];
            let end = self.indptr[o + 1];
            proof {
                assert(self@.indptr[o as int] <= self@.indptr[o + 1]);
            }
            let ghost l = self@.lane_idx(o as int);
            if start < end {
                let mut p: usize = start;
                while p + 1 < end
                    invariant
                        start <= p < end,
                        end <= self.indices.len(),
                        l == self.indices@.subrange(start as int, end as int),
                        l == self@.lane_idx(o as int),
                        o < self@.outer(),
                        forall|a: int, b: int| 0 <= a < b <= p - start ==> l[a] < l[b],
                    decreases end - p,
                {
                    if self.indices[p] >= self.indices[p + 1] {
                        proof {
                            assert(l[p - start] == self.indices@[p as int]);
                            assert(l[p + 1 - start] == self.indices@[p + 1]);
                            assert(!strictly_sorted(self@.lane_idx(o as int)));
                        }
                        return false;
                    }
                    proof {
                        assert(l[p - start] == self.indices@[p as int]);
                        assert(l[p + 1 - start] == self.indices@[p + 1]);
                    }
                    p = p + 1;
                }
            }
            o = o + 1;
        }
        true
    }

    /// The same matrix read with rows and columns exchanged, over the same
    /// buffers: a CSR matrix becomes the CSC form of its transpose and back.
    /// No entry moves.
    pub fn transpose_view(self) -> (r: CsMatBase)
        ensures
            r@.storage == self@.storage.flip(),
            r@.nrows == self@.ncols,
            r@.ncols == self@.nrows,
            r@.indptr == self@.indptr,
            r@.indices == self@.indices,
            r@.data == self@.data,
            forall|i: int, j: int| #[trigger] r@.val(i, j) == self@.val(j, i),
    {
        proof {
            use_type_invariant(&self);
        }
        let CsMatBase { storage, nrows, ncols, indptr, indices, data } = self;
        CsMatBase {
            storage: storage.other_storage(),
            nrows: ncols,
            ncols: nrows,
            indptr,
            indices,
            data,
        }
    }

    /// Sorts every lane and merges entries that share an index by adding
    /// their values, so that the matrix becomes canonical. The value at every
    /// position is kept; a canonical matrix is left as it is.
    pub fn sum_duplicates(&mut self)
        ensures
            sums_duplicates_of(old(self)@, final(self)@),
    {
        proof {
            use_type_invariant(&*self);
        }
        let ghost m = self@;
        let outer = self.outer_dims();
        let inner = self.inner_dims();
        let mut ip: Vec<usize> = Vec::new();
        ip.push(0);
        let mut ni: Vec<usize> = Vec::new();
        let mut nd: Vec<i64> = Vec::new();
        let mut buf: Vec<(usize, i64)> = Vec::new();
        let mut o: usize = 0;
        while o < outer
            invariant
                o <= outer,
                outer == m.outer(),
                inner == m.inner(),
                m.wf(),
                m == self@,
                ip.len() == o + 1,
                ip@[0] == 0,
                ip@[o as int] == ni.len(),
                ni.len() == nd.len(),
                ni.len() <= m.indptr[o as int],
                forall|a: int, b: int| 0 <= a <= b <= o ==> ip@[a] <= ip@[b],
                bounded(ni@, inner as int),
                forall|q: int| 0 <= q < o ==> strictly_sorted(#[trigger] seg(ip@, ni@, q)),
                forall|q: int, i: int|
                    0 <= q < o ==> wrap(#[trigger] lane_val(seg(ip@, ni@, q), seg(ip@, nd@, q), i))
                        == wrap(m.at(q, i)),
                m.canonical() ==> ip@ == m.indptr.take(o + 1) && ni@ == m.indices.take(
                    m.indptr[o as int] as int,
                ) && nd@ == m.data.take(m.indptr[o as int] as int),
            decreases outer - o,
        {
            let start = self.indptr[o];
            let end = self.indptr[o + 1];
            proof {
                assert(m.indptr[o as int] <= m.indptr[o + 1] <= m.indptr[outer as int]);
            }
            let mut li = copy_range(&self.indices, start, end);
            let mut ld = copy_range(&self.data, start, end);
            let ghost lane_i = li@;
            let ghost lane_d = ld@;
            proof {
                assert(bounded(lane_i, inner as int));
            }
            sort_indices_data_slices(&mut li, &mut ld, &mut buf);
            let (mut di, mut dd) = dedup_lane(&li, &ld);
            let ghost ip0 = ip@;
            let ghost ni0 = ni@;
            let ghost nd0 = nd@;
            let ghost ti = di@;
            let ghost td = dd@;
            ni.append(&mut di);
            nd.append(&mut dd);
            proof {
                assert(ni.len() <= m.indptr[o + 1]);
            }
            ip.push(ni.len());
            proof {
                lemma_seg_append(ip0, ni0, ti, o as int);
                lemma_seg_append(ip0, nd0, td, o as int);
                assert(ip@ == ip0.push((ni0.len() + ti.len()) as usize));
                assert forall|q: int, i: int|
                    0 <= q < o + 1 implies wrap(#[trigger] lane_val(seg(ip@, ni@, q), seg(ip@, nd@, q), i))
                        == wrap(m.at(q, i)) by {
                    if q == o {
                        assert(lane_i == m.lane_idx(q));
                    }
                }
                if m.canonical() {
                    assert(strictly_sorted(m.lane_idx(o as int)));
                    assert(ip@ =~= m.indptr.take(o + 2));
                    assert(ni@ =~= m.indices.take(m.indptr[o + 1] as int));
                    assert(nd@ =~= m.data.take(m.indptr[o + 1] as int));
                }
            }
            o = o + 1;
        }
        proof {
            if m.canonical() {
                assert(ip@ =~= m.indptr);
                assert(ni@ =~= m.indices);
                assert(nd@ =~= m.data);
            }
        }
        *self = CsMatBase {
            storage: self.storage,
            nrows: self.nrows,
            ncols: self.ncols,
            indptr: ip,
            indices: ni,
            data: nd,
        };
    }

    /// A copy of lane `o` (row `o` of a CSR matrix, column `o` of a CSC one) as
    /// a sparse vector over the inner dimension; `None` past the last lane.
    pub fn outer_view(&self, o: usize) -> (r: Option<CsVecBase>)
        ensures
            o >= self@.outer() <==> r is None,
            r matches Some(v) ==> v@.dim == self@.inner() && v@.indices == self@.lane_idx(o as int)
                && v@.data == self@.lane_data(o as int),
    {
        proof {
            use_type_invariant(self);
        }
        if o >= self.outer_dims() {
            return None;
        }
        let start = self.indptr[o];
        let end = self.indptr[o + 1];
        proof {
            assert(self@.indptr[o as int] <= self@.indptr[o + 1] <= self@.indptr[self@.outer() as int]);
        }
        let li = copy_range(&self.indices, start, end);
        let ld = copy_range(&self.data, start, end);
        proof {
            assert(bounded(li@, self@.inner() as int));
        }
        match CsVecBase::new(self.inner_dims(), li, ld) {
            Ok(v) => Some(v),
            Err(_) => None,
        }
    }

    /// The dense form, row-major: unlisted positions hold zero.
    pub fn to_dense(&self) -> (r: Vec<Vec<i64>>)
        ensures
            is_dense_of(self@, r@),
    {
        proof {
            use_type_invariant(self);
        }
        let outer = self.outer_dims();
        let inner = self.inner_dims();
        let mut lanes: Vec<Vec<i64>> = Vec::new();
        let mut o: usize = 0;
        while o < outer
            invariant
                o <= outer,
                outer == self@.outer(),
                inner == self@.inner(),
                lanes.len() == o,
                forall|q: int| 0 <= q < o ==> (#[trigger] lanes@[q]).len() == inner,
                forall|q: int, i: int|
                    0 <= q < o && 0 <= i < inner ==> (#[trigger] lanes@[q][i]) == wrap(self@.at(q, i)),
            decreases outer - o,
        {
            let v = self.outer_view(o);
            match v {
                Some(v) => {
                    let d = v.to_dense();
                    proof {
                        assert forall|i: int| 0 <= i < inner implies d@[i] == wrap(self@.at(o as int, i)) by {
                            assert(d@[i] == wrap(v@.val(i)));
                        }
                    }
                    lanes.push(d);
                    proof {
                        assert(lanes@[o as int] == d);
                    }
                },
                None => {},
            }
            o = o + 1;
        }
        if self.storage == CompressedStorage::CSR {
            return lanes;
        }
        let nrows = self.nrows;
        let ncols = self.ncols;
        let mut rows: Vec<Vec<i64>> = Vec::new();
        let mut r: usize = 0;
        while r < nrows
            invariant
                r <= nrows,
                nrows == self@.nrows,
                ncols == self@.ncols,
                self@.storage == CompressedStorage::CSC,
                outer == ncols,
                inner == nrows,
                lanes.len() == outer,
                forall|q: int| 0 <= q < outer ==> (#[trigger] lanes@[q]).len() == inner,
                forall|q: int, i: int|
                    0 <= q < outer && 0 <= i < inner ==> (#[trigger] lanes@[q][i]) == wrap(self@.at(q, i)),
                rows.len() == r,
                forall|a: int| 0 <= a < r ==> (#[trigger] rows@[a]).len() == ncols,
                forall|a: int, c: int|
                    0 <= a < r && 0 <= c < ncols ==> (#[trigger] rows@[a][c]) == wrap(self@.val(a, c)),
            decreases nrows - r,
        {
            let mut row: Vec<i64> = Vec::new();
            let mut c: usize = 0;
            while c < ncols
                invariant
                    c <= ncols,
                    r < nrows,
                    nrows == self@.nrows,
                    ncols == self@.ncols,
                    self@.storage == CompressedStorage::CSC,
                    outer == ncols,
                    inner == nrows,
                    lanes.len() == outer,
                    forall|q: int| 0 <= q < outer ==> (#[trigger] lanes@[q]).len() == inner,
                    forall|q: int, i: int|
                        0 <= q < outer && 0 <= i < inner ==> (#[trigger] lanes@[q][i]) == wrap(self@.at(q, i)),
                    row.len() == c,
                    forall|b: int| 0 <= b < c ==> row@[b] == wrap(self@.val(r as int, b)),
                decreases ncols - c,
            {
                row.push(lanes[c][r]);
                c = c + 1;
            }
            rows.push(row);
            r = r + 1;
        }
        rows
    }

    /// The same matrix in the other layout: CSR becomes CSC and back. Entries
    /// are moved so that lane `j` of the result lists, by increasing position,
    /// the entries of inner position `j`; a canonical matrix gives a canonical
    /// result.
    pub fn to_other_storage(&self) -> (r: CsMatBase)
        ensures
            r@.storage == self@.storage.flip(),
            r@.nrows == self@.nrows,
            r@.ncols == self@.ncols,
            forall|o: int, i: int|
                0 <= o < r@.outer() && 0 <= i < r@.inner() ==> #[trigger] r@.at(o, i) == self@.at(i, o),
            forall|rr: int, c: int| 0 <= rr < r@.nrows && 0 <= c < r@.ncols ==> #[trigger] r@.val(rr, c) == self@.val(rr, c),
            self@.canonical() ==> r@.canonical(),
            converted_from(self@, r@),
    {
        proof {
            use_type_invariant(self);
        }
        let ghost m = self@;
        let ghost idx = m.indices;
        let n_out = self.outer_dims();
        let n_in = self.inner_dims();
        let nnz = self.indices.len();
        let mut out_i: Vec<usize> = Vec::new();
        let mut out_d: Vec<i64> = Vec::new();
        let mut k: usize = 0;
        while k < nnz
            invariant
                k <= nnz,
                out_i.len() == k,
                out_d.len() == k,
            decreases nnz - k,
        {
            out_i.push(0);
            out_d.push(0);
            k = k + 1;
        }
        // How many entries each new lane receives.
        let mut counts: Vec<usize> = Vec::new();
        let mut k: usize = 0;
        while k < n_in
            invariant
                k <= n_in,
                counts.len() == k,
                forall|a: int| 0 <= a < k ==> counts@[a] == 0,
            decreases n_in - k,
        {
            counts.push(0);
            k = k + 1;
        }
        let mut p: usize = 0;
        while p < nnz
            invariant
                p <= nnz,
                nnz == idx.len(),
                idx == self.indices@,
                m == self@,
                idx == m.indices,
                m.wf(),
                n_in == m.inner(),
                counts.len() == n_in,
                out_i.len() == nnz,
                out_d.len() == nnz,
                forall|j: int| 0 <= j < n_in ==> #[trigger] counts@[j] == cnt(idx.take(p as int), j),
            decreases nnz - p,
        {
            let j = self.indices[p];
            proof {
                assert forall|x: int| 0 <= x < n_in implies #[trigger] cnt(idx.take(p + 1), x) == cnt(
                    idx.take(p as int),
                    x,
                ) + (if idx[p as int] == x {
                    1nat
                } else {
                    0nat
                }) by {
                    lemma_cnt_step(idx, p as int, x);
                }
                lemma_cnt_len(idx.take(p + 1), j as int);
                assert(j < n_in);
                assert(counts@[j as int] == cnt(idx.take(p as int), j as int));
            }
            counts.set(j, counts[j] + 1);
            p = p + 1;
        }
        proof {
            assert(idx.take(nnz as int) =~= idx);
        }
        // Where each new lane starts.
        let ghost f = |x: int| cnt(idx, x) as int;
        proof {
            lemma_cnt_total(idx, n_in as nat);
        }
        let mut ip: Vec<usize> = Vec::new();
        ip.push(0);
        let mut cursor: Vec<usize> = Vec::new();
        let mut j: usize = 0;
        while j < n_in
            invariant
                j <= n_in,
                ip.len() == j + 1,
                cursor.len() == j,
                forall|x: int| 0 <= x < j ==> cursor@[x] == ip@[x],
                out_i.len() == nnz,
                out_d.len() == nnz,
                nnz == idx.len(),
                counts.len() == n_in,
                forall|x: int| #[trigger] f(x) == cnt(idx, x) as int,
                forall|x: int| 0 <= x < n_in ==> #[trigger] counts@[x] == f(x),
                forall|x: int| 0 <= x <= j ==> #[trigger] ip@[x] == range_sum(f, x as nat),
                range_sum(f, n_in as nat) == nnz,
            decreases n_in - j,
        {
            proof {
                lemma_range_sum_mono(f, (j + 1) as nat, n_in as nat);
            }
            cursor.push(ip[j]);
            let next = ip[j] + counts[j];
            ip.push(next);
            j = j + 1;
        }
        // Scatter the entries, in order, to the next free slot of their new lane.
        proof {
            assert forall|a: int, b: int| 0 <= a <= b <= n_in implies ip@[a] <= ip@[b] by {
                lemma_range_sum_mono(f, a as nat, b as nat);
            }
            assert forall|x: int| 0 <= x < n_in implies #[trigger] ip@[x + 1] == ip@[x] + cnt(idx, x) by {
                assert(ip@[x + 1] == range_sum(f, (x + 1) as nat));
                assert(ip@[x] == range_sum(f, x as nat));
            }
            assert(ip@[n_in as int] == range_sum(f, n_in as nat));
        }
        let ghost mut gi: Seq<Seq<usize>> = Seq::new(n_in as nat, |x: int| Seq::<usize>::empty());
        let ghost mut gd: Seq<Seq<i64>> = Seq::new(n_in as nat, |x: int| Seq::<i64>::empty());
        proof {
            assert forall|x: int| 0 <= x < n_in implies #[trigger] gi[x].len() == cnt(idx.take(0), x) by {
                assert(idx.take(0).len() == 0);
            }
            assert forall|x: int| 0 <= x < n_in implies #[trigger] out_i@.subrange(
                ip@[x] as int,
                cursor@[x] as int,
            ) == gi[x] && out_d@.subrange(ip@[x] as int, cursor@[x] as int) == gd[x] by {
                assert(out_i@.subrange(ip@[x] as int, cursor@[x] as int) =~= gi[x]);
                assert(out_d@.subrange(ip@[x] as int, cursor@[x] as int) =~= gd[x]);
            }
            assert forall|x: int, i: int| 0 <= x < n_in implies #[trigger] lane_val(gi[x], gd[x], i) == 0 by {
            }
            assert forall|x: int, i: int| 0 <= x < n_in implies !(#[trigger] has(gi[x], i)) by {
            }
        }
        let mut o: usize = 0;
        let mut p: usize = 0;
        while o < n_out
            invariant
                o <= n_out,
                m == self@,
                m.wf(),
                n_out == m.outer(),
                n_in == m.inner(),
                nnz == idx.len(),
                idx == m.indices,
                p == m.indptr[o as int],
                ip.len() == n_in + 1,
                cursor.len() == n_in,
                out_i.len() == nnz,
                out_d.len() == nnz,
                gi.len() == n_in,
                gd.len() == n_in,
                ip@[0] == 0,
                ip@[n_in as int] == nnz,
                forall|x: int| 0 <= x < n_in ==> #[trigger] ip@[x + 1] == ip@[x] + cnt(idx, x),
                forall|a: int, b: int| 0 <= a <= b <= n_in ==> ip@[a] <= ip@[b],
                forall|x: int|
                    0 <= x < n_in ==> #[trigger] gi[x].len() == cnt(idx.take(p as int), x)
                        && gd[x].len() == gi[x].len() && cursor@[x] == ip@[x] + gi[x].len(),
                forall|x: int|
                    0 <= x < n_in ==> #[trigger] out_i@.subrange(ip@[x] as int, cursor@[x] as int)
                        == gi[x] && out_d@.subrange(ip@[x] as int, cursor@[x] as int) == gd[x],
                forall|x: int, i: int|
                    0 <= x < n_in ==> #[trigger] lane_val(gi[x], gd[x], i) == (if 0 <= i < o {
                        m.at(i, x)
                    } else {
                        0
                    }),
                forall|x: int, i: int|
                    0 <= x < n_in ==> #[trigger] has(gi[x], i) == (0 <= i < o && has(m.lane_idx(i), x)),
                forall|x: int| 0 <= x < n_in ==> bounded(#[trigger] gi[x], o as int),
                m.canonical() ==> forall|x: int| 0 <= x < n_in ==> strictly_sorted(#[trigger] gi[x]),
            decreases n_out - o,
        {
            let end = self.indptr[o + 1];
            let ghost start = p as int;
            let ghost lane_i = m.lane_idx(o as int);
            let ghost lane_d = m.lane_data(o as int);
            proof {
                assert(m.indptr[o as int] <= m.indptr[o + 1] <= m.indptr[n_out as int]);
            }
            while p < end
                invariant
                    start <= p <= end,
                    end <= nnz,
                    start == m.indptr[o as int],
                    end == m.indptr[o + 1],
                    o < n_out,
                    m == self@,
                    m.wf(),
                    n_out == m.outer(),
                    n_in == m.inner(),
                    nnz == idx.len(),
                    idx == m.indices,
                    lane_i == m.lane_idx(o as int),
                    lane_d == m.lane_data(o as int),
                    lane_i.len() == end - start,
                    lane_d.len() == end - start,
                    ip.len() == n_in + 1,
                    cursor.len() == n_in,
                    out_i.len() == nnz,
                    out_d.len() == nnz,
                    gi.len() == n_in,
                    gd.len() == n_in,
                    ip@[0] == 0,
                    ip@[n_in as int] == nnz,
                    forall|x: int| 0 <= x < n_in ==> #[trigger] ip@[x + 1] == ip@[x] + cnt(idx, x),
                    forall|a: int, b: int| 0 <= a <= b <= n_in ==> ip@[a] <= ip@[b],
                    forall|x: int|
                        0 <= x < n_in ==> #[trigger] gi[x].len() == cnt(idx.take(p as int), x)
                            && gd[x].len() == gi[x].len() && cursor@[x] == ip@[x] + gi[x].len(),
                    forall|x: int|
                        0 <= x < n_in ==> #[trigger] out_i@.subrange(ip@[x] as int, cursor@[x] as int)
                            == gi[x] && out_d@.subrange(ip@[x] as int, cursor@[x] as int) == gd[x],
                    forall|x: int, i: int|
                        0 <= x < n_in ==> #[trigger] lane_val(gi[x], gd[x], i) == (if 0 <= i < o {
                            m.at(i, x)
                        } else if i == o {
                            lane_val(lane_i.take(p - start), lane_d.take(p - start), x)
                        } else {
                            0
                        }),
                    forall|x: int, i: int|
                        0 <= x < n_in ==> #[trigger] has(gi[x], i) == ((0 <= i < o && has(
                            m.lane_idx(i),
                            x,
                        )) || (i == o && has(lane_i.take(p - start), x))),
                    forall|x: int| 0 <= x < n_in ==> bounded(#[trigger] gi[x], o + 1),
                    m.canonical() ==> forall|x: int|
                        0 <= x < n_in ==> strictly_sorted(#[trigger] gi[x]),
                    m.canonical() ==> forall|x: int, a: int|
                        0 <= x < n_in && 0 <= a < gi[x].len() ==> (#[trigger] gi[x][a] < o || (
                        gi[x][a] == o && forall|b: int| p <= b < end ==> idx[b] > x)),
                decreases end - p,
            {
                let jj = self.indices[p];
                let x0 = self.data[p];
                let pos = cursor[jj];
                let ghost kk = p - start;
                let ghost cur0 = cursor@;
                let ghost oi0 = out_i@;
                let ghost od0 = out_d@;
                let ghost gi0 = gi;
                let ghost gd0 = gd;
                proof {
                    assert(lane_i.take(kk + 1) =~= lane_i.take(kk).push(jj));
                    assert(lane_d.take(kk + 1) =~= lane_d.take(kk).push(x0));
                    assert(lane_i[kk] == jj);
                    lemma_cnt_step(idx, p as int, jj as int);
                    lemma_cnt_prefix(idx, p + 1, jj as int);
                    assert(jj < n_in);
                    assert(gi[jj as int].len() == cnt(idx.take(p as int), jj as int));
                    assert(ip@[jj + 1] == ip@[jj as int] + cnt(idx, jj as int));
                    assert(pos < ip@[jj + 1]);
                    assert(ip@[jj + 1] <= ip@[n_in as int]);
                }
                out_i.set(pos, o);
                out_d.set(pos, x0);
                cursor.set(jj, pos + 1);
                proof {
                    gi = gi.update(jj as int, gi0[jj as int].push(o));
                    gd = gd.update(jj as int, gd0[jj as int].push(x0));
                    assert forall|x: int| 0 <= x < n_in implies #[trigger] gi[x].len() == cnt(
                        idx.take(p + 1),
                        x,
                    ) && gd[x].len() == gi[x].len() && cursor@[x] == ip@[x] + gi[x].len() by {
                        lemma_cnt_step(idx, p as int, x);
                    }
                    assert forall|x: int| 0 <= x < n_in implies #[trigger] out_i@.subrange(
                        ip@[x] as int,
                        cursor@[x] as int,
                    ) == gi[x] && out_d@.subrange(ip@[x] as int, cursor@[x] as int) == gd[x] by {
                        if x == jj {
                            assert(oi0.subrange(ip@[x] as int, cur0[x] as int) == gi0[x]);
                            assert(od0.subrange(ip@[x] as int, cur0[x] as int) == gd0[x]);
                            assert(out_i@.subrange(ip@[x] as int, cursor@[x] as int) =~= oi0.subrange(
                                ip@[x] as int,
                                cur0[x] as int,
                            ).push(o));
                            assert(out_d@.subrange(ip@[x] as int, cursor@[x] as int) =~= od0.subrange(
                                ip@[x] as int,
                                cur0[x] as int,
                            ).push(x0));
                        } else {
                            lemma_cnt_prefix(idx, p as int, x);
                            assert(gi0[x].len() == cnt(idx.take(p as int), x));
                            assert(ip@[x + 1] == ip@[x] + cnt(idx, x));
                            assert(ip@[x + 1] <= ip@[n_in as int]);
                            assert(oi0.subrange(ip@[x] as int, cur0[x] as int) == gi0[x]);
                            assert(od0.subrange(ip@[x] as int, cur0[x] as int) == gd0[x]);
                            if x < jj {
                                assert(ip@[x + 1] <= ip@[jj as int]);
                            } else {
                                assert(ip@[jj + 1] <= ip@[x]);
                            }
                            assert(out_i@.subrange(ip@[x] as int, cursor@[x] as int) =~= oi0.subrange(
                                ip@[x] as int,
                                cur0[x] as int,
                            ));
                            assert(out_d@.subrange(ip@[x] as int, cursor@[x] as int) =~= od0.subrange(
                                ip@[x] as int,
                                cur0[x] as int,
                            ));
                        }
                    }
                    assert forall|x: int, i: int| 0 <= x < n_in implies #[trigger] lane_val(gi[x], gd[x], i) == (
                    if 0 <= i < o {
                        m.at(i, x)
                    } else if i == o {
                        lane_val(lane_i.take(kk + 1), lane_d.take(kk + 1), x)
                    } else {
                        0
                    }) by {
                        lemma_lane_push(lane_i.take(kk), lane_d.take(kk), jj, x0, x);
                        if x == jj {
                            lemma_lane_push(gi0[x], gd0[x], o, x0, i);
                        }
                    }
                    assert forall|x: int, i: int| 0 <= x < n_in implies #[trigger] has(gi[x], i) == ((0 <= i
                        < o && has(m.lane_idx(i), x)) || (i == o && has(lane_i.take(kk + 1), x))) by {
                        lemma_has_push(lane_i.take(kk), jj, x);
                        if x == jj {
                            lemma_has_push(gi0[x], o, i);
                        }
                    }
                    if m.canonical() {
                        assert(strictly_sorted(m.lane_idx(o as int)));
                        assert forall|x: int| 0 <= x < n_in implies strictly_sorted(#[trigger] gi[x]) by {
                            if x == jj && gi0[x].len() > 0 {
                                let l = gi0[x].len() - 1;
                                assert(gi0[x][l] < o || (gi0[x][l] == o && idx[p as int] > x));
                            }
                        }
                        assert forall|x: int, a: int|
                            0 <= x < n_in && 0 <= a < gi[x].len() implies (#[trigger] gi[x][a] < o || (
                            gi[x][a] == o && forall|b: int| p + 1 <= b < end ==> idx[b] > x)) by {
                            if x == jj && a == gi0[x].len() {
                                assert forall|b: int| p + 1 <= b < end implies idx[b] > x by {
                                    assert(lane_i[kk] < lane_i[b - start]);
                                }
                            }
                        }
                    }
                }
                p = p + 1;
            }
            proof {
                assert(lane_i.take(end - start) =~= lane_i);
                assert(lane_d.take(end - start) =~= lane_d);
            }
            o = o + 1;
        }
        proof {
            assert(idx.take(nnz as int) =~= idx);
            assert forall|x: int| 0 <= x < n_in implies #[trigger] seg(ip@, out_i@, x) == gi[x] && seg(
                ip@,
                out_d@,
                x,
            ) == gd[x] by {
                assert(p == nnz);
                assert(gi[x].len() == cnt(idx.take(p as int), x));
                assert(ip@[x + 1] == ip@[x] + cnt(idx, x));
                assert(cursor@[x] == ip@[x + 1]);
            }
            assert forall|q: int| 0 <= q < nnz implies out_i@[q] < n_out by {
                let x = lemma_lane_of(ip@, n_in as int, q);
                assert(seg(ip@, out_i@, x)[q - ip@[x]] == out_i@[q]);
            }
        }
        CsMatBase::from_parts(self.storage.other_storage(), self.nrows, self.ncols, ip, out_i, out_d)
    }
}

} // verus!
