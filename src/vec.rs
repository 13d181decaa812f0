use vstd::prelude::*;
use crate::errors::SprsError;
use crate::lane::{
    bounded, lane_val, lemma_lane_absent, lemma_lane_lookup, lemma_lane_push,
    lemma_range_sum_ext, lemma_range_sum_wrap, lemma_weighted_dense, lemma_weighted_push,
    range_sum, strictly_sorted, weighted,
};
use crate::ring::{ring_add, ring_mul, wrap, lemma_wrap_inner, lemma_wrap_id, lemma_wrap_mul};
use crate::utils::{distinct, pairs, sort_indices_data_slices, with_index};

verus! {

/// The mathematical content of a sparse vector.
pub ghost struct SpVec {
    pub dim: nat,
    pub indices: Seq<usize>,
    pub data: Seq<i64>,
}

impl SpVec {
    /// Indices and values are aligned and every index lies in `[0, dim)`.
    pub open spec fn wf(self) -> bool {
        self.indices.len() == self.data.len() && bounded(self.indices, self.dim as int)
    }

    /// Sorted, duplicate-free indices.
    pub open spec fn canonical(self) -> bool {
        strictly_sorted(self.indices)
    }

    /// The exact value at index `k`: the sum of the entries stored there.
    pub open spec fn val(self, k: int) -> int {
        lane_val(self.indices, self.data, k)
    }

    /// The exact dense inner product over `[0, dim)`.
    pub open spec fn dense_dot(self, other: SpVec) -> int {
        range_sum(|k: int| self.val(k) * other.val(k), self.dim)
    }
}

/// A sparse vector: its nonzero entries as increasing indices with their values.
pub struct CsVecBase {
    dim: usize,
    indices: Vec<usize>,
    data: Vec<i64>,
}

/// The owned sparse vector.
pub type CsVec = CsVecBase;

impl View for CsVecBase {
    type V = SpVec;

    closed spec fn view(&self) -> SpVec {
        SpVec { dim: self.dim as nat, indices: self.indices@, data: self.data@ }
    }
}

impl CsVecBase {
    #[verifier::type_invariant]
    spec fn inv(&self) -> bool {
        self@.wf()
    }

    /// Builds a vector from its parts. Sortedness is not required here: see
    /// `is_canonical` and `sort_in_place`.
    pub fn new(dim: usize, indices: Vec<usize>, data: Vec<i64>) -> (r: Result<CsVecBase, SprsError>)
        ensures
            indices.len() != data.len() <==> r == Err::<CsVecBase, SprsError>(
                SprsError::DimensionMismatch,
            ),
            indices.len() == data.len() && !bounded(indices@, dim as int) <==> r == Err::<
                CsVecBase,
                SprsError,
            >(SprsError::OutOfBounds),
            r is Ok <==> indices.len() == data.len() && bounded(indices@, dim as int),
            r matches Ok(v) ==> v@ == (SpVec { dim: dim as nat, indices: indices@, data: data@ }),
    {
        if indices.len() != data.len() {
            return Err(SprsError::DimensionMismatch);
        }
        let mut i: usize = 0;
        while i < indices.len()
            invariant
                i <= indices.len(),
                indices.len() == data.len(),
                forall|a: int| 0 <= a < i ==> indices@[a] < dim,
            decreases indices.len() - i,
        {
            if indices[i] >= dim {
                return Err(SprsError::OutOfBounds);
            }
            i = i + 1;
        }
        Ok(CsVecBase { dim, indices, data })
    }

    /// The logical length.
    pub fn dim(&self) -> (r: usize)
        ensures
            r == self@.dim,
    {
        self.dim
    }

    /// The number of stored entries.
    pub fn nnz(&self) -> (r: usize)
        ensures
            r == self@.indices.len(),
    {
        proof {
            use_type_invariant(self);
        }
        self.indices.len()
    }

    /// The stored indices.
    pub fn indices(&self) -> (r: &[usize])
        ensures
            r@ == self@.indices,
            self@.wf(),
    {
        proof {
            use_type_invariant(self);
        }
        self.indices.as_slice()
    }

    /// The stored values.
    pub fn data(&self) -> (r: &[i64])
        ensures
            r@ == self@.data,
            self@.wf(),
    {
        proof {
            use_type_invariant(self);
        }
        self.data.as_slice()
    }

    /// Hands back the dimension, indices and values.
    pub fn into_raw_storage(self) -> (r: (usize, Vec<usize>, Vec<i64>))
        ensures
            r.0 == self@.dim,
            r.1@ == self@.indices,
            r.2@ == self@.data,
            self@.wf(),
    {
        proof {
            use_type_invariant(&self);
        }
        (self.dim, self.indices, self.data)
    }

    /// Whether the indices are strictly increasing.
    pub fn is_canonical(&self) -> (r: bool)
        ensures
            r == self@.canonical(),
    {
        let n = self.indices.len();
        if n == 0 {
            return true;
        }
        let mut i: usize = 1;
        while i < n
            invariant
                1 <= i <= n,
                n == self.indices.len(),
                forall|a: int, b: int| 0 <= a < b < i ==> self.indices@[a] < self.indices@[b],
            decreases n - i,
        {
            if self.indices[i - 1] >= self.indices[i] {
                return false;
            }
            i = i + 1;
        }
        true
    }

    /// Sorts the entries by index, stably: the entries of one index keep their
    /// order. The value at every index is kept, and a vector without repeated
    /// indices becomes canonical. `buf` is scratch space, left holding the
    /// sorted entries.
    pub fn sort_in_place(&mut self, buf: &mut Vec<(usize, i64)>)
        ensures
            final(self)@.dim == old(self)@.dim,
            crate::lane::sorted(final(self)@.indices),
            forall|k: int| #[trigger] final(self)@.val(k) == old(self)@.val(k),
            pairs(final(self)@.indices, final(self)@.data).to_multiset() == pairs(
                old(self)@.indices,
                old(self)@.data,
            ).to_multiset(),
            forall|k: usize| #[trigger]
                with_index(pairs(final(self)@.indices, final(self)@.data), k) == with_index(
                    pairs(old(self)@.indices, old(self)@.data),
                    k,
                ),
            distinct(old(self)@.indices) ==> final(self)@.canonical(),
            final(buf)@ == pairs(final(self)@.indices, final(self)@.data),
    {
        proof {
            use_type_invariant(&*self);
        }
        let mut indices = self.indices.clone();
        let mut data = self.data.clone();
        sort_indices_data_slices(&mut indices, &mut data, buf);
        *self = CsVecBase { dim: self.dim, indices, data };
    }

    /// A vector with the same indices whose values are `f` of the stored ones.
    pub fn map<F: Fn(i64) -> i64>(&self, f: F) -> (r: CsVecBase)
        requires
            forall|x: i64| #[trigger] f.requires((x,)),
        ensures
            r@.dim == self@.dim,
            r@.indices == self@.indices,
            r@.data.len() == self@.data.len(),
            forall|p: int| 0 <= p < r@.data.len() ==> f.ensures((self@.data[p],), #[trigger] r@.data[p]),
    {
        proof {
            use_type_invariant(self);
        }
        let n = self.data.len();
        let mut data: Vec<i64> = Vec::new();
        let mut p: usize = 0;
        while p < n
            invariant
                p <= n,
                n == self.data.len(),
                data.len() == p,
                forall|x: i64| #[trigger] f.requires((x,)),
                forall|a: int| 0 <= a < p ==> f.ensures((self.data@[a],), #[trigger] data@[a]),
            decreases n - p,
        {
            let y = f(self.data[p]);
            data.push(y);
            p = p + 1;
        }
        CsVecBase { dim: self.dim, indices: self.indices.clone(), data }
    }

    /// Multiplies every stored value by `c`.
    pub fn scale(&mut self, c: i64)
        ensures
            final(self)@.dim == old(self)@.dim,
            final(self)@.indices == old(self)@.indices,
            final(self)@.data.len() == old(self)@.data.len(),
            forall|p: int|
                0 <= p < old(self)@.data.len() ==> #[trigger] final(self)@.data[p] == wrap(
                    c * old(self)@.data[p],
                ),
    {
        proof {
            use_type_invariant(&*self);
        }
        let mut data = self.data.clone();
        let n = data.len();
        let mut p: usize = 0;
        while p < n
            invariant
                p <= n,
                n == data.len(),
                n == self.data.len(),
                forall|a: int| 0 <= a < p ==> #[trigger] data@[a] == wrap(c * self.data@[a]),
                forall|a: int| p <= a < n ==> #[trigger] data@[a] == self.data@[a],
            decreases n - p,
        {
            let x = ring_mul(c, data[p]);
            data.set(p, x);
            p = p + 1;
        }
        *self = CsVecBase { dim: self.dim, indices: self.indices.clone(), data };
    }

    /// Sparse inner product, by a linear merge of the two index streams. Both
    /// vectors must be canonical; the result is the dense inner product in the
    /// wrapping ring of `i64`.
    pub fn dot(&self, other: &CsVecBase) -> (r: Result<i64, SprsError>)
        ensures
            self@.dim != other@.dim <==> r == Err::<i64, SprsError>(SprsError::DimensionMismatch),
            self@.dim == other@.dim && !(self@.canonical() && other@.canonical()) <==> r == Err::<
                i64,
                SprsError,
            >(SprsError::NotSorted),
            r is Ok <==> self@.dim == other@.dim && self@.canonical() && other@.canonical(),
            r matches Ok(x) ==> x == wrap(self@.dense_dot(other@)),
    {
        proof {
            use_type_invariant(self);
            use_type_invariant(other);
        }
        if self.dim != other.dim {
            return Err(SprsError::DimensionMismatch);
        }
        if !self.is_canonical() || !other.is_canonical() {
            return Err(SprsError::NotSorted);
        }
        let ghost ui = self@.indices;
        let ghost ud = self@.data;
        let ghost vi = other@.indices;
        let ghost vd = other@.data;
        let ghost g = |k: int| lane_val(vi, vd, k);
        let n1 = self.indices.len();
        let n2 = other.indices.len();
        let mut acc: i64 = 0;
        let mut i: usize = 0;
        let mut j: usize = 0;
        proof {
            lemma_wrap_id(0);
        }
        while i < n1
            invariant
                i <= n1,
                j <= n2,
                n1 == ui.len(),
                n1 == ud.len(),
                n2 == vi.len(),
                n2 == vd.len(),
                ui == self.indices@,
                ud == self.data@,
                vi == other.indices@,
                vd == other.data@,
                strictly_sorted(ui),
                strictly_sorted(vi),
                forall|k: int| #[trigger] g(k) == lane_val(vi, vd, k),
                acc == wrap(weighted(ui.take(i as int), ud.take(i as int), g)),
                i < n1 ==> forall|b: int| 0 <= b < j ==> vi[b] < ui[i as int],
            decreases (n1 - i) + (n2 - j),
        {
            if j < n2 && other.indices[j] < self.indices[i] {
                j = j + 1;
            } else {
                let ghost w = weighted(ui.take(i as int), ud.take(i as int), g);
                let ghost gi = g(ui[i as int] as int);
                proof {
                    assert(ui.take(i + 1) =~= ui.take(i as int).push(ui[i as int]));
                    assert(ud.take(i + 1) =~= ud.take(i as int).push(ud[i as int]));
                    lemma_weighted_push(ui.take(i as int), ud.take(i as int), g, ui[i as int], ud[i as int]);
                }
                if j < n2 && other.indices[j] == self.indices[i] {
                    proof {
                        lemma_lane_lookup(vi, vd, j as int);
                        assert(gi == vd[j as int]);
                        let pr = ud[i as int] * vd[j as int];
                        lemma_wrap_inner(acc as int, pr);
                        lemma_wrap_inner(pr, w);
                        assert(acc as int + pr == pr + acc as int);
                        assert(w + pr == pr + w);
                        assert(weighted(ui.take(i + 1), ud.take(i + 1), g) == w + pr);
                    }
                    acc = ring_add(acc, ring_mul(self.data[i], other.data[j]));
                    i = i + 1;
                    j = j + 1;
                } else {
                    proof {
                        assert forall|b: int| 0 <= b < vi.len() implies vi[b] != ui[i as int] by {
                            if b >= j {
                                assert(vi[j as int] <= vi[b]);
                            }
                        }
                        lemma_lane_absent(vi, vd, ui[i as int] as int);
                        assert(gi == 0);
                        assert(ud[i as int] * gi == 0) by (nonlinear_arith)
                            requires
                                gi == 0,
                        ;
                        assert(weighted(ui.take(i + 1), ud.take(i + 1), g) == w);
                    }
                    i = i + 1;
                }
            }
        }
        proof {
            assert(ui.take(n1 as int) =~= ui);
            assert(ud.take(n1 as int) =~= ud);
            lemma_weighted_dense(ui, ud, g, self@.dim);
            lemma_range_sum_ext(
                |k: int| lane_val(ui, ud, k) * g(k),
                |k: int| self@.val(k) * other@.val(k),
                self@.dim,
            );
        }
        Ok(acc)
    }

    /// The dense form: the value at every index of `[0, dim)`, zero where nothing is stored.
    pub fn to_dense(&self) -> (r: Vec<i64>)
        ensures
            r.len() == self@.dim,
            forall|k: int| 0 <= k < self@.dim ==> r[k] == wrap(#[trigger] self@.val(k)),
    {
        proof {
            use_type_invariant(self);
        }
        let mut r: Vec<i64> = Vec::new();
        let mut k: usize = 0;
        while k < self.dim
            invariant
                k <= self.dim,
                r.len() == k,
                forall|a: int| 0 <= a < k ==> r[a] == 0,
            decreases self.dim - k,
        {
            r.push(0);
            k = k + 1;
        }
        let ghost idx = self@.indices;
        let ghost data = self@.data;
        let n = self.indices.len();
        let mut p: usize = 0;
        proof {
            assert forall|k: int| 0 <= k < self@.dim implies r[k] == wrap(
                #[trigger] lane_val(idx.take(0), data.take(0), k),
            ) by {
                lemma_wrap_id(0);
            }
        }
        while p < n
            invariant
                p <= n,
                n == idx.len(),
                n == data.len(),
                idx == self.indices@,
                data == self.data@,
                r.len() == self@.dim,
                bounded(idx, self@.dim as int),
                forall|k: int|
                    0 <= k < self@.dim ==> r[k] == wrap(
                        #[trigger] lane_val(idx.take(p as int), data.take(p as int), k),
                    ),
            decreases n - p,
        {
            let c = self.indices[p];
            let ghost old_r = r@;
            let x = ring_add(r[c], self.data[p]);
            r.set(c, x);
            proof {
                assert(idx.take(p + 1) =~= idx.take(p as int).push(idx[p as int]));
                assert(data.take(p + 1) =~= data.take(p as int).push(data[p as int]));
                assert forall|k: int| 0 <= k < self@.dim implies r[k] == wrap(
                    #[trigger] lane_val(idx.take(p + 1), data.take(p + 1), k),
                ) by {
                    lemma_lane_push(idx.take(p as int), data.take(p as int), c, data[p as int], k);
                    let l = lane_val(idx.take(p as int), data.take(p as int), k);
                    if k == c {
                        lemma_wrap_inner(data[p as int] as int, l);
                    }
                }
            }
            p = p + 1;
        }
        proof {
            assert(idx.take(n as int) =~= idx);
            assert(data.take(n as int) =~= data);
        }
        r
    }
}

/// The inner product of two vectors of one dimension does not depend on their
/// order, and equals the inner product of their dense forms, computed in the
/// same ring.
pub proof fn lemma_dot_commutes(u: SpVec, v: SpVec)
    requires
        u.dim == v.dim,
    ensures
        u.dense_dot(v) == v.dense_dot(u),
        wrap(u.dense_dot(v)) == wrap(range_sum(|k: int| wrap(u.val(k)) * wrap(v.val(k)), u.dim)),
{
    let f = |k: int| u.val(k) * v.val(k);
    let g = |k: int| v.val(k) * u.val(k);
    let h = |k: int| wrap(u.val(k)) * wrap(v.val(k));
    assert forall|k: int| 0 <= k < u.dim implies #[trigger] f(k) == g(k) by {
        assert(u.val(k) * v.val(k) == v.val(k) * u.val(k)) by (nonlinear_arith);
    }
    lemma_range_sum_ext(f, g, u.dim);
    assert forall|k: int| 0 <= k < u.dim implies wrap(#[trigger] h(k)) == wrap(f(k)) by {
        lemma_wrap_mul(u.val(k), v.val(k));
    }
    lemma_range_sum_wrap(h, f, u.dim);
}

} // verus!
