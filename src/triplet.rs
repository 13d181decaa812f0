use vstd::prelude::*;
use crate::csmat::{CompressedStorage, CsMatBase, SpMat, is_dense_of};
use crate::errors::SprsError;
use crate::lane::{
    bounded, lane_val, lemma_range_sum_ext, lemma_weighted_dense, range_sum,
    weighted,
};
use crate::ring::wrap;

verus! {

/// The exact sum of the contributions at row `r`, column `c`.
pub open spec fn tsum(ri: Seq<usize>, ci: Seq<usize>, d: Seq<i64>, r: int, c: int) -> int
    decreases ri.len(),
{
    if ri.len() == 0 {
        0
    } else {
        let n = ri.len() - 1;
        tsum(ri.take(n), ci.take(n), d.take(n), r, c) + (if ri[n] == r && ci[n] == c {
            d[n] as int
        } else {
            0
        })
    }
}

/// `tsum` at outer position `o`, inner position `i` of the given layout.
pub open spec fn tsum_at(
    ri: Seq<usize>,
    ci: Seq<usize>,
    d: Seq<i64>,
    storage: CompressedStorage,
    o: int,
    i: int,
) -> int {
    if storage == CompressedStorage::CSR {
        tsum(ri, ci, d, o, i)
    } else {
        tsum(ri, ci, d, i, o)
    }
}

/// The mathematical content of a triplet accumulator.
pub ghost struct TriView {
    pub nrows: nat,
    pub ncols: nat,
    pub row_inds: Seq<usize>,
    pub col_inds: Seq<usize>,
    pub data: Seq<i64>,
}

impl TriView {
    pub open spec fn wf(self) -> bool {
        &&& self.row_inds.len() == self.col_inds.len()
        &&& self.row_inds.len() == self.data.len()
        &&& bounded(self.row_inds, self.nrows as int)
        &&& bounded(self.col_inds, self.ncols as int)
    }

    /// The exact sum of every contribution at row `r`, column `c`.
    pub open spec fn val(self, r: int, c: int) -> int {
        tsum(self.row_inds, self.col_inds, self.data, r, c)
    }
}

/// What compiling triplets guarantees of the matrix `m`: the requested layout
/// and shape, canonical lanes, and at every position the sum of all the
/// contributions there.
pub open spec fn compiled_from(t: TriView, storage: CompressedStorage, m: SpMat) -> bool {
    &&& m.storage == storage
    &&& m.nrows == t.nrows
    &&& m.ncols == t.ncols
    &&& m.canonical()
    &&& forall|r: int, c: int|
        0 <= r < t.nrows && 0 <= c < t.ncols ==> wrap(#[trigger] m.val(r, c)) == wrap(t.val(r, c))
}

/// Compiling triplets and taking the dense form gives, at every position, the
/// sum of all the contributions there.
pub proof fn lemma_compile_then_dense(t: TriView, storage: CompressedStorage, m: SpMat, d: Seq<Vec<i64>>)
    requires
        compiled_from(t, storage, m),
        is_dense_of(m, d),
    ensures
        d.len() == t.nrows,
        forall|r: int, c: int|
            0 <= r < t.nrows && 0 <= c < t.ncols ==> (#[trigger] d[r][c]) == wrap(t.val(r, c)),
{
    assert forall|r: int, c: int| 0 <= r < t.nrows && 0 <= c < t.ncols implies (#[trigger] d[r][c])
        == wrap(t.val(r, c)) by {
        assert(wrap(m.val(r, c)) == wrap(t.val(r, c)));
    }
}

/// `tsum` as a sum over the positions of the contributions.
proof fn lemma_tsum_range(ri: Seq<usize>, ci: Seq<usize>, d: Seq<i64>, r: int, c: int, f: spec_fn(int) -> int)
    requires
        ri.len() == ci.len(),
        ri.len() == d.len(),
        forall|t: int| 0 <= t < ri.len() ==> #[trigger] f(t) == (if ri[t] == r && ci[t] == c { d[t] as int } else { 0 }),
    ensures
        tsum(ri, ci, d, r, c) == range_sum(f, ri.len()),
    decreases ri.len(),
{
    if ri.len() > 0 {
        let n = ri.len() - 1;
        lemma_tsum_range(ri.take(n), ci.take(n), d.take(n), r, c, f);
    }
}

proof fn lemma_lane_single(i: usize, d: i64, k: int)
    ensures
        lane_val(seq![i], seq![d], k) == (if i == k {
            d as int
        } else {
            0
        }),
{
    assert(seq![i].take(0) =~= Seq::<usize>::empty());
    assert(seq![d].take(0) =~= Seq::<i64>::empty());
    assert(lane_val(Seq::<usize>::empty(), Seq::<i64>::empty(), k) == 0);
}

/// The indices of a lane sent through `map`.
pub open spec fn mapped(s: Seq<usize>, map: Seq<usize>) -> Seq<usize> {
    Seq::new(s.len(), |a: int| map[s[a] as int])
}

/// Sending the indices of a lane through `map` gathers, at `i`, the entries
/// whose index `map` sends to `i`.
proof fn lemma_lane_mapped(s: Seq<usize>, data: Seq<i64>, map: Seq<usize>, i: int, g: spec_fn(int) -> int)
    requires
        s.len() == data.len(),
        forall|t: int| #[trigger] g(t) == (if map[t] == i { 1int } else { 0int }),
    ensures
        lane_val(mapped(s, map), data, i) == weighted(s, data, g),
    decreases s.len(),
{
    if s.len() > 0 {
        let n = s.len() - 1;
        lemma_lane_mapped(s.take(n), data.take(n), map, i, g);
        assert(mapped(s, map).take(n) =~= mapped(s.take(n), map));
    }
}

/// An accumulator of (row, column, value) contributions, in any order and with
/// any number of contributions at one position.
pub struct TriMatBase {
    nrows: usize,
    ncols: usize,
    row_inds: Vec<usize>,
    col_inds: Vec<usize>,
    data: Vec<i64>,
}

/// The owned triplet accumulator.
pub type TriMat = TriMatBase;

impl View for TriMatBase {
    type V = TriView;

    closed spec fn view(&self) -> TriView {
        TriView {
            nrows: self.nrows as nat,
            ncols: self.ncols as nat,
            row_inds: self.row_inds@,
            col_inds: self.col_inds@,
            data: self.data@,
        }
    }
}

impl TriMatBase {
    #[verifier::type_invariant]
    spec fn inv(&self) -> bool {
        self@.wf()
    }

    /// An empty accumulator for a `nrows` by `ncols` matrix.
    pub fn new(nrows: usize, ncols: usize) -> (r: TriMatBase)
        ensures
            r@.nrows == nrows,
            r@.ncols == ncols,
            r@.row_inds.len() == 0,
    {
        TriMatBase {
            nrows,
            ncols,
            row_inds: Vec::new(),
            col_inds: Vec::new(),
            data: Vec::new(),
        }
    }

    /// An accumulator holding the given contributions.
    pub fn from_triplets(
        nrows: usize,
        ncols: usize,
        row_inds: Vec<usize>,
        col_inds: Vec<usize>,
        data: Vec<i64>,
    ) -> (r: Result<TriMatBase, SprsError>)
        ensures
            (row_inds.len() != col_inds.len() || row_inds.len() != data.len()) <==> r == Err::<
                TriMatBase,
                SprsError,
            >(SprsError::DimensionMismatch),
            r is Ok <==> (TriView {
                nrows: nrows as nat,
                ncols: ncols as nat,
                row_inds: row_inds@,
                col_inds: col_inds@,
                data: data@,
            }).wf(),
            r matches Ok(t) ==> t@ == (TriView {
                nrows: nrows as nat,
                ncols: ncols as nat,
                row_inds: row_inds@,
                col_inds: col_inds@,
                data: data@,
            }),
            r matches Err(e) ==> e == SprsError::DimensionMismatch || e == SprsError::OutOfBounds,
    {
        if row_inds.len() != col_inds.len() || row_inds.len() != data.len() {
            return Err(SprsError::DimensionMismatch);
        }
        let mut p: usize = 0;
        while p < row_inds.len()
            invariant
                p <= row_inds.len(),
                row_inds.len() == col_inds.len(),
                row_inds.len() == data.len(),
                forall|a: int| 0 <= a < p ==> row_inds@[a] < nrows && col_inds@[a] < ncols,
            decreases row_inds.len() - p,
        {
            if row_inds[p] >= nrows || col_inds[p] >= ncols {
                return Err(SprsError::OutOfBounds);
            }
            p = p + 1;
        }
        Ok(TriMatBase { nrows, ncols, row_inds, col_inds, data })
    }

    /// Adds a contribution of `val` at (`row`, `col`); fails with `OutOfBounds`
    /// outside the shape, leaving the accumulator unchanged.
    pub fn add_triplet(&mut self, row: usize, col: usize, val: i64) -> (r: Result<(), SprsError>)
        ensures
            r is Ok <==> row < old(self)@.nrows && col < old(self)@.ncols,
            r is Err ==> r == Err::<(), SprsError>(SprsError::OutOfBounds) && final(self)@ == old(
                self,
            )@,
            r is Ok ==> final(self)@ == (TriView {
                row_inds: old(self)@.row_inds.push(row),
                col_inds: old(self)@.col_inds.push(col),
                data: old(self)@.data.push(val),
                ..old(self)@
            }),
    {
        if row >= self.nrows || col >= self.ncols {
            return Err(SprsError::OutOfBounds);
        }
        let mut ri = self.row_inds.clone();
        let mut ci = self.col_inds.clone();
        let mut d = self.data.clone();
        ri.push(row);
        ci.push(col);
        d.push(val);
        proof {
            use_type_invariant(&*self);
        }
        *self = TriMatBase { nrows: self.nrows, ncols: self.ncols, row_inds: ri, col_inds: ci, data: d };
        Ok(())
    }

    pub fn rows(&self) -> (r: usize)
        ensures
            r == self@.nrows,
    {
        self.nrows
    }

    pub fn cols(&self) -> (r: usize)
        ensures
            r == self@.ncols,
    {
        self.ncols
    }

    /// The number of contributions.
    pub fn nnz(&self) -> (r: usize)
        ensures
            r == self@.row_inds.len(),
    {
        self.row_inds.len()
    }

    /// The canonical CSR matrix of the summed contributions.
    pub fn to_csr(&self) -> (r: CsMatBase)
        ensures
            compiled_from(self@, CompressedStorage::CSR, r@),
    {
        self.compile(CompressedStorage::CSR)
    }

    /// The canonical CSC matrix of the summed contributions.
    pub fn to_csc(&self) -> (r: CsMatBase)
        ensures
            compiled_from(self@, CompressedStorage::CSC, r@),
    {
        self.compile(CompressedStorage::CSC)
    }

    /// Groups the contributions by lane, keeping their order, then sums the
    /// duplicates of every lane. The grouping stores contribution `t` as the
    /// single entry of lane `t` of a matrix in the other layout, whose index
    /// is the outer coordinate of `t`; converting that matrix lists, in every
    /// lane, the positions of its contributions in increasing order.
    fn compile(&self, storage: CompressedStorage) -> (r: CsMatBase)
        ensures
            compiled_from(self@, storage, r@),
    {
        proof {
            use_type_invariant(self);
        }
        let ghost tv = self@;
        let csr = storage == CompressedStorage::CSR;
        let n = self.row_inds.len();
        let n_out = if csr {
            self.nrows
        } else {
            self.ncols
        };
        let ghost outer_of = if csr {
            tv.row_inds
        } else {
            tv.col_inds
        };
        let ghost inner_of = if csr { tv.col_inds } else { tv.row_inds };
        let mut ip: Vec<usize> = Vec::new();
        let mut keys: Vec<usize> = Vec::new();
        let mut vals: Vec<i64> = Vec::new();
        let mut t: usize = 0;
        while t < n
            invariant
                t <= n,
                n == tv.row_inds.len(),
                tv == self@,
                tv.wf(),
                csr == (storage == CompressedStorage::CSR),
                outer_of == (if csr { tv.row_inds } else { tv.col_inds }),
                n_out == (if csr { tv.nrows } else { tv.ncols }),
                ip.len() == t,
                keys.len() == t,
                vals.len() == t,
                forall|a: int| 0 <= a < t ==> ip@[a] == a,
                forall|a: int| 0 <= a < t ==> keys@[a] == outer_of[a],
                forall|a: int| 0 <= a < t ==> vals@[a] == tv.data[a],
            decreases n - t,
        {
            ip.push(t);
            if csr {
                keys.push(self.row_inds[t]);
            } else {
                keys.push(self.col_inds[t]);
            }
            vals.push(self.data[t]);
            t = t + 1;
        }
        ip.push(n);
        let other = storage.other_storage();
        let (xr, xc) = if csr {
            (self.nrows, n)
        } else {
            (n, self.ncols)
        };
        let ghost xm = SpMat { storage: other, nrows: xr as nat, ncols: xc as nat, indptr: ip@, indices: keys@, data: vals@ };
        proof {
            assert(keys@ =~= outer_of);
            assert(vals@.len() == tv.data.len());
            assert(vals@ =~= tv.data);
            assert forall|a: int| 0 <= a < n implies #[trigger] xm.lane_idx(a) == seq![outer_of[a]]
                && xm.lane_data(a) == seq![tv.data[a]] by {
                assert(xm.lane_idx(a) =~= seq![outer_of[a]]);
                assert(xm.lane_data(a) =~= seq![tv.data[a]]);
            }
            assert(xm.canonical());
        }
        let x = CsMatBase::from_parts(other, xr, xc, ip, keys, vals);
        let y = x.to_other_storage();
        let ghost ym = y@;
        let (_, _, _, yp, yi, yd) = y.into_raw_storage();
        let mut mi: Vec<usize> = Vec::new();
        let mut p: usize = 0;
        while p < yi.len()
            invariant
                p <= yi.len(),
                tv == self@,
                yi@ == ym.indices,
                ym.wf(),
                ym.inner() == n,
                n == tv.row_inds.len(),
                tv.wf(),
                csr == (storage == CompressedStorage::CSR),
                inner_of == (if csr { tv.col_inds } else { tv.row_inds }),
                mi@ == mapped(yi@.take(p as int), inner_of),
            decreases yi.len() - p,
        {
            let k = yi[p];
            proof {
                assert(ym.indices[p as int] < ym.inner());
            }
            let i = if csr {
                self.col_inds[k]
            } else {
                self.row_inds[k]
            };
            mi.push(i);
            proof {
                assert(mi@ =~= mapped(yi@.take(p + 1), inner_of));
            }
            p = p + 1;
        }
        proof {
            assert(yi@.take(yi.len() as int) =~= yi@);
        }
        let ghost mm = SpMat { storage, nrows: tv.nrows, ncols: tv.ncols, indptr: yp@, indices: mi@, data: yd@ };
        proof {
            assert forall|o: int, i: int|
                0 <= o < n_out && 0 <= i < mm.inner() implies #[trigger] mm.at(o, i) == tsum_at(
                tv.row_inds,
                tv.col_inds,
                tv.data,
                storage,
                o,
                i,
            ) by {
                assert(n as nat == tv.row_inds.len());
                assert(ym.indptr[o] <= ym.indptr[o + 1] <= ym.indptr[ym.outer() as int]);
                let li = ym.lane_idx(o);
                let ld = ym.lane_data(o);
                assert(mm.lane_idx(o) =~= mapped(li, inner_of));
                let g = |t: int| if inner_of[t] == i { 1int } else { 0int };
                assert(mm.lane_data(o) == ld);
                lemma_lane_mapped(li, ld, inner_of, i, g);
                assert forall|a: int| 0 <= a < li.len() implies li[a] < n by {
                    assert(li[a] == ym.indices[ym.indptr[o] + a]);
                }
                lemma_weighted_dense(li, ld, g, n as nat);
                assert(mm.at(o, i) == weighted(li, ld, g));
                assert forall|t: int| 0 <= t < n implies #[trigger] (lane_val(li, ld, t) * g(t)) == (if tv.row_inds[t] == (if csr { o } else { i }) && tv.col_inds[t] == (if csr { i } else { o }) { tv.data[t] as int } else { 0 }) by {
                    assert(ym.at(o, t) == xm.at(t, o));
                    assert(xm.lane_idx(t) == seq![outer_of[t]] && xm.lane_data(t) == seq![tv.data[t]]);
                    lemma_lane_single(outer_of[t], tv.data[t], o);
                    if outer_of[t] == o && inner_of[t] == i {
                        assert(g(t) == 1);
                    } else if outer_of[t] == o {
                        assert(g(t) == 0);
                    } else {
                        assert(lane_val(li, ld, t) == 0);
                    }
                }
                if csr {
                    lemma_range_sum_ext(
                        |k: int| lane_val(li, ld, k) * g(k),
                        |t: int| if tv.row_inds[t] == o && tv.col_inds[t] == i { tv.data[t] as int } else { 0 },
                        n as nat,
                    );
                    lemma_tsum_range(tv.row_inds, tv.col_inds, tv.data, o, i, |t: int| if tv.row_inds[t] == o && tv.col_inds[t] == i { tv.data[t] as int } else { 0 });
                } else {
                    lemma_range_sum_ext(
                        |k: int| lane_val(li, ld, k) * g(k),
                        |t: int| if tv.row_inds[t] == i && tv.col_inds[t] == o { tv.data[t] as int } else { 0 },
                        n as nat,
                    );
                    lemma_tsum_range(tv.row_inds, tv.col_inds, tv.data, i, o, |t: int| if tv.row_inds[t] == i && tv.col_inds[t] == o { tv.data[t] as int } else { 0 });
                }
            }
        }
        let mut m = CsMatBase::from_parts(storage, self.nrows, self.ncols, yp, mi, yd);
        let ghost raw = m@;
        m.sum_duplicates();
        proof {
            assert forall|r: int, c: int|
                0 <= r < tv.nrows && 0 <= c < tv.ncols implies wrap(#[trigger] m@.val(r, c)) == wrap(
                    tv.val(r, c),
                ) by {
                if csr {
                    assert(wrap(m@.at(r, c)) == wrap(raw.at(r, c)));
                } else {
                    assert(wrap(m@.at(c, r)) == wrap(raw.at(c, r)));
                }
            }
        }
        m
    }
}

} // verus!
