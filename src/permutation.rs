use vstd::prelude::*;
use crate::csmat::{
    CsMatBase, SpMat, lemma_canonical_determined, lemma_lanes_determine,
    lemma_seg_append, seg,
};
use crate::errors::SprsError;
use crate::lane::{bounded, has, strictly_sorted};

verus! {

/// `s` is a bijection on `[0, n)`.
pub open spec fn is_bijection(s: Seq<usize>, n: nat) -> bool {
    &&& s.len() == n
    &&& bounded(s, n as int)
    &&& forall|a: int, b: int| 0 <= a < b < n ==> s[a] != s[b]
    &&& forall|j: int| 0 <= j < n ==> #[trigger] hits(s, n, j)
}

/// Some position of `[0, n)` of `s` holds `j`.
pub open spec fn hits(s: Seq<usize>, n: nat, j: int) -> bool {
    exists|i: int| 0 <= i < n && s[i] == j
}

/// The mathematical content of a permutation: `perm[i]` is the new position of
/// old index `i`, and `perm_inv` undoes it.
pub ghost struct PermView {
    pub perm: Seq<usize>,
    pub perm_inv: Seq<usize>,
}

impl PermView {
    pub open spec fn dim(self) -> nat {
        self.perm.len()
    }

    pub open spec fn wf(self) -> bool {
        &&& is_bijection(self.perm, self.dim())
        &&& self.perm_inv.len() == self.dim()
        &&& bounded(self.perm_inv, self.dim() as int)
        &&& forall|i: int| 0 <= i < self.dim() ==> #[trigger] self.perm_inv[self.perm[i] as int] == i
        &&& forall|j: int| 0 <= j < self.dim() ==> #[trigger] self.perm[self.perm_inv[j] as int] == j
    }

    /// The permutation that undoes this one.
    pub open spec fn inverse(self) -> PermView {
        PermView { perm: self.perm_inv, perm_inv: self.perm }
    }
}

/// A permutation of `[0, n)` with its inverse.
pub struct PermOwned {
    perm: Vec<usize>,
    perm_inv: Vec<usize>,
}

impl View for PermOwned {
    type V = PermView;

    closed spec fn view(&self) -> PermView {
        PermView { perm: self.perm@, perm_inv: self.perm_inv@ }
    }
}

impl PermOwned {
    #[verifier::type_invariant]
    spec fn well_formed(&self) -> bool {
        self@.wf()
    }

    /// The permutation sending old index `i` to `perm[i]`; fails with
    /// `InvalidPermutation` unless `perm` is a bijection on `[0, perm.len())`.
    pub fn new(perm: Vec<usize>) -> (r: Result<PermOwned, SprsError>)
        ensures
            r is Ok <==> is_bijection(perm@, perm@.len()),
            r matches Ok(p) ==> p@.perm == perm@ && p@.wf(),
            r is Err ==> r == Err::<PermOwned, SprsError>(SprsError::InvalidPermutation),
    {
        let n = perm.len();
        let mut inv: Vec<usize> = Vec::new();
        let mut k: usize = 0;
        while k < n
            invariant
                k <= n,
                inv.len() == k,
                forall|a: int| 0 <= a < k ==> inv@[a] == n,
            decreases n - k,
        {
            inv.push(n);
            k = k + 1;
        }
        let mut i: usize = 0;
        while i < n
            invariant
                i <= n,
                n == perm.len(),
                inv.len() == n,
                forall|a: int| 0 <= a < i ==> perm@[a] < n,
                forall|a: int, b: int| 0 <= a < b < i ==> perm@[a] != perm@[b],
                forall|a: int| 0 <= a < i ==> #[trigger] inv@[perm@[a] as int] == a,
                forall|j: int| 0 <= j < n ==> inv@[j] == n || (inv@[j] < i && perm@[inv@[j] as int] == j),
            decreases n - i,
        {
            let t = perm[i];
            if t >= n {
                return Err(SprsError::InvalidPermutation);
            }
            if inv[t] != n {
                proof {
                    let a = inv@[t as int] as int;
                    assert(perm@[a] == perm@[i as int]);
                }
                return Err(SprsError::InvalidPermutation);
            }
            inv.set(t, i);
            i = i + 1;
        }
        let mut j: usize = 0;
        while j < n
            invariant
                j <= n,
                n == perm.len(),
                inv.len() == n,
                forall|a: int| 0 <= a < n ==> perm@[a] < n,
                forall|a: int| 0 <= a < n ==> #[trigger] inv@[perm@[a] as int] == a,
                forall|x: int| 0 <= x < n ==> inv@[x] == n || (inv@[x] < n && perm@[inv@[x] as int] == x),
                forall|x: int| 0 <= x < j ==> inv@[x] < n,
            decreases n - j,
        {
            if inv[j] == n {
                proof {
                    assert forall|a: int| 0 <= a < n implies perm@[a] != j by {
                        if perm@[a] == j {
                            assert(inv@[perm@[a] as int] == a);
                        }
                    }
                    assert(!hits(perm@, n as nat, j as int));
                }
                return Err(SprsError::InvalidPermutation);
            }
            j = j + 1;
        }
        proof {
            assert forall|x: int| 0 <= x < n implies #[trigger] hits(perm@, n as nat, x) by {
                assert(perm@[inv@[x] as int] == x);
            }
        }
        Ok(PermOwned { perm, perm_inv: inv })
    }

    /// The identity on `[0, n)`.
    pub fn identity(n: usize) -> (r: PermOwned)
        ensures
            r@.dim() == n,
            forall|i: int| 0 <= i < n ==> #[trigger] r@.perm[i] == i && r@.perm_inv[i] == i,
    {
        let mut perm: Vec<usize> = Vec::new();
        let mut k: usize = 0;
        while k < n
            invariant
                k <= n,
                perm.len() == k,
                forall|a: int| 0 <= a < k ==> perm@[a] == a,
            decreases n - k,
        {
            perm.push(k);
            k = k + 1;
        }
        let inv = perm.clone();
        proof {
            assert forall|x: int| 0 <= x < n implies #[trigger] hits(perm@, n as nat, x) by {
                assert(perm@[x] == x);
            }
        }
        PermOwned { perm, perm_inv: inv }
    }

    pub fn dim(&self) -> (r: usize)
        ensures
            r == self@.dim(),
            self@.wf(),
    {
        proof {
            use_type_invariant(self);
        }
        self.perm.len()
    }

    /// The new position of old index `i`.
    pub fn at(&self, i: usize) -> (r: usize)
        requires
            i < self@.dim(),
        ensures
            r == self@.perm[i as int],
            r < self@.dim(),
    {
        proof {
            use_type_invariant(self);
        }
        self.perm[i]
    }

    /// The old index now at position `j`.
    pub fn at_inv(&self, j: usize) -> (r: usize)
        requires
            j < self@.dim(),
        ensures
            r == self@.perm_inv[j as int],
            r < self@.dim(),
    {
        proof {
            use_type_invariant(self);
        }
        self.perm_inv[j]
    }

    /// The permutation that undoes this one.
    pub fn inv(&self) -> (r: PermOwned)
        ensures
            r@ == self@.inverse(),
    {
        proof {
            use_type_invariant(self);
            let v = self@;
            let n = v.dim();
            assert forall|x: int| 0 <= x < n implies #[trigger] hits(v.perm_inv, n, x) by {
                assert(v.perm_inv[v.perm[x] as int] == x);
            }
            assert forall|a: int, b: int| 0 <= a < b < n implies v.perm_inv[a] != v.perm_inv[b] by {
                if v.perm_inv[a] == v.perm_inv[b] {
                    assert(v.perm[v.perm_inv[a] as int] == a);
                    assert(v.perm[v.perm_inv[b] as int] == b);
                }
            }
        }
        PermOwned { perm: self.perm_inv.clone(), perm_inv: self.perm.clone() }
    }
}

/// What permuting the lanes of `m` by `p` gives: lane `perm[o]` of `r` is lane
/// `o` of `m`, indices and values, in the same layout and shape.
pub open spec fn permuted_outer(m: SpMat, p: PermView, r: SpMat) -> bool {
    &&& r.wf()
    &&& r.storage == m.storage
    &&& r.nrows == m.nrows
    &&& r.ncols == m.ncols
    &&& forall|q: int|
        0 <= q < m.outer() ==> #[trigger] r.lane_idx(q) == m.lane_idx(p.perm_inv[q] as int)
            && r.lane_data(q) == m.lane_data(p.perm_inv[q] as int)
}

/// Permuting the lanes by a permutation and then by its inverse gives back the
/// matrix, buffer for buffer.
pub proof fn lemma_permute_outer_inverse(m: SpMat, p: PermView, r1: SpMat, r2: SpMat)
    requires
        m.wf(),
        p.wf(),
        p.dim() == m.outer(),
        permuted_outer(m, p, r1),
        permuted_outer(r1, p.inverse(), r2),
    ensures
        r2 == m,
{
    assert forall|q: int| 0 <= q < r2.outer() implies #[trigger] r2.lane_idx(q) == m.lane_idx(q)
        && r2.lane_data(q) == m.lane_data(q) by {
        let o = p.perm[q] as int;
        assert(p.inverse().perm_inv[q] == o);
        assert(0 <= o < m.outer());
        assert(p.perm_inv[o] == q);
        assert(r2.lane_idx(q) == r1.lane_idx(o));
        assert(r1.lane_idx(o) == m.lane_idx(p.perm_inv[o] as int));
    }
    lemma_lanes_determine(r2, m);
}

/// Reorders the lanes of `m` (rows of a CSR matrix, columns of a CSC one):
/// lane `o` moves to position `perm[o]`. Order inside each lane is kept, so a
/// canonical matrix stays canonical. Fails with `DimensionMismatch` unless the
/// permutation has one position per lane.
pub fn permute_outer(m: &CsMatBase, p: &PermOwned) -> (r: Result<CsMatBase, SprsError>)
    ensures
        r is Ok <==> p@.dim() == m@.outer(),
        r is Err ==> r == Err::<CsMatBase, SprsError>(SprsError::DimensionMismatch),
        r matches Ok(x) ==> permuted_outer(m@, p@, x@) && (m@.canonical() ==> x@.canonical()),
{
    let outer = m.outer_dims();
    if p.dim() != outer {
        return Err(SprsError::DimensionMismatch);
    }
    let indptr = m.indptr();
    let indices = m.indices();
    let data = m.data();
    let ghost mm = m@;
    let mut ip: Vec<usize> = Vec::new();
    ip.push(0);
    let mut ni: Vec<usize> = Vec::new();
    let mut nd: Vec<i64> = Vec::new();
    let mut q: usize = 0;
    while q < outer
        invariant
            q <= outer,
            outer == mm.outer(),
            mm == m@,
            mm.wf(),
            p@.wf(),
            p@.dim() == outer,
            indptr@ == mm.indptr,
            indices@ == mm.indices,
            data@ == mm.data,
            ip.len() == q + 1,
            ip@[0] == 0,
            ip@[q as int] == ni.len(),
            ni.len() == nd.len(),
            forall|a: int, b: int| 0 <= a <= b <= q ==> ip@[a] <= ip@[b],
            bounded(ni@, mm.inner() as int),
            forall|x: int|
                0 <= x < q ==> #[trigger] seg(ip@, ni@, x) == mm.lane_idx(p@.perm_inv[x] as int)
                    && seg(ip@, nd@, x) == mm.lane_data(p@.perm_inv[x] as int),
        decreases outer - q,
    {
        let o = p.at_inv(q);
        let start = indptr[o];
        let end = indptr[o + 1];
        proof {
            assert(mm.indptr[o as int] <= mm.indptr[o + 1] <= mm.indptr[outer as int]);
        }
        let mut li: Vec<usize> = Vec::new();
        let mut ld: Vec<i64> = Vec::new();
        let mut k: usize = start;
        while k < end
            invariant
                start <= k <= end,
                end <= indices.len(),
                indices.len() == data.len(),
                li@ == indices@.subrange(start as int, k as int),
                ld@ == data@.subrange(start as int, k as int),
            decreases end - k,
        {
            li.push(indices[k]);
            ld.push(data[k]);
            proof {
                assert(li@ =~= indices@.subrange(start as int, k + 1));
                assert(ld@ =~= data@.subrange(start as int, k + 1));
            }
            k = k + 1;
        }
        let ghost ip0 = ip@;
        let ghost ni0 = ni@;
        let ghost nd0 = nd@;
        let ghost ti = li@;
        let ghost td = ld@;
        proof {
            assert(bounded(ti, mm.inner() as int));
        }
        ni.append(&mut li);
        nd.append(&mut ld);
        ip.push(ni.len());
        proof {
            lemma_seg_append(ip0, ni0, ti, q as int);
            lemma_seg_append(ip0, nd0, td, q as int);
            assert(ip@ == ip0.push((ni0.len() + ti.len()) as usize));
            assert(ti == mm.lane_idx(o as int));
            assert(td == mm.lane_data(o as int));
            assert forall|x: int|
                0 <= x < q + 1 implies #[trigger] seg(ip@, ni@, x) == mm.lane_idx(p@.perm_inv[x] as int)
                    && seg(ip@, nd@, x) == mm.lane_data(p@.perm_inv[x] as int) by {
                if x < q {
                    assert(seg(ip@, ni@, x) == seg(ip0, ni0, x));
                    assert(seg(ip@, nd@, x) == seg(ip0, nd0, x));
                }
            }
        }
        q = q + 1;
    }
    let r = CsMatBase::from_parts(m.storage(), m.rows(), m.cols(), ip, ni, nd);
    proof {
        if mm.canonical() {
            assert forall|x: int| 0 <= x < outer implies strictly_sorted(#[trigger] r@.lane_idx(x)) by {
                assert(strictly_sorted(mm.lane_idx(p@.perm_inv[x] as int)));
            }
        }
    }
    Ok(r)
}

/// What permuting the inner positions of `m` by `p` gives: inner position `i`
/// of every lane moves to `perm[i]`, value and all, in the same layout and
/// shape; canonical input gives canonical output.
pub open spec fn permuted_inner(m: SpMat, p: PermView, r: SpMat) -> bool {
    &&& r.wf()
    &&& r.storage == m.storage
    &&& r.nrows == m.nrows
    &&& r.ncols == m.ncols
    &&& forall|o: int, q: int|
        0 <= o < m.outer() && 0 <= q < m.inner() ==> #[trigger] r.at(o, q) == m.at(
            o,
            p.perm_inv[q] as int,
        ) && has(r.lane_idx(o), q) == has(m.lane_idx(o), p.perm_inv[q] as int)
    &&& m.canonical() ==> r.canonical()
}

/// Moves inner position `i` of every lane (column `i` of a CSR matrix, row `i`
/// of a CSC one) to `perm[i]`, and sorts the lanes again. Fails with
/// `DimensionMismatch` unless the permutation has one position per inner index.
pub fn permute_inner(m: &CsMatBase, p: &PermOwned) -> (r: Result<CsMatBase, SprsError>)
    ensures
        r is Ok <==> p@.dim() == m@.inner(),
        r is Err ==> r == Err::<CsMatBase, SprsError>(SprsError::DimensionMismatch),
        r matches Ok(x) ==> permuted_inner(m@, p@, x@),
{
    if p.dim() != m.inner_dims() {
        return Err(SprsError::DimensionMismatch);
    }
    let t1 = m.to_other_storage();
    let t2 = permute_outer(&t1, p).unwrap();
    let r = t2.to_other_storage();
    proof {
        let mm = m@;
        assert forall|o: int, q: int| 0 <= o < mm.outer() && 0 <= q < mm.inner() implies #[trigger] r@.at(o, q)
            == mm.at(o, p@.perm_inv[q] as int) && has(r@.lane_idx(o), q) == has(
            mm.lane_idx(o),
            p@.perm_inv[q] as int,
        ) by {
            let i = p@.perm_inv[q] as int;
            assert(0 <= i < mm.inner());
            assert(r@.at(o, q) == t2@.at(q, o));
            assert(t2@.lane_idx(q) == t1@.lane_idx(i));
            assert(t2@.lane_data(q) == t1@.lane_data(i));
            assert(t1@.at(i, o) == mm.at(o, i));
            assert(has(r@.lane_idx(o), q) == has(t2@.lane_idx(q), o));
            assert(has(t1@.lane_idx(i), o) == has(mm.lane_idx(o), i));
        }
    }
    Ok(r)
}

/// Permuting the inner positions by a permutation and then by its inverse
/// gives back a canonical matrix, buffer for buffer.
pub proof fn lemma_permute_inner_inverse(m: SpMat, p: PermView, r1: SpMat, r2: SpMat)
    requires
        m.wf(),
        m.canonical(),
        p.wf(),
        p.dim() == m.inner(),
        permuted_inner(m, p, r1),
        permuted_inner(r1, p.inverse(), r2),
    ensures
        r2 == m,
{
    assert forall|o: int, i: int| 0 <= o < r2.outer() && 0 <= i < r2.inner() implies #[trigger] has(
        r2.lane_idx(o),
        i,
    ) == has(m.lane_idx(o), i) && r2.at(o, i) == m.at(o, i) by {
        let q = p.perm[i] as int;
        assert(p.inverse().perm_inv[i] == q);
        assert(0 <= q < m.inner());
        assert(p.perm_inv[q] == i);
        assert(r2.at(o, i) == r1.at(o, q));
        assert(has(r2.lane_idx(o), i) == has(r1.lane_idx(o), q));
        assert(r1.at(o, q) == m.at(o, i));
    }
    lemma_canonical_determined(r2, m);
}

} // verus!
