use vstd::prelude::*;
use crate::csmat::{CompressedStorage, CsMatBase, SpMat, seg, lemma_seg_append};
use crate::errors::SprsError;
use crate::lane::{
    bounded, lane_val, lemma_lane_push, lemma_range_sum_ext, lemma_weighted_dense,
    lemma_weighted_push, range_sum, strictly_sorted, weighted,
};
use crate::ring::{ring_add, ring_mul, wrap, lemma_wrap_id, lemma_wrap_inner};

verus! {

/// Every row of `b` holds `bcols` values.
pub open spec fn dense_shape(b: Seq<Vec<i64>>, brows: nat, bcols: nat) -> bool {
    &&& b.len() == brows
    &&& forall|k: int| 0 <= k < brows ==> (#[trigger] b[k]).len() == bcols
}

/// The exact entry (`i`, `j`) of the product of `a` and the dense `b`, by the
/// textbook sum over the shared dimension.
pub open spec fn product_entry(a: SpMat, b: Seq<Vec<i64>>, i: int, j: int) -> int {
    range_sum(|k: int| a.val(i, k) * b[k][j], a.ncols)
}

/// The product of a sparse matrix and a dense one, given row-major with
/// `bcols` columns. Each entry of the result is accumulated over the stored
/// entries only; it equals the dense textbook product in the wrapping ring of
/// `i64`. Fails with `DimensionMismatch` when the shapes do not fit.
pub fn mul_dense(a: &CsMatBase, b: &Vec<Vec<i64>>, bcols: usize) -> (r: Result<Vec<Vec<i64>>, SprsError>)
    ensures
        r is Ok <==> dense_shape(b@, a@.ncols, bcols as nat),
        r is Err ==> r == Err::<Vec<Vec<i64>>, SprsError>(SprsError::DimensionMismatch),
        r matches Ok(c) ==> {
            &&& dense_shape(c@, a@.nrows, bcols as nat)
            &&& forall|i: int, j: int|
                0 <= i < a@.nrows && 0 <= j < bcols ==> (#[trigger] c@[i][j]) == wrap(
                    product_entry(a@, b@, i, j),
                )
        },
{
    if b.len() != a.cols() {
        return Err(SprsError::DimensionMismatch);
    }
    let mut k: usize = 0;
    while k < b.len()
        invariant
            k <= b.len(),
            forall|q: int| 0 <= q < k ==> (#[trigger] b@[q]).len() == bcols,
        decreases b.len() - k,
    {
        if b[k].len() != bcols {
            return Err(SprsError::DimensionMismatch);
        }
        k = k + 1;
    }
    if a.is_csr() {
        Ok(mul_dense_csr(a, b, bcols))
    } else {
        let t = a.to_other_storage();
        let c = mul_dense_csr(&t, b, bcols);
        proof {
            assert forall|i: int, j: int| 0 <= i < a@.nrows && 0 <= j < bcols implies (
            #[trigger] c@[i][j]) == wrap(product_entry(a@, b@, i, j)) by {
                lemma_range_sum_ext(
                    |k: int| t@.val(i, k) * b@[k][j],
                    |k: int| a@.val(i, k) * b@[k][j],
                    a@.ncols,
                );
            }
        }
        Ok(c)
    }
}

fn mul_dense_csr(a: &CsMatBase, b: &Vec<Vec<i64>>, bcols: usize) -> (c: Vec<Vec<i64>>)
    requires
        a@.storage == CompressedStorage::CSR,
        dense_shape(b@, a@.ncols, bcols as nat),
    ensures
        dense_shape(c@, a@.nrows, bcols as nat),
        forall|i: int, j: int|
            0 <= i < a@.nrows && 0 <= j < bcols ==> (#[trigger] c@[i][j]) == wrap(
                product_entry(a@, b@, i, j),
            ),
{
    let indptr = a.indptr();
    let indices = a.indices();
    let data = a.data();
    let ghost m = a@;
    let nrows = a.rows();
    let mut c: Vec<Vec<i64>> = Vec::new();
    let mut i: usize = 0;
    while i < nrows
        invariant
            i <= nrows,
            nrows == m.nrows,
            m == a@,
            m.wf(),
            m.storage == CompressedStorage::CSR,
            indptr@ == m.indptr,
            indices@ == m.indices,
            data@ == m.data,
            dense_shape(b@, m.ncols, bcols as nat),
            c.len() == i,
            forall|q: int| 0 <= q < i ==> (#[trigger] c@[q]).len() == bcols,
            forall|q: int, j: int|
                0 <= q < i && 0 <= j < bcols ==> (#[trigger] c@[q][j]) == wrap(
                    product_entry(m, b@, q, j),
                ),
        decreases nrows - i,
    {
        let start = indptr[i];
        let end = indptr[i + 1];
        proof {
            assert(m.indptr[i as int] <= m.indptr[i + 1] <= m.indptr[m.outer() as int]);
        }
        let ghost li = m.lane_idx(i as int);
        let ghost ld = m.lane_data(i as int);
        let mut row: Vec<i64> = Vec::new();
        let mut j: usize = 0;
        while j < bcols
            invariant
                j <= bcols,
                i < nrows,
                nrows == m.nrows,
                m == a@,
                m.wf(),
                m.storage == CompressedStorage::CSR,
                indptr@ == m.indptr,
                indices@ == m.indices,
                data@ == m.data,
                start == m.indptr[i as int],
                end == m.indptr[i + 1],
                start <= end <= m.indices.len(),
                li == m.lane_idx(i as int),
                ld == m.lane_data(i as int),
                dense_shape(b@, m.ncols, bcols as nat),
                row.len() == j,
                forall|q: int| 0 <= q < j ==> row@[q] == wrap(product_entry(m, b@, i as int, q)),
            decreases bcols - j,
        {
            let ghost g = |k: int| b@[k]@[j as int] as int;
            let mut acc: i64 = 0;
            let mut p: usize = start;
            proof {
                lemma_wrap_id(0);
                assert(li.take(0) =~= Seq::<usize>::empty());
            }
            while p < end
                invariant
                    start <= p <= end,
                    end <= m.indices.len(),
                    j < bcols,
                    li == seg(m.indptr, m.indices, i as int),
                    ld == seg(m.indptr, m.data, i as int),
                    start == m.indptr[i as int],
                    end == m.indptr[i + 1],
                    i < m.outer(),
                    m.wf(),
                    indices@ == m.indices,
                    data@ == m.data,
                    dense_shape(b@, m.ncols, bcols as nat),
                    m.storage == CompressedStorage::CSR,
                    forall|k: int| #[trigger] g(k) == b@[k]@[j as int] as int,
                    acc == wrap(weighted(li.take(p - start), ld.take(p - start), g)),
                decreases end - p,
            {
                let col = indices[p];
                let x = data[p];
                proof {
                    assert(col < m.ncols);
                }
                let y = b[col][j];
                let ghost w = weighted(li.take(p - start), ld.take(p - start), g);
                proof {
                    let q = p - start;
                    assert(li.take(q + 1) =~= li.take(q).push(col));
                    assert(ld.take(q + 1) =~= ld.take(q).push(x));
                    lemma_weighted_push(li.take(q), ld.take(q), g, col, x);
                    let pr = x * y;
                    lemma_wrap_inner(acc as int, pr);
                    lemma_wrap_inner(pr, w);
                    assert(acc as int + pr == pr + acc as int);
                    assert(w + pr == pr + w);
                }
                acc = ring_add(acc, ring_mul(x, y));
                p = p + 1;
            }
            proof {
                assert(li.take(end - start) =~= li);
                assert(ld.take(end - start) =~= ld);
                lemma_weighted_dense(li, ld, g, m.ncols);
                lemma_range_sum_ext(
                    |k: int| lane_val(li, ld, k) * g(k),
                    |k: int| m.val(i as int, k) * b@[k][j as int],
                    m.ncols,
                );
            }
            row.push(acc);
            j = j + 1;
        }
        c.push(row);
        proof {
            assert(c@[i as int] == row);
        }
        i = i + 1;
    }
    c
}

/// The exact entry (`i`, `j`) of the product of two sparse matrices.
pub open spec fn sparse_product_entry(a: SpMat, b: SpMat, i: int, j: int) -> int {
    range_sum(|k: int| a.val(i, k) * b.val(k, j), a.ncols)
}

/// The product of two canonical sparse matrices, as a canonical CSR matrix.
/// Entry (`i`, `j`) is the merge of row `i` of `a` with column `j` of `b`; it
/// is stored only where it is not zero. Fails with `DimensionMismatch` when
/// the inner dimensions differ and with `NotSorted` on a non-canonical operand.
pub fn mul_sparse(a: &CsMatBase, b: &CsMatBase) -> (r: Result<CsMatBase, SprsError>)
    ensures
        a@.ncols != b@.nrows <==> r == Err::<CsMatBase, SprsError>(SprsError::DimensionMismatch),
        a@.ncols == b@.nrows && !(a@.canonical() && b@.canonical()) <==> r == Err::<
            CsMatBase,
            SprsError,
        >(SprsError::NotSorted),
        r is Ok <==> a@.ncols == b@.nrows && a@.canonical() && b@.canonical(),
        r matches Ok(c) ==> {
            &&& c@.storage == CompressedStorage::CSR
            &&& c@.nrows == a@.nrows
            &&& c@.ncols == b@.ncols
            &&& c@.canonical()
            &&& forall|i: int, j: int|
                0 <= i < a@.nrows && 0 <= j < b@.ncols ==> #[trigger] c@.val(i, j) == wrap(
                    sparse_product_entry(a@, b@, i, j),
                )
            &&& forall|i: int, x: int|
                0 <= i < a@.nrows && 0 <= x < c@.lane_data(i).len() ==> #[trigger] c@.lane_data(i)[x] != 0
        },
{
    if a.cols() != b.rows() {
        return Err(SprsError::DimensionMismatch);
    }
    if !a.is_canonical() || !b.is_canonical() {
        return Err(SprsError::NotSorted);
    }
    if a.is_csr() {
        if b.is_csc() {
            let c = mul_csr_csc(a, b);
            Ok(c)
        } else {
            let bc = b.to_other_storage();
            let c = mul_csr_csc(a, &bc);
            proof {
                lemma_same_product(a@, bc@, a@, b@);
            }
            Ok(c)
        }
    } else {
        let ar = a.to_other_storage();
        if b.is_csc() {
            let c = mul_csr_csc(&ar, b);
            proof {
                lemma_same_product(ar@, b@, a@, b@);
            }
            Ok(c)
        } else {
            let bc = b.to_other_storage();
            let c = mul_csr_csc(&ar, &bc);
            proof {
                lemma_same_product(ar@, bc@, a@, b@);
            }
            Ok(c)
        }
    }
}

/// Operands with the same values have the same product entries.
proof fn lemma_same_product(a2: SpMat, b2: SpMat, a: SpMat, b: SpMat)
    requires
        a2.nrows == a.nrows,
        a2.ncols == a.ncols,
        b2.nrows == b.nrows,
        b2.ncols == b.ncols,
        forall|i: int, k: int| 0 <= i < a.nrows && 0 <= k < a.ncols ==> #[trigger] a2.val(i, k) == a.val(i, k),
        forall|k: int, j: int| 0 <= k < b.nrows && 0 <= j < b.ncols ==> #[trigger] b2.val(k, j) == b.val(k, j),
        a.ncols == b.nrows,
    ensures
        forall|i: int, j: int|
            0 <= i < a.nrows && 0 <= j < b.ncols ==> #[trigger] sparse_product_entry(a2, b2, i, j)
                == sparse_product_entry(a, b, i, j),
{
    assert forall|i: int, j: int| 0 <= i < a.nrows && 0 <= j < b.ncols implies #[trigger] sparse_product_entry(
        a2,
        b2,
        i,
        j,
    ) == sparse_product_entry(a, b, i, j) by {
        lemma_range_sum_ext(
            |k: int| a2.val(i, k) * b2.val(k, j),
            |k: int| a.val(i, k) * b.val(k, j),
            a.ncols,
        );
    }
}

/// Row `i` of `ar` merged with column `j` of `bc` for every (`i`, `j`).
fn mul_csr_csc(ar: &CsMatBase, bc: &CsMatBase) -> (c: CsMatBase)
    requires
        ar@.storage == CompressedStorage::CSR,
        bc@.storage == CompressedStorage::CSC,
        ar@.canonical(),
        bc@.canonical(),
        ar@.ncols == bc@.nrows,
    ensures
        c@.storage == CompressedStorage::CSR,
        c@.nrows == ar@.nrows,
        c@.ncols == bc@.ncols,
        c@.canonical(),
        forall|i: int, j: int|
            0 <= i < ar@.nrows && 0 <= j < bc@.ncols ==> #[trigger] c@.val(i, j) == wrap(
                sparse_product_entry(ar@, bc@, i, j),
            ),
        forall|i: int, x: int|
            0 <= i < ar@.nrows && 0 <= x < c@.lane_data(i).len() ==> #[trigger] c@.lane_data(i)[x] != 0,
{
    let n = ar.rows();
    let p = bc.cols();
    let ghost ma = ar@;
    let ghost mb = bc@;
    let mut ip: Vec<usize> = Vec::new();
    ip.push(0);
    let mut ni: Vec<usize> = Vec::new();
    let mut nd: Vec<i64> = Vec::new();
    let mut i: usize = 0;
    while i < n
        invariant
            i <= n,
            n == ma.nrows,
            p == mb.ncols,
            ma == ar@,
            mb == bc@,
            ma.storage == CompressedStorage::CSR,
            mb.storage == CompressedStorage::CSC,
            ma.canonical(),
            mb.canonical(),
            ma.ncols == mb.nrows,
            ip.len() == i + 1,
            ip@[0] == 0,
            ip@[i as int] == ni.len(),
            ni.len() == nd.len(),
            forall|x: int, y: int| 0 <= x <= y <= i ==> ip@[x] <= ip@[y],
            bounded(ni@, p as int),
            forall|q: int| 0 <= q < i ==> strictly_sorted(#[trigger] seg(ip@, ni@, q)),
            forall|q: int, j: int|
                0 <= q < i ==> #[trigger] lane_val(seg(ip@, ni@, q), seg(ip@, nd@, q), j) == (if 0
                    <= j < p {
                    wrap(sparse_product_entry(ma, mb, q, j)) as int
                } else {
                    0
                }),
            forall|q: int, x: int|
                0 <= q < i && 0 <= x < seg(ip@, nd@, q).len() ==> #[trigger] seg(ip@, nd@, q)[x] != 0,
        decreases n - i,
    {
        let u = ar.outer_view(i).unwrap();
        let mut li: Vec<usize> = Vec::new();
        let mut ld: Vec<i64> = Vec::new();
        let mut j: usize = 0;
        while j < p
            invariant
                j <= p,
                i < n,
                n == ma.nrows,
                p == mb.ncols,
                ma == ar@,
                mb == bc@,
                ma.storage == CompressedStorage::CSR,
                mb.storage == CompressedStorage::CSC,
                ma.canonical(),
                mb.canonical(),
                ma.ncols == mb.nrows,
                u@.dim == ma.ncols,
                u@.indices == ma.lane_idx(i as int),
                u@.data == ma.lane_data(i as int),
                li.len() == ld.len(),
                bounded(li@, j as int),
                strictly_sorted(li@),
                forall|x: int| 0 <= x < ld.len() ==> #[trigger] ld@[x] != 0,
                forall|k: int| #[trigger] lane_val(li@, ld@, k) == (if 0 <= k < j {
                    wrap(sparse_product_entry(ma, mb, i as int, k)) as int
                } else {
                    0
                }),
            decreases p - j,
        {
            let v = bc.outer_view(j).unwrap();
            proof {
                assert(strictly_sorted(ma.lane_idx(i as int)));
                assert(strictly_sorted(mb.lane_idx(j as int)));
            }
            let d = u.dot(&v).unwrap();
            proof {
                lemma_range_sum_ext(
                    |k: int| u@.val(k) * v@.val(k),
                    |k: int| ma.val(i as int, k) * mb.val(k, j as int),
                    ma.ncols,
                );
                assert(d == wrap(sparse_product_entry(ma, mb, i as int, j as int)));
            }
            let ghost li0 = li@;
            let ghost ld0 = ld@;
            if d != 0 {
                li.push(j);
                ld.push(d);
            }
            proof {
                assert forall|k: int| #[trigger] lane_val(li@, ld@, k) == (if 0 <= k < j + 1 {
                    wrap(sparse_product_entry(ma, mb, i as int, k)) as int
                } else {
                    0
                }) by {
                    if d != 0 {
                        lemma_lane_push(li0, ld0, j, d, k);
                    }
                }
            }
            j = j + 1;
        }
        let ghost ip0 = ip@;
        let ghost ni0 = ni@;
        let ghost nd0 = nd@;
        let ghost ti = li@;
        let ghost td = ld@;
        ni.append(&mut li);
        nd.append(&mut ld);
        ip.push(ni.len());
        proof {
            lemma_seg_append(ip0, ni0, ti, i as int);
            lemma_seg_append(ip0, nd0, td, i as int);
            assert(ip@ == ip0.push((ni0.len() + ti.len()) as usize));
            assert forall|q: int| 0 <= q < i + 1 implies strictly_sorted(#[trigger] seg(ip@, ni@, q)) by {
                if q < i {
                    assert(seg(ip@, ni@, q) == seg(ip0, ni0, q));
                }
            }
            assert forall|q: int, x: int|
                0 <= q < i + 1 && 0 <= x < seg(ip@, nd@, q).len() implies #[trigger] seg(ip@, nd@, q)[x] != 0 by {
                if q < i {
                    assert(seg(ip@, nd@, q) == seg(ip0, nd0, q));
                }
            }
            assert forall|q: int, j: int|
                0 <= q < i + 1 implies #[trigger] lane_val(seg(ip@, ni@, q), seg(ip@, nd@, q), j) == (if 0
                    <= j < p {
                    wrap(sparse_product_entry(ma, mb, q, j)) as int
                } else {
                    0
                }) by {
                if q < i {
                    assert(seg(ip@, ni@, q) == seg(ip0, ni0, q));
                    assert(seg(ip@, nd@, q) == seg(ip0, nd0, q));
                }
            }
        }
        i = i + 1;
    }
    CsMatBase::from_parts(CompressedStorage::CSR, n, p, ip, ni, nd)
}

} // verus!
