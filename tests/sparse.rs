use sprs::{
    csvec_binop, mul_dense, permute_outer, sort_indices_data_slices, BinOp, BinOpMode,
    CompressedStorage, CsMatBase, CsVecBase, PermOwned, SprsError, TriMatBase,
};

fn tri(nrows: usize, ncols: usize, entries: &[(usize, usize, i64)]) -> TriMatBase {
    let mut t = TriMatBase::new(nrows, ncols);
    for &(r, c, v) in entries {
        t.add_triplet(r, c, v).unwrap();
    }
    t
}

fn sample_csr() -> CsMatBase {
    // [[1, 0, 2], [0, 0, 3], [4, 5, 0]]
    CsMatBase::new(
        CompressedStorage::CSR,
        3,
        3,
        vec![0, 2, 3, 5],
        vec![0, 2, 2, 0, 1],
        vec![1, 2, 3, 4, 5],
    )
    .unwrap()
}

#[test]
fn identity_round_trip_through_csc() {
    let t = tri(3, 3, &[(0, 0, 1), (1, 1, 1), (2, 2, 1)]);
    let csr = t.to_csr();
    let csc = csr.to_other_storage();
    assert!(csc.is_csc());
    let back = csc.to_other_storage();
    assert!(back.is_csr());
    assert_eq!(back.indptr(), &[0, 1, 2, 3]);
    assert_eq!(back.indices(), &[0, 1, 2]);
    assert_eq!(back.data(), &[1, 1, 1]);
}

#[test]
fn duplicate_triplets_are_summed() {
    let t = tri(2, 2, &[(0, 0, 2), (0, 0, 3), (1, 1, 5)]);
    let m = t.to_csr();
    assert_eq!(m.indptr(), &[0, 1, 2]);
    assert_eq!(m.indices(), &[0, 1]);
    assert_eq!(m.data(), &[5, 5]);
}

#[test]
fn intersection_multiply_keeps_common_indices() {
    let u = CsVecBase::new(5, vec![0, 2, 4], vec![1, 3, 5]).unwrap();
    let v = CsVecBase::new(5, vec![1, 2, 3], vec![2, 7, 4]).unwrap();
    let w = csvec_binop(&u, &v, BinOp::Mul, BinOpMode::Intersection).unwrap();
    assert_eq!(w.dim(), 5);
    assert_eq!(w.indices(), &[2]);
    assert_eq!(w.data(), &[21]);
}

#[test]
fn union_add_merges_patterns() {
    let u = CsVecBase::new(5, vec![0, 2, 4], vec![1, 3, 5]).unwrap();
    let v = CsVecBase::new(5, vec![1, 2, 3], vec![2, 7, 4]).unwrap();
    let w = csvec_binop(&u, &v, BinOp::Add, BinOpMode::Union).unwrap();
    assert_eq!(w.indices(), &[0, 1, 2, 3, 4]);
    assert_eq!(w.data(), &[1, 2, 10, 4, 5]);
}

#[test]
fn binop_errors() {
    let u = CsVecBase::new(5, vec![0, 2], vec![1, 3]).unwrap();
    let v = CsVecBase::new(4, vec![1], vec![2]).unwrap();
    assert_eq!(
        csvec_binop(&u, &v, BinOp::Add, BinOpMode::Union).err(),
        Some(SprsError::DimensionMismatch)
    );
    let unsorted = CsVecBase::new(5, vec![2, 0], vec![1, 3]).unwrap();
    assert_eq!(
        csvec_binop(&u, &unsorted, BinOp::Add, BinOpMode::Union).err(),
        Some(SprsError::NotSorted)
    );
}

#[test]
fn dot_is_symmetric_and_matches_dense() {
    let u = CsVecBase::new(6, vec![0, 2, 3, 5], vec![1, -2, 4, 3]).unwrap();
    let v = CsVecBase::new(6, vec![1, 2, 5], vec![7, 5, -1]).unwrap();
    let uv = u.dot(&v).unwrap();
    let vu = v.dot(&u).unwrap();
    assert_eq!(uv, vu);
    assert_eq!(uv, -13);
    let du = u.to_dense();
    let dv = v.to_dense();
    let dense: i64 = du.iter().zip(dv.iter()).map(|(a, b)| a * b).sum();
    assert_eq!(uv, dense);
}

#[test]
fn dot_without_overlap_is_zero() {
    let u = CsVecBase::new(4, vec![0, 2], vec![1, 2]).unwrap();
    let v = CsVecBase::new(4, vec![1, 3], vec![3, 4]).unwrap();
    assert_eq!(u.dot(&v), Ok(0));
}

#[test]
fn dot_errors() {
    let u = CsVecBase::new(4, vec![0, 2], vec![1, 2]).unwrap();
    let v = CsVecBase::new(5, vec![1], vec![3]).unwrap();
    assert_eq!(u.dot(&v), Err(SprsError::DimensionMismatch));
    let w = CsVecBase::new(4, vec![2, 2], vec![1, 1]).unwrap();
    assert_eq!(u.dot(&w), Err(SprsError::NotSorted));
}

#[test]
fn dot_wraps_on_overflow() {
    let u = CsVecBase::new(1, vec![0], vec![i64::MAX]).unwrap();
    let v = CsVecBase::new(1, vec![0], vec![2]).unwrap();
    assert_eq!(u.dot(&v), Ok(i64::MAX.wrapping_mul(2)));
}

#[test]
fn vector_construction_errors() {
    assert_eq!(
        CsVecBase::new(3, vec![0, 1], vec![1]).err(),
        Some(SprsError::DimensionMismatch)
    );
    assert_eq!(
        CsVecBase::new(3, vec![0, 3], vec![1, 2]).err(),
        Some(SprsError::OutOfBounds)
    );
}

#[test]
fn vector_sort_in_place_keeps_values() {
    let mut v = CsVecBase::new(5, vec![4, 1, 3, 1], vec![10, 20, 30, 40]).unwrap();
    assert!(!v.is_canonical());
    let mut buf = Vec::new();
    v.sort_in_place(&mut buf);
    assert_eq!(v.indices(), &[1, 1, 3, 4]);
    assert_eq!(v.data(), &[20, 40, 30, 10]);
    assert_eq!(v.to_dense(), vec![0, 60, 0, 30, 10]);
}

#[test]
fn sort_keeps_order_of_equal_indices_and_fills_buffer() {
    // two vectors' entries, tagged by origin in the hundreds digit
    let mut indices = vec![0, 2, 4, 1, 2, 3];
    let mut data = vec![1, 2, 3, 104, 105, 106];
    let mut buf = vec![(9, 9); 2];
    sort_indices_data_slices(&mut indices, &mut data, &mut buf);
    assert_eq!(indices, vec![0, 1, 2, 2, 3, 4]);
    assert_eq!(data, vec![1, 104, 2, 105, 106, 3]);
    assert_eq!(buf, vec![(0, 1), (1, 104), (2, 2), (2, 105), (3, 106), (4, 3)]);
}

#[test]
fn sort_in_place_of_distinct_indices_is_canonical() {
    let mut v = CsVecBase::new(6, vec![5, 0, 3], vec![1, 2, 3]).unwrap();
    let mut buf = Vec::new();
    v.sort_in_place(&mut buf);
    assert!(v.is_canonical());
    assert_eq!(v.indices(), &[0, 3, 5]);
    assert_eq!(v.data(), &[2, 3, 1]);
    assert_eq!(buf, vec![(0, 2), (3, 3), (5, 1)]);
    let w = CsVecBase::new(6, vec![3, 5], vec![2, 2]).unwrap();
    assert_eq!(v.dot(&w), Ok(8));
}

#[test]
fn sort_indices_data_is_stable() {
    let mut indices = vec![3, 1, 2, 1, 0];
    let mut data = vec![30, 10, 20, 11, 0];
    let mut buf = Vec::new();
    sort_indices_data_slices(&mut indices, &mut data, &mut buf);
    assert_eq!(indices, vec![0, 1, 1, 2, 3]);
    assert_eq!(data, vec![0, 10, 11, 20, 30]);
}

#[test]
fn compile_then_dense_sums_contributions() {
    let entries = [(0, 1, 3), (2, 0, 1), (0, 1, -1), (1, 2, 4), (2, 0, 6), (1, 0, 2)];
    let t = tri(3, 3, &entries);
    let mut naive = vec![vec![0i64; 3]; 3];
    for &(r, c, v) in entries.iter() {
        naive[r][c] += v;
    }
    assert_eq!(t.to_csr().to_dense(), naive);
    assert_eq!(t.to_csc().to_dense(), naive);
    let csr = t.to_csr();
    assert!(csr.is_canonical());
    assert_eq!(csr.indptr(), &[0, 1, 3, 4]);
    assert_eq!(csr.indices(), &[1, 0, 2, 0]);
    assert_eq!(csr.data(), &[2, 2, 4, 7]);
}

#[test]
fn triplet_errors() {
    let mut t = TriMatBase::new(2, 2);
    assert_eq!(t.add_triplet(2, 0, 1), Err(SprsError::OutOfBounds));
    assert_eq!(t.nnz(), 0);
    assert!(matches!(
        TriMatBase::from_triplets(2, 2, vec![0], vec![0, 1], vec![1]),
        Err(SprsError::DimensionMismatch)
    ));
    assert!(matches!(
        TriMatBase::from_triplets(2, 2, vec![0], vec![5], vec![1]),
        Err(SprsError::OutOfBounds)
    ));
}

#[test]
fn round_trip_keeps_structure() {
    let m = sample_csr();
    let back = m.to_other_storage().to_other_storage();
    assert!(back.is_csr());
    assert_eq!(back.indptr(), m.indptr());
    assert_eq!(back.indices(), m.indices());
    assert_eq!(back.data(), m.data());
}

#[test]
fn other_storage_layout() {
    let csc = sample_csr().to_other_storage();
    assert_eq!(csc.indptr(), &[0, 2, 3, 5]);
    assert_eq!(csc.indices(), &[0, 2, 2, 0, 1]);
    assert_eq!(csc.data(), &[1, 4, 5, 2, 3]);
    assert_eq!(csc.to_dense(), sample_csr().to_dense());
}

#[test]
fn transpose_view_swaps_roles() {
    let m = sample_csr();
    let t = sample_csr().transpose_view();
    assert!(t.is_csc());
    assert_eq!(t.rows(), 3);
    let d = m.to_dense();
    let dt = t.to_dense();
    for r in 0..3 {
        for c in 0..3 {
            assert_eq!(dt[r][c], d[c][r]);
        }
    }
}

#[test]
fn sparse_dense_product_matches_naive() {
    let a = sample_csr();
    let b = vec![vec![1, 2], vec![3, 4], vec![5, 6]];
    let c = mul_dense(&a, &b, 2).unwrap();
    let d = a.to_dense();
    let mut naive = vec![vec![0i64; 2]; 3];
    for i in 0..3 {
        for j in 0..2 {
            for k in 0..3 {
                naive[i][j] += d[i][k] * b[k][j];
            }
        }
    }
    assert_eq!(c, naive);
    assert_eq!(c, vec![vec![11, 14], vec![15, 18], vec![19, 28]]);
    let csc = a.to_other_storage();
    assert_eq!(mul_dense(&csc, &b, 2).unwrap(), naive);
}

#[test]
fn sparse_dense_product_shape_errors() {
    let a = sample_csr();
    assert_eq!(
        mul_dense(&a, &vec![vec![1], vec![2]], 1),
        Err(SprsError::DimensionMismatch)
    );
    assert_eq!(
        mul_dense(&a, &vec![vec![1], vec![2, 3], vec![4]], 1),
        Err(SprsError::DimensionMismatch)
    );
}

#[test]
fn sum_duplicates_is_idempotent() {
    let mut m = CsMatBase::new(
        CompressedStorage::CSR,
        2,
        3,
        vec![0, 3, 5],
        vec![2, 0, 2, 1, 1],
        vec![1, 2, 3, 4, 5],
    )
    .unwrap();
    assert!(!m.is_canonical());
    m.sum_duplicates();
    assert!(m.is_canonical());
    assert_eq!(m.indptr(), &[0, 2, 3]);
    assert_eq!(m.indices(), &[0, 2, 1]);
    assert_eq!(m.data(), &[2, 4, 9]);
    let once = (m.indptr().to_vec(), m.indices().to_vec(), m.data().to_vec());
    m.sum_duplicates();
    assert_eq!(once, (m.indptr().to_vec(), m.indices().to_vec(), m.data().to_vec()));
}

#[test]
fn matrix_construction_errors() {
    let bad_len = CsMatBase::new(CompressedStorage::CSR, 2, 2, vec![0, 1], vec![0], vec![1]);
    assert!(matches!(bad_len, Err(SprsError::BadStructure)));
    let decreasing = CsMatBase::new(CompressedStorage::CSR, 2, 2, vec![0, 2, 1], vec![0, 1], vec![1, 2]);
    assert!(matches!(decreasing, Err(SprsError::BadStructure)));
    let unaligned = CsMatBase::new(CompressedStorage::CSR, 1, 2, vec![0, 1], vec![0], vec![1, 2]);
    assert!(matches!(unaligned, Err(SprsError::BadStructure)));
    let out_of_range = CsMatBase::new(CompressedStorage::CSR, 1, 2, vec![0, 1], vec![2], vec![1]);
    assert!(matches!(out_of_range, Err(SprsError::BadStructure)));
    let csc = CsMatBase::new(CompressedStorage::CSC, 1, 2, vec![0, 1, 1], vec![0], vec![1]);
    assert!(csc.is_ok());
}

#[test]
fn outer_view_copies_lane() {
    let m = sample_csr();
    let v = m.outer_view(2).unwrap();
    assert_eq!(v.dim(), 3);
    assert_eq!(v.indices(), &[0, 1]);
    assert_eq!(v.data(), &[4, 5]);
    assert!(m.outer_view(3).is_none());
}

#[test]
fn permutation_and_inverse_restore_matrix() {
    let m = sample_csr();
    let p = PermOwned::new(vec![2, 0, 1]).unwrap();
    let moved = permute_outer(&m, &p).unwrap();
    // old row 0 goes to position 2
    assert_eq!(moved.indptr(), &[0, 1, 3, 5]);
    assert_eq!(moved.indices(), &[2, 0, 1, 0, 2]);
    assert_eq!(moved.data(), &[3, 4, 5, 1, 2]);
    let back = permute_outer(&moved, &p.inv()).unwrap();
    assert_eq!(back.indptr(), m.indptr());
    assert_eq!(back.indices(), m.indices());
    assert_eq!(back.data(), m.data());
}

#[test]
fn permutation_errors() {
    assert!(matches!(PermOwned::new(vec![0, 0, 1]), Err(SprsError::InvalidPermutation)));
    assert!(matches!(PermOwned::new(vec![0, 3, 1]), Err(SprsError::InvalidPermutation)));
    let p = PermOwned::identity(2);
    assert_eq!(p.at(1), 1);
    assert!(matches!(permute_outer(&sample_csr(), &p), Err(SprsError::DimensionMismatch)));
}

#[test]
fn vector_scale_wraps() {
    let mut v = CsVecBase::new(4, vec![1, 3], vec![2, i64::MAX]).unwrap();
    v.scale(3);
    assert_eq!(v.indices(), &[1, 3]);
    assert_eq!(v.data(), &[6, i64::MAX.wrapping_mul(3)]);
}

#[test]
fn sparse_sparse_product_matches_dense() {
    let a = sample_csr();
    let b = CsMatBase::new(
        CompressedStorage::CSR,
        3,
        2,
        vec![0, 1, 2, 4],
        vec![0, 1, 0, 1],
        vec![1, -1, 2, 3],
    )
    .unwrap();
    let c = sprs::mul_sparse(&a, &b).unwrap();
    assert!(c.is_csr());
    assert!(c.is_canonical());
    let da = a.to_dense();
    let db = b.to_dense();
    let mut naive = vec![vec![0i64; 2]; 3];
    for i in 0..3 {
        for j in 0..2 {
            for k in 0..3 {
                naive[i][j] += da[i][k] * db[k][j];
            }
        }
    }
    assert_eq!(c.to_dense(), naive);
    let c2 = sprs::mul_sparse(&a.to_other_storage(), &b.to_other_storage()).unwrap();
    assert_eq!(c2.to_dense(), naive);
}

#[test]
fn sparse_sparse_product_stores_no_zeros() {
    // [[1, 1]] * [[1], [-1]] = [[0]]
    let a = CsMatBase::new(CompressedStorage::CSR, 1, 2, vec![0, 2], vec![0, 1], vec![1, 1]).unwrap();
    let b = CsMatBase::new(CompressedStorage::CSC, 2, 1, vec![0, 2], vec![0, 1], vec![1, -1]).unwrap();
    let c = sprs::mul_sparse(&a, &b).unwrap();
    assert_eq!(c.nnz(), 0);
    assert_eq!(c.indptr(), &[0, 0]);
    assert_eq!(c.to_dense(), vec![vec![0]]);
}

#[test]
fn sparse_sparse_product_errors() {
    let a = sample_csr();
    let b = CsMatBase::new(CompressedStorage::CSR, 2, 2, vec![0, 0, 0], vec![], vec![]).unwrap();
    assert!(matches!(sprs::mul_sparse(&a, &b), Err(SprsError::DimensionMismatch)));
    let dup = CsMatBase::new(CompressedStorage::CSR, 3, 1, vec![0, 2, 2, 2], vec![0, 0], vec![1, 1]).unwrap();
    assert!(matches!(sprs::mul_sparse(&a, &dup), Err(SprsError::NotSorted)));
}

#[test]
fn inner_permutation_and_inverse_restore_matrix() {
    let m = sample_csr();
    let p = PermOwned::new(vec![1, 2, 0]).unwrap();
    let moved = sprs::permute_inner(&m, &p).unwrap();
    // column 0 goes to 1, column 1 to 2, column 2 to 0
    assert_eq!(moved.indptr(), &[0, 2, 3, 5]);
    assert_eq!(moved.indices(), &[0, 1, 0, 1, 2]);
    assert_eq!(moved.data(), &[2, 1, 3, 4, 5]);
    assert!(moved.is_canonical());
    let back = sprs::permute_inner(&moved, &p.inv()).unwrap();
    assert_eq!(back.indptr(), m.indptr());
    assert_eq!(back.indices(), m.indices());
    assert_eq!(back.data(), m.data());
}

#[test]
fn matrix_binop_union_and_intersection() {
    let a = sample_csr();
    // [[0, 1, 1], [0, 0, 0], [2, 0, 0]]
    let b = CsMatBase::new(
        CompressedStorage::CSR,
        3,
        3,
        vec![0, 2, 2, 3],
        vec![1, 2, 0],
        vec![1, 1, 2],
    )
    .unwrap();
    let sum = sprs::csmat_binop(&a, &b, BinOp::Add, BinOpMode::Union).unwrap();
    assert_eq!(sum.to_dense(), vec![vec![1, 1, 3], vec![0, 0, 3], vec![6, 5, 0]]);
    let prod = sprs::csmat_binop(&a, &b, BinOp::Mul, BinOpMode::Intersection).unwrap();
    assert_eq!(prod.indptr(), &[0, 1, 1, 2]);
    assert_eq!(prod.indices(), &[2, 0]);
    assert_eq!(prod.data(), &[2, 8]);
    let csc = b.to_other_storage();
    assert!(matches!(
        sprs::csmat_binop(&a, &csc, BinOp::Add, BinOpMode::Union),
        Err(SprsError::DimensionMismatch)
    ));
}

#[test]
fn vector_map_transforms_values() {
    let v = CsVecBase::new(5, vec![1, 4], vec![3, -2]).unwrap();
    let w = v.map(|x| x * x + 1);
    assert_eq!(w.dim(), 5);
    assert_eq!(w.indices(), &[1, 4]);
    assert_eq!(w.data(), &[10, 5]);
}

#[test]
fn matrix_map_inplace_keeps_structure() {
    let mut m = sample_csr();
    m.map_inplace(|x| x - 1);
    assert_eq!(m.indptr(), &[0, 2, 3, 5]);
    assert_eq!(m.indices(), &[0, 2, 2, 0, 1]);
    assert_eq!(m.data(), &[0, 1, 2, 3, 4]);
}
