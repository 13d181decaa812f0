use vstd::prelude::*;
use crate::errors::SprsError;
use crate::lane::{has, lemma_has_push, lemma_lane_absent, lemma_lane_lookup, strictly_sorted, bounded};
use crate::ring::{ring_add, ring_mul, wrap};
use crate::vec::CsVecBase;
use crate::csmat::{CsMatBase, seg, lemma_seg_append};

verus! {

/// The elementwise operation applied to matching entries.
#[derive(PartialEq, Eq, Structural, Debug, Clone, Copy)]
pub enum BinOp {
    Add,
    Mul,
}

/// Which indices the result keeps: those of either operand, or those of both.
#[derive(PartialEq, Eq, Structural, Debug, Clone, Copy)]
pub enum BinOpMode {
    Union,
    Intersection,
}

/// The exact result of an operation on two values.
pub open spec fn apply(op: BinOp, a: int, b: int) -> int {
    match op {
        BinOp::Add => a + b,
        BinOp::Mul => a * b,
    }
}

/// Whether the result of a binary operation keeps index `k`.
pub open spec fn keeps(mode: BinOpMode, in_left: bool, in_right: bool) -> bool {
    match mode {
        BinOpMode::Union => in_left || in_right,
        BinOpMode::Intersection => in_left && in_right,
    }
}

fn apply_exec(op: BinOp, a: i64, b: i64) -> (r: i64)
    ensures
        r == wrap(apply(op, a as int, b as int)),
{
    match op {
        BinOp::Add => ring_add(a, b),
        BinOp::Mul => ring_mul(a, b),
    }
}

/// Combines two canonical vectors of one dimension entry by entry, with a
/// linear merge of their index streams. An index present on one side only is
/// combined with zero in union mode and dropped in intersection mode. The
/// result is canonical.
pub fn csvec_binop(
    lhs: &CsVecBase,
    rhs: &CsVecBase,
    op: BinOp,
    mode: BinOpMode,
) -> (r: Result<CsVecBase, SprsError>)
    ensures
        lhs@.dim != rhs@.dim <==> r == Err::<CsVecBase, SprsError>(SprsError::DimensionMismatch),
        lhs@.dim == rhs@.dim && !(lhs@.canonical() && rhs@.canonical()) <==> r == Err::<
            CsVecBase,
            SprsError,
        >(SprsError::NotSorted),
        r is Ok <==> lhs@.dim == rhs@.dim && lhs@.canonical() && rhs@.canonical(),
        r matches Ok(w) ==> {
            &&& w@.dim == lhs@.dim
            &&& w@.canonical()
            &&& forall|k: int|
                #[trigger] has(w@.indices, k) <==> keeps(
                    mode,
                    has(lhs@.indices, k),
                    has(rhs@.indices, k),
                )
            &&& forall|p: int|
                0 <= p < w@.data.len() ==> #[trigger] w@.data[p] == wrap(
                    apply(op, lhs@.val(w@.indices[p] as int), rhs@.val(w@.indices[p] as int)),
                )
        },
{
    if lhs.dim() != rhs.dim() {
        return Err(SprsError::DimensionMismatch);
    }
    if !lhs.is_canonical() || !rhs.is_canonical() {
        return Err(SprsError::NotSorted);
    }
    let ui = lhs.indices();
    let ud = lhs.data();
    let vi = rhs.indices();
    let vd = rhs.data();
    let n1 = ui.len();
    let n2 = vi.len();
    let ghost u = lhs@;
    let ghost v = rhs@;
    let mut oi: Vec<usize> = Vec::new();
    let mut od: Vec<i64> = Vec::new();
    let mut i: usize = 0;
    let mut j: usize = 0;
    while i < n1 || j < n2
        invariant
            i <= n1,
            j <= n2,
            n1 == u.indices.len(),
            n1 == u.data.len(),
            n2 == v.indices.len(),
            n2 == v.data.len(),
            ui@ == u.indices,
            ud@ == u.data,
            vi@ == v.indices,
            vd@ == v.data,
            u.canonical(),
            v.canonical(),
            bounded(u.indices, u.dim as int),
            bounded(v.indices, v.dim as int),
            u.dim == v.dim,
            oi.len() == od.len(),
            strictly_sorted(oi@),
            bounded(oi@, u.dim as int),
            i < n1 ==> forall|b: int| 0 <= b < j ==> v.indices[b] < u.indices[i as int],
            j < n2 ==> forall|a: int| 0 <= a < i ==> u.indices[a] < v.indices[j as int],
            i < n1 ==> forall|p: int| 0 <= p < oi.len() ==> oi@[p] < u.indices[i as int],
            j < n2 ==> forall|p: int| 0 <= p < oi.len() ==> oi@[p] < v.indices[j as int],
            forall|k: int|
                #[trigger] has(oi@, k) <==> keeps(
                    mode,
                    has(u.indices.take(i as int), k),
                    has(v.indices.take(j as int), k),
                ),
            forall|p: int|
                0 <= p < od.len() ==> #[trigger] od@[p] == wrap(
                    apply(op, u.val(oi@[p] as int), v.val(oi@[p] as int)),
                ),
        decreases (n1 - i) + (n2 - j),
    {
        let ghost oi0 = oi@;
        let ghost od0 = od@;
        if i < n1 && (j >= n2 || ui[i] < vi[j]) {
            let k0 = ui[i];
            proof {
                assert(u.indices.take(i + 1) =~= u.indices.take(i as int).push(k0));
                assert forall|b: int| 0 <= b < n2 implies v.indices[b] != k0 by {
                    if b >= j {
                        assert(v.indices[j as int] <= v.indices[b]);
                    }
                }
                lemma_lane_absent(v.indices, v.data, k0 as int);
                lemma_lane_lookup(u.indices, u.data, i as int);
                if has(v.indices.take(j as int), k0 as int) {
                    let b = choose|b: int|
                        0 <= b < j && v.indices.take(j as int)[b] == k0 as int;
                    assert(v.indices[b] == k0);
                }
                if i + 1 < n1 {
                    assert(u.indices[i as int] < u.indices[i + 1]);
                }
            }
            if mode == BinOpMode::Union {
                let x = apply_exec(op, ud[i], 0);
                oi.push(k0);
                od.push(x);
            }
            proof {
                assert forall|k: int|
                    #[trigger] has(oi@, k) <==> keeps(
                        mode,
                        has(u.indices.take(i + 1), k),
                        has(v.indices.take(j as int), k),
                    ) by {
                    lemma_has_push(u.indices.take(i as int), k0, k);
                    lemma_has_push(oi0, k0, k);
                }
            }
            i = i + 1;
        } else if j < n2 && (i >= n1 || vi[j] < ui[i]) {
            let k0 = vi[j];
            proof {
                assert(v.indices.take(j + 1) =~= v.indices.take(j as int).push(k0));
                assert forall|a: int| 0 <= a < n1 implies u.indices[a] != k0 by {
                    if a >= i {
                        assert(u.indices[i as int] <= u.indices[a]);
                    }
                }
                lemma_lane_absent(u.indices, u.data, k0 as int);
                lemma_lane_lookup(v.indices, v.data, j as int);
                if has(u.indices.take(i as int), k0 as int) {
                    let a = choose|a: int|
                        0 <= a < i && u.indices.take(i as int)[a] == k0 as int;
                    assert(u.indices[a] == k0);
                }
                if j + 1 < n2 {
                    assert(v.indices[j as int] < v.indices[j + 1]);
                }
            }
            if mode == BinOpMode::Union {
                let x = apply_exec(op, 0, vd[j]);
                oi.push(k0);
                od.push(x);
            }
            proof {
                assert forall|k: int|
                    #[trigger] has(oi@, k) <==> keeps(
                        mode,
                        has(u.indices.take(i as int), k),
                        has(v.indices.take(j + 1), k),
                    ) by {
                    lemma_has_push(v.indices.take(j as int), k0, k);
                    lemma_has_push(oi0, k0, k);
                }
            }
            j = j + 1;
        } else {
            let k0 = ui[i];
            proof {
                assert(u.indices.take(i + 1) =~= u.indices.take(i as int).push(k0));
                assert(v.indices.take(j + 1) =~= v.indices.take(j as int).push(k0));
                lemma_lane_lookup(u.indices, u.data, i as int);
                lemma_lane_lookup(v.indices, v.data, j as int);
                if i + 1 < n1 {
                    assert(u.indices[i as int] < u.indices[i + 1]);
                }
                if j + 1 < n2 {
                    assert(v.indices[j as int] < v.indices[j + 1]);
                }
            }
            let x = apply_exec(op, ud[i], vd[j]);
            oi.push(k0);
            od.push(x);
            proof {
                assert forall|k: int|
                    #[trigger] has(oi@, k) <==> keeps(
                        mode,
                        has(u.indices.take(i + 1), k),
                        has(v.indices.take(j + 1), k),
                    ) by {
                    lemma_has_push(u.indices.take(i as int), k0, k);
                    lemma_has_push(v.indices.take(j as int), k0, k);
                    lemma_has_push(oi0, k0, k);
                }
            }
            i = i + 1;
            j = j + 1;
        }
    }
    proof {
        assert(u.indices.take(n1 as int) =~= u.indices);
        assert(v.indices.take(n2 as int) =~= v.indices);
    }
    CsVecBase::new(lhs.dim(), oi, od)
}

/// Combines two canonical matrices of one layout and shape entry by entry,
/// lane by lane, as `csvec_binop` does for vectors. Fails with
/// `DimensionMismatch` on different shapes or layouts and with `NotSorted` on
/// a non-canonical operand.
pub fn csmat_binop(
    lhs: &CsMatBase,
    rhs: &CsMatBase,
    op: BinOp,
    mode: BinOpMode,
) -> (r: Result<CsMatBase, SprsError>)
    ensures
        (lhs@.nrows != rhs@.nrows || lhs@.ncols != rhs@.ncols || lhs@.storage != rhs@.storage)
            <==> r == Err::<CsMatBase, SprsError>(SprsError::DimensionMismatch),
        r is Ok <==> lhs@.nrows == rhs@.nrows && lhs@.ncols == rhs@.ncols && lhs@.storage
            == rhs@.storage && lhs@.canonical() && rhs@.canonical(),
        r is Err ==> r == Err::<CsMatBase, SprsError>(SprsError::DimensionMismatch) || r == Err::<
            CsMatBase,
            SprsError,
        >(SprsError::NotSorted),
        r matches Ok(w) ==> {
            &&& w@.storage == lhs@.storage
            &&& w@.nrows == lhs@.nrows
            &&& w@.ncols == lhs@.ncols
            &&& w@.canonical()
            &&& forall|o: int, k: int|
                0 <= o < lhs@.outer() ==> #[trigger] has(w@.lane_idx(o), k) == keeps(
                    mode,
                    has(lhs@.lane_idx(o), k),
                    has(rhs@.lane_idx(o), k),
                )
            &&& forall|o: int, x: int|
                0 <= o < lhs@.outer() && 0 <= x < w@.lane_data(o).len() ==> #[trigger] w@.lane_data(o)[x]
                    == wrap(apply(op, lhs@.at(o, w@.lane_idx(o)[x] as int), rhs@.at(o, w@.lane_idx(o)[x] as int)))
        },
{
    if lhs.rows() != rhs.rows() || lhs.cols() != rhs.cols() || lhs.storage() != rhs.storage() {
        return Err(SprsError::DimensionMismatch);
    }
    if !lhs.is_canonical() || !rhs.is_canonical() {
        return Err(SprsError::NotSorted);
    }
    let ghost a = lhs@;
    let ghost b = rhs@;
    let outer = lhs.outer_dims();
    let inner = lhs.inner_dims();
    let mut ip: Vec<usize> = Vec::new();
    ip.push(0);
    let mut ni: Vec<usize> = Vec::new();
    let mut nd: Vec<i64> = Vec::new();
    let mut o: usize = 0;
    while o < outer
        invariant
            o <= outer,
            a == lhs@,
            b == rhs@,
            outer == a.outer(),
            inner == a.inner(),
            a.storage == b.storage,
            a.nrows == b.nrows,
            a.ncols == b.ncols,
            a.canonical(),
            b.canonical(),
            ip.len() == o + 1,
            ip@[0] == 0,
            ip@[o as int] == ni.len(),
            ni.len() == nd.len(),
            forall|x: int, y: int| 0 <= x <= y <= o ==> ip@[x] <= ip@[y],
            bounded(ni@, inner as int),
            forall|q: int| 0 <= q < o ==> strictly_sorted(#[trigger] seg(ip@, ni@, q)),
            forall|q: int, k: int|
                0 <= q < o ==> #[trigger] has(seg(ip@, ni@, q), k) == keeps(
                    mode,
                    has(a.lane_idx(q), k),
                    has(b.lane_idx(q), k),
                ),
            forall|q: int, x: int|
                0 <= q < o && 0 <= x < seg(ip@, nd@, q).len() ==> #[trigger] seg(ip@, nd@, q)[x]
                    == wrap(apply(op, a.at(q, seg(ip@, ni@, q)[x] as int), b.at(q, seg(ip@, ni@, q)[x] as int))),
        decreases outer - o,
    {
        let u = lhs.outer_view(o).unwrap();
        let v = rhs.outer_view(o).unwrap();
        proof {
            assert(strictly_sorted(a.lane_idx(o as int)));
            assert(strictly_sorted(b.lane_idx(o as int)));
        }
        let w = csvec_binop(&u, &v, op, mode).unwrap();
        let (_, mut li, mut ld) = w.into_raw_storage();
        let ghost ip0 = ip@;
        let ghost ni0 = ni@;
        let ghost nd0 = nd@;
        let ghost ti = li@;
        let ghost td = ld@;
        ni.append(&mut li);
        nd.append(&mut ld);
        ip.push(ni.len());
        proof {
            lemma_seg_append(ip0, ni0, ti, o as int);
            lemma_seg_append(ip0, nd0, td, o as int);
            assert(ip@ == ip0.push((ni0.len() + ti.len()) as usize));
            assert forall|q: int| 0 <= q < o + 1 implies strictly_sorted(#[trigger] seg(ip@, ni@, q)) by {
                if q < o {
                    assert(seg(ip@, ni@, q) == seg(ip0, ni0, q));
                }
            }
            assert forall|q: int, k: int| 0 <= q < o + 1 implies #[trigger] has(seg(ip@, ni@, q), k) == keeps(
                mode,
                has(a.lane_idx(q), k),
                has(b.lane_idx(q), k),
            ) by {
                if q < o {
                    assert(seg(ip@, ni@, q) == seg(ip0, ni0, q));
                }
            }
            assert forall|q: int, x: int|
                0 <= q < o + 1 && 0 <= x < seg(ip@, nd@, q).len() implies #[trigger] seg(ip@, nd@, q)[x]
                    == wrap(apply(op, a.at(q, seg(ip@, ni@, q)[x] as int), b.at(q, seg(ip@, ni@, q)[x] as int))) by {
                if q < o {
                    assert(seg(ip@, ni@, q) == seg(ip0, ni0, q));
                    assert(seg(ip@, nd@, q) == seg(ip0, nd0, q));
                }
            }
        }
        o = o + 1;
    }
    Ok(CsMatBase::from_parts(lhs.storage(), lhs.rows(), lhs.cols(), ip, ni, nd))
}

} // verus!
