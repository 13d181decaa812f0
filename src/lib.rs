//! Sparse vectors and compressed sparse row / column matrices over the ring of
//! `i64` with wrapping arithmetic, with verified construction, normalisation,
//! conversion, products, elementwise operations and permutations.

pub mod errors;
pub mod ring;
pub mod lane;
pub mod utils;
pub mod vec;
pub mod binop;
pub mod csmat;
pub mod triplet;
pub mod prod;
pub mod permutation;

pub use binop::{csmat_binop, csvec_binop, BinOp, BinOpMode};
pub use csmat::{CompressedStorage, CsMat, CsMatBase};
pub use errors::SprsError;
pub use permutation::{permute_inner, permute_outer, PermOwned};
pub use prod::{mul_dense, mul_sparse};
pub use triplet::{TriMat, TriMatBase};
pub use utils::sort_indices_data_slices;
pub use vec::{CsVec, CsVecBase};
