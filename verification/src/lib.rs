//! Hilbert-curve matrix-vector products.
//!
//! A dense `n x n` matrix (stored row-major in a flat buffer) can be
//! multiplied by a vector in the usual row-major order, or in the order in
//! which a discretized Hilbert space-filling curve visits the grid of
//! matrix entries.  The curve order keeps consecutive accesses spatially
//! close, which can improve cache behaviour on large matrices; both orders
//! compute the same product.
//!
//! The traversal of depth `d` covers the `2^d x 2^d` grid: it starts at
//! `(0, 0)`, visits every cell exactly once, and moves by one unit step
//! between consecutive cells ([`curve_props`]).  The two product engines
//! provably agree on it ([`product_props`]).

use vstd::prelude::*;

pub mod grammar;
pub mod curve_props;
pub mod product;
pub mod curve;
pub mod product_props;

pub use curve::HilbertIter;
pub use curve::floor_log2;
pub use curve::hilbert_iter;
pub use curve::log2;
pub use curve::setup_hilbert;
pub use curve_props::hilbert_cells;
pub use curve_props::hilbert_coords;
pub use curve_props::hilbert_order;
pub use curve_props::lemma_traversal_adjacency;
pub use curve_props::lemma_traversal_coverage;
pub use product::flatten_matrix;
pub use product::hilbert_matrix_vector_product;
pub use product::naive_matrix_vector_product;
pub use product_props::lemma_flatten_recovers;
pub use product_props::lemma_hilbert_order_valid;
pub use product_props::lemma_products_agree;

verus! {

/// A grid position: `(row, column)`, both 0-indexed.
pub type Coordinates = (usize, usize);

/// A flat buffer of signed entries; used for matrices (row-major, length
/// `n * n`) and for vectors (length `n`).
pub type Vector = Vec<i32>;

} // verus!
