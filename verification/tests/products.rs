//! Tests of flattening and of the two product engines, including the
//! agreement of their results and the recovery of a flattened matrix.

use hilbert_product::{
    flatten_matrix, hilbert_matrix_vector_product, naive_matrix_vector_product, setup_hilbert,
};
use rand::distributions::Uniform;
use rand::Rng;
use rand_chacha::rand_core::SeedableRng;
use rand_chacha::ChaCha8Rng;

#[test]
fn test_naive_product_row_sums() {
    // 4 x 4 matrix of the sequential integers 0..15, against all ones:
    // the output rows are the row sums.
    let n = 4usize;
    let a: Vec<i32> = (0..16).collect();
    let v = vec![1; 4];
    let mut output = vec![0; 4];
    naive_matrix_vector_product(&a, &v, &mut output, n);
    assert_eq!(output, vec![6, 22, 38, 54]);
}

#[test]
fn test_curve_product_row_sums() {
    let n = 4usize;
    let a: Vec<i32> = (0..16).collect();
    let v = vec![1; 4];
    let mut output = vec![0; 4];
    let (coordinate_iter, flattened) = setup_hilbert(n, a);
    hilbert_matrix_vector_product(&flattened, &v, &mut output, &coordinate_iter);
    assert_eq!(output, vec![6, 22, 38, 54]);
}

#[test]
fn test_flatten_depth_one() {
    // Row-major [[1, 2], [3, 4]] in curve order (0,0), (1,0), (1,1), (0,1).
    let a = vec![1, 2, 3, 4];
    let (coordinate_iter, flattened) = setup_hilbert(2, a);
    assert_eq!(
        coordinate_iter,
        vec![(0, (0, 0)), (1, (1, 0)), (2, (1, 1)), (3, (0, 1))]
    );
    assert_eq!(flattened, vec![1, 3, 4, 2]);
}

#[test]
fn test_flatten_roundtrip() {
    // Reconstructing through the inverse permutation recovers the matrix.
    let n = 8usize;
    let a: Vec<i32> = (0..(n * n) as i32).map(|x| 3 * x - 17).collect();
    let (coordinate_iter, flattened) = setup_hilbert(n, a.clone());
    let mut recovered = vec![0; n * n];
    for &(t, (i, j)) in &coordinate_iter {
        recovered[i * n + j] = flattened[t];
    }
    assert_eq!(recovered, a);
}

#[test]
fn test_equality_small_sizes() {
    // The two engines agree on random inputs for several power-of-two sizes.
    let mut rng = ChaCha8Rng::seed_from_u64(7);
    let range = Uniform::new(-50, 50);
    for depth in 0..5usize {
        let n = 1usize << depth;
        let a: Vec<i32> = (0..(n * n)).map(|_| rng.sample(&range)).collect();
        let v: Vec<i32> = (0..n).map(|_| rng.sample(&range)).collect();
        let mut output1 = vec![0; n];
        let mut output2 = vec![0; n];
        naive_matrix_vector_product(&a, &v, &mut output1, n);
        let (coordinate_iter, flattened) = setup_hilbert(n, a);
        hilbert_matrix_vector_product(&flattened, &v, &mut output2, &coordinate_iter);
        assert_eq!(output1, output2);
    }
}

#[test]
fn test_flatten_matrix_direct() {
    // flatten_matrix fills positions in visitation order and keeps sizes.
    let n = 2usize;
    let a = vec![10, 20, 30, 40];
    let order = vec![(0, (0, 0)), (1, (1, 0)), (2, (1, 1)), (3, (0, 1))];
    let flattened = flatten_matrix(&order, a, n);
    assert_eq!(flattened, vec![10, 30, 40, 20]);
}

#[test]
fn test_product_accumulates() {
    // The engines add into the output buffer rather than overwrite it.
    let n = 2usize;
    let a = vec![1, 2, 3, 4];
    let v = vec![1, 1];
    let mut output = vec![100, -100];
    naive_matrix_vector_product(&a, &v, &mut output, n);
    assert_eq!(output, vec![103, -93]);
    let (coordinate_iter, flattened) = setup_hilbert(n, a);
    let mut output2 = vec![100, -100];
    hilbert_matrix_vector_product(&flattened, &v, &mut output2, &coordinate_iter);
    assert_eq!(output2, vec![103, -93]);
}

#[test]
fn test_non_power_of_two_truncates() {
    // The depth is derived as the rounded-down logarithm, so for a grid
    // side that is not a power of two the curve covers only the corner
    // square of the next power of two below: the traversal of a 3 x 3
    // matrix visits only its 2 x 2 corner and the rest of the flattened
    // buffer stays zero.  Sizes must be exact powers of two for the
    // traversal to cover the whole grid.
    let a: Vec<i32> = (1..=9).collect();
    let (coordinate_iter, flattened) = setup_hilbert(3, a);
    assert_eq!(coordinate_iter.len(), 4);
    assert_eq!(flattened, vec![1, 4, 5, 2, 0, 0, 0, 0, 0]);
}
