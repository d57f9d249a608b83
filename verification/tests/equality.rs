//! The benchmark-style comparison of the two product engines on a large
//! seeded random input, accumulated over several runs each.

use hilbert_product::{
    flatten_matrix, hilbert_matrix_vector_product, log2, naive_matrix_vector_product, HilbertIter,
};
use rand::distributions::Uniform;
use rand::Rng;
use rand_chacha::rand_core::SeedableRng;
use rand_chacha::ChaCha8Rng;
use std::time;

#[test]
fn test_equality_of_implementation() {
    let mut rng = ChaCha8Rng::seed_from_u64(10);

    let range = Uniform::new(1, 11);
    let n: usize = 2usize.pow(8);

    let start = time::Instant::now();
    #[allow(non_snake_case)]
    let A: Vec<i32> = (0..(n * n)).map(|_| rng.sample(&range)).collect();
    let v: Vec<i32> = (0..n).map(|_| rng.sample(&range)).collect();
    assert_eq!(v.len(), n);
    let mut output1 = vec![0; n];
    let mut output2 = vec![0; n];
    let end = time::Instant::now();
    println!("Initial data generation: {}s", (end - start).as_secs_f32());

    // Naive
    let timeit_count = 3;
    for _ in 0..timeit_count {
        naive_matrix_vector_product(&A, &v, &mut output1, n);
    }

    // reorder data
    let depth: usize = log2(n);
    let mut it = HilbertIter::new(depth);
    let mut coordinate_iter: Vec<(usize, (usize, usize))> = Vec::new();
    while let Some(p) = it.next() {
        coordinate_iter.push(p);
    }
    #[allow(non_snake_case)]
    let flattened_A = flatten_matrix(&coordinate_iter, A, n);

    // Hilbert Product
    for _ in 0..timeit_count {
        hilbert_matrix_vector_product(&flattened_A, &v, &mut output2, &coordinate_iter);
    }

    assert_eq!(output1, output2);
}
