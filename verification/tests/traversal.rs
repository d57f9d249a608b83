//! Tests of the traversal generator: coverage, adjacency, determinism,
//! the concrete small-depth paths, and the lazy/eager duality.

use hilbert_product::{hilbert_iter, log2, HilbertIter};

fn manhattan(a: (usize, usize), b: (usize, usize)) -> usize {
    let di = if a.0 > b.0 { a.0 - b.0 } else { b.0 - a.0 };
    let dj = if a.1 > b.1 { a.1 - b.1 } else { b.1 - a.1 };
    di + dj
}

#[test]
fn test_depth_zero_traversal() {
    let coords = hilbert_iter(0);
    assert_eq!(coords, vec![(0, 0)]);

    let mut it = HilbertIter::new(0);
    assert_eq!(it.next(), Some((0, (0, 0))));
    assert_eq!(it.next(), None);
}

#[test]
fn test_depth_one_traversal() {
    let coords = hilbert_iter(1);
    assert_eq!(coords, vec![(0, 0), (1, 0), (1, 1), (0, 1)]);
    for w in coords.windows(2) {
        assert_eq!(manhattan(w[0], w[1]), 1);
    }
}

#[test]
fn test_coverage() {
    for depth in 0..6usize {
        let side = 1usize << depth;
        let coords = hilbert_iter(depth);
        assert_eq!(coords.len(), side * side);
        assert_eq!(coords[0], (0, 0));
        let mut seen = vec![false; side * side];
        for &(i, j) in &coords {
            assert!(i < side && j < side);
            assert!(!seen[i * side + j], "cell visited twice");
            seen[i * side + j] = true;
        }
        assert!(seen.iter().all(|&s| s), "cell never visited");
    }
}

#[test]
fn test_adjacency() {
    for depth in 1..6usize {
        let coords = hilbert_iter(depth);
        for w in coords.windows(2) {
            assert_eq!(manhattan(w[0], w[1]), 1);
        }
    }
}

#[test]
fn test_determinism() {
    let first = hilbert_iter(5);
    let second = hilbert_iter(5);
    assert_eq!(first, second);

    let mut it1 = HilbertIter::new(4);
    let mut it2 = HilbertIter::new(4);
    loop {
        let a = it1.next();
        let b = it2.next();
        assert_eq!(a, b);
        if a.is_none() {
            break;
        }
    }
}

#[test]
fn test_lazy_matches_eager() {
    let depth = 3usize;
    let coords = hilbert_iter(depth);
    let mut it = HilbertIter::new(depth);
    let mut pulled: Vec<(usize, (usize, usize))> = Vec::new();
    while let Some(p) = it.next() {
        pulled.push(p);
    }
    assert_eq!(pulled.len(), coords.len());
    for (k, &(t, c)) in pulled.iter().enumerate() {
        assert_eq!(t, k);
        assert_eq!(c, coords[k]);
    }
}

#[test]
fn test_over_iteration_stays_exhausted() {
    let mut it = HilbertIter::new(2);
    let mut count = 0;
    while it.next().is_some() {
        count += 1;
    }
    assert_eq!(count, 16);
    assert_eq!(it.next(), None);
    assert_eq!(it.next(), None);
}

#[test]
fn test_log2_values() {
    assert_eq!(log2(0), 0);
    assert_eq!(log2(1), 0);
    assert_eq!(log2(2), 1);
    assert_eq!(log2(3), 1);
    assert_eq!(log2(4), 2);
    assert_eq!(log2(7), 2);
    assert_eq!(log2(8), 3);
    assert_eq!(log2(1024), 10);
    assert_eq!(log2(2048), 11);
}
