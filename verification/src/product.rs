//! Matrix flattening and the two product engines.
//!
//! Both engines compute `output[i] += sum over j of a[i][j] * v[j]` for an
//! `n x n` matrix stored row-major in a flat buffer.  The naive engine
//! iterates rows then columns; the curve engine iterates a traversal order
//! and reads the matrix from a buffer permuted into visitation order by
//! [`flatten_matrix`].  Their contracts are exact, so their agreement on a
//! valid traversal order is a theorem ([`crate::product_props`]).

use vstd::prelude::*;

verus! {

use vstd::math::abs;

/// The sum of the first `k` products of row `i`:
/// `a[n*i + 0] * v[0] + ... + a[n*i + (k-1)] * v[k-1]`.
pub open spec fn dot_prefix(a: Seq<i32>, v: Seq<i32>, i: int, n: int, k: int) -> int
    decreases k,
{
    if k <= 0 {
        0
    } else {
        dot_prefix(a, v, i, n, k - 1) + a[n * i + (k - 1)] * v[k - 1]
    }
}

/// The full dot product of row `i` of the matrix with the vector.
pub open spec fn row_dot(a: Seq<i32>, v: Seq<i32>, i: int, n: int) -> int {
    dot_prefix(a, v, i, n, n)
}

/// The sum of the absolute values of the first `k` products of row `i`.
pub open spec fn dot_abs_prefix(a: Seq<i32>, v: Seq<i32>, i: int, n: int, k: int) -> int
    decreases k,
{
    if k <= 0 {
        0
    } else {
        dot_abs_prefix(a, v, i, n, k - 1) + abs(a[n * i + (k - 1)] * v[k - 1])
    }
}

/// The sum of the absolute values of all products of row `i`; a bound of
/// the form `abs(output[i]) + row_abs(..) <= i32::MAX` rules out overflow
/// in whatever order the products are accumulated.
pub open spec fn row_abs(a: Seq<i32>, v: Seq<i32>, i: int, n: int) -> int {
    dot_abs_prefix(a, v, i, n, n)
}

/// A partial row sum is bounded by the partial sum of absolute values,
/// which is nonnegative and grows with `k`.
proof fn lemma_dot_prefix_bounds(a: Seq<i32>, v: Seq<i32>, i: int, n: int, k: int)
    ensures
        abs(dot_prefix(a, v, i, n, k)) <= dot_abs_prefix(a, v, i, n, k),
        0 <= dot_abs_prefix(a, v, i, n, k),
    decreases k,
{
    if k > 0 {
        lemma_dot_prefix_bounds(a, v, i, n, k - 1);
    }
}

/// Partial sums of absolute values grow with the prefix length.
proof fn lemma_dot_abs_mono(a: Seq<i32>, v: Seq<i32>, i: int, n: int, k1: int, k2: int)
    requires
        k1 <= k2,
    ensures
        dot_abs_prefix(a, v, i, n, k1) <= dot_abs_prefix(a, v, i, n, k2),
    decreases k2 - k1,
{
    if k1 < k2 {
        lemma_dot_abs_mono(a, v, i, n, k1, k2 - 1);
    }
}

/// Converts the pair `[i][j]` into the flat row-major index `n * i + j`.
#[inline]
fn flat_index(i: usize, j: usize, n: usize) -> (r: usize)
    requires
        i < n,
        j < n,
        n * n <= usize::MAX,
    ensures
        r == n * i + j,
        r < n * n,
{
    proof {
        assert(n * i + j < n * n) by (nonlinear_arith)
            requires
                i < n,
                j < n,
        ;
    }
    n * i + j
}

/// Naive product: row-major accumulation of `a * v` into `output`.
///
/// For every row `i`, `output[i]` grows by the dot product of row `i`
/// with `v`.  The caller keeps the accumulation in `i32` range by the
/// `row_abs` bound.
pub fn naive_matrix_vector_product(a: &Vec<i32>, v: &Vec<i32>, output: &mut Vec<i32>, n: usize)
    requires
        n * n <= usize::MAX,
        a@.len() == n * n,
        v@.len() == n,
        old(output)@.len() == n,
        forall|i: int|
            0 <= i < n ==> abs(old(output)@[i] as int) + row_abs(a@, v@, i, n as int) <= i32::MAX,
    ensures
        final(output)@.len() == n,
        forall|i: int|
            0 <= i < n ==> final(output)@[i] == old(output)@[i] + row_dot(a@, v@, i, n as int),
{
    let mut i: usize = 0;
    while i < n
        invariant
            i <= n,
            a@.len() == n * n,
            v@.len() == n,
            output@.len() == n,
            n * n <= usize::MAX,
            forall|r: int|
                0 <= r < n ==> abs(old(output)@[r] as int) + row_abs(a@, v@, r, n as int) <= i32::MAX,
            forall|r: int|
                0 <= r < i ==> output@[r] == old(output)@[r] + row_dot(a@, v@, r, n as int),
            forall|r: int| i <= r < n ==> output@[r] == old(output)@[r],
        decreases n - i,
    {
        let mut j: usize = 0;
        while j < n
            invariant
                i < n,
                j <= n,
                a@.len() == n * n,
                v@.len() == n,
                output@.len() == n,
                n * n <= usize::MAX,
                forall|r: int|
                    0 <= r < n ==> abs(old(output)@[r] as int) + row_abs(a@, v@, r, n as int)
                        <= i32::MAX,
                forall|r: int|
                    0 <= r < i ==> output@[r] == old(output)@[r] + row_dot(a@, v@, r, n as int),
                forall|r: int| i < r < n ==> output@[r] == old(output)@[r],
                output@[i as int] == old(output)@[i as int] + dot_prefix(
                    a@,
                    v@,
                    i as int,
                    n as int,
                    j as int,
                ),
            decreases n - j,
        {
            proof {
                let ii = i as int;
                let nn = n as int;
                let jj = j as int;
                lemma_dot_prefix_bounds(a@, v@, ii, nn, jj);
                lemma_dot_prefix_bounds(a@, v@, ii, nn, jj + 1);
                lemma_dot_abs_mono(a@, v@, ii, nn, jj + 1, nn);
                assert(abs(old(output)@[ii] as int) + row_abs(a@, v@, ii, nn) <= i32::MAX);
                assert(dot_abs_prefix(a@, v@, ii, nn, jj + 1) == dot_abs_prefix(a@, v@, ii, nn, jj)
                    + abs(a@[nn * ii + jj] * v@[jj]));
                assert(dot_prefix(a@, v@, ii, nn, jj + 1) == dot_prefix(a@, v@, ii, nn, jj) + a@[nn
                    * ii + jj] * v@[jj]);
                assert(abs(a@[nn * ii + jj] * v@[jj]) <= row_abs(a@, v@, ii, nn));
                assert(abs(old(output)@[ii] + dot_prefix(a@, v@, ii, nn, jj + 1)) <= i32::MAX);
            }
            let idx: usize = flat_index(i, j, n);
            let entry: i32 = a[idx] * v[j];
            output.set(i, output[i] + entry);
            j += 1;
        }
        i += 1;
    }
}

/// What one traversal entry contributes to row `i` of the output:
/// `flattened[t] * v[j]` when the entry visits row `i`, nothing otherwise.
pub open spec fn entry_term(
    f: Seq<i32>,
    v: Seq<i32>,
    e: (usize, (usize, usize)),
    i: int,
) -> int {
    if e.1.0 as int == i {
        f[e.0 as int] * v[e.1.1 as int]
    } else {
        0
    }
}

/// The contribution of the first `k` traversal entries to row `i`.
pub open spec fn entries_sum(
    f: Seq<i32>,
    v: Seq<i32>,
    order: Seq<(usize, (usize, usize))>,
    i: int,
    k: int,
) -> int
    decreases k,
{
    if k <= 0 {
        0
    } else {
        entries_sum(f, v, order, i, k - 1) + entry_term(f, v, order[k - 1], i)
    }
}

/// The absolute-value counterpart of [`entry_term`].
pub open spec fn entry_abs(f: Seq<i32>, v: Seq<i32>, e: (usize, (usize, usize)), i: int) -> int {
    if e.1.0 as int == i {
        abs(f[e.0 as int] * v[e.1.1 as int]) as int
    } else {
        0
    }
}

/// The absolute-value counterpart of [`entries_sum`].
pub open spec fn entries_abs(
    f: Seq<i32>,
    v: Seq<i32>,
    order: Seq<(usize, (usize, usize))>,
    i: int,
    k: int,
) -> int
    decreases k,
{
    if k <= 0 {
        0
    } else {
        entries_abs(f, v, order, i, k - 1) + entry_abs(f, v, order[k - 1], i)
    }
}

/// A partial contribution is bounded by the partial sum of absolute
/// values, which is nonnegative and grows with `k`.
proof fn lemma_entries_sum_bounds(
    f: Seq<i32>,
    v: Seq<i32>,
    order: Seq<(usize, (usize, usize))>,
    i: int,
    k: int,
)
    ensures
        abs(entries_sum(f, v, order, i, k)) <= entries_abs(f, v, order, i, k),
        0 <= entries_abs(f, v, order, i, k),
    decreases k,
{
    if k > 0 {
        lemma_entries_sum_bounds(f, v, order, i, k - 1);
    }
}

/// Partial sums of absolute values grow with the prefix length.
proof fn lemma_entries_abs_mono(
    f: Seq<i32>,
    v: Seq<i32>,
    order: Seq<(usize, (usize, usize))>,
    i: int,
    k1: int,
    k2: int,
)
    requires
        k1 <= k2,
    ensures
        entries_abs(f, v, order, i, k1) <= entries_abs(f, v, order, i, k2),
    decreases k2 - k1,
{
    if k1 < k2 {
        lemma_entries_abs_mono(f, v, order, i, k1, k2 - 1);
    }
}

/// Flatten matrix `a` according to the provided traversal order: entry
/// `a[n*i + j]` is copied to position `t` for every `(t, (i, j))` of the
/// order.  Positions no entry names stay zero; when several entries name
/// one position, the last write remains.
pub fn flatten_matrix(
    coordinate_iter: &Vec<(usize, (usize, usize))>,
    a: Vec<i32>,
    n: usize,
) -> (r: Vec<i32>)
    requires
        n * n <= usize::MAX,
        a@.len() == n * n,
        coordinate_iter@.len() == n * n,
        forall|k: int|
            0 <= k < coordinate_iter@.len() ==> {
                let e = #[trigger] coordinate_iter@[k];
                e.0 < n * n && e.1.0 < n && e.1.1 < n
            },
    ensures
        r@.len() == n * n,
        forall|k: int|
            0 <= k < coordinate_iter@.len() && (forall|k2: int|
                k < k2 < coordinate_iter@.len() ==> (#[trigger] coordinate_iter@[k2]).0
                    != coordinate_iter@[k].0) ==> {
                let e = #[trigger] coordinate_iter@[k];
                r@[e.0 as int] == a@[n * (e.1.0 as int) + e.1.1 as int]
            },
        forall|x: int|
            0 <= x < n * n && (forall|k: int|
                0 <= k < coordinate_iter@.len() ==> (#[trigger] coordinate_iter@[k]).0 as int
                    != x) ==> r@[x] == 0,
{
    let nn: usize = n * n;
    let mut flattened: Vec<i32> = Vec::new();
    let mut t: usize = 0;
    while t < nn
        invariant
            t <= nn,
            flattened@.len() == t,
            forall|x: int| 0 <= x < t ==> flattened@[x] == 0i32,
        decreases nn - t,
    {
        flattened.push(0);
        t += 1;
    }
    let mut k: usize = 0;
    while k < coordinate_iter.len()
        invariant
            k <= coordinate_iter@.len(),
            coordinate_iter@.len() == n * n,
            a@.len() == n * n,
            n * n <= usize::MAX,
            flattened@.len() == n * n,
            forall|k1: int|
                0 <= k1 < coordinate_iter@.len() ==> {
                    let e = #[trigger] coordinate_iter@[k1];
                    e.0 < n * n && e.1.0 < n && e.1.1 < n
                },
            forall|k1: int|
                0 <= k1 < k && (forall|k2: int|
                    k1 < k2 < k ==> (#[trigger] coordinate_iter@[k2]).0
                        != coordinate_iter@[k1].0) ==> {
                    let e = #[trigger] coordinate_iter@[k1];
                    flattened@[e.0 as int] == a@[n * (e.1.0 as int) + e.1.1 as int]
                },
            forall|x: int|
                0 <= x < n * n && (forall|k1: int|
                    0 <= k1 < k ==> (#[trigger] coordinate_iter@[k1]).0 as int != x)
                    ==> flattened@[x] == 0i32,
        decreases coordinate_iter@.len() - k,
    {
        let e = coordinate_iter[k];
        let idx: usize = flat_index(e.1.0, e.1.1, n);
        flattened.set(e.0, a[idx]);
        k += 1;
    }
    flattened
}

/// Curve-order product: one pass over the traversal order, accumulating
/// `flattened[t] * v[j]` into `output[i]` for every entry `(t, (i, j))`.
///
/// For every row `i`, `output[i]` grows by the combined contribution of
/// all traversal entries that visit row `i`.  The caller keeps the
/// accumulation in `i32` range by the `entries_abs` bound.
pub fn hilbert_matrix_vector_product(
    flattened_a: &Vec<i32>,
    v: &Vec<i32>,
    output: &mut Vec<i32>,
    coordinate_iter: &Vec<(usize, (usize, usize))>,
)
    requires
        forall|k: int|
            0 <= k < coordinate_iter@.len() ==> {
                let e = #[trigger] coordinate_iter@[k];
                e.0 < flattened_a@.len() && e.1.0 < old(output)@.len() && e.1.1 < v@.len()
            },
        forall|i: int|
            0 <= i < old(output)@.len() ==> abs(old(output)@[i] as int) + entries_abs(
                flattened_a@,
                v@,
                coordinate_iter@,
                i,
                coordinate_iter@.len() as int,
            ) <= i32::MAX,
    ensures
        final(output)@.len() == old(output)@.len(),
        forall|i: int|
            0 <= i < old(output)@.len() ==> final(output)@[i] == old(output)@[i] + entries_sum(
                flattened_a@,
                v@,
                coordinate_iter@,
                i,
                coordinate_iter@.len() as int,
            ),
{
    let mut k: usize = 0;
    while k < coordinate_iter.len()
        invariant
            k <= coordinate_iter@.len(),
            output@.len() == old(output)@.len(),
            forall|k1: int|
                0 <= k1 < coordinate_iter@.len() ==> {
                    let e = #[trigger] coordinate_iter@[k1];
                    e.0 < flattened_a@.len() && e.1.0 < output@.len() && e.1.1 < v@.len()
                },
            forall|i: int|
                0 <= i < output@.len() ==> abs(old(output)@[i] as int) + entries_abs(
                    flattened_a@,
                    v@,
                    coordinate_iter@,
                    i,
                    coordinate_iter@.len() as int,
                ) <= i32::MAX,
            forall|i: int|
                0 <= i < output@.len() ==> output@[i] == old(output)@[i] + entries_sum(
                    flattened_a@,
                    v@,
                    coordinate_iter@,
                    i,
                    k as int,
                ),
        decreases coordinate_iter@.len() - k,
    {
        let e = coordinate_iter[k];
        let row: usize = e.1.0;
        proof {
            let f = flattened_a@;
            let ord = coordinate_iter@;
            let i = row as int;
            lemma_entries_sum_bounds(f, v@, ord, i, k as int);
            lemma_entries_sum_bounds(f, v@, ord, i, k + 1);
            lemma_entries_abs_mono(f, v@, ord, i, k + 1, ord.len() as int);
        }
        let entry: i32 = flattened_a[e.0] * v[e.1.1];
        output.set(row, output[row] + entry);
        k += 1;
    }
}

} // verus!
