//! Agreement of the two product engines.
//!
//! A valid traversal order visits every cell of the `n x n` grid exactly
//! once, with sequential visitation indices.  Summing the matrix-vector
//! products in that order therefore regroups, per row, exactly the terms
//! of the row dot product: [`lemma_products_agree`] proves it by peeling
//! the cells of a row off the traversal one column at a time.  Flattening
//! is likewise inverted by the order ([`lemma_flatten_recovers`]), and the
//! traversal of [`crate::curve_props`] is valid
//! ([`lemma_hilbert_order_valid`]).

use vstd::prelude::*;

verus! {

use vstd::arithmetic::power2::pow2;
use vstd::arithmetic::power2::lemma_pow2_pos;
use vstd::math::abs;
use crate::curve_props::hilbert_cells;
use crate::curve_props::hilbert_coords;
use crate::curve_props::hilbert_order;
use crate::curve_props::in_box;
use crate::curve_props::lemma_traversal_coverage;
use crate::product::dot_abs_prefix;
use crate::product::dot_prefix;
use crate::product::entries_abs;
use crate::product::entry_abs;
use crate::product::row_abs;
use crate::product::entries_sum;
use crate::product::entry_term;
use crate::product::row_dot;

/// True when some traversal entry visits cell `(i, j)`.
pub open spec fn order_covers(order: Seq<(usize, (usize, usize))>, i: int, j: int) -> bool {
    exists|k: int|
        0 <= k < order.len() && (#[trigger] order[k]).1 == ((i as usize, j as usize))
}

/// The position of the traversal entry that visits cell `(i, j)`.
pub open spec fn order_position(order: Seq<(usize, (usize, usize))>, i: int, j: int) -> int {
    choose|k: int|
        0 <= k < order.len() && (#[trigger] order[k]).1 == ((i as usize, j as usize))
}

/// A valid traversal order of an `n x n` grid: `n * n` entries, the
/// `k`-th carrying visitation index `k`, with every grid cell visited
/// exactly once.
pub open spec fn valid_traversal(order: Seq<(usize, (usize, usize))>, n: int) -> bool {
    &&& 0 <= n <= usize::MAX
    &&& order.len() == n * n
    &&& forall|k: int| 0 <= k < order.len() ==> (#[trigger] order[k]).0 as int == k
    &&& forall|k: int|
        0 <= k < order.len() ==> ((#[trigger] order[k]).1.0 as int) < n && ((
        order[k]).1.1 as int) < n
    &&& forall|k1: int, k2: int|
        0 <= k1 < k2 < order.len() ==> (#[trigger] order[k1]).1 != (#[trigger] order[k2]).1
    &&& forall|i: int, j: int|
        0 <= i < n && 0 <= j < n ==> #[trigger] order_covers(order, i, j)
}

/// `entries_sum` only depends on the entries of the summed prefix.
proof fn lemma_entries_sum_congruence(
    f: Seq<i32>,
    v: Seq<i32>,
    o1: Seq<(usize, (usize, usize))>,
    o2: Seq<(usize, (usize, usize))>,
    i: int,
    k: int,
)
    requires
        0 <= k <= o1.len(),
        k <= o2.len(),
        forall|x: int| 0 <= x < k ==> o1[x] == o2[x],
    ensures
        entries_sum(f, v, o1, i, k) == entries_sum(f, v, o2, i, k),
    decreases k,
{
    if k > 0 {
        lemma_entries_sum_congruence(f, v, o1, o2, i, k - 1);
    }
}

/// A prefix without entries on row `i` contributes nothing to row `i`.
proof fn lemma_entries_sum_zero(
    f: Seq<i32>,
    v: Seq<i32>,
    order: Seq<(usize, (usize, usize))>,
    i: int,
    k: int,
)
    requires
        0 <= k <= order.len(),
        forall|x: int| 0 <= x < k ==> ((#[trigger] order[x]).1.0 as int) != i,
    ensures
        entries_sum(f, v, order, i, k) == 0,
    decreases k,
{
    if k > 0 {
        lemma_entries_sum_zero(f, v, order, i, k - 1);
    }
}

/// Removing one entry removes exactly its contribution.
proof fn lemma_entries_sum_remove(
    f: Seq<i32>,
    v: Seq<i32>,
    order: Seq<(usize, (usize, usize))>,
    i: int,
    m: int,
)
    requires
        0 <= m < order.len(),
    ensures
        entries_sum(f, v, order.remove(m), i, order.len() - 1) == entries_sum(
            f,
            v,
            order,
            i,
            order.len() as int,
        ) - entry_term(f, v, order[m], i),
    decreases order.len(),
{
    let len = order.len() as int;
    let o2 = order.remove(m);
    assert(o2.len() == len - 1);
    if m == len - 1 {
        assert(forall|x: int| 0 <= x < len - 1 ==> o2[x] == order[x]);
        lemma_entries_sum_congruence(f, v, o2, order, i, len - 1);
    } else {
        let ot = order.take(len - 1);
        assert(o2[len - 2] == order[len - 1]);
        assert(entries_sum(f, v, o2, i, len - 1) == entries_sum(f, v, o2, i, len - 2)
            + entry_term(f, v, order[len - 1], i));
        assert(ot.remove(m).len() == len - 2);
        assert(forall|x: int| 0 <= x < len - 2 ==> ot.remove(m)[x] == o2[x]);
        lemma_entries_sum_congruence(f, v, ot.remove(m), o2, i, len - 2);
        lemma_entries_sum_remove(f, v, ot, i, m);
        assert(forall|x: int| 0 <= x < len - 1 ==> ot[x] == order[x]);
        lemma_entries_sum_congruence(f, v, ot, order, i, len - 1);
        assert(ot[m] == order[m]);
        assert(entries_sum(f, v, order, i, len) == entries_sum(f, v, order, i, len - 1)
            + entry_term(f, v, order[len - 1], i));
    }
}

/// If the entries on row `i` are exactly the cells `(i, 0)` to
/// `(i, c - 1)`, each once, their contribution is the prefix of the row
/// dot product over the first `c` columns.
proof fn lemma_row_sum(
    f: Seq<i32>,
    v: Seq<i32>,
    a: Seq<i32>,
    order: Seq<(usize, (usize, usize))>,
    n: int,
    i: int,
    c: int,
)
    requires
        0 <= i < n <= usize::MAX,
        0 <= c <= n,
        forall|k: int|
            0 <= k < order.len() ==> ((#[trigger] order[k]).1.0 as int) < n && ((
            order[k]).1.1 as int) < n,
        forall|k: int|
            0 <= k < order.len() ==> f[(#[trigger] order[k]).0 as int] == a[n * ((
            order[k]).1.0 as int) + ((order[k]).1.1 as int)],
        forall|k1: int, k2: int|
            0 <= k1 < k2 < order.len() ==> (#[trigger] order[k1]).1 != (#[trigger] order[k2]).1,
        forall|k: int|
            0 <= k < order.len() && ((#[trigger] order[k]).1.0 as int) == i ==> ((
            order[k]).1.1 as int) < c,
        forall|j: int| 0 <= j < c ==> #[trigger] order_covers(order, i, j),
    ensures
        entries_sum(f, v, order, i, order.len() as int) == dot_prefix(a, v, i, n, c),
    decreases c,
{
    if c == 0 {
        lemma_entries_sum_zero(f, v, order, i, order.len() as int);
    } else {
        assert(order_covers(order, i, c - 1));
        let k0 = choose|k: int|
            0 <= k < order.len() && (#[trigger] order[k]).1 == ((i as usize, (c - 1) as usize));
        let o2 = order.remove(k0);
        lemma_entries_sum_remove(f, v, order, i, k0);
        assert(entry_term(f, v, order[k0], i) == a[n * i + (c - 1)] * v[c - 1]);
        // Every surviving entry is an entry of `order` other than `k0`.
        assert(forall|x: int|
            0 <= x < o2.len() ==> o2[x] == order[if x < k0 {
                x
            } else {
                x + 1
            }]);
        assert forall|k: int|
            0 <= k < o2.len() && ((#[trigger] o2[k]).1.0 as int) == i implies ((
        o2[k]).1.1 as int) < c - 1 by {
            let y = if k < k0 {
                k
            } else {
                k + 1
            };
            assert(o2[k] == order[y]);
            assert(y != k0);
            if (o2[k].1.1 as int) == c - 1 {
                assert(order[y].1 == ((i as usize, (c - 1) as usize)));
                assert(order[y].1 == order[k0].1);
                assert(false);
            }
        }
        assert forall|j: int| 0 <= j < c - 1 implies #[trigger] order_covers(o2, i, j) by {
            assert(order_covers(order, i, j));
            let k = choose|k: int|
                0 <= k < order.len() && (#[trigger] order[k]).1 == ((i as usize, j as usize));
            assert((j as usize) != ((c - 1) as usize));
            assert(k != k0);
            if k < k0 {
                assert(o2[k] == order[k]);
                assert(0 <= k < o2.len() && o2[k].1 == ((i as usize, j as usize)));
            } else {
                assert(o2[k - 1] == order[k]);
                assert(0 <= k - 1 < o2.len() && o2[k - 1].1 == ((i as usize, j as usize)));
            }
        }
        lemma_row_sum(f, v, a, o2, n, i, c - 1);
    }
}

/// The two product engines agree: on a valid traversal order and the
/// matrix flattened along it, the contribution of the traversal to each
/// output row equals the row dot product that the naive engine adds.
pub proof fn lemma_products_agree(
    a: Seq<i32>,
    v: Seq<i32>,
    f: Seq<i32>,
    order: Seq<(usize, (usize, usize))>,
    n: int,
)
    requires
        valid_traversal(order, n),
        a.len() == n * n,
        v.len() == n,
        f.len() == n * n,
        forall|k: int|
            0 <= k < order.len() ==> f[(#[trigger] order[k]).0 as int] == a[n * ((
            order[k]).1.0 as int) + ((order[k]).1.1 as int)],
    ensures
        forall|i: int|
            0 <= i < n ==> entries_sum(f, v, order, i, order.len() as int) == row_dot(
                a,
                v,
                i,
                n,
            ),
{
    assert forall|i: int|
        0 <= i < n implies entries_sum(f, v, order, i, order.len() as int) == row_dot(
        a,
        v,
        i,
        n,
    ) by {
        lemma_row_sum(f, v, a, order, n, i, n);
    }
}

/// Flattening is inverted by the traversal order: the entry that visits
/// cell `(i, j)` holds, at its visitation index, exactly the matrix
/// value of `(i, j)`, so the whole matrix is recovered from the
/// flattened buffer by the inverse permutation.
pub proof fn lemma_flatten_recovers(
    a: Seq<i32>,
    f: Seq<i32>,
    order: Seq<(usize, (usize, usize))>,
    n: int,
)
    requires
        valid_traversal(order, n),
        a.len() == n * n,
        f.len() == n * n,
        forall|k: int|
            0 <= k < order.len() ==> f[(#[trigger] order[k]).0 as int] == a[n * ((
            order[k]).1.0 as int) + ((order[k]).1.1 as int)],
    ensures
        forall|i: int, j: int|
            0 <= i < n && 0 <= j < n ==> {
                let k = #[trigger] order_position(order, i, j);
                &&& 0 <= k < order.len()
                &&& order[k].1 == ((i as usize, j as usize))
                &&& f[order[k].0 as int] == a[n * i + j]
            },
{
    assert forall|i: int, j: int|
        0 <= i < n && 0 <= j < n implies {
        let k = #[trigger] order_position(order, i, j);
        &&& 0 <= k < order.len()
        &&& order[k].1 == ((i as usize, j as usize))
        &&& f[order[k].0 as int] == a[n * i + j]
    } by {
        assert(order_covers(order, i, j));
        let k = order_position(order, i, j);
        assert(0 <= k < order.len() && order[k].1 == ((i as usize, j as usize)));
        assert(((order[k]).1.0 as int) == i && ((order[k]).1.1 as int) == j);
    }
}

/// `entries_abs` only depends on the entries of the summed prefix.
proof fn lemma_entries_abs_congruence(
    f: Seq<i32>,
    v: Seq<i32>,
    o1: Seq<(usize, (usize, usize))>,
    o2: Seq<(usize, (usize, usize))>,
    i: int,
    k: int,
)
    requires
        0 <= k <= o1.len(),
        k <= o2.len(),
        forall|x: int| 0 <= x < k ==> o1[x] == o2[x],
    ensures
        entries_abs(f, v, o1, i, k) == entries_abs(f, v, o2, i, k),
    decreases k,
{
    if k > 0 {
        lemma_entries_abs_congruence(f, v, o1, o2, i, k - 1);
    }
}

/// A prefix without entries on row `i` has no absolute contribution.
proof fn lemma_entries_abs_zero(
    f: Seq<i32>,
    v: Seq<i32>,
    order: Seq<(usize, (usize, usize))>,
    i: int,
    k: int,
)
    requires
        0 <= k <= order.len(),
        forall|x: int| 0 <= x < k ==> ((#[trigger] order[x]).1.0 as int) != i,
    ensures
        entries_abs(f, v, order, i, k) == 0,
    decreases k,
{
    if k > 0 {
        lemma_entries_abs_zero(f, v, order, i, k - 1);
    }
}

/// Removing one entry removes exactly its absolute contribution.
proof fn lemma_entries_abs_remove(
    f: Seq<i32>,
    v: Seq<i32>,
    order: Seq<(usize, (usize, usize))>,
    i: int,
    m: int,
)
    requires
        0 <= m < order.len(),
    ensures
        entries_abs(f, v, order.remove(m), i, order.len() - 1) == entries_abs(
            f,
            v,
            order,
            i,
            order.len() as int,
        ) - entry_abs(f, v, order[m], i),
    decreases order.len(),
{
    let len = order.len() as int;
    let o2 = order.remove(m);
    assert(o2.len() == len - 1);
    if m == len - 1 {
        assert(forall|x: int| 0 <= x < len - 1 ==> o2[x] == order[x]);
        lemma_entries_abs_congruence(f, v, o2, order, i, len - 1);
    } else {
        let ot = order.take(len - 1);
        assert(o2[len - 2] == order[len - 1]);
        assert(entries_abs(f, v, o2, i, len - 1) == entries_abs(f, v, o2, i, len - 2) + entry_abs(
            f,
            v,
            order[len - 1],
            i,
        ));
        assert(ot.remove(m).len() == len - 2);
        assert(forall|x: int| 0 <= x < len - 2 ==> ot.remove(m)[x] == o2[x]);
        lemma_entries_abs_congruence(f, v, ot.remove(m), o2, i, len - 2);
        lemma_entries_abs_remove(f, v, ot, i, m);
        assert(forall|x: int| 0 <= x < len - 1 ==> ot[x] == order[x]);
        lemma_entries_abs_congruence(f, v, ot, order, i, len - 1);
        assert(ot[m] == order[m]);
        assert(entries_abs(f, v, order, i, len) == entries_abs(f, v, order, i, len - 1)
            + entry_abs(f, v, order[len - 1], i));
    }
}

/// The absolute counterpart of [`lemma_row_sum`].
proof fn lemma_row_abs_sum(
    f: Seq<i32>,
    v: Seq<i32>,
    a: Seq<i32>,
    order: Seq<(usize, (usize, usize))>,
    n: int,
    i: int,
    c: int,
)
    requires
        0 <= i < n <= usize::MAX,
        0 <= c <= n,
        forall|k: int|
            0 <= k < order.len() ==> ((#[trigger] order[k]).1.0 as int) < n && ((
            order[k]).1.1 as int) < n,
        forall|k: int|
            0 <= k < order.len() ==> f[(#[trigger] order[k]).0 as int] == a[n * ((
            order[k]).1.0 as int) + ((order[k]).1.1 as int)],
        forall|k1: int, k2: int|
            0 <= k1 < k2 < order.len() ==> (#[trigger] order[k1]).1 != (#[trigger] order[k2]).1,
        forall|k: int|
            0 <= k < order.len() && ((#[trigger] order[k]).1.0 as int) == i ==> ((
            order[k]).1.1 as int) < c,
        forall|j: int| 0 <= j < c ==> #[trigger] order_covers(order, i, j),
    ensures
        entries_abs(f, v, order, i, order.len() as int) == dot_abs_prefix(a, v, i, n, c),
    decreases c,
{
    if c == 0 {
        lemma_entries_abs_zero(f, v, order, i, order.len() as int);
    } else {
        assert(order_covers(order, i, c - 1));
        let k0 = choose|k: int|
            0 <= k < order.len() && (#[trigger] order[k]).1 == ((i as usize, (c - 1) as usize));
        let o2 = order.remove(k0);
        lemma_entries_abs_remove(f, v, order, i, k0);
        assert(entry_abs(f, v, order[k0], i) == abs(a[n * i + (c - 1)] * v[c - 1]));
        assert(forall|x: int|
            0 <= x < o2.len() ==> o2[x] == order[if x < k0 {
                x
            } else {
                x + 1
            }]);
        assert forall|k: int|
            0 <= k < o2.len() && ((#[trigger] o2[k]).1.0 as int) == i implies ((
        o2[k]).1.1 as int) < c - 1 by {
            let y = if k < k0 {
                k
            } else {
                k + 1
            };
            assert(o2[k] == order[y]);
            assert(y != k0);
            if (o2[k].1.1 as int) == c - 1 {
                assert(order[y].1 == ((i as usize, (c - 1) as usize)));
                assert(order[y].1 == order[k0].1);
                assert(false);
            }
        }
        assert forall|j: int| 0 <= j < c - 1 implies #[trigger] order_covers(o2, i, j) by {
            assert(order_covers(order, i, j));
            let k = choose|k: int|
                0 <= k < order.len() && (#[trigger] order[k]).1 == ((i as usize, j as usize));
            assert((j as usize) != ((c - 1) as usize));
            assert(k != k0);
            if k < k0 {
                assert(o2[k] == order[k]);
                assert(0 <= k < o2.len() && o2[k].1 == ((i as usize, j as usize)));
            } else {
                assert(o2[k - 1] == order[k]);
                assert(0 <= k - 1 < o2.len() && o2[k - 1].1 == ((i as usize, j as usize)));
            }
        }
        lemma_row_abs_sum(f, v, a, o2, n, i, c - 1);
    }
}

/// The overflow bounds of the two engines coincide: on a valid traversal
/// order and the matrix flattened along it, the absolute contribution of
/// the traversal to each row equals the row's sum of absolute products,
/// so one bound rules out overflow in either engine.
pub proof fn lemma_products_abs_agree(
    a: Seq<i32>,
    v: Seq<i32>,
    f: Seq<i32>,
    order: Seq<(usize, (usize, usize))>,
    n: int,
)
    requires
        valid_traversal(order, n),
        a.len() == n * n,
        v.len() == n,
        f.len() == n * n,
        forall|k: int|
            0 <= k < order.len() ==> f[(#[trigger] order[k]).0 as int] == a[n * ((
            order[k]).1.0 as int) + ((order[k]).1.1 as int)],
    ensures
        forall|i: int|
            0 <= i < n ==> entries_abs(f, v, order, i, order.len() as int) == row_abs(
                a,
                v,
                i,
                n,
            ),
{
    assert forall|i: int|
        0 <= i < n implies entries_abs(f, v, order, i, order.len() as int) == row_abs(
        a,
        v,
        i,
        n,
    ) by {
        lemma_row_abs_sum(f, v, a, order, n, i, n);
    }
}

/// The traversal order of the curve is a valid traversal of the
/// `2^depth x 2^depth` grid.
pub proof fn lemma_hilbert_order_valid(depth: nat)
    requires
        pow2(depth) * pow2(depth) <= usize::MAX,
    ensures
        valid_traversal(hilbert_order(depth), pow2(depth) as int),
{
    let n = pow2(depth) as int;
    let order = hilbert_order(depth);
    let cells = hilbert_cells(depth);
    let coords = hilbert_coords(depth);
    lemma_traversal_coverage(depth);
    lemma_pow2_pos(depth);
    assert(pow2(depth) <= pow2(depth) * pow2(depth)) by (nonlinear_arith)
        requires
            pow2(depth) >= 1,
    ;
    assert(forall|k: int| 0 <= k < order.len() ==> (#[trigger] order[k]).1 == coords[k]);
    assert forall|k: int|
        0 <= k < order.len() implies ((#[trigger] order[k]).1.0 as int) < n && ((
    order[k]).1.1 as int) < n by {
        assert(in_box((0, 0), n, cells[k]));
        assert(coords[k] == ((cells[k].0 as usize, cells[k].1 as usize)));
    }
    assert forall|k1: int, k2: int|
        0 <= k1 < k2 < order.len() implies (#[trigger] order[k1]).1 != (
    #[trigger] order[k2]).1 by {
        assert(in_box((0, 0), n, cells[k1]));
        assert(in_box((0, 0), n, cells[k2]));
        assert(cells[k1] != cells[k2]);
        if coords[k1] == coords[k2] {
            assert((cells[k1].0 as usize) == (cells[k2].0 as usize));
            assert(cells[k1].0 == cells[k2].0 && cells[k1].1 == cells[k2].1);
        }
    }
    assert forall|i: int, j: int|
        0 <= i < n && 0 <= j < n implies #[trigger] order_covers(order, i, j) by {
        assert(in_box((0, 0), n, (i, j)));
        let k = choose|k: int| 0 <= k < cells.len() && cells[k] == (i, j);
        assert(coords[k] == ((i as usize, j as usize)));
        assert(order[k].1 == ((i as usize, j as usize)));
    }
}

} // verus!
