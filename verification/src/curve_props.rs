//! Geometry of the expanded curve.
//!
//! A move string from [`crate::grammar`] is turned into the sequence of
//! grid positions it visits.  The central theorem, [`lemma_curve_path`],
//! shows by induction on the depth that each curve symbol traverses a
//! `2^d x 2^d` box: it enters and exits at fixed corners, stays inside the
//! box, and visits every cell of the box exactly once.  Specialized to the
//! start symbol this gives the coverage and adjacency properties of the
//! whole traversal ([`lemma_traversal_coverage`],
//! [`lemma_traversal_adjacency`]).

use vstd::prelude::*;

verus! {

use vstd::arithmetic::power2::pow2;
use vstd::arithmetic::power2::lemma_pow2_unfold;
use vstd::arithmetic::power2::lemma_pow2_pos;
use vstd::math::abs;
use crate::grammar::Symbol;
use crate::grammar::expand;
use crate::grammar::is_move;
use crate::grammar::lemma_expand_all_moves;
use crate::grammar::lemma_expand_move;

/// The position reached by one move symbol; curve symbols do not move.
pub open spec fn step_of(p: (int, int), s: Symbol) -> (int, int) {
    match s {
        Symbol::Up => (p.0 + 1, p.1),
        Symbol::Down => (p.0 - 1, p.1),
        Symbol::Right => (p.0, p.1 + 1),
        Symbol::Left => (p.0, p.1 - 1),
        _ => p,
    }
}

/// The positions visited when the moves `ms` are applied starting from
/// `p`; the start itself is included, so the length is `ms.len() + 1`.
pub open spec fn path(p: (int, int), ms: Seq<Symbol>) -> Seq<(int, int)>
    decreases ms.len(),
{
    if ms.len() == 0 {
        seq![p]
    } else {
        seq![p] + path(step_of(p, ms.first()), ms.drop_first())
    }
}

/// A path has one more element than its move string.
pub broadcast proof fn lemma_path_len(p: (int, int), ms: Seq<Symbol>)
    ensures
        (#[trigger] path(p, ms)).len() == ms.len() + 1,
    decreases ms.len(),
{
    if ms.len() > 0 {
        lemma_path_len(step_of(p, ms.first()), ms.drop_first());
    }
}

/// A path starts at its start position.
pub proof fn lemma_path_first(p: (int, int), ms: Seq<Symbol>)
    ensures
        path(p, ms)[0] == p,
{
}

/// Each path element is obtained from its predecessor by the
/// corresponding move.
pub proof fn lemma_path_index(p: (int, int), ms: Seq<Symbol>)
    ensures
        forall|k: int|
            0 <= k < ms.len() ==> path(p, ms)[k + 1] == step_of(#[trigger] path(p, ms)[k], ms[k]),
    decreases ms.len(),
{
    broadcast use lemma_path_len;
    if ms.len() > 0 {
        let q = step_of(p, ms.first());
        lemma_path_index(q, ms.drop_first());
        assert forall|k: int|
            0 <= k < ms.len() implies path(p, ms)[k + 1] == step_of(
            #[trigger] path(p, ms)[k],
            ms[k],
        ) by {
            if k == 0 {
                lemma_path_first(q, ms.drop_first());
                assert(path(p, ms)[1] == path(q, ms.drop_first())[0]);
            } else {
                assert(path(q, ms.drop_first())[k] == step_of(
                    path(q, ms.drop_first())[k - 1],
                    ms.drop_first()[k - 1],
                ));
                assert(path(p, ms)[k + 1] == path(q, ms.drop_first())[k]);
                assert(path(p, ms)[k] == path(q, ms.drop_first())[k - 1]);
                assert(ms.drop_first()[k - 1] == ms[k]);
            }
        }
    }
}

/// Splitting a path at a concatenation of its move string.
pub proof fn lemma_path_concat(p: (int, int), a: Seq<Symbol>, b: Seq<Symbol>)
    ensures
        path(p, a + b) == path(p, a).drop_last() + path(path(p, a).last(), b),
    decreases a.len(),
{
    broadcast use lemma_path_len;
    if a.len() == 0 {
        assert(a + b =~= b);
        assert(path(p, a) == seq![p]);
        assert(path(p, a).drop_last() =~= Seq::<(int, int)>::empty());
        assert(path(p, a).last() == p);
        assert(Seq::<(int, int)>::empty() + path(p, b) =~= path(p, b));
    } else {
        let q = step_of(p, a.first());
        assert((a + b).first() == a.first());
        assert((a + b).drop_first() =~= a.drop_first() + b);
        lemma_path_concat(q, a.drop_first(), b);
        assert(path(p, a).last() == path(q, a.drop_first()).last());
        assert(path(p, a).drop_last() =~= seq![p] + path(q, a.drop_first()).drop_last());
        assert(path(p, a + b) =~= path(p, a).drop_last() + path(path(p, a).last(), b));
    }
}

/// The two-element path of a single move.
pub proof fn lemma_path_single(p: (int, int), s: Symbol)
    ensures
        path(p, seq![s]) == seq![p, step_of(p, s)],
{
    broadcast use lemma_path_len;
    assert(seq![s].drop_first() =~= Seq::<Symbol>::empty());
    assert(path(step_of(p, s), Seq::<Symbol>::empty()) == seq![step_of(p, s)]);
    assert(path(p, seq![s]) =~= seq![p, step_of(p, s)]);
}

/// True when `c` lies in the square box with origin `o` and side `m`.
pub open spec fn in_box(o: (int, int), m: int, c: (int, int)) -> bool {
    o.0 <= c.0 < o.0 + m && o.1 <= c.1 < o.1 + m
}

/// The corner of the box with origin `o` and side `2^d` at which a curve
/// symbol's traversal begins.
pub open spec fn entry_of(s: Symbol, o: (int, int), d: nat) -> (int, int) {
    let m = pow2(d) as int;
    match s {
        Symbol::B | Symbol::C => (o.0 + m - 1, o.1 + m - 1),
        _ => o,
    }
}

/// The corner of the box with origin `o` and side `2^d` at which a curve
/// symbol's traversal ends.
pub open spec fn exit_of(s: Symbol, o: (int, int), d: nat) -> (int, int) {
    let m = pow2(d) as int;
    match s {
        Symbol::H | Symbol::B => (o.0, o.1 + m - 1),
        _ => (o.0 + m - 1, o.1),
    }
}

/// The traversal properties of one curve symbol at one depth: the path of
/// its expansion runs from the entry corner to the exit corner of its box
/// and visits every cell of the box exactly once.
pub open spec fn traverses_box(s: Symbol, d: nat, o: (int, int)) -> bool {
    let m = pow2(d) as int;
    let p = path(entry_of(s, o, d), expand(s, d));
    &&& p.len() == m * m
    &&& p[0] == entry_of(s, o, d)
    &&& p.last() == exit_of(s, o, d)
    &&& forall|k: int| 0 <= k < p.len() ==> in_box(o, m, #[trigger] p[k])
    &&& forall|k1: int, k2: int| 0 <= k1 < k2 < p.len() ==> p[k1] != p[k2]
    &&& forall|c: (int, int)| in_box(o, m, c) ==> exists|k: int|
        0 <= k < p.len() && p[k] == c
}

/// The path of four move strings joined by three single moves is the
/// concatenation of the four segment paths.
#[verifier::rlimit(100)]
proof fn lemma_glue_path(
    en1: (int, int),
    e1: Seq<Symbol>,
    mv1: Symbol,
    e2: Seq<Symbol>,
    mv2: Symbol,
    e3: Seq<Symbol>,
    mv3: Symbol,
    e4: Seq<Symbol>,
)
    ensures
        ({
            let p1 = path(en1, e1);
            let p2 = path(step_of(p1.last(), mv1), e2);
            let p3 = path(step_of(p2.last(), mv2), e3);
            let p4 = path(step_of(p3.last(), mv3), e4);
            path(en1, e1 + seq![mv1] + e2 + seq![mv2] + e3 + seq![mv3] + e4) == p1 + (p2 + (p3
                + p4))
        }),
{
    broadcast use lemma_path_len;

    let p1 = path(en1, e1);
    let x1 = p1.last();
    let en2 = step_of(x1, mv1);
    let p2 = path(en2, e2);
    let x2 = p2.last();
    let en3 = step_of(x2, mv2);
    let p3 = path(en3, e3);
    let x3 = p3.last();
    let en4 = step_of(x3, mv3);
    let p4 = path(en4, e4);
    let ms = e1 + seq![mv1] + e2 + seq![mv2] + e3 + seq![mv3] + e4;
    let rest3 = e3 + (seq![mv3] + e4);
    let rest2 = e2 + (seq![mv2] + rest3);
    let rest1 = e1 + (seq![mv1] + rest2);
    assert(ms =~= rest1);
    // Peel the three connecting moves off the front, one segment at a time.
    lemma_path_single(x1, mv1);
    lemma_path_single(x2, mv2);
    lemma_path_single(x3, mv3);
    assert(seq![x1, en2].drop_last() =~= seq![x1]);
    assert(seq![x2, en3].drop_last() =~= seq![x2]);
    assert(seq![x3, en4].drop_last() =~= seq![x3]);
    lemma_path_concat(en3, e3, seq![mv3] + e4);
    lemma_path_concat(x3, seq![mv3], e4);
    assert(path(x3, seq![mv3] + e4) == seq![x3] + p4);
    assert(path(en3, rest3) == p3.drop_last() + (seq![x3] + p4));
    lemma_path_concat(en2, e2, seq![mv2] + rest3);
    lemma_path_concat(x2, seq![mv2], rest3);
    assert(path(x2, seq![mv2] + rest3) == seq![x2] + path(en3, rest3));
    assert(path(en2, rest2) == p2.drop_last() + (seq![x2] + (p3.drop_last() + (seq![x3] + p4))));
    lemma_path_concat(en1, e1, seq![mv1] + rest2);
    lemma_path_concat(x1, seq![mv1], rest2);
    assert(path(x1, seq![mv1] + rest2) == seq![x1] + path(en2, rest2));
    assert(path(en1, rest1) == p1.drop_last() + (seq![x1] + (p2.drop_last() + (seq![x2] + (
    p3.drop_last() + (seq![x3] + p4))))));
    // Reattach each exit corner to its own segment.
    assert(p3.drop_last() + (seq![x3] + p4) =~= p3 + p4);
    assert(p2.drop_last() + (seq![x2] + (p3 + p4)) =~= p2 + (p3 + p4));
    assert(p2.drop_last() + (seq![x2] + (p3.drop_last() + (seq![x3] + p4))) == p2 + (p3 + p4));
    assert(p1.drop_last() + (seq![x1] + (p2 + (p3 + p4))) =~= p1 + (p2 + (p3 + p4)));
    assert(path(en1, ms) == p1 + (p2 + (p3 + p4)));
}

/// Four paths that each cover one quadrant of a box, concatenated,
/// cover the box and stay distinct.
#[verifier::rlimit(100)]
proof fn lemma_quad_props(
    o: (int, int),
    m: int,
    h: int,
    o1: (int, int),
    p1: Seq<(int, int)>,
    o2: (int, int),
    p2: Seq<(int, int)>,
    o3: (int, int),
    p3: Seq<(int, int)>,
    o4: (int, int),
    p4: Seq<(int, int)>,
)
    requires
        m == 2 * h,
        h >= 1,
        p1.len() == h * h,
        p2.len() == h * h,
        p3.len() == h * h,
        p4.len() == h * h,
        forall|k: int| 0 <= k < p1.len() ==> in_box(o1, h, #[trigger] p1[k]),
        forall|k: int| 0 <= k < p2.len() ==> in_box(o2, h, #[trigger] p2[k]),
        forall|k: int| 0 <= k < p3.len() ==> in_box(o3, h, #[trigger] p3[k]),
        forall|k: int| 0 <= k < p4.len() ==> in_box(o4, h, #[trigger] p4[k]),
        forall|k1: int, k2: int| 0 <= k1 < k2 < p1.len() ==> p1[k1] != p1[k2],
        forall|k1: int, k2: int| 0 <= k1 < k2 < p2.len() ==> p2[k1] != p2[k2],
        forall|k1: int, k2: int| 0 <= k1 < k2 < p3.len() ==> p3[k1] != p3[k2],
        forall|k1: int, k2: int| 0 <= k1 < k2 < p4.len() ==> p4[k1] != p4[k2],
        forall|c: (int, int)| #[trigger]
            in_box(o1, h, c) ==> exists|k: int| 0 <= k < p1.len() && p1[k] == c,
        forall|c: (int, int)| #[trigger]
            in_box(o2, h, c) ==> exists|k: int| 0 <= k < p2.len() && p2[k] == c,
        forall|c: (int, int)| #[trigger]
            in_box(o3, h, c) ==> exists|k: int| 0 <= k < p3.len() && p3[k] == c,
        forall|c: (int, int)| #[trigger]
            in_box(o4, h, c) ==> exists|k: int| 0 <= k < p4.len() && p4[k] == c,
        forall|c: (int, int)| #[trigger]
            in_box(o, m, c) ==> in_box(o1, h, c) || in_box(o2, h, c) || in_box(o3, h, c)
                || in_box(o4, h, c),
        forall|c: (int, int)| #[trigger]
            in_box(o1, h, c) ==> in_box(o, m, c) && !in_box(o2, h, c) && !in_box(o3, h, c)
                && !in_box(o4, h, c),
        forall|c: (int, int)| #[trigger]
            in_box(o2, h, c) ==> in_box(o, m, c) && !in_box(o3, h, c) && !in_box(o4, h, c),
        forall|c: (int, int)| #[trigger] in_box(o3, h, c) ==> in_box(o, m, c) && !in_box(o4, h, c),
        forall|c: (int, int)| #[trigger] in_box(o4, h, c) ==> in_box(o, m, c),
    ensures
        ({
            let f = p1 + (p2 + (p3 + p4));
            &&& f.len() == m * m
            &&& forall|k: int| 0 <= k < f.len() ==> in_box(o, m, #[trigger] f[k])
            &&& forall|k1: int, k2: int| 0 <= k1 < k2 < f.len() ==> f[k1] != f[k2]
            &&& forall|c: (int, int)| in_box(o, m, c) ==> exists|k: int|
                0 <= k < f.len() && f[k] == c
        }),
{
    let f = p1 + (p2 + (p3 + p4));
    let ll = h * h;
    assert(m * m == 4 * ll) by (nonlinear_arith)
        requires
            m == 2 * h,
            ll == h * h,
    ;
    assert(f.len() == m * m);
    // Every position lies in the quadrant its segment traverses.
    assert forall|k: int| 0 <= k < f.len() implies in_box(o, m, #[trigger] f[k]) by {
        if k < ll {
            assert(f[k] == p1[k]);
            assert(in_box(o1, h, p1[k]));
        } else if k < 2 * ll {
            assert(f[k] == p2[k - ll]);
            assert(in_box(o2, h, p2[k - ll]));
        } else if k < 3 * ll {
            assert(f[k] == p3[k - 2 * ll]);
            assert(in_box(o3, h, p3[k - 2 * ll]));
        } else {
            assert(f[k] == p4[k - 3 * ll]);
            assert(in_box(o4, h, p4[k - 3 * ll]));
        }
    }
    // Distinct within a segment by assumption, across segments because
    // the quadrants are disjoint.
    assert forall|k1: int, k2: int| 0 <= k1 < k2 < f.len() implies f[k1] != f[k2] by {
        let c1 = f[k1];
        let c2 = f[k2];
        if k1 < ll {
            assert(c1 == p1[k1]);
            assert(in_box(o1, h, c1));
        } else if k1 < 2 * ll {
            assert(c1 == p2[k1 - ll]);
            assert(in_box(o2, h, c1));
        } else if k1 < 3 * ll {
            assert(c1 == p3[k1 - 2 * ll]);
            assert(in_box(o3, h, c1));
        } else {
            assert(c1 == p4[k1 - 3 * ll]);
            assert(in_box(o4, h, c1));
        }
        if k2 < ll {
            assert(c2 == p1[k2]);
            assert(in_box(o1, h, c2));
        } else if k2 < 2 * ll {
            assert(c2 == p2[k2 - ll]);
            assert(in_box(o2, h, c2));
        } else if k2 < 3 * ll {
            assert(c2 == p3[k2 - 2 * ll]);
            assert(in_box(o3, h, c2));
        } else {
            assert(c2 == p4[k2 - 3 * ll]);
            assert(in_box(o4, h, c2));
        }
    }
    // Every cell of the box is reached by the segment of its quadrant.
    assert forall|c: (int, int)| in_box(o, m, c) implies exists|k: int|
        0 <= k < f.len() && f[k] == c by {
        if in_box(o1, h, c) {
            let k = choose|k: int| 0 <= k < p1.len() && p1[k] == c;
            assert(f[k] == c);
        } else if in_box(o2, h, c) {
            let k = choose|k: int| 0 <= k < p2.len() && p2[k] == c;
            assert(f[ll + k] == c);
        } else if in_box(o3, h, c) {
            let k = choose|k: int| 0 <= k < p3.len() && p3[k] == c;
            assert(f[2 * ll + k] == c);
        } else {
            let k = choose|k: int| 0 <= k < p4.len() && p4[k] == c;
            assert(f[3 * ll + k] == c);
        }
    }
}

/// Glue the traversals of the four quadrants of a box, joined by three
/// single moves, into a traversal of the whole box.
#[verifier::rlimit(100)]
proof fn lemma_curve_glue(
    d: nat,
    o: (int, int),
    s1: Symbol,
    o1: (int, int),
    mv1: Symbol,
    s2: Symbol,
    o2: (int, int),
    mv2: Symbol,
    s3: Symbol,
    o3: (int, int),
    mv3: Symbol,
    s4: Symbol,
    o4: (int, int),
)
    requires
        d >= 1,
        !is_move(s1),
        !is_move(s2),
        !is_move(s3),
        !is_move(s4),
        ({
            let dm = (d - 1) as nat;
            let h = pow2(dm) as int;
            let m = pow2(d) as int;
            &&& forall|c: (int, int)| #[trigger]
                in_box(o, m, c) ==> in_box(o1, h, c) || in_box(o2, h, c) || in_box(o3, h, c)
                    || in_box(o4, h, c)
            &&& forall|c: (int, int)| #[trigger]
                in_box(o1, h, c) ==> in_box(o, m, c) && !in_box(o2, h, c) && !in_box(o3, h, c)
                    && !in_box(o4, h, c)
            &&& forall|c: (int, int)| #[trigger]
                in_box(o2, h, c) ==> in_box(o, m, c) && !in_box(o3, h, c) && !in_box(o4, h, c)
            &&& forall|c: (int, int)| #[trigger]
                in_box(o3, h, c) ==> in_box(o, m, c) && !in_box(o4, h, c)
            &&& forall|c: (int, int)| #[trigger] in_box(o4, h, c) ==> in_box(o, m, c)
            &&& step_of(exit_of(s1, o1, dm), mv1) == entry_of(s2, o2, dm)
            &&& step_of(exit_of(s2, o2, dm), mv2) == entry_of(s3, o3, dm)
            &&& step_of(exit_of(s3, o3, dm), mv3) == entry_of(s4, o4, dm)
        }),
    ensures
        ({
            let dm = (d - 1) as nat;
            let m = pow2(d) as int;
            let ms = expand(s1, dm) + seq![mv1] + expand(s2, dm) + seq![mv2] + expand(s3, dm)
                + seq![mv3] + expand(s4, dm);
            let p = path(entry_of(s1, o1, dm), ms);
            &&& p.len() == m * m
            &&& p[0] == entry_of(s1, o1, dm)
            &&& p.last() == exit_of(s4, o4, dm)
            &&& forall|k: int| 0 <= k < p.len() ==> in_box(o, m, #[trigger] p[k])
            &&& forall|k1: int, k2: int| 0 <= k1 < k2 < p.len() ==> p[k1] != p[k2]
            &&& forall|c: (int, int)| in_box(o, m, c) ==> exists|k: int|
                0 <= k < p.len() && p[k] == c
        }),
    decreases d, 0nat,
{
    broadcast use lemma_path_len;

    let dm = (d - 1) as nat;
    let h = pow2(dm) as int;
    let m = pow2(d) as int;
    lemma_pow2_unfold(d);
    lemma_pow2_pos(dm);
    lemma_curve_path(s1, dm, o1);
    lemma_curve_path(s2, dm, o2);
    lemma_curve_path(s3, dm, o3);
    lemma_curve_path(s4, dm, o4);
    let e1 = expand(s1, dm);
    let e2 = expand(s2, dm);
    let e3 = expand(s3, dm);
    let e4 = expand(s4, dm);
    let en1 = entry_of(s1, o1, dm);
    let en2 = entry_of(s2, o2, dm);
    let en3 = entry_of(s3, o3, dm);
    let en4 = entry_of(s4, o4, dm);
    let p1 = path(en1, e1);
    let p2 = path(en2, e2);
    let p3 = path(en3, e3);
    let p4 = path(en4, e4);
    let ms = e1 + seq![mv1] + e2 + seq![mv2] + e3 + seq![mv3] + e4;
    let f = p1 + (p2 + (p3 + p4));
    lemma_glue_path(en1, e1, mv1, e2, mv2, e3, mv3, e4);
    assert(step_of(p1.last(), mv1) == en2);
    assert(step_of(p2.last(), mv2) == en3);
    assert(step_of(p3.last(), mv3) == en4);
    assert(path(en1, ms) == f);
    lemma_quad_props(o, m, h, o1, p1, o2, p2, o3, p3, o4, p4);
    assert(f[0] == p1[0]);
    assert(f.last() == p4.last());
}

/// Every curve symbol traverses its box: the path of its expansion runs
/// corner to corner and visits each cell of the `2^d x 2^d` box exactly
/// once.
#[verifier::rlimit(100)]
pub proof fn lemma_curve_path(s: Symbol, d: nat, o: (int, int))
    requires
        !is_move(s),
    ensures
        traverses_box(s, d, o),
    decreases d, 1nat,
{
    broadcast use lemma_path_len;
    if d == 0 {
        assert(pow2(0) == 1) by {
            vstd::arithmetic::power2::lemma2_to64();
        }
        assert(expand(s, 0) == Seq::<Symbol>::empty());
        let p = path(entry_of(s, o, 0), expand(s, 0));
        assert(p == seq![o]);
        assert forall|c: (int, int)| in_box(o, 1, c) implies exists|k: int|
            0 <= k < p.len() && p[k] == c by {
            assert(c == o);
            assert(p[0] == c);
        }
    } else {
        let dm = (d - 1) as nat;
        let h = pow2(dm) as int;
        lemma_pow2_unfold(d);
        lemma_pow2_pos(dm);
        lemma_expand_move(Symbol::Up, dm);
        lemma_expand_move(Symbol::Down, dm);
        lemma_expand_move(Symbol::Left, dm);
        lemma_expand_move(Symbol::Right, dm);
        match s {
            Symbol::H => {
                lemma_curve_glue(
                    d,
                    o,
                    Symbol::A,
                    o,
                    Symbol::Up,
                    Symbol::H,
                    (o.0 + h, o.1),
                    Symbol::Right,
                    Symbol::H,
                    (o.0 + h, o.1 + h),
                    Symbol::Down,
                    Symbol::B,
                    (o.0, o.1 + h),
                );
            },
            Symbol::A => {
                lemma_curve_glue(
                    d,
                    o,
                    Symbol::H,
                    o,
                    Symbol::Right,
                    Symbol::A,
                    (o.0, o.1 + h),
                    Symbol::Up,
                    Symbol::A,
                    (o.0 + h, o.1 + h),
                    Symbol::Left,
                    Symbol::C,
                    (o.0 + h, o.1),
                );
            },
            Symbol::B => {
                lemma_curve_glue(
                    d,
                    o,
                    Symbol::C,
                    (o.0 + h, o.1 + h),
                    Symbol::Left,
                    Symbol::B,
                    (o.0 + h, o.1),
                    Symbol::Down,
                    Symbol::B,
                    (o.0, o.1),
                    Symbol::Right,
                    Symbol::H,
                    (o.0, o.1 + h),
                );
            },
            Symbol::C => {
                lemma_curve_glue(
                    d,
                    o,
                    Symbol::B,
                    (o.0 + h, o.1 + h),
                    Symbol::Down,
                    Symbol::C,
                    (o.0, o.1 + h),
                    Symbol::Left,
                    Symbol::C,
                    (o.0, o.1),
                    Symbol::Up,
                    Symbol::A,
                    (o.0 + h, o.1),
                );
            },
            _ => {},
        }
    }
}


/// The move string of the whole traversal at a given depth.
pub open spec fn hilbert_moves(depth: nat) -> Seq<Symbol> {
    expand(Symbol::H, depth)
}

/// The grid cells of the traversal at a given depth, in visitation
/// order, as unbounded integer pairs; the traversal starts at `(0, 0)`.
pub open spec fn hilbert_cells(depth: nat) -> Seq<(int, int)> {
    path((0, 0), hilbert_moves(depth))
}

/// The grid cells of the traversal as machine coordinates.
pub open spec fn hilbert_coords(depth: nat) -> Seq<(usize, usize)> {
    hilbert_cells(depth).map_values(|c: (int, int)| (c.0 as usize, c.1 as usize))
}

/// The traversal order at a given depth: every cell paired with its
/// 0-based visitation index.
pub open spec fn hilbert_order(depth: nat) -> Seq<(usize, (usize, usize))> {
    Seq::new(hilbert_cells(depth).len(), |k: int| (k as usize, hilbert_coords(depth)[k]))
}

/// The Manhattan distance between two grid cells.
pub open spec fn manhattan(a: (int, int), b: (int, int)) -> nat {
    abs(a.0 - b.0) + abs(a.1 - b.1)
}

/// Coverage: the traversal at depth `d` has exactly `2^d * 2^d` cells,
/// starts at the origin, stays inside the `2^d x 2^d` grid, and visits
/// every cell of the grid exactly once.
pub proof fn lemma_traversal_coverage(depth: nat)
    ensures
        hilbert_cells(depth).len() == pow2(depth) * pow2(depth),
        hilbert_cells(depth)[0] == (0int, 0int),
        forall|k: int|
            0 <= k < hilbert_cells(depth).len() ==> in_box(
                (0, 0),
                pow2(depth) as int,
                #[trigger] hilbert_cells(depth)[k],
            ),
        forall|k1: int, k2: int|
            0 <= k1 < k2 < hilbert_cells(depth).len() ==> hilbert_cells(depth)[k1]
                != hilbert_cells(depth)[k2],
        forall|c: (int, int)|
            in_box((0, 0), pow2(depth) as int, c) ==> exists|k: int|
                0 <= k < hilbert_cells(depth).len() && hilbert_cells(depth)[k] == c,
{
    lemma_curve_path(Symbol::H, depth, (0, 0));
    assert(entry_of(Symbol::H, (0, 0), depth) == (0int, 0int));
}

/// Adjacency: consecutive cells of the traversal are at Manhattan
/// distance exactly one.
pub proof fn lemma_traversal_adjacency(depth: nat)
    ensures
        forall|k: int|
            0 <= k < hilbert_cells(depth).len() - 1 ==> manhattan(
                #[trigger] hilbert_cells(depth)[k],
                hilbert_cells(depth)[k + 1],
            ) == 1,
{
    broadcast use lemma_path_len;

    let ms = hilbert_moves(depth);
    let cells = hilbert_cells(depth);
    lemma_path_index((0, 0), ms);
    lemma_expand_all_moves(Symbol::H, depth);
    assert forall|k: int|
        0 <= k < cells.len() - 1 implies manhattan(#[trigger] cells[k], cells[k + 1]) == 1 by {
        assert(cells[k + 1] == step_of(cells[k], ms[k]));
        assert(is_move(ms[k]));
    }
}

} // verus!
