//! The L-system that generates the Hilbert curve.
//!
//! Four curve symbols `H`, `A`, `B`, `C` stand for the four rotations and
//! reflections of the base pattern; four move symbols stand for unit steps
//! on the grid.  At positive depth every curve symbol rewrites into seven
//! work items (four curve symbols interleaved with three moves) and every
//! move symbol is carried along unchanged; at depth zero a curve symbol
//! vanishes and a move symbol becomes an actual step.  `expand` is the
//! fully expanded move string of one symbol; the executable generator in
//! [`crate::curve`] is proved to emit exactly `expand(H, depth)`.

use vstd::prelude::*;

verus! {

/// One work-item symbol of the rewriting system.
#[derive(Clone, Copy, PartialEq, Eq, Structural, Debug)]
pub enum Symbol {
    /// Base curve pattern: enters at the box origin, exits at the end of
    /// the origin row.
    H,
    /// Transposed pattern: enters at the box origin, exits at the end of
    /// the origin column.
    A,
    /// Pattern entered at the far corner, exiting where `H` does.
    B,
    /// Pattern entered at the far corner, exiting where `A` does.
    C,
    /// Step to the next row (row index `+ 1`).
    Up,
    /// Step to the previous row (row index `- 1`).
    Down,
    /// Step to the previous column (column index `- 1`).
    Left,
    /// Step to the next column (column index `+ 1`).
    Right,
}

/// True of the four move symbols, false of the four curve symbols.
pub open spec fn is_move(s: Symbol) -> bool {
    match s {
        Symbol::Up | Symbol::Down | Symbol::Left | Symbol::Right => true,
        _ => false,
    }
}

/// The one-step rewriting of a symbol: the seven work items of a curve
/// symbol, or the move symbol itself (moves are carried along unchanged).
pub open spec fn rewrite(s: Symbol) -> Seq<Symbol> {
    match s {
        Symbol::H => seq![
            Symbol::A, Symbol::Up, Symbol::H, Symbol::Right,
            Symbol::H, Symbol::Down, Symbol::B,
        ],
        Symbol::A => seq![
            Symbol::H, Symbol::Right, Symbol::A, Symbol::Up,
            Symbol::A, Symbol::Left, Symbol::C,
        ],
        Symbol::B => seq![
            Symbol::C, Symbol::Left, Symbol::B, Symbol::Down,
            Symbol::B, Symbol::Right, Symbol::H,
        ],
        Symbol::C => seq![
            Symbol::B, Symbol::Down, Symbol::C, Symbol::Left,
            Symbol::C, Symbol::Up, Symbol::A,
        ],
        m => seq![m],
    }
}

/// The move string that a symbol expands into after `d` rewriting rounds.
pub open spec fn expand(s: Symbol, d: nat) -> Seq<Symbol>
    decreases d,
{
    if d == 0 {
        if is_move(s) {
            seq![s]
        } else {
            Seq::empty()
        }
    } else {
        let dm = (d - 1) as nat;
        match s {
            Symbol::H => expand(Symbol::A, dm) + expand(Symbol::Up, dm) + expand(Symbol::H, dm)
                + expand(Symbol::Right, dm) + expand(Symbol::H, dm) + expand(Symbol::Down, dm)
                + expand(Symbol::B, dm),
            Symbol::A => expand(Symbol::H, dm) + expand(Symbol::Right, dm) + expand(Symbol::A, dm)
                + expand(Symbol::Up, dm) + expand(Symbol::A, dm) + expand(Symbol::Left, dm)
                + expand(Symbol::C, dm),
            Symbol::B => expand(Symbol::C, dm) + expand(Symbol::Left, dm) + expand(Symbol::B, dm)
                + expand(Symbol::Down, dm) + expand(Symbol::B, dm) + expand(Symbol::Right, dm)
                + expand(Symbol::H, dm),
            Symbol::C => expand(Symbol::B, dm) + expand(Symbol::Down, dm) + expand(Symbol::C, dm)
                + expand(Symbol::Left, dm) + expand(Symbol::C, dm) + expand(Symbol::Up, dm)
                + expand(Symbol::A, dm),
            m => expand(m, dm),
        }
    }
}

/// A move symbol expands to itself at every depth.
pub proof fn lemma_expand_move(s: Symbol, d: nat)
    requires
        is_move(s),
    ensures
        expand(s, d) == seq![s],
    decreases d,
{
    if d > 0 {
        lemma_expand_move(s, (d - 1) as nat);
    }
}

/// True when every symbol of `ms` is a move symbol.
pub open spec fn all_moves(ms: Seq<Symbol>) -> bool {
    forall|k: int| 0 <= k < ms.len() ==> is_move(#[trigger] ms[k])
}

/// `all_moves` is preserved by concatenation.
pub proof fn lemma_all_moves_add(a: Seq<Symbol>, b: Seq<Symbol>)
    requires
        all_moves(a),
        all_moves(b),
    ensures
        all_moves(a + b),
{
    assert forall|k: int| 0 <= k < (a + b).len() implies is_move(#[trigger] (a + b)[k]) by {
        if k < a.len() {
            assert(is_move(a[k]));
        } else {
            assert(is_move(b[k - a.len()]));
        }
    }
}

/// `all_moves` for a seven-part concatenation, grouped as `expand` groups it.
proof fn lemma_all_moves_7(
    e0: Seq<Symbol>,
    e1: Seq<Symbol>,
    e2: Seq<Symbol>,
    e3: Seq<Symbol>,
    e4: Seq<Symbol>,
    e5: Seq<Symbol>,
    e6: Seq<Symbol>,
)
    requires
        all_moves(e0),
        all_moves(e1),
        all_moves(e2),
        all_moves(e3),
        all_moves(e4),
        all_moves(e5),
        all_moves(e6),
    ensures
        all_moves(e0 + e1 + e2 + e3 + e4 + e5 + e6),
{
    lemma_all_moves_add(e0, e1);
    lemma_all_moves_add(e0 + e1, e2);
    lemma_all_moves_add(e0 + e1 + e2, e3);
    lemma_all_moves_add(e0 + e1 + e2 + e3, e4);
    lemma_all_moves_add(e0 + e1 + e2 + e3 + e4, e5);
    lemma_all_moves_add(e0 + e1 + e2 + e3 + e4 + e5, e6);
}

/// Every symbol of an expansion is a move symbol.
pub proof fn lemma_expand_all_moves(s: Symbol, d: nat)
    ensures
        all_moves(expand(s, d)),
    decreases d,
{
    if d > 0 {
        let dm = (d - 1) as nat;
        lemma_expand_all_moves(Symbol::H, dm);
        lemma_expand_all_moves(Symbol::A, dm);
        lemma_expand_all_moves(Symbol::B, dm);
        lemma_expand_all_moves(Symbol::C, dm);
        lemma_expand_all_moves(Symbol::Up, dm);
        lemma_expand_all_moves(Symbol::Down, dm);
        lemma_expand_all_moves(Symbol::Left, dm);
        lemma_expand_all_moves(Symbol::Right, dm);
        match s {
            Symbol::H => lemma_all_moves_7(
                expand(Symbol::A, dm),
                expand(Symbol::Up, dm),
                expand(Symbol::H, dm),
                expand(Symbol::Right, dm),
                expand(Symbol::H, dm),
                expand(Symbol::Down, dm),
                expand(Symbol::B, dm),
            ),
            Symbol::A => lemma_all_moves_7(
                expand(Symbol::H, dm),
                expand(Symbol::Right, dm),
                expand(Symbol::A, dm),
                expand(Symbol::Up, dm),
                expand(Symbol::A, dm),
                expand(Symbol::Left, dm),
                expand(Symbol::C, dm),
            ),
            Symbol::B => lemma_all_moves_7(
                expand(Symbol::C, dm),
                expand(Symbol::Left, dm),
                expand(Symbol::B, dm),
                expand(Symbol::Down, dm),
                expand(Symbol::B, dm),
                expand(Symbol::Right, dm),
                expand(Symbol::H, dm),
            ),
            Symbol::C => lemma_all_moves_7(
                expand(Symbol::B, dm),
                expand(Symbol::Down, dm),
                expand(Symbol::C, dm),
                expand(Symbol::Left, dm),
                expand(Symbol::C, dm),
                expand(Symbol::Up, dm),
                expand(Symbol::A, dm),
            ),
            _ => (),
        }
    }
}

/// The concatenated expansion of a whole sequence of symbols, each taken
/// at the same depth `d`.
pub open spec fn expand_all(g: Seq<Symbol>, d: nat) -> Seq<Symbol>
    decreases g.len(),
{
    if g.len() == 0 {
        Seq::empty()
    } else {
        expand(g.first(), d) + expand_all(g.drop_first(), d)
    }
}

/// The one-step rewriting of a whole sequence of symbols.
pub open spec fn rewrite_all(g: Seq<Symbol>) -> Seq<Symbol>
    decreases g.len(),
{
    if g.len() == 0 {
        Seq::empty()
    } else {
        rewrite(g.first()) + rewrite_all(g.drop_first())
    }
}

/// The subsequence of move symbols, in order.
pub open spec fn moves_of(g: Seq<Symbol>) -> Seq<Symbol>
    decreases g.len(),
{
    if g.len() == 0 {
        Seq::empty()
    } else if is_move(g.first()) {
        seq![g.first()] + moves_of(g.drop_first())
    } else {
        moves_of(g.drop_first())
    }
}

/// `expand_all` distributes over concatenation.
pub proof fn lemma_expand_all_add(g1: Seq<Symbol>, g2: Seq<Symbol>, d: nat)
    ensures
        expand_all(g1 + g2, d) == expand_all(g1, d) + expand_all(g2, d),
    decreases g1.len(),
{
    if g1.len() == 0 {
        assert(g1 + g2 =~= g2);
        assert(expand_all(g1, d) + expand_all(g2, d) =~= expand_all(g2, d));
    } else {
        assert((g1 + g2).drop_first() =~= g1.drop_first() + g2);
        lemma_expand_all_add(g1.drop_first(), g2, d);
        assert(expand_all(g1 + g2, d) =~= expand_all(g1, d) + expand_all(g2, d));
    }
}

/// `rewrite_all` distributes over concatenation.
pub proof fn lemma_rewrite_all_add(g1: Seq<Symbol>, g2: Seq<Symbol>)
    ensures
        rewrite_all(g1 + g2) == rewrite_all(g1) + rewrite_all(g2),
    decreases g1.len(),
{
    if g1.len() == 0 {
        assert(g1 + g2 =~= g2);
        assert(rewrite_all(g1) + rewrite_all(g2) =~= rewrite_all(g2));
    } else {
        assert((g1 + g2).drop_first() =~= g1.drop_first() + g2);
        lemma_rewrite_all_add(g1.drop_first(), g2);
        assert(rewrite_all(g1 + g2) =~= rewrite_all(g1) + rewrite_all(g2));
    }
}

/// `moves_of` distributes over concatenation.
pub proof fn lemma_moves_of_add(g1: Seq<Symbol>, g2: Seq<Symbol>)
    ensures
        moves_of(g1 + g2) == moves_of(g1) + moves_of(g2),
    decreases g1.len(),
{
    if g1.len() == 0 {
        assert(g1 + g2 =~= g2);
        assert(moves_of(g1) + moves_of(g2) =~= moves_of(g2));
    } else {
        assert((g1 + g2).drop_first() =~= g1.drop_first() + g2);
        lemma_moves_of_add(g1.drop_first(), g2);
        assert(moves_of(g1 + g2) =~= moves_of(g1) + moves_of(g2));
    }
}

/// `expand_all` on a seven-symbol sequence, written out as the
/// concatenation of the seven expansions.
/// Concatenation of symbol sequences is associative.
proof fn lemma_seq_add_assoc(a: Seq<Symbol>, b: Seq<Symbol>, c: Seq<Symbol>)
    ensures
        (a + b) + c == a + (b + c),
{
    assert((a + b) + c =~= a + (b + c));
}

/// `expand_all` on a seven-symbol sequence, written out as the
/// concatenation of the seven expansions.
proof fn lemma_expand_all_7(g: Seq<Symbol>, d: nat)
    requires
        g.len() == 7,
    ensures
        expand_all(g, d) == expand(g[0], d) + expand(g[1], d) + expand(g[2], d) + expand(g[3], d)
            + expand(g[4], d) + expand(g[5], d) + expand(g[6], d),
{
    let e0 = expand(g[0], d);
    let e1 = expand(g[1], d);
    let e2 = expand(g[2], d);
    let e3 = expand(g[3], d);
    let e4 = expand(g[4], d);
    let e5 = expand(g[5], d);
    let e6 = expand(g[6], d);
    let g1 = g.drop_first();
    let g2 = g1.drop_first();
    let g3 = g2.drop_first();
    let g4 = g3.drop_first();
    let g5 = g4.drop_first();
    let g6 = g5.drop_first();
    let g7 = g6.drop_first();
    assert(g7.len() == 0);
    assert(expand_all(g7, d) == Seq::<Symbol>::empty());
    assert(expand_all(g6, d) == e6 + Seq::<Symbol>::empty());
    assert(e6 + Seq::<Symbol>::empty() =~= e6);
    assert(expand_all(g5, d) == e5 + e6);
    assert(expand_all(g4, d) == e4 + (e5 + e6));
    assert(expand_all(g3, d) == e3 + (e4 + (e5 + e6)));
    assert(expand_all(g2, d) == e2 + (e3 + (e4 + (e5 + e6))));
    assert(expand_all(g1, d) == e1 + (e2 + (e3 + (e4 + (e5 + e6)))));
    assert(expand_all(g, d) == e0 + (e1 + (e2 + (e3 + (e4 + (e5 + e6))))));
    lemma_seq_add_assoc(e0, e1, e2 + (e3 + (e4 + (e5 + e6))));
    lemma_seq_add_assoc(e0 + e1, e2, e3 + (e4 + (e5 + e6)));
    lemma_seq_add_assoc(e0 + e1 + e2, e3, e4 + (e5 + e6));
    lemma_seq_add_assoc(e0 + e1 + e2 + e3, e4, e5 + e6);
    lemma_seq_add_assoc(e0 + e1 + e2 + e3 + e4, e5, e6);
}

/// At positive depth, expanding a symbol is rewriting it once and expanding
/// the result one level lower.
pub proof fn lemma_expand_rewrite(s: Symbol, d: nat)
    requires
        d >= 1,
    ensures
        expand(s, d) == expand_all(rewrite(s), (d - 1) as nat),
{
    let dm = (d - 1) as nat;
    let r = rewrite(s);
    if is_move(s) {
        lemma_expand_move(s, d);
        lemma_expand_move(s, dm);
        assert(r =~= seq![s]);
        assert(r.drop_first() =~= Seq::<Symbol>::empty());
        assert(expand_all(r.drop_first(), dm) == Seq::<Symbol>::empty());
        assert(expand_all(r, dm) =~= expand(s, dm));
    } else {
        assert(r.len() == 7);
        lemma_expand_all_7(r, dm);
    }
}

/// Rewriting a whole generation once and expanding it one level lower gives
/// the same move string as expanding the generation directly.
pub proof fn lemma_expand_all_rewrite(g: Seq<Symbol>, d: nat)
    requires
        d >= 1,
    ensures
        expand_all(rewrite_all(g), (d - 1) as nat) == expand_all(g, d),
    decreases g.len(),
{
    let dm = (d - 1) as nat;
    if g.len() == 0 {
    } else {
        lemma_expand_all_add(rewrite(g.first()), rewrite_all(g.drop_first()), dm);
        lemma_expand_rewrite(g.first(), d);
        lemma_expand_all_rewrite(g.drop_first(), d);
    }
}

/// At depth zero, the expansion of a generation is its subsequence of moves.
pub proof fn lemma_expand_all_zero(g: Seq<Symbol>)
    ensures
        expand_all(g, 0) == moves_of(g),
    decreases g.len(),
{
    if g.len() > 0 {
        lemma_expand_all_zero(g.drop_first());
        if is_move(g.first()) {
            assert(expand(g.first(), 0) =~= seq![g.first()]);
        } else {
            assert(expand_all(g, 0) =~= moves_of(g));
        }
    }
}

/// The remaining work that one queue item `(symbol, depth)` will cause:
/// the number of times it or a descendant of it will be popped.
pub open spec fn sym_weight(s: Symbol, d: nat) -> nat
    decreases d,
{
    if d == 0 {
        1
    } else if is_move(s) {
        1 + sym_weight(s, (d - 1) as nat)
    } else {
        1 + curve_children_weight((d - 1) as nat)
    }
}

/// The combined weight of the seven children of a curve symbol at depth
/// `d`: four curve symbols and three move symbols.
pub open spec fn curve_children_weight(d: nat) -> nat
    decreases d, 1nat,
{
    4 * curve_weight(d) + 3 * move_weight(d)
}

/// The weight of a curve symbol at depth `d`.
pub open spec fn curve_weight(d: nat) -> nat
    decreases d, 0nat,
{
    if d == 0 {
        1
    } else {
        1 + curve_children_weight((d - 1) as nat)
    }
}

/// The weight of a move symbol at depth `d`.
pub open spec fn move_weight(d: nat) -> nat {
    d + 1
}

/// `sym_weight` agrees with the split into curve and move weights.
pub proof fn lemma_sym_weight(s: Symbol, d: nat)
    ensures
        sym_weight(s, d) == if is_move(s) {
            move_weight(d)
        } else {
            curve_weight(d)
        },
    decreases d,
{
    if d > 0 {
        lemma_sym_weight(s, (d - 1) as nat);
    }
}

/// The combined weight of a whole queue.
pub open spec fn queue_weight(q: Seq<(Symbol, usize)>) -> nat
    decreases q.len(),
{
    if q.len() == 0 {
        0
    } else {
        sym_weight(q.first().0, q.first().1 as nat) + queue_weight(q.drop_first())
    }
}

} // verus!
