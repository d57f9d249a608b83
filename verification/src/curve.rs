//! The executable traversal generator.
//!
//! [`HilbertIter`] expands the start symbol with an explicit FIFO work
//! queue, exactly as the rewriting system prescribes: a popped curve
//! symbol at positive depth pushes its seven children to the back, a move
//! symbol is re-queued one level lower, and only at depth zero does a move
//! update the running coordinate and emit it.  The queue therefore works
//! through one whole generation of the rewriting before it reaches the
//! next, and ghost state tracking the current generation proves that the
//! emitted coordinates are exactly [`hilbert_coords`] of the depth.

use vstd::prelude::*;
use std::collections::VecDeque;

verus! {

use vstd::arithmetic::power2::pow2;
use vstd::arithmetic::power2::lemma_pow2_pos;
use vstd::arithmetic::power2::lemma_pow2_unfold;
use vstd::arithmetic::power2::lemma_pow2_strictly_increases;
use vstd::arithmetic::power2::lemma2_to64;
use crate::grammar::Symbol;
use crate::grammar::curve_children_weight;
use crate::grammar::curve_weight;
use crate::grammar::expand;
use crate::grammar::expand_all;
use crate::grammar::is_move;
use crate::grammar::lemma_expand_all_rewrite;
use crate::grammar::lemma_expand_all_zero;
use crate::grammar::lemma_moves_of_add;
use crate::grammar::lemma_rewrite_all_add;
use crate::grammar::lemma_sym_weight;
use crate::grammar::move_weight;
use crate::grammar::moves_of;
use crate::grammar::queue_weight;
use crate::grammar::rewrite;
use crate::grammar::rewrite_all;
use crate::grammar::sym_weight;
use crate::curve_props::hilbert_cells;
use crate::curve_props::hilbert_coords;
use crate::curve_props::hilbert_moves;
use crate::curve_props::in_box;
use crate::curve_props::lemma_path_index;
use crate::curve_props::lemma_path_len;
use crate::curve_props::lemma_traversal_coverage;
use crate::curve_props::step_of;
use crate::curve_props::hilbert_order;
use crate::product::flatten_matrix;

/// A sequence of symbols paired with one common remaining depth, as the
/// work queue stores them.
pub open spec fn with_depth(g: Seq<Symbol>, d: usize) -> Seq<(Symbol, usize)> {
    g.map_values(|s: Symbol| (s, d))
}

/// `with_depth` distributes over concatenation.
proof fn lemma_with_depth_add(g1: Seq<Symbol>, g2: Seq<Symbol>, d: usize)
    ensures
        with_depth(g1 + g2, d) == with_depth(g1, d) + with_depth(g2, d),
{
    assert(with_depth(g1 + g2, d) =~= with_depth(g1, d) + with_depth(g2, d));
}

/// Splitting one element off a prefix.
proof fn lemma_take_snoc(g: Seq<Symbol>, p: int)
    requires
        0 <= p < g.len(),
    ensures
        g.take(p + 1) == g.take(p) + seq![g[p]],
{
    assert(g.take(p + 1) =~= g.take(p) + seq![g[p]]);
}

/// The move subsequence of a single symbol.
proof fn lemma_moves_of_single(s: Symbol)
    ensures
        moves_of(seq![s]) == if is_move(s) {
            seq![s]
        } else {
            Seq::<Symbol>::empty()
        },
{
    assert(seq![s].first() == s);
    assert(seq![s].drop_first() =~= Seq::<Symbol>::empty());
    assert(moves_of(Seq::<Symbol>::empty()) == Seq::<Symbol>::empty());
    if is_move(s) {
        assert(moves_of(seq![s]) == seq![s] + Seq::<Symbol>::empty());
        assert(seq![s] + Seq::<Symbol>::empty() =~= seq![s]);
    }
}

/// The rewriting of a single symbol.
proof fn lemma_rewrite_all_single(s: Symbol)
    ensures
        rewrite_all(seq![s]) == rewrite(s),
{
    assert(seq![s].first() == s);
    assert(seq![s].drop_first() =~= Seq::<Symbol>::empty());
    assert(rewrite_all(Seq::<Symbol>::empty()) == Seq::<Symbol>::empty());
    assert(rewrite_all(seq![s]) == rewrite(s) + Seq::<Symbol>::empty());
    assert(rewrite(s) + Seq::<Symbol>::empty() =~= rewrite(s));
}

/// Queue weight distributes over concatenation.
proof fn lemma_queue_weight_add(a: Seq<(Symbol, usize)>, b: Seq<(Symbol, usize)>)
    ensures
        queue_weight(a + b) == queue_weight(a) + queue_weight(b),
    decreases a.len(),
{
    if a.len() == 0 {
        assert(a + b =~= b);
    } else {
        assert((a + b).drop_first() =~= a.drop_first() + b);
        lemma_queue_weight_add(a.drop_first(), b);
    }
}

/// The children of one symbol weigh one less than the symbol itself:
/// popping it and queueing its children brings the queue one step closer
/// to done.
#[verifier::rlimit(100)]
proof fn lemma_children_weight(s: Symbol, d: usize)
    requires
        d >= 1,
    ensures
        queue_weight(with_depth(rewrite(s), (d - 1) as usize)) == sym_weight(s, d as nat) - 1,
{
    let dm = (d - 1) as usize;
    let c = rewrite(s);
    let w = with_depth(c, dm);
    lemma_sym_weight(s, d as nat);
    if is_move(s) {
        assert(w =~= seq![(s, dm)]);
        assert(w.first() == (s, dm));
        assert(w.drop_first() =~= Seq::<(Symbol, usize)>::empty());
        assert(queue_weight(Seq::<(Symbol, usize)>::empty()) == 0);
        assert(queue_weight(w) == sym_weight(s, dm as nat));
        lemma_sym_weight(s, dm as nat);
    } else {
        let w1 = w.drop_first();
        let w2 = w1.drop_first();
        let w3 = w2.drop_first();
        let w4 = w3.drop_first();
        let w5 = w4.drop_first();
        let w6 = w5.drop_first();
        let w7 = w6.drop_first();
        assert(w7.len() == 0);
        assert(queue_weight(w7) == 0);
        assert(w6.first() == w[6] && w5.first() == w[5] && w4.first() == w[4] && w3.first() == w[3]
            && w2.first() == w[2] && w1.first() == w[1] && w.first() == w[0]);
        assert(forall|k: int| 0 <= k < 7 ==> w[k] == (c[k], dm));
        assert(queue_weight(w6) == sym_weight(c[6], dm as nat) + queue_weight(w7));
        assert(queue_weight(w5) == sym_weight(c[5], dm as nat) + queue_weight(w6));
        assert(queue_weight(w4) == sym_weight(c[4], dm as nat) + queue_weight(w5));
        assert(queue_weight(w3) == sym_weight(c[3], dm as nat) + queue_weight(w4));
        assert(queue_weight(w2) == sym_weight(c[2], dm as nat) + queue_weight(w3));
        assert(queue_weight(w1) == sym_weight(c[1], dm as nat) + queue_weight(w2));
        assert(queue_weight(w) == sym_weight(c[0], dm as nat) + queue_weight(w1));
        lemma_sym_weight(c[0], dm as nat);
        lemma_sym_weight(c[1], dm as nat);
        lemma_sym_weight(c[2], dm as nat);
        lemma_sym_weight(c[3], dm as nat);
        lemma_sym_weight(c[4], dm as nat);
        lemma_sym_weight(c[5], dm as nat);
        lemma_sym_weight(c[6], dm as nat);
        assert(!is_move(c[0]) && is_move(c[1]) && !is_move(c[2]) && is_move(c[3]) && !is_move(c[4])
            && is_move(c[5]) && !is_move(c[6]));
        assert(queue_weight(w) == 4 * curve_weight(dm as nat) + 3 * move_weight(dm as nat));
        assert(queue_weight(w) == curve_children_weight(dm as nat));
    }
}

/// When the popped depth-zero symbol is a move, it is the next move of
/// the full move string, and executing it advances the running position
/// to the next cell of the traversal.
proof fn lemma_next_move(gen: Seq<Symbol>, pos: int, d0: nat, index: int)
    requires
        0 <= pos < gen.len(),
        expand_all(gen, 0) == hilbert_moves(d0),
        moves_of(gen.take(pos)) == hilbert_moves(d0).take(index - 1),
        1 <= index,
        index - 1 <= hilbert_moves(d0).len(),
        is_move(gen[pos]),
    ensures
        index - 1 < hilbert_moves(d0).len(),
        hilbert_moves(d0)[index - 1] == gen[pos],
        moves_of(gen.take(pos + 1)) == hilbert_moves(d0).take(index),
        hilbert_cells(d0)[index] == step_of(hilbert_cells(d0)[index - 1], gen[pos]),
{
    broadcast use lemma_path_len;

    let full = hilbert_moves(d0);
    lemma_expand_all_zero(gen);
    assert(gen =~= gen.take(pos) + gen.skip(pos));
    lemma_moves_of_add(gen.take(pos), gen.skip(pos));
    assert(gen.skip(pos).first() == gen[pos]);
    assert(moves_of(gen.skip(pos)) == seq![gen[pos]] + moves_of(gen.skip(pos).drop_first()));
    assert(full == full.take(index - 1) + (seq![gen[pos]] + moves_of(gen.skip(pos).drop_first())));
    assert(full.take(index - 1).len() == index - 1);
    assert(index - 1 < full.len());
    assert(full[index - 1] == gen[pos]);
    lemma_take_snoc(gen, pos);
    lemma_moves_of_add(gen.take(pos), seq![gen[pos]]);
    lemma_moves_of_single(gen[pos]);
    assert(moves_of(gen.take(pos + 1)) == full.take(index - 1) + seq![gen[pos]]);
    assert(full.take(index - 1) + seq![gen[pos]] =~= full.take(index));
    lemma_path_index((0, 0), full);
    assert(hilbert_cells(d0)[index] == step_of(hilbert_cells(d0)[index - 1], full[index - 1]));
}

/// When the popped depth-zero symbol is a curve symbol, the consumed
/// moves are unchanged.
proof fn lemma_next_curve(gen: Seq<Symbol>, pos: int, d0: nat, index: int)
    requires
        0 <= pos < gen.len(),
        moves_of(gen.take(pos)) == hilbert_moves(d0).take(index - 1),
        !is_move(gen[pos]),
    ensures
        moves_of(gen.take(pos + 1)) == hilbert_moves(d0).take(index - 1),
{
    lemma_take_snoc(gen, pos);
    lemma_moves_of_add(gen.take(pos), seq![gen[pos]]);
    lemma_moves_of_single(gen[pos]);
    assert(moves_of(gen.take(pos)) + Seq::<Symbol>::empty() =~= moves_of(gen.take(pos)));
}

/// One step of the consumed generation prefix at positive depth.
proof fn lemma_rewrite_shift(gen: Seq<Symbol>, pos: int)
    requires
        0 <= pos < gen.len(),
    ensures
        rewrite_all(gen.take(pos + 1)) == rewrite_all(gen.take(pos)) + rewrite(gen[pos]),
{
    lemma_take_snoc(gen, pos);
    lemma_rewrite_all_add(gen.take(pos), seq![gen[pos]]);
    lemma_rewrite_all_single(gen[pos]);
}

/// A nonempty generation rewrites to a nonempty generation.
proof fn lemma_rewrite_all_nonempty(g: Seq<Symbol>)
    requires
        g.len() > 0,
    ensures
        rewrite_all(g).len() > 0,
{
    assert(rewrite(g.first()).len() >= 1);
}

/// A restartable-once generator of the traversal order: each call of
/// [`HilbertIter::next`] yields the next `(index, coordinate)` pair, and
/// `None` once all `4^depth` cells have been yielded.
///
/// The generator is single-use and forward-only; pulling past the end
/// keeps returning `None`.
pub struct HilbertIter {
    index: usize,
    i: usize,
    j: usize,
    queue: VecDeque<(Symbol, usize)>,
    buffer: Option<(usize, (usize, usize))>,
    depth: Ghost<usize>,
    generation: Ghost<Seq<Symbol>>,
    consumed: Ghost<int>,
    gen_depth: Ghost<usize>,
}

impl HilbertIter {
    /// The depth this generator was created for.
    pub closed spec fn depth_spec(self) -> nat {
        self.depth@ as nat
    }

    /// How many coordinates have been handed out so far.
    pub closed spec fn taken(self) -> int {
        if self.buffer is Some {
            self.index - 1
        } else {
            self.index as int
        }
    }

    /// The internal invariant tying the queue to the rewriting system:
    /// the queue holds the unconsumed suffix of the current generation,
    /// followed at one level lower by the rewriting of its consumed
    /// prefix; at depth zero the consumed moves are exactly the consumed
    /// prefix of the full move string.
    pub closed spec fn wf(self) -> bool {
        let d0 = self.depth@ as nat;
        let full = hilbert_moves(d0);
        let cells = hilbert_cells(d0);
        let gen = self.generation@;
        let pos = self.consumed@;
        let gd = self.gen_depth@;
        &&& pow2(d0) * pow2(d0) <= usize::MAX
        &&& 1 <= self.index <= cells.len()
        &&& cells[self.index - 1] == (self.i as int, self.j as int)
        &&& match self.buffer {
            Some(b) => b.0 == self.index - 1 && b.1 == (self.i, self.j),
            None => true,
        }
        &&& gd <= self.depth@
        &&& 0 <= pos <= gen.len()
        &&& expand_all(gen, gd as nat) == full
        &&& if gd > 0 {
            &&& self.index == 1
            &&& pos < gen.len()
            &&& self.queue@ == with_depth(gen.skip(pos), gd) + with_depth(
                rewrite_all(gen.take(pos)),
                (gd - 1) as usize,
            )
        } else {
            &&& self.queue@ == with_depth(gen.skip(pos), 0)
            &&& moves_of(gen.take(pos)) == full.take(self.index - 1)
        }
    }

    /// Create a generator for the given depth; it will yield the
    /// `4^depth` cells of the traversal, starting with `(0, (0, 0))`.
    pub fn new(depth: usize) -> (it: Self)
        requires
            pow2(depth as nat) * pow2(depth as nat) <= usize::MAX,
        ensures
            it.wf(),
            it.depth_spec() == depth as nat,
            it.taken() == 0,
    {
        let ghost start_gen: Seq<Symbol> = seq![Symbol::H];
        let mut queue: VecDeque<(Symbol, usize)> = VecDeque::new();
        queue.push_back((Symbol::H, depth));
        let it = HilbertIter {
            index: 1,
            i: 0,
            j: 0,
            queue,
            buffer: Some((0, (0, 0))),
            depth: Ghost(depth),
            generation: Ghost(start_gen),
            consumed: Ghost(0),
            gen_depth: Ghost(depth),
        };
        proof {
            let d0 = depth as nat;
            lemma_traversal_coverage(d0);
            lemma_pow2_pos(d0);
            assert(hilbert_cells(d0).len() >= 1) by (nonlinear_arith)
                requires
                    hilbert_cells(d0).len() == pow2(d0) * pow2(d0),
                    pow2(d0) >= 1,
            ;
            let gen = start_gen;
            assert(gen.first() == Symbol::H);
            assert(gen.drop_first() =~= Seq::<Symbol>::empty());
            assert(expand_all(Seq::<Symbol>::empty(), d0) == Seq::<Symbol>::empty());
            assert(expand_all(gen, d0) == expand(Symbol::H, d0) + Seq::<Symbol>::empty());
            assert(expand(Symbol::H, d0) + Seq::<Symbol>::empty() =~= hilbert_moves(d0));
            assert(gen.skip(0) =~= gen);
            assert(gen.take(0) =~= Seq::<Symbol>::empty());
            assert(it.queue@ =~= with_depth(gen, depth));
            if depth > 0 {
                assert(with_depth(rewrite_all(gen.take(0)), (depth - 1) as usize)
                    =~= Seq::<(Symbol, usize)>::empty());
                assert(it.queue@ =~= with_depth(gen.skip(0), depth) + with_depth(
                    rewrite_all(gen.take(0)),
                    (depth - 1) as usize,
                ));
            } else {
                assert(moves_of(gen.take(0)) =~= hilbert_moves(d0).take(0));
            }
        }
        it
    }

    /// Push the children of one popped symbol, at one depth lower, to the
    /// back of the queue: the seven work items of a curve symbol, or the
    /// move symbol itself.
    fn push_children(&mut self, symbol: Symbol, d: usize)
        requires
            d >= 1,
        ensures
            final(self).queue@ == old(self).queue@ + with_depth(rewrite(symbol), (d - 1) as usize),
            final(self).index == old(self).index,
            final(self).i == old(self).i,
            final(self).j == old(self).j,
            final(self).buffer == old(self).buffer,
            final(self).depth@ == old(self).depth@,
            final(self).generation@ == old(self).generation@,
            final(self).consumed@ == old(self).consumed@,
            final(self).gen_depth@ == old(self).gen_depth@,
    {
        match symbol {
            Symbol::H => {
                self.queue.push_back((Symbol::A, d - 1));
                self.queue.push_back((Symbol::Up, d - 1));
                self.queue.push_back((Symbol::H, d - 1));
                self.queue.push_back((Symbol::Right, d - 1));
                self.queue.push_back((Symbol::H, d - 1));
                self.queue.push_back((Symbol::Down, d - 1));
                self.queue.push_back((Symbol::B, d - 1));
                proof {
                    assert(self.queue@ =~= old(self).queue@ + with_depth(
                        rewrite(symbol),
                        (d - 1) as usize,
                    ));
                }
            },
            Symbol::A => {
                self.queue.push_back((Symbol::H, d - 1));
                self.queue.push_back((Symbol::Right, d - 1));
                self.queue.push_back((Symbol::A, d - 1));
                self.queue.push_back((Symbol::Up, d - 1));
                self.queue.push_back((Symbol::A, d - 1));
                self.queue.push_back((Symbol::Left, d - 1));
                self.queue.push_back((Symbol::C, d - 1));
                proof {
                    assert(self.queue@ =~= old(self).queue@ + with_depth(
                        rewrite(symbol),
                        (d - 1) as usize,
                    ));
                }
            },
            Symbol::B => {
                self.queue.push_back((Symbol::C, d - 1));
                self.queue.push_back((Symbol::Left, d - 1));
                self.queue.push_back((Symbol::B, d - 1));
                self.queue.push_back((Symbol::Down, d - 1));
                self.queue.push_back((Symbol::B, d - 1));
                self.queue.push_back((Symbol::Right, d - 1));
                self.queue.push_back((Symbol::H, d - 1));
                proof {
                    assert(self.queue@ =~= old(self).queue@ + with_depth(
                        rewrite(symbol),
                        (d - 1) as usize,
                    ));
                }
            },
            Symbol::C => {
                self.queue.push_back((Symbol::B, d - 1));
                self.queue.push_back((Symbol::Down, d - 1));
                self.queue.push_back((Symbol::C, d - 1));
                self.queue.push_back((Symbol::Left, d - 1));
                self.queue.push_back((Symbol::C, d - 1));
                self.queue.push_back((Symbol::Up, d - 1));
                self.queue.push_back((Symbol::A, d - 1));
                proof {
                    assert(self.queue@ =~= old(self).queue@ + with_depth(
                        rewrite(symbol),
                        (d - 1) as usize,
                    ));
                }
            },
            m => {
                // Terminal move symbols are preserved until the end.
                self.queue.push_back((m, d - 1));
                proof {
                    assert(self.queue@ =~= old(self).queue@ + with_depth(
                        rewrite(symbol),
                        (d - 1) as usize,
                    ));
                }
            },
        }
    }

    /// Work through the queue until the next coordinate sits in the
    /// buffer, or the queue is exhausted.
    fn step(&mut self)
        requires
            old(self).wf(),
        ensures
            final(self).wf(),
            final(self).depth_spec() == old(self).depth_spec(),
            final(self).taken() == old(self).taken(),
            final(self).buffer is Some <==> old(self).taken() < hilbert_cells(
                old(self).depth_spec(),
            ).len(),
    {
        proof {
            broadcast use lemma_path_len;

            lemma_traversal_coverage(self.depth@ as nat);
        }
        let ghost d0 = self.depth@ as nat;
        let ghost t0 = self.taken();
        while self.buffer.is_none() && self.queue.len() > 0
            invariant
                self.wf(),
                self.depth@ as nat == d0,
                self.taken() == t0,
            decreases queue_weight(self.queue@),
        {
            let ghost full = hilbert_moves(d0);
            let ghost cells = hilbert_cells(d0);
            let ghost q0 = self.queue@;
            let ghost gen = self.generation@;
            let ghost pos = self.consumed@;
            let ghost gd = self.gen_depth@;
            proof {
                broadcast use lemma_path_len;

                lemma_traversal_coverage(d0);
                if gd == 0 {
                    assert(pos < gen.len());
                }
                assert(q0.first() == (gen[pos], if gd > 0 {
                    gd
                } else {
                    0usize
                }));
            }
            let popped = self.queue.pop_front().unwrap();
            let symbol: Symbol = popped.0;
            let d: usize = popped.1;
            proof {
                assert(symbol == gen[pos]);
                assert(d == gd);
                assert(self.queue@ =~= q0.drop_first());
                assert(queue_weight(q0) == sym_weight(symbol, d as nat) + queue_weight(
                    self.queue@,
                ));
            }
            if d == 0 && matches!(symbol, Symbol::Up | Symbol::Down | Symbol::Left | Symbol::Right)
             {
                proof {
                    lemma_next_move(gen, pos, d0, self.index as int);
                    assert(in_box((0, 0), pow2(d0) as int, cells[self.index as int]));
                    assert(in_box((0, 0), pow2(d0) as int, cells[self.index - 1]));
                    assert(pow2(d0) <= pow2(d0) * pow2(d0)) by (nonlinear_arith)
                        requires
                            pow2(d0) >= 1,
                    ;
                    lemma_pow2_pos(d0);
                    assert(with_depth(gen.skip(pos), 0).drop_first() =~= with_depth(
                        gen.skip(pos + 1),
                        0,
                    ));
                }
                match symbol {
                    Symbol::Up => {
                        self.i += 1;
                    },
                    Symbol::Down => {
                        self.i -= 1;
                    },
                    Symbol::Right => {
                        self.j += 1;
                    },
                    Symbol::Left => {
                        self.j -= 1;
                    },
                    _ => {},
                }
                self.buffer = Some((self.index, (self.i, self.j)));
                self.index += 1;
                proof {
                    self.consumed@ = pos + 1;
                    assert(cells[self.index - 1] == (self.i as int, self.j as int));
                }
            } else if d == 0 {
                proof {
                    lemma_next_curve(gen, pos, d0, self.index as int);
                    assert(with_depth(gen.skip(pos), 0).drop_first() =~= with_depth(
                        gen.skip(pos + 1),
                        0,
                    ));
                    self.consumed@ = pos + 1;
                }
            } else {
                self.push_children(symbol, d);
                proof {
                    let dm = (d - 1) as usize;
                    // The queue after the pop and the pushes.
                    assert((with_depth(gen.skip(pos), gd) + with_depth(
                        rewrite_all(gen.take(pos)),
                        dm,
                    )).drop_first() =~= with_depth(gen.skip(pos + 1), gd) + with_depth(
                        rewrite_all(gen.take(pos)),
                        dm,
                    ));
                    lemma_rewrite_shift(gen, pos);
                    lemma_with_depth_add(rewrite_all(gen.take(pos)), rewrite(symbol), dm);
                    assert(self.queue@ =~= with_depth(gen.skip(pos + 1), gd) + with_depth(
                        rewrite_all(gen.take(pos + 1)),
                        dm,
                    ));
                    // Weight decreases by one.
                    lemma_queue_weight_add(q0.drop_first(), with_depth(rewrite(symbol), dm));
                    lemma_children_weight(symbol, d);
                    self.consumed@ = pos + 1;
                    if pos + 1 == gen.len() {
                        // The generation is consumed: roll over to the next.
                        lemma_expand_all_rewrite(gen, gd as nat);
                        assert(gen.take(pos + 1) =~= gen);
                        self.generation@ = rewrite_all(gen);
                        self.consumed@ = 0;
                        self.gen_depth@ = dm;
                        lemma_rewrite_all_nonempty(gen);
                        let gen2 = rewrite_all(gen);
                        assert(gen2.skip(0) =~= gen2);
                        assert(gen2.take(0) =~= Seq::<Symbol>::empty());
                        assert(with_depth(gen.skip(pos + 1), gd) =~= Seq::<(Symbol, usize)>::empty());
                        assert(self.queue@ =~= with_depth(gen2.skip(0), dm));
                        if dm > 0 {
                            assert(self.queue@ =~= with_depth(gen2.skip(0), dm) + with_depth(
                                rewrite_all(gen2.take(0)),
                                (dm - 1) as usize,
                            ));
                        } else {
                            assert(moves_of(gen2.take(0)) =~= full.take(0));
                        }
                    }
                }
            }
            proof {
                assert(queue_weight(self.queue@) < queue_weight(q0));
            }
        }
        proof {
            if self.buffer is None {
                // The queue is exhausted: every move has been executed.
                let gen = self.generation@;
                let pos = self.consumed@;
                assert(self.queue@.len() == 0);
                assert(self.gen_depth@ == 0) by {
                    if self.gen_depth@ > 0 {
                        assert(self.queue@.len() >= with_depth(
                            gen.skip(pos),
                            self.gen_depth@,
                        ).len());
                    }
                }
                assert(gen.skip(pos).len() == 0);
                assert(pos == gen.len());
                assert(gen.take(pos) =~= gen);
                lemma_expand_all_zero(gen);
                let full = hilbert_moves(d0);
                assert(full.take(self.index - 1) == full);
                assert(full.take(self.index - 1).len() == self.index - 1);
                broadcast use lemma_path_len;

                assert(self.index == hilbert_cells(d0).len());
            }
        }
    }

    /// Yield the next `(index, coordinate)` pair of the traversal, or
    /// `None` once all `4^depth` cells have been yielded.
    pub fn next(&mut self) -> (r: Option<(usize, (usize, usize))>)
        requires
            old(self).wf(),
        ensures
            final(self).wf(),
            final(self).depth_spec() == old(self).depth_spec(),
            ({
                let t = old(self).taken();
                let d = old(self).depth_spec();
                if t < hilbert_cells(d).len() {
                    &&& r == Some((t as usize, hilbert_coords(d)[t]))
                    &&& final(self).taken() == t + 1
                } else {
                    &&& r is None
                    &&& final(self).taken() == t
                }
            }),
    {
        self.step();
        let r = self.buffer;
        self.buffer = None;
        proof {
            let d = self.depth@ as nat;
            if r is Some {
                assert(hilbert_coords(d)[self.index - 1] == (self.i, self.j));
            }
        }
        r
    }
}

/// The floor of the base-2 logarithm; zero for inputs below two.
pub open spec fn floor_log2(n: nat) -> nat
    decreases n,
{
    if n <= 1 {
        0
    } else {
        1 + floor_log2(n / 2)
    }
}

/// For positive `n`, `floor_log2` brackets `n` between two powers of two.
pub proof fn lemma_floor_log2(n: nat)
    requires
        n >= 1,
    ensures
        pow2(floor_log2(n)) <= n < pow2(floor_log2(n) + 1),
    decreases n,
{
    lemma2_to64();
    if n <= 1 {
    } else {
        lemma_floor_log2(n / 2);
        lemma_pow2_unfold(floor_log2(n));
        lemma_pow2_unfold(floor_log2(n) + 1);
    }
}

/// The depth of the traversal for a grid of side `n`: the floor of the
/// base-2 logarithm of `n`.
///
/// Callers that go on to generate a curve must ensure `n` is an exact
/// power of two: for other `n` the rounded-down depth sizes the curve to
/// the next power of two below, which covers only part of the grid.
pub fn log2(n: usize) -> (r: usize)
    ensures
        r == floor_log2(n as nat),
{
    let mut m = n;
    let mut r: usize = 0;
    proof {
        lemma2_to64();
    }
    while m >= 2
        invariant
            m <= n,
            floor_log2(n as nat) == r + floor_log2(m as nat),
            n >= 1 ==> m >= 1 && m * pow2(r as nat) <= n,
        decreases m,
    {
        proof {
            lemma_pow2_pos(r as nat);
            lemma_pow2_unfold((r + 1) as nat);
            assert((m / 2) * pow2((r + 1) as nat) <= m * pow2(r as nat)) by (nonlinear_arith)
                requires
                    m >= 2,
                    pow2((r + 1) as nat) == 2 * pow2(r as nat),
                    pow2(r as nat) >= 1,
            ;
            assert(pow2(r as nat) <= m * pow2(r as nat)) by (nonlinear_arith)
                requires
                    m >= 1,
                    pow2(r as nat) >= 1,
            ;
            lemma2_to64();
            if r >= 64 {
                if r > 64 {
                    lemma_pow2_strictly_increases(64, r as nat);
                }
                assert(false);
            }
        }
        m = m / 2;
        r += 1;
    }
    r
}

/// Generate the traversal coordinates for a depth eagerly, as one vector:
/// the `4^depth` cells of the `2^depth x 2^depth` grid in visitation
/// order, starting at `(0, 0)`.
///
/// The result depends on `depth` alone, so repeated calls return
/// identical vectors.
pub fn hilbert_iter(depth: usize) -> (r: Vec<(usize, usize)>)
    requires
        pow2(depth as nat) * pow2(depth as nat) <= usize::MAX,
    ensures
        r@ == hilbert_coords(depth as nat),
{
    let d0: Ghost<nat> = Ghost(depth as nat);
    let mut it = HilbertIter::new(depth);
    let mut result: Vec<(usize, usize)> = Vec::new();
    loop
        invariant
            it.wf(),
            it.depth_spec() == d0@,
            it.taken() == result@.len(),
            result@ == hilbert_coords(d0@).take(result@.len() as int),
        ensures
            result@ == hilbert_coords(d0@),
        decreases hilbert_cells(d0@).len() - it.taken(),
    {
        match it.next() {
            Some(p) => {
                result.push(p.1);
                proof {
                    assert(result@ =~= hilbert_coords(d0@).take(result@.len() as int));
                }
            },
            None => {
                proof {
                    assert(result@ =~= hilbert_coords(d0@));
                }
                break;
            },
        }
    }
    result
}

/// Build the traversal order and the flattened matrix for one grid side:
/// the order of depth `floor_log2(n)` with its visitation indices, and
/// the matrix entries permuted into visitation order.
///
/// `n` must be an exact power of two, so that the curve of the derived
/// depth covers the whole `n x n` grid.
pub fn setup_hilbert(n: usize, a: Vec<i32>) -> (r: (Vec<(usize, (usize, usize))>, Vec<i32>))
    requires
        n * n <= usize::MAX,
        a@.len() == n * n,
        pow2(floor_log2(n as nat)) == n,
    ensures
        r.0@ == hilbert_order(floor_log2(n as nat)),
        r.0@.len() == n * n,
        r.1@.len() == n * n,
        forall|k: int|
            0 <= k < r.0@.len() ==> r.1@[k] == a@[n * ((#[trigger] r.0@[k]).1.0 as int)
                + r.0@[k].1.1 as int],
{
    let depth: usize = log2(n);
    proof {
        lemma_pow2_pos(depth as nat);
        lemma_traversal_coverage(depth as nat);
        assert(pow2(depth as nat) * pow2(depth as nat) == n * n);
    }
    let mut it = HilbertIter::new(depth);
    let mut coordinate_iter: Vec<(usize, (usize, usize))> = Vec::new();
    let ghost d0 = depth as nat;
    loop
        invariant
            it.wf(),
            it.depth_spec() == d0,
            it.taken() == coordinate_iter@.len(),
            coordinate_iter@ == hilbert_order(d0).take(coordinate_iter@.len() as int),
        ensures
            coordinate_iter@ == hilbert_order(d0),
        decreases hilbert_cells(d0).len() - it.taken(),
    {
        match it.next() {
            Some(p) => {
                coordinate_iter.push(p);
                proof {
                    assert(coordinate_iter@ =~= hilbert_order(d0).take(
                        coordinate_iter@.len() as int,
                    ));
                }
            },
            None => {
                proof {
                    assert(coordinate_iter@ =~= hilbert_order(d0));
                }
                break;
            },
        }
    }
    proof {
        lemma_traversal_coverage(d0);
        assert forall|k: int| 0 <= k < coordinate_iter@.len() implies {
            let e = #[trigger] coordinate_iter@[k];
            e.0 < n * n && e.1.0 < n && e.1.1 < n
        } by {
            let e = coordinate_iter@[k];
            assert(e.0 == k as usize);
            assert(e.1 == hilbert_coords(d0)[k]);
            assert(in_box((0, 0), pow2(d0) as int, hilbert_cells(d0)[k]));
        }
    }
    let flattened = flatten_matrix(&coordinate_iter, a, n);
    proof {
        // Visitation indices are distinct, so every entry keeps its write.
        assert forall|k: int|
            0 <= k < coordinate_iter@.len() implies flattened@[k] == a@[n * ((
        coordinate_iter@[k]).1.0 as int) + (coordinate_iter@[k]).1.1 as int] by {
            assert(forall|k2: int|
                k < k2 < coordinate_iter@.len() ==> (#[trigger] coordinate_iter@[k2]).0
                    != coordinate_iter@[k].0);
            assert((coordinate_iter@[k]).0 as int == k);
        }
    }
    (coordinate_iter, flattened)
}

} // verus!
