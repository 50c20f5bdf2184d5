//! The move-legality constraints: the line merge as a circuit, the orientation
//! of the four directions onto it, the direction multiplexer and the binder.
use crate::board::{
    cell, cell_index, lemma_cell_positions, legal_move, line_of, line_of_cell, moved_board, pos_of_cell,
    Direction,
};
use crate::circuit::{bit, is_bit, val, ConstraintSet, Term, Wire};
use crate::field::{all_canonical, canonical, dbl, fe, modulus};
use crate::line::{
    cascade, compact4, first_free, lemma_selection_form, mark_chosen, merge_at, merged_line, mergeable,
    none_chosen, slot_value,
};
use vstd::prelude::*;

verus! {

/// The values of four wires.
pub open spec fn vals4(ws: [Wire; 4], env: Seq<int>) -> Seq<int> {
    seq![val(ws[0].term@, env), val(ws[1].term@, env), val(ws[2].term@, env), val(ws[3].term@, env)]
}

/// Which of four 0/1 wires hold 1.
pub open spec fn flags4(ws: [Wire; 4], env: Seq<int>) -> Seq<bool> {
    seq![
        val(ws[0].term@, env) == 1,
        val(ws[1].term@, env) == 1,
        val(ws[2].term@, env) == 1,
        val(ws[3].term@, env) == 1,
    ]
}

/// Four wires hold 0 or 1.
pub open spec fn bits4(ws: [Wire; 4], env: Seq<int>) -> bool {
    &&& is_bit(val(ws[0].term@, env))
    &&& is_bit(val(ws[1].term@, env))
    &&& is_bit(val(ws[2].term@, env))
    &&& is_bit(val(ws[3].term@, env))
}

/// Four wires of a constraint set.
pub open spec fn has4(cs: &ConstraintSet, ws: [Wire; 4]) -> bool {
    &&& cs.has(ws[0])
    &&& cs.has(ws[1])
    &&& cs.has(ws[2])
    &&& cs.has(ws[3])
}

/// `nonzero[k]` is 1 exactly where `tiles[k]` is nonzero.
pub open spec fn nonzero_flags(tiles: [Wire; 4], nonzero: [Wire; 4], env: Seq<int>) -> bool {
    &&& val(nonzero[0].term@, env) == bit(val(tiles[0].term@, env) != 0)
    &&& val(nonzero[1].term@, env) == bit(val(tiles[1].term@, env) != 0)
    &&& val(nonzero[2].term@, env) == bit(val(tiles[2].term@, env) != 0)
    &&& val(nonzero[3].term@, env) == bit(val(tiles[3].term@, env) != 0)
}

/// The values of sixteen wires.
pub open spec fn vals16(ws: [Wire; 16], env: Seq<int>) -> Seq<int> {
    Seq::new(16, |i: int| val(ws[i].term@, env))
}

/// Sixteen wires of a constraint set.
pub open spec fn has16(cs: &ConstraintSet, ws: [Wire; 16]) -> bool {
    forall|i: int| 0 <= i < 16 ==> #[trigger] cs.has(ws[i])
}

/// The indicator-weighted sum `i0 * v0 + i1 * v1 + i2 * v2 + i3 * v3` in the field.
pub open spec fn weighted(ind: Seq<int>, v: Seq<int>) -> int {
    fe(ind[3] * v[3] + fe(ind[2] * v[2] + fe(ind[1] * v[1] + fe(ind[0] * v[0] + 0))))
}

/// Where exactly the indicator at `d` is 1, the weighted sum is the value at `d`.
pub proof fn lemma_weighted_one_hot(ind: Seq<int>, v: Seq<int>, d: int)
    requires
        0 <= d < 4,
        ind.len() == 4,
        v.len() == 4,
        forall|k: int| 0 <= k < 4 ==> #[trigger] ind[k] == bit(k == d),
        forall|k: int| 0 <= k < 4 ==> canonical(#[trigger] v[k]),
    ensures
        weighted(ind, v) == v[d],
{
    vstd::arithmetic::div_mod::lemma_small_mod(0, modulus() as nat);
    assert(canonical(v[d]));
    vstd::arithmetic::div_mod::lemma_small_mod(v[d] as nat, modulus() as nat);
    assert(ind[0] == bit(d == 0));
    if d == 0 {
        assert(ind[0] * v[0] == v[0]);
    } else {
        assert(ind[0] * v[0] == 0);
    }
    assert(ind[1] == bit(d == 1));
    if d == 1 {
        assert(ind[1] * v[1] == v[1]);
    } else {
        assert(ind[1] * v[1] == 0);
    }
    assert(ind[2] == bit(d == 2));
    if d == 2 {
        assert(ind[2] * v[2] == v[2]);
    } else {
        assert(ind[2] * v[2] == 0);
    }
    assert(ind[3] == bit(d == 3));
    if d == 3 {
        assert(ind[3] * v[3] == v[3]);
    } else {
        assert(ind[3] * v[3] == 0);
    }
}

/// The values of cell `j` of the four moved boards.
pub open spec fn candidates(
    up: [Wire; 16],
    down: [Wire; 16],
    left: [Wire; 16],
    right: [Wire; 16],
    j: int,
    env: Seq<int>,
) -> Seq<int> {
    seq![val(up[j].term@, env), val(down[j].term@, env), val(left[j].term@, env), val(right[j].term@, env)]
}

/// Wires of a set stay wires of every set grown from it.
pub proof fn lemma_grown_has16(new: &ConstraintSet, old: &ConstraintSet, ws: [Wire; 16])
    requires
        new.grown(old),
        has16(old, ws),
    ensures
        has16(new, ws),
{
    assert forall|i: int| 0 <= i < 16 implies #[trigger] new.has(ws[i]) by {
        assert(old.has(ws[i]));
    }
}

/// The number of public inputs of the move circuit: the sixteen cells of the
/// board before the move, the sixteen cells after it, and the direction code.
pub const NUM_INPUTS: usize = 33;

/// The circuit for the legality of a 2048 move.
pub struct Game2048Circuit;

impl Game2048Circuit {
    /// Fills the next slot of the compaction: among the tiles that are nonzero
    /// and not yet chosen, the first is selected and marked chosen; where there
    /// is none the slot receives zero.
    fn pick_next(
        cs: &mut ConstraintSet,
        tiles: [Wire; 4],
        nonzero: [Wire; 4],
        chosen: [Wire; 4],
        zero: Wire,
    ) -> (r: (Wire, [Wire; 4]))
        requires
            old(cs).wf(),
            old(cs).num_wires() + 24 <= usize::MAX,
            has4(old(cs), tiles),
            has4(old(cs), nonzero),
            has4(old(cs), chosen),
            old(cs).has(zero),
            forall|env: Seq<int>| #[trigger] val(zero.term@, env) == 0,
            forall|env: Seq<int>| #[trigger] nonzero_flags(tiles, nonzero, env),
            forall|env: Seq<int>| #[trigger] bits4(chosen, env),
        ensures
            final(cs).grown(old(cs)),
            final(cs).num_wires() <= old(cs).num_wires() + 24,
            final(cs).has(r.0),
            has4(final(cs), r.1),
            forall|env: Seq<int>|
                #[trigger] val(r.0.term@, env) == slot_value(vals4(tiles, env), flags4(chosen, env)),
            forall|env: Seq<int>| #[trigger] bits4(r.1, env),
            forall|env: Seq<int>|
                #[trigger] flags4(r.1, env) == mark_chosen(vals4(tiles, env), flags4(chosen, env)),
    {
        let free0 = cs.not(chosen[0]);
        let free1 = cs.not(chosen[1]);
        let free2 = cs.not(chosen[2]);
        let free3 = cs.not(chosen[3]);
        let take0 = cs.and(nonzero[0], free0);
        let cand1 = cs.and(nonzero[1], free1);
        let cand2 = cs.and(nonzero[2], free2);
        let cand3 = cs.and(nonzero[3], free3);
        let none0 = cs.not(take0);
        let take1 = cs.and(cand1, none0);
        let found1 = cs.or(take0, take1);
        let none1 = cs.not(found1);
        let take2 = cs.and(cand2, none1);
        let found2 = cs.or(found1, take2);
        let none2 = cs.not(found2);
        let take3 = cs.and(cand3, none2);
        let pick3 = cs.select(take3, tiles[3], zero);
        let pick2 = cs.select(take2, tiles[2], pick3);
        let pick1 = cs.select(take1, tiles[1], pick2);
        let value = cs.select(take0, tiles[0], pick1);
        let mark0 = cs.or(chosen[0], take0);
        let mark1 = cs.or(chosen[1], take1);
        let mark2 = cs.or(chosen[2], take2);
        let mark3 = cs.or(chosen[3], take3);
        let marks = [mark0, mark1, mark2, mark3];
        proof {
            assert forall|env: Seq<int>|
                #[trigger] val(value.term@, env) == slot_value(vals4(tiles, env), flags4(chosen, env))
                    && bits4(marks, env) && flags4(marks, env) == mark_chosen(
                    vals4(tiles, env),
                    flags4(chosen, env),
                ) by {
                assert(nonzero_flags(tiles, nonzero, env));
                assert(bits4(chosen, env));
                assert(val(zero.term@, env) == 0);
                let v = vals4(tiles, env);
                let ch = flags4(chosen, env);
                let e = first_free(v, ch);
                assert(val(take0.term@, env) == bit(e == 0));
                assert(val(take1.term@, env) == bit(e == 1));
                assert(val(found1.term@, env) == bit(e == 0 || e == 1));
                assert(val(take2.term@, env) == bit(e == 2));
                assert(val(found2.term@, env) == bit(e == 0 || e == 1 || e == 2));
                assert(val(take3.term@, env) == bit(e == 3));
                assert(val(mark0.term@, env) == bit(ch[0] || e == 0));
                assert(val(mark1.term@, env) == bit(ch[1] || e == 1));
                assert(val(mark2.term@, env) == bit(ch[2] || e == 2));
                assert(val(mark3.term@, env) == bit(ch[3] || e == 3));
                assert(flags4(marks, env) =~= mark_chosen(v, ch));
            }
            assert forall|env: Seq<int>| #[trigger] bits4(marks, env) by {
                assert(val(value.term@, env) == slot_value(vals4(tiles, env), flags4(chosen, env)));
            }
            assert forall|env: Seq<int>|
                #[trigger] flags4(marks, env) == mark_chosen(vals4(tiles, env), flags4(chosen, env)) by {
                assert(val(value.term@, env) == slot_value(vals4(tiles, env), flags4(chosen, env)));
            }
        }
        (value, marks)
    }

    /// Doubles `x` where `cond` is 1, and leaves it where `cond` is 0.
    fn double_if(cs: &mut ConstraintSet, x: Wire, cond: Wire, two: Wire, zero: Wire) -> (r: Wire)
        requires
            old(cs).wf(),
            old(cs).num_wires() + 2 <= usize::MAX,
            old(cs).has(x),
            old(cs).has(cond),
            old(cs).has(two),
            old(cs).has(zero),
            forall|env: Seq<int>| #[trigger] val(zero.term@, env) == 0,
            forall|env: Seq<int>| #[trigger] val(two.term@, env) == 2,
        ensures
            final(cs).grown(old(cs)),
            final(cs).num_wires() <= old(cs).num_wires() + 2,
            final(cs).has(r),
            forall|env: Seq<int>|
                is_bit(val(cond.term@, env)) ==> #[trigger] val(r.term@, env) == if val(cond.term@, env) == 1 {
                    dbl(val(x.term@, env))
                } else {
                    val(x.term@, env)
                },
    {
        let doubled = cs.mul_add(x, two, zero);
        let r = cs.select(cond, doubled, x);
        proof {
            assert forall|env: Seq<int>| is_bit(val(cond.term@, env)) implies #[trigger] val(r.term@, env)
                == if val(cond.term@, env) == 1 {
                dbl(val(x.term@, env))
            } else {
                val(x.term@, env)
            } by {
                assert(val(zero.term@, env) == 0);
                assert(val(two.term@, env) == 2);
                assert(val(doubled.term@, env) == dbl(val(x.term@, env)));
            }
        }
        r
    }

    /// One merge stage on pair (`i`, `i + 1`): where `enabled` is 1 and the pair
    /// holds equal nonzero tiles, slot `i` doubles and the later slots move up
    /// one place, with zero entering at the end. Returns the line and the
    /// indicator of the merge.
    fn merge_stage(
        cs: &mut ConstraintSet,
        x: [Wire; 4],
        i: usize,
        enabled: Wire,
        two: Wire,
        zero: Wire,
    ) -> (r: ([Wire; 4], Wire))
        requires
            i < 3,
            old(cs).wf(),
            old(cs).num_wires() + 10 <= usize::MAX,
            has4(old(cs), x),
            old(cs).has(enabled),
            old(cs).has(two),
            old(cs).has(zero),
            forall|env: Seq<int>| #[trigger] val(zero.term@, env) == 0,
            forall|env: Seq<int>| #[trigger] val(two.term@, env) == 2,
            forall|env: Seq<int>| #[trigger] is_bit(val(enabled.term@, env)),
        ensures
            final(cs).grown(old(cs)),
            final(cs).num_wires() <= old(cs).num_wires() + 10,
            has4(final(cs), r.0),
            final(cs).has(r.1),
            forall|env: Seq<int>|
                #[trigger] val(r.1.term@, env) == bit(
                    val(enabled.term@, env) == 1 && mergeable(vals4(x, env), i as int),
                ),
            forall|env: Seq<int>|
                #[trigger] vals4(r.0, env) == if val(r.1.term@, env) == 1 {
                    merge_at(vals4(x, env), i as int)
                } else {
                    vals4(x, env)
                },
    {
        let eq = cs.is_equal(x[i], x[i + 1]);
        let is_zero = cs.is_equal(x[i], zero);
        let nonzero = cs.not(is_zero);
        let pair = cs.and(eq, nonzero);
        let m = cs.and(pair, enabled);
        let doubled = Self::double_if(cs, x[i], m, two, zero);
        let y0 = if i == 0 {
            doubled
        } else {
            x[0]
        };
        let y1 = if i == 0 {
            cs.select(m, x[2], x[1])
        } else if i == 1 {
            doubled
        } else {
            x[1]
        };
        let y2 = if i < 2 {
            cs.select(m, x[3], x[2])
        } else {
            doubled
        };
        let y3 = cs.select(m, zero, x[3]);
        let y = [y0, y1, y2, y3];
        proof {
            assert forall|env: Seq<int>|
                #[trigger] val(m.term@, env) == bit(
                    val(enabled.term@, env) == 1 && mergeable(vals4(x, env), i as int),
                ) && vals4(y, env) == if val(m.term@, env) == 1 {
                    merge_at(vals4(x, env), i as int)
                } else {
                    vals4(x, env)
                } by {
                assert(val(zero.term@, env) == 0);
                assert(is_bit(val(enabled.term@, env)));
                assert(val(m.term@, env) == bit(
                    val(enabled.term@, env) == 1 && mergeable(vals4(x, env), i as int),
                ));
                if val(m.term@, env) == 1 {
                    assert(vals4(y, env) =~= merge_at(vals4(x, env), i as int));
                } else {
                    assert(vals4(y, env) =~= vals4(x, env));
                }
            }
            assert forall|env: Seq<int>|
                #[trigger] vals4(y, env) == if val(m.term@, env) == 1 {
                    merge_at(vals4(x, env), i as int)
                } else {
                    vals4(x, env)
                } by {
                assert(val(m.term@, env) == bit(
                    val(enabled.term@, env) == 1 && mergeable(vals4(x, env), i as int),
                ));
            }
        }
        (y, m)
    }

    /// Compacts the line `tiles` in the circuit: slot `k` receives the first
    /// tile that is nonzero and not chosen for an earlier slot, or zero.
    fn compact_line(cs: &mut ConstraintSet, tiles: [Wire; 4], zero: Wire) -> (r: [Wire; 4])
        requires
            old(cs).wf(),
            old(cs).num_wires() + 104 <= usize::MAX,
            has4(old(cs), tiles),
            old(cs).has(zero),
            forall|env: Seq<int>| #[trigger] val(zero.term@, env) == 0,
        ensures
            final(cs).grown(old(cs)),
            final(cs).num_wires() <= old(cs).num_wires() + 104,
            has4(final(cs), r),
            forall|env: Seq<int>| #[trigger] vals4(r, env) == compact4(vals4(tiles, env)),
    {
        let z0 = cs.is_equal(tiles[0], zero);
        let n0 = cs.not(z0);
        let z1 = cs.is_equal(tiles[1], zero);
        let n1 = cs.not(z1);
        let z2 = cs.is_equal(tiles[2], zero);
        let n2 = cs.not(z2);
        let z3 = cs.is_equal(tiles[3], zero);
        let n3 = cs.not(z3);
        let nonzero = [n0, n1, n2, n3];
        let chosen0 = [zero, zero, zero, zero];
        proof {
            assert forall|env: Seq<int>| #[trigger] nonzero_flags(tiles, nonzero, env) by {
                assert(val(zero.term@, env) == 0);
            }
            assert forall|env: Seq<int>| #[trigger] bits4(chosen0, env) by {
                assert(val(zero.term@, env) == 0);
            }
        }
        let (x0, chosen1) = Self::pick_next(cs, tiles, nonzero, chosen0, zero);
        let (x1, chosen2) = Self::pick_next(cs, tiles, nonzero, chosen1, zero);
        let (x2, chosen3) = Self::pick_next(cs, tiles, nonzero, chosen2, zero);
        let (x3, _chosen4) = Self::pick_next(cs, tiles, nonzero, chosen3, zero);
        let x = [x0, x1, x2, x3];
        proof {
            assert forall|env: Seq<int>| #[trigger] vals4(x, env) == compact4(vals4(tiles, env)) by {
                let v = vals4(tiles, env);
                assert(flags4(chosen0, env) =~= none_chosen()) by {
                    assert(val(zero.term@, env) == 0);
                }
                assert(flags4(chosen1, env) == mark_chosen(v, flags4(chosen0, env)));
                assert(flags4(chosen2, env) == mark_chosen(v, flags4(chosen1, env)));
                assert(flags4(chosen3, env) == mark_chosen(v, flags4(chosen2, env)));
                assert(val(x0.term@, env) == slot_value(v, flags4(chosen0, env)));
                assert(val(x1.term@, env) == slot_value(v, flags4(chosen1, env)));
                assert(val(x2.term@, env) == slot_value(v, flags4(chosen2, env)));
                assert(val(x3.term@, env) == slot_value(v, flags4(chosen3, env)));
                assert(vals4(x, env) =~= compact4(v));
            }
        }
        x
    }

    /// The three merge stages on a compacted line: pair (0,1); pair (1,2) of
    /// the current line; pair (2,3), skipped where (1,2) merged and (0,1) did not.
    fn merge_pairs(cs: &mut ConstraintSet, x: [Wire; 4], one: Wire, two: Wire, zero: Wire) -> (r: [Wire; 4])
        requires
            old(cs).wf(),
            old(cs).num_wires() + 32 <= usize::MAX,
            has4(old(cs), x),
            old(cs).has(one),
            old(cs).has(two),
            old(cs).has(zero),
            forall|env: Seq<int>| #[trigger] val(zero.term@, env) == 0,
            forall|env: Seq<int>| #[trigger] val(one.term@, env) == 1,
            forall|env: Seq<int>| #[trigger] val(two.term@, env) == 2,
        ensures
            final(cs).grown(old(cs)),
            final(cs).num_wires() <= old(cs).num_wires() + 32,
            has4(final(cs), r),
            forall|env: Seq<int>| #[trigger] vals4(r, env) == cascade(vals4(x, env)),
    {
        proof {
            assert forall|env: Seq<int>| #[trigger] is_bit(val(one.term@, env)) by {
                assert(val(one.term@, env) == 1);
            }
        }
        let (y, m0) = Self::merge_stage(cs, x, 0, one, two, zero);
        let (z, m1) = Self::merge_stage(cs, y, 1, one, two, zero);
        let no_m1 = cs.not(m1);
        let enabled2 = cs.or(m0, no_m1);
        proof {
            assert forall|env: Seq<int>| #[trigger] is_bit(val(enabled2.term@, env)) by {
                assert(val(m0.term@, env) == bit(val(one.term@, env) == 1 && mergeable(vals4(x, env), 0)));
                assert(val(m1.term@, env) == bit(val(one.term@, env) == 1 && mergeable(vals4(y, env), 1)));
            }
        }
        let (w, _m2) = Self::merge_stage(cs, z, 2, enabled2, two, zero);
        proof {
            assert forall|env: Seq<int>| #[trigger] vals4(w, env) == cascade(vals4(x, env)) by {
                assert(val(one.term@, env) == 1);
                assert(val(m0.term@, env) == bit(mergeable(vals4(x, env), 0)));
                assert(val(m1.term@, env) == bit(mergeable(vals4(y, env), 1)));
                assert(vals4(y, env) == if mergeable(vals4(x, env), 0) {
                    merge_at(vals4(x, env), 0)
                } else {
                    vals4(x, env)
                });
                assert(vals4(z, env) == if mergeable(vals4(y, env), 1) {
                    merge_at(vals4(y, env), 1)
                } else {
                    vals4(y, env)
                });
                assert(is_bit(val(enabled2.term@, env)));
            }
        }
        w
    }

    /// An upper bound on the gates that one line merge adds.
    pub open spec fn merge_gates() -> int {
        140
    }

    /// Merges the line `[a, b, c, d]` toward `a` in the circuit: the nonzero
    /// tiles are compacted slot by slot, each slot taking the first tile that
    /// is nonzero and not chosen for an earlier slot; then pairs (0,1), (1,2)
    /// and (2,3) merge in one pass in which no tile merges twice. Every choice
    /// is a selection by a 0/1 indicator. The result wires hold the merged line.
    pub fn merge_2048_row(cs: &mut ConstraintSet, a: Wire, b: Wire, c: Wire, d: Wire) -> (r: [Wire; 4])
        requires
            old(cs).wf(),
            old(cs).num_wires() + Self::merge_gates() <= usize::MAX,
            old(cs).has(a),
            old(cs).has(b),
            old(cs).has(c),
            old(cs).has(d),
        ensures
            final(cs).grown(old(cs)),
            final(cs).num_wires() <= old(cs).num_wires() + Self::merge_gates(),
            has4(final(cs), r),
            forall|env: Seq<int>|
                #[trigger] vals4(r, env) == merged_line(
                    seq![val(a.term@, env), val(b.term@, env), val(c.term@, env), val(d.term@, env)],
                ),
    {
        let zero = cs.constant(0);
        let one = cs.constant(1);
        let two = cs.constant(2);
        proof {
            vstd::arithmetic::div_mod::lemma_small_mod(1, modulus() as nat);
            vstd::arithmetic::div_mod::lemma_small_mod(2, modulus() as nat);
            assert forall|env: Seq<int>| #[trigger] val(one.term@, env) == 1 by {}
            assert forall|env: Seq<int>| #[trigger] val(two.term@, env) == 2 by {}
        }
        let tiles = [a, b, c, d];
        let x = Self::compact_line(cs, tiles, zero);
        let w = Self::merge_pairs(cs, x, one, two, zero);
        proof {
            assert forall|env: Seq<int>|
                #[trigger] vals4(w, env) == merged_line(
                    seq![val(a.term@, env), val(b.term@, env), val(c.term@, env), val(d.term@, env)],
                ) by {
                let v = vals4(tiles, env);
                assert(v == seq![val(a.term@, env), val(b.term@, env), val(c.term@, env), val(d.term@, env)]);
                assert(vals4(x, env) == compact4(v));
                lemma_selection_form(v);
            }
        }
        w
    }

    /// An upper bound on the gates that one board move adds.
    pub open spec fn board_gates() -> int {
        4 * Self::merge_gates()
    }

    /// The board after a move in `dir`, in the circuit: each line of the
    /// direction is read from `before` in merge-traversal order, merged, and
    /// written back onto the cells it came from.
    pub fn merged_board(cs: &mut ConstraintSet, before: [Wire; 16], dir: Direction) -> (r: [Wire; 16])
        requires
            old(cs).wf(),
            old(cs).num_wires() + Self::board_gates() <= usize::MAX,
            has16(old(cs), before),
        ensures
            final(cs).grown(old(cs)),
            final(cs).num_wires() <= old(cs).num_wires() + Self::board_gates(),
            has16(final(cs), r),
            forall|ws: [Wire; 16]| has16(old(cs), ws) ==> #[trigger] has16(final(cs), ws),
            forall|env: Seq<int>|
                #[trigger] vals16(r, env) == moved_board(vals16(before, env), dir.spec_code()),
    {
        let ghost d = dir.spec_code();
        let ghost start = *cs;
        proof {
            lemma_cell_positions(d);
        }
        let mut out = before;
        let mut w: usize = 0;
        while w < 4
            invariant
                w <= 4,
                d == dir.spec_code(),
                start.wf(),
                has16(&start, before),
                cs.grown(&start),
                cs.num_wires() <= start.num_wires() + w * Self::merge_gates(),
                start.num_wires() + Self::board_gates() <= usize::MAX,
                has16(cs, out),
                has16(cs, before),
                forall|i: int| 0 <= i < 16 ==> 0 <= #[trigger] line_of_cell(d, i) < 4,
                forall|env: Seq<int>, i: int|
                    0 <= i < 16 && line_of_cell(d, i) < w ==> #[trigger] val(out[i].term@, env) == moved_board(
                        vals16(before, env),
                        d,
                    )[i],
            decreases 4 - w,
        {
            let i0 = cell(dir, w, 0);
            let i1 = cell(dir, w, 1);
            let i2 = cell(dir, w, 2);
            let i3 = cell(dir, w, 3);
            let ghost mid = *cs;
            let merged = Self::merge_2048_row(cs, before[i0], before[i1], before[i2], before[i3]);
            out[i0] = merged[0];
            out[i1] = merged[1];
            out[i2] = merged[2];
            out[i3] = merged[3];
            proof {
                assert forall|env: Seq<int>, i: int|
                    0 <= i < 16 && line_of_cell(d, i) < w + 1 implies #[trigger] val(out[i].term@, env)
                    == moved_board(vals16(before, env), d)[i] by {
                    if line_of_cell(d, i) == w {
                        let k = pos_of_cell(d, i);
                        assert(i == cell_index(d, w as int, k));
                        let b = vals16(before, env);
                        assert(seq![
                            val(before[i0 as int].term@, env),
                            val(before[i1 as int].term@, env),
                            val(before[i2 as int].term@, env),
                            val(before[i3 as int].term@, env),
                        ] =~= line_of(b, d, w as int));
                        assert(vals4(merged, env) == merged_line(line_of(b, d, w as int)));
                        assert(val(out[i].term@, env) == vals4(merged, env)[k]);
                    }
                }
                assert forall|i: int| 0 <= i < 16 implies #[trigger] cs.has(out[i]) by {
                    if line_of_cell(d, i) != w {
                        assert(mid.has(out[i]));
                    }
                }
                assert forall|i: int| 0 <= i < 16 implies #[trigger] cs.has(before[i]) by {
                    assert(mid.has(before[i]));
                }
            }
            w = w + 1;
        }
        proof {
            assert forall|ws: [Wire; 16]| has16(&start, ws) implies #[trigger] has16(cs, ws) by {
                lemma_grown_has16(cs, &start, ws);
            }
            assert forall|env: Seq<int>|
                #[trigger] vals16(out, env) == moved_board(vals16(before, env), d) by {
                assert(vals16(out, env) =~= moved_board(vals16(before, env), d));
            }
        }
        out
    }

    /// Binds one cell: the indicator-weighted sum of the four candidate values
    /// `cells` is constrained to equal `after`.
    fn bind_cell(cs: &mut ConstraintSet, ind: [Wire; 4], cells: [Wire; 4], after: Wire, zero: Wire)
        requires
            old(cs).wf(),
            old(cs).num_wires() + 4 <= usize::MAX,
            has4(old(cs), ind),
            has4(old(cs), cells),
            old(cs).has(after),
            old(cs).has(zero),
            forall|env: Seq<int>| #[trigger] val(zero.term@, env) == 0,
        ensures
            final(cs).wf(),
            final(cs).num_inputs == old(cs).num_inputs,
            final(cs).num_wires() <= old(cs).num_wires() + 4,
            final(cs).terms@.len() >= old(cs).terms@.len(),
            forall|w: int|
                0 <= w < old(cs).terms@.len() ==> #[trigger] final(cs).terms@[w] == old(cs).terms@[w],
            forall|env: Seq<int>|
                #[trigger] final(cs).holds(env) == (old(cs).holds(env) && val(after.term@, env) == weighted(
                    vals4(ind, env),
                    vals4(cells, env),
                )),
    {
        let ghost start = *cs;
        let acc0 = cs.mul_add(ind[0], cells[0], zero);
        let acc1 = cs.mul_add(ind[1], cells[1], acc0);
        let acc2 = cs.mul_add(ind[2], cells[2], acc1);
        let acc3 = cs.mul_add(ind[3], cells[3], acc2);
        let ghost mid = *cs;
        proof {
            crate::circuit::lemma_grown_holds(&mid, &start);
        }
        cs.connect(acc3, after);
        proof {
            assert forall|env: Seq<int>| #[trigger] val(acc3.term@, env) == weighted(vals4(ind, env), vals4(cells, env)) by {
                assert(val(zero.term@, env) == 0);
            }
        }
    }

    /// The constraints of a move claim: four direction indicators, the one-hot
    /// condition that exactly one of them is 1, the four moved boards, and for
    /// each cell the equality of the indicator-weighted sum of the four moved
    /// cells with the claimed cell of `after`.
    pub fn add_constraints(cs: &mut ConstraintSet, before: [Wire; 16], after: [Wire; 16], dir: Wire)
        requires
            old(cs).wf(),
            old(cs).num_wires() + 12 + 4 * Self::board_gates() + 64 <= usize::MAX,
            has16(old(cs), before),
            has16(old(cs), after),
            old(cs).has(dir),
        ensures
            final(cs).wf(),
            final(cs).num_inputs == old(cs).num_inputs,
            forall|env: Seq<int>|
                #[trigger] final(cs).holds(env) == (old(cs).holds(env) && legal_move(
                    vals16(before, env),
                    vals16(after, env),
                    val(dir.term@, env),
                )),
    {
        let ghost start = *cs;
        let c0 = cs.constant(0);
        let c1 = cs.constant(1);
        let c2 = cs.constant(2);
        let c3 = cs.constant(3);
        let is_up = cs.is_equal(dir, c0);
        let is_down = cs.is_equal(dir, c1);
        let is_left = cs.is_equal(dir, c2);
        let is_right = cs.is_equal(dir, c3);
        let ind = [is_up, is_down, is_left, is_right];
        let s01 = cs.add(is_up, is_down);
        let s012 = cs.add(s01, is_left);
        let count = cs.add(s012, is_right);
        proof {
            lemma_grown_has16(cs, &start, before);
            lemma_grown_has16(cs, &start, after);
        }
        let up = Self::merged_board(cs, before, Direction::Up);
        let down = Self::merged_board(cs, before, Direction::Down);
        let left = Self::merged_board(cs, before, Direction::Left);
        let right = Self::merged_board(cs, before, Direction::Right);
        let ghost built = *cs;
        proof {
            crate::circuit::lemma_grown_holds(&built, &start);
            vstd::arithmetic::div_mod::lemma_small_mod(0, modulus() as nat);
            vstd::arithmetic::div_mod::lemma_small_mod(1, modulus() as nat);
            vstd::arithmetic::div_mod::lemma_small_mod(2, modulus() as nat);
            vstd::arithmetic::div_mod::lemma_small_mod(3, modulus() as nat);
        }
        cs.connect(count, c1);
        let ghost one_hot = *cs;
        let mut i: usize = 0;
        while i < 16
            invariant
                i <= 16,
                built.wf(),
                cs.wf(),
                cs.num_inputs == start.num_inputs,
                cs.num_wires() <= built.num_wires() + 4 * i,
                built.num_wires() + 64 <= usize::MAX,
                cs.terms@.len() >= built.terms@.len(),
                forall|w: int| 0 <= w < built.terms@.len() ==> #[trigger] cs.terms@[w] == built.terms@[w],
                has4(&built, ind),
                has16(&built, up),
                has16(&built, down),
                has16(&built, left),
                has16(&built, right),
                has16(&built, after),
                built.has(c0),
                forall|env: Seq<int>| #[trigger] val(c0.term@, env) == 0,
                forall|env: Seq<int>|
                    #[trigger] cs.holds(env) == (one_hot.holds(env) && forall|j: int|
                        0 <= j < i ==> #[trigger] val(after[j].term@, env) == weighted(
                            vals4(ind, env),
                            candidates(up, down, left, right, j, env),
                        )),
            decreases 16 - i,
        {
            let cells = [up[i], down[i], left[i], right[i]];
            let ghost prev = *cs;
            proof {
                assert(built.has(up[i as int]) && built.has(down[i as int]) && built.has(left[i as int])
                    && built.has(right[i as int]) && built.has(after[i as int]));
                assert(built.has(ind[0]) && built.has(ind[1]) && built.has(ind[2]) && built.has(ind[3]));
            }
            Self::bind_cell(cs, ind, cells, after[i], c0);
            proof {
                assert forall|env: Seq<int>|
                    #[trigger] cs.holds(env) == (one_hot.holds(env) && forall|j: int|
                        0 <= j < i + 1 ==> #[trigger] val(after[j].term@, env) == weighted(
                            vals4(ind, env),
                            candidates(up, down, left, right, j, env),
                        )) by {
                    assert(vals4(cells, env) == candidates(up, down, left, right, i as int, env));
                    assert(prev.holds(env) == (one_hot.holds(env) && forall|j: int|
                        0 <= j < i ==> #[trigger] val(after[j].term@, env) == weighted(
                            vals4(ind, env),
                            candidates(up, down, left, right, j, env),
                        )));
                }
            }
            i = i + 1;
        }
        proof {
            assert forall|env: Seq<int>|
                #[trigger] cs.holds(env) == (start.holds(env) && legal_move(
                    vals16(before, env),
                    vals16(after, env),
                    val(dir.term@, env),
                )) by {
                let dv = val(dir.term@, env);
                let b = vals16(before, env);
                let a = vals16(after, env);
                assert(one_hot.holds(env) == (start.holds(env) && val(count.term@, env) == 1));
                assert(val(count.term@, env) == bit(0 <= dv < 4));
                if 0 <= dv < 4 {
                    assert forall|j: int| 0 <= j < 16 implies #[trigger] weighted(
                        vals4(ind, env),
                        candidates(up, down, left, right, j, env),
                    ) == moved_board(b, dv)[j] by {
                        let v = candidates(up, down, left, right, j, env);
                        assert(vals16(up, env)[j] == v[0]);
                        assert(vals16(down, env)[j] == v[1]);
                        assert(vals16(left, env)[j] == v[2]);
                        assert(vals16(right, env)[j] == v[3]);
                        assert forall|k: int| 0 <= k < 4 implies canonical(#[trigger] v[k]) by {
                            crate::circuit::lemma_val_canonical(up[j].term@, env);
                            crate::circuit::lemma_val_canonical(down[j].term@, env);
                            crate::circuit::lemma_val_canonical(left[j].term@, env);
                            crate::circuit::lemma_val_canonical(right[j].term@, env);
                        }
                        lemma_weighted_one_hot(vals4(ind, env), v, dv);
                    }
                    if a == moved_board(b, dv) {
                        assert forall|j: int| 0 <= j < 16 implies #[trigger] val(after[j].term@, env) == weighted(
                            vals4(ind, env),
                            candidates(up, down, left, right, j, env),
                        ) by {
                            assert(a[j] == val(after[j].term@, env));
                        }
                    }
                    if cs.holds(env) {
                        assert(a =~= moved_board(b, dv)) by {
                            assert forall|j: int| 0 <= j < 16 implies a[j] == moved_board(b, dv)[j] by {
                                assert(val(after[j].term@, env) == weighted(
                                    vals4(ind, env),
                                    candidates(up, down, left, right, j, env),
                                ));
                            }
                        }
                    }
                }
            }
        }
    }

    /// Builds the constraint set for a move claim. Its public inputs are, in
    /// order, the board before the move (row-major), the board after it, and
    /// the direction code (0 Up, 1 Down, 2 Left, 3 Right). It accepts exactly
    /// the inputs where the direction code names a direction and the second
    /// board is the move of the first in that direction.
    pub fn build_circuit() -> (r: ConstraintSet)
        ensures
            r.wf(),
            r.num_inputs == NUM_INPUTS,
            forall|env: Seq<int>|
                env.len() == NUM_INPUTS && all_canonical(env) ==> (#[trigger] r.accepts(env) <==> legal_move(
                    env.subrange(0, 16),
                    env.subrange(16, 32),
                    env[32],
                )),
    {
        let mut cs = ConstraintSet::new(NUM_INPUTS);
        let ghost start = cs;
        let mut before = [cs.input(0); 16];
        let mut after = [cs.input(16); 16];
        let mut i: usize = 0;
        while i < 16
            invariant
                i <= 16,
                cs == start,
                cs.wf(),
                cs.num_inputs == NUM_INPUTS,
                has16(&cs, before),
                has16(&cs, after),
                forall|k: int| 0 <= k < i ==> (#[trigger] before[k]).term@ == Term::Input(k as usize),
                forall|k: int| 0 <= k < i ==> (#[trigger] after[k]).term@ == Term::Input((16 + k) as usize),
            decreases 16 - i,
        {
            before[i] = cs.input(i);
            after[i] = cs.input(16 + i);
            i = i + 1;
        }
        let dir = cs.input(32);
        Self::add_constraints(&mut cs, before, after, dir);
        proof {
            crate::circuit::lemma_accepts_holds(&cs);
            assert forall|env: Seq<int>|
                env.len() == NUM_INPUTS && all_canonical(env) implies (#[trigger] cs.accepts(env) <==> legal_move(
                    env.subrange(0, 16),
                    env.subrange(16, 32),
                    env[32],
                )) by {
                assert forall|k: int| 0 <= k < 33 implies fe(#[trigger] env[k]) == env[k] by {
                    assert(canonical(env[k]));
                    vstd::arithmetic::div_mod::lemma_small_mod(env[k] as nat, modulus() as nat);
                }
                assert(vals16(before, env) =~= env.subrange(0, 16)) by {
                    assert forall|k: int| 0 <= k < 16 implies vals16(before, env)[k] == env[k] by {
                        assert(before[k].term@ == Term::Input(k as usize));
                    }
                }
                assert(vals16(after, env) =~= env.subrange(16, 32)) by {
                    assert forall|k: int| 0 <= k < 16 implies vals16(after, env)[k] == env[16 + k] by {
                        assert(after[k].term@ == Term::Input((16 + k) as usize));
                    }
                }
                assert(val(dir.term@, env) == env[32]);
                assert(start.holds(env));
            }
        }
        cs
    }
}

} // verus!
