//! The line merge: compaction of nonzero tiles toward index 0, one left-to-right
//! pass of pairwise merging, and zero fill.
use crate::field::{all_canonical, canonical, dbl, double, fe, ints, modulus, ORDER};
use vstd::prelude::*;

verus! {

// ---------------------------------------------------------------------------
// The 2048 rule on a line of field elements
// ---------------------------------------------------------------------------

/// The nonzero values of `s`, in the order in which they stand there.
pub open spec fn nonzeros(s: Seq<int>) -> Seq<int>
    decreases s.len(),
{
    if s.len() == 0 {
        seq![]
    } else if s[0] == 0 {
        nonzeros(s.drop_first())
    } else {
        seq![s[0]] + nonzeros(s.drop_first())
    }
}

/// One left-to-right pass of the merge rule on a line without gaps: a pair of
/// equal neighbours becomes one tile of twice the value, and a tile that came
/// out of a merge takes part in no other merge.
pub open spec fn combine(s: Seq<int>) -> Seq<int>
    decreases s.len(),
{
    if s.len() < 2 {
        s
    } else if s[0] == s[1] {
        seq![dbl(s[0])] + combine(s.subrange(2, s.len() as int))
    } else {
        seq![s[0]] + combine(s.drop_first())
    }
}

/// `n` zeros.
pub open spec fn zeros(n: nat) -> Seq<int> {
    Seq::new(n, |i: int| 0int)
}

/// `s` followed by zeros up to length `n`.
pub open spec fn pad_zeros(s: Seq<int>, n: nat) -> Seq<int> {
    if s.len() <= n {
        s + zeros((n - s.len()) as nat)
    } else {
        s
    }
}

/// The merged form of a line: its tiles slid toward index 0 and merged.
pub open spec fn merged_line(line: Seq<int>) -> Seq<int> {
    pad_zeros(combine(nonzeros(line)), line.len())
}

/// The sum of a sequence, as an integer.
pub open spec fn sum(s: Seq<int>) -> int
    decreases s.len(),
{
    if s.len() == 0 {
        0
    } else {
        s[0] + sum(s.drop_first())
    }
}

/// No two neighbours of `s` are equal.
pub open spec fn no_adjacent_equal(s: Seq<int>) -> bool {
    forall|i: int| 0 <= i < s.len() - 1 ==> #[trigger] s[i] != s[i + 1]
}

// ---------------------------------------------------------------------------
// The selection form of the rule on a line of four
// ---------------------------------------------------------------------------

/// A tile that is nonzero and not yet chosen for an earlier slot.
pub open spec fn is_candidate(v: Seq<int>, chosen: Seq<bool>, e: int) -> bool {
    v[e] != 0 && !chosen[e]
}

/// The index of the first candidate tile, or 4 where there is none.
pub open spec fn first_free(v: Seq<int>, chosen: Seq<bool>) -> int {
    if is_candidate(v, chosen, 0) {
        0
    } else if is_candidate(v, chosen, 1) {
        1
    } else if is_candidate(v, chosen, 2) {
        2
    } else if is_candidate(v, chosen, 3) {
        3
    } else {
        4
    }
}

/// The value that the next slot receives: the first candidate, or zero.
pub open spec fn slot_value(v: Seq<int>, chosen: Seq<bool>) -> int {
    let e = first_free(v, chosen);
    if e < 4 {
        v[e]
    } else {
        0
    }
}

/// The chosen marks after the next slot has been filled.
pub open spec fn mark_chosen(v: Seq<int>, chosen: Seq<bool>) -> Seq<bool> {
    let e = first_free(v, chosen);
    if e < 4 {
        chosen.update(e, true)
    } else {
        chosen
    }
}

/// No tile chosen yet.
pub open spec fn none_chosen() -> Seq<bool> {
    seq![false, false, false, false]
}

/// Compaction of a line of four by four successive slot selections.
pub open spec fn compact4(v: Seq<int>) -> Seq<int> {
    let c0 = none_chosen();
    let c1 = mark_chosen(v, c0);
    let c2 = mark_chosen(v, c1);
    let c3 = mark_chosen(v, c2);
    seq![slot_value(v, c0), slot_value(v, c1), slot_value(v, c2), slot_value(v, c3)]
}

/// Positions `i` and `i + 1` hold equal nonzero tiles.
pub open spec fn mergeable(x: Seq<int>, i: int) -> bool {
    x[i] != 0 && x[i] == x[i + 1]
}

/// The line of four after merging positions `i` and `i + 1`: slot `i` doubles,
/// the slots after it move one place toward index 0, and the last becomes zero.
pub open spec fn merge_at(x: Seq<int>, i: int) -> Seq<int> {
    Seq::new(
        4,
        |j: int|
            if j < i {
                x[j]
            } else if j == i {
                dbl(x[i])
            } else if j < 3 {
                x[j + 1]
            } else {
                0
            },
    )
}

/// The three merge stages on a compacted line of four: pair (0,1); then pair
/// (1,2) of the current line; then pair (2,3), skipped where (1,2) merged and
/// (0,1) did not.
pub open spec fn cascade(x: Seq<int>) -> Seq<int> {
    let m0 = mergeable(x, 0);
    let y = if m0 {
        merge_at(x, 0)
    } else {
        x
    };
    let m1 = mergeable(y, 1);
    let z = if m1 {
        merge_at(y, 1)
    } else {
        y
    };
    let m2 = (m0 || !m1) && mergeable(z, 2);
    if m2 {
        merge_at(z, 2)
    } else {
        z
    }
}

// ---------------------------------------------------------------------------
// Lemmas
// ---------------------------------------------------------------------------

/// The nonzero values are nonzero, canonical where the line is, and no more
/// than the line holds.
pub proof fn lemma_nonzeros(s: Seq<int>)
    ensures
        nonzeros(s).len() <= s.len(),
        forall|i: int| 0 <= i < nonzeros(s).len() ==> #[trigger] nonzeros(s)[i] != 0,
        all_canonical(s) ==> all_canonical(nonzeros(s)),
    decreases s.len(),
{
    if s.len() > 0 {
        lemma_nonzeros(s.drop_first());
        let t = nonzeros(s.drop_first());
        if s[0] != 0 {
            assert(nonzeros(s) == seq![s[0]] + t);
            assert forall|i: int| 0 <= i < nonzeros(s).len() implies #[trigger] nonzeros(s)[i] != 0 by {
                if i > 0 {
                    assert(nonzeros(s)[i] == t[i - 1]);
                }
            }
            if all_canonical(s) {
                assert(all_canonical(s.drop_first())) by {
                    assert forall|i: int| 0 <= i < s.drop_first().len() implies canonical(#[trigger] s.drop_first()[i]) by {
                        assert(s.drop_first()[i] == s[i + 1]);
                    }
                }
                assert forall|i: int| 0 <= i < nonzeros(s).len() implies canonical(#[trigger] nonzeros(s)[i]) by {
                    if i > 0 {
                        assert(nonzeros(s)[i] == t[i - 1]);
                    } else {
                        assert(canonical(s[0]));
                    }
                }
            }
        } else {
            if all_canonical(s) {
                assert(all_canonical(s.drop_first())) by {
                    assert forall|i: int| 0 <= i < s.drop_first().len() implies canonical(#[trigger] s.drop_first()[i]) by {
                        assert(s.drop_first()[i] == s[i + 1]);
                    }
                }
            }
        }
    }
}

/// A pass of merging never lengthens a line.
pub proof fn lemma_combine_len(s: Seq<int>)
    ensures
        combine(s).len() <= s.len(),
    decreases s.len(),
{
    if s.len() >= 2 {
        if s[0] == s[1] {
            lemma_combine_len(s.subrange(2, s.len() as int));
        } else {
            lemma_combine_len(s.drop_first());
        }
    }
}


/// A merged line is as long as the line.
pub proof fn lemma_merge_len(line: Seq<int>)
    ensures
        merged_line(line).len() == line.len(),
{
    lemma_nonzeros(line);
    lemma_combine_len(nonzeros(line));
}

/// Four successive slot selections compact the line.
pub proof fn lemma_compact4(v: Seq<int>)
    requires
        v.len() == 4,
    ensures
        compact4(v) == pad_zeros(nonzeros(v), 4),
{
    reveal_with_fuel(nonzeros, 5);
    lemma_nonzeros(v);
    let n = nonzeros(v);
    assert(compact4(v) =~= pad_zeros(n, 4));
}

/// The three merge stages on a compacted line agree with one pass of merging.
pub proof fn lemma_cascade(s: Seq<int>)
    requires
        s.len() <= 4,
        forall|i: int| 0 <= i < s.len() ==> #[trigger] s[i] != 0,
    ensures
        cascade(pad_zeros(s, 4)) == pad_zeros(combine(s), 4),
{
    reveal_with_fuel(combine, 3);
    lemma_combine_len(s);
    let x = pad_zeros(s, 4);
    if s.len() == 0 {
        assert(cascade(x) =~= pad_zeros(combine(s), 4));
    } else if s.len() == 1 {
        assert(cascade(x) =~= pad_zeros(combine(s), 4));
    } else if s.len() == 2 {
        assert(cascade(x) =~= pad_zeros(combine(s), 4));
    } else if s.len() == 3 {
        assert(cascade(x) =~= pad_zeros(combine(s), 4));
    } else {
        let (a, b, c, d) = (s[0], s[1], s[2], s[3]);
        let cd = s.subrange(2, 4);
        let bcd = s.drop_first();
        assert(cd =~= seq![c, d]);
        assert(bcd =~= seq![b, c, d]);
        assert(bcd.subrange(2, 3) =~= seq![d]);
        assert(bcd.drop_first() =~= seq![c, d]);
        assert(seq![c, d].drop_first() =~= seq![d]);
        assert(seq![b, c, d].drop_first() =~= seq![c, d]);
        assert(seq![b, c, d].subrange(2, 3) =~= seq![d]);
        assert(seq![c, d].subrange(2, 2) =~= Seq::<int>::empty());
        if a == b {
            assert(combine(s) == seq![dbl(a)] + combine(seq![c, d]));
        } else {
            assert(combine(s) == seq![a] + combine(seq![b, c, d]));
        }
        assert(cascade(x) =~= pad_zeros(combine(s), 4));
    }
}

/// Selection-based compaction followed by the three merge stages is the merge
/// of a line of four.
pub proof fn lemma_selection_form(v: Seq<int>)
    requires
        v.len() == 4,
    ensures
        cascade(compact4(v)) == merged_line(v),
{
    lemma_compact4(v);
    lemma_nonzeros(v);
    lemma_cascade(nonzeros(v));
}


proof fn lemma_sum_concat(a: Seq<int>, b: Seq<int>)
    ensures
        sum(a + b) == sum(a) + sum(b),
    decreases a.len(),
{
    if a.len() > 0 {
        assert((a + b).drop_first() =~= a.drop_first() + b);
        lemma_sum_concat(a.drop_first(), b);
    } else {
        assert(a + b =~= b);
    }
}

proof fn lemma_sum_prepend(x: int, s: Seq<int>)
    ensures
        sum(seq![x] + s) == x + sum(s),
{
    assert((seq![x] + s).drop_first() =~= s);
}

proof fn lemma_sum_zeros(n: nat)
    ensures
        sum(zeros(n)) == 0,
    decreases n,
{
    if n > 0 {
        assert(zeros(n).drop_first() =~= zeros((n - 1) as nat));
        lemma_sum_zeros((n - 1) as nat);
    }
}

proof fn lemma_sum_nonzeros(s: Seq<int>)
    ensures
        sum(nonzeros(s)) == sum(s),
    decreases s.len(),
{
    if s.len() > 0 {
        lemma_sum_nonzeros(s.drop_first());
        if s[0] != 0 {
            lemma_sum_prepend(s[0], nonzeros(s.drop_first()));
        }
    }
}

proof fn lemma_sum_combine(s: Seq<int>)
    ensures
        fe(sum(combine(s))) == fe(sum(s)),
    decreases s.len(),
{
    if s.len() >= 2 {
        if s[0] == s[1] {
            let rest = s.subrange(2, s.len() as int);
            lemma_sum_combine(rest);
            assert(s.drop_first().drop_first() =~= rest);
            let x = combine(rest);
            lemma_sum_prepend(dbl(s[0]), x);
            let m = modulus();
            assert(s.drop_first()[0] == s[1]);
            assert(sum(s.drop_first()) == s[1] + sum(rest));
            assert(sum(s) == 2 * s[0] + sum(rest));
            vstd::arithmetic::div_mod::lemma_add_mod_noop(dbl(s[0]), sum(x), m);
            vstd::arithmetic::div_mod::lemma_mod_twice(2 * s[0], m);
            vstd::arithmetic::div_mod::lemma_add_mod_noop(2 * s[0], sum(x), m);
            vstd::arithmetic::div_mod::lemma_add_mod_noop(2 * s[0], sum(rest), m);
            assert(fe(sum(combine(s))) == fe(dbl(s[0]) + sum(x)));
            assert(fe(dbl(s[0]) + sum(x)) == fe(fe(2 * s[0]) + fe(sum(x))));
            assert(fe(2 * s[0] + sum(x)) == fe(fe(2 * s[0]) + fe(sum(x))));
            assert(fe(2 * s[0] + sum(rest)) == fe(fe(2 * s[0]) + fe(sum(rest))));
        } else {
            let rest = s.drop_first();
            lemma_sum_combine(rest);
            lemma_sum_prepend(s[0], combine(rest));
            vstd::arithmetic::div_mod::lemma_add_mod_noop(s[0], sum(combine(rest)), modulus());
            vstd::arithmetic::div_mod::lemma_add_mod_noop(s[0], sum(rest), modulus());
        }
    }
}

/// Merging conserves the field sum of a line: it only adds equal values
/// together, and never creates or destroys total magnitude.
pub proof fn lemma_merge_conserves_sum(line: Seq<int>)
    ensures
        fe(sum(merged_line(line))) == fe(sum(line)),
{
    let n = nonzeros(line);
    lemma_nonzeros(line);
    lemma_combine_len(n);
    lemma_sum_nonzeros(line);
    lemma_sum_combine(n);
    let c = combine(n);
    lemma_sum_concat(c, zeros((line.len() - c.len()) as nat));
    lemma_sum_zeros((line.len() - c.len()) as nat);
}

proof fn lemma_combine_no_pairs(s: Seq<int>)
    requires
        no_adjacent_equal(s),
    ensures
        combine(s) == s,
    decreases s.len(),
{
    if s.len() >= 2 {
        assert(s[0] != s[1]);
        let rest = s.drop_first();
        assert(no_adjacent_equal(rest)) by {
            assert forall|i: int| 0 <= i < rest.len() - 1 implies #[trigger] rest[i] != rest[i + 1] by {
                assert(rest[i] == s[i + 1] && rest[i + 1] == s[i + 2]);
            }
        }
        lemma_combine_no_pairs(rest);
        assert(seq![s[0]] + rest =~= s);
    }
}

/// Where no two neighbouring tiles are equal once the gaps are closed, merging
/// a line only compacts it.
pub proof fn lemma_merge_without_pairs_compacts(line: Seq<int>)
    requires
        no_adjacent_equal(nonzeros(line)),
    ensures
        merged_line(line) == pad_zeros(nonzeros(line), line.len()),
{
    lemma_combine_no_pairs(nonzeros(line));
}


// ---------------------------------------------------------------------------
// The merge on concrete values
// ---------------------------------------------------------------------------

/// Every tile of a line of four is a canonical field element.
pub open spec fn line_canonical(line: [u64; 4]) -> bool {
    forall|k: int| 0 <= k < 4 ==> #[trigger] line[k] < ORDER
}

/// Fills the next slot of the compaction: the first tile that is nonzero and
/// not yet chosen, or zero, and marks that tile chosen.
fn pick_next(v: &[u64; 4], chosen: [bool; 4]) -> (r: (u64, [bool; 4]))
    ensures
        r.0 as int == slot_value(ints(v@), chosen@),
        r.1@ == mark_chosen(ints(v@), chosen@),
        r.0 == 0 || exists|k: int| 0 <= k < 4 && r.0 == v[k],
{
    let take0 = v[0] != 0 && !chosen[0];
    let found0 = take0;
    let take1 = v[1] != 0 && !chosen[1] && !found0;
    let found1 = found0 || take1;
    let take2 = v[2] != 0 && !chosen[2] && !found1;
    let found2 = found1 || take2;
    let take3 = v[3] != 0 && !chosen[3] && !found2;
    let value = if take0 {
        v[0]
    } else if take1 {
        v[1]
    } else if take2 {
        v[2]
    } else if take3 {
        v[3]
    } else {
        0
    };
    let marks = [chosen[0] || take0, chosen[1] || take1, chosen[2] || take2, chosen[3] || take3];
    assert(marks@ =~= mark_chosen(ints(v@), chosen@));
    (value, marks)
}

/// One merge stage: where `enabled` holds and positions `i` and `i + 1` hold
/// equal nonzero tiles, slot `i` doubles and the rest moves up one place.
fn merge_stage(x: [u64; 4], i: usize, enabled: bool) -> (r: ([u64; 4], bool))
    requires
        i < 3,
        line_canonical(x),
    ensures
        r.1 == (enabled && mergeable(ints(x@), i as int)),
        ints(r.0@) == if r.1 {
            merge_at(ints(x@), i as int)
        } else {
            ints(x@)
        },
        line_canonical(r.0),
{
    let m = enabled && x[i] != 0 && x[i] == x[i + 1];
    if m {
        let d = double(x[i]);
        let y = if i == 0 {
            [d, x[2], x[3], 0]
        } else if i == 1 {
            [x[0], d, x[3], 0]
        } else {
            [x[0], x[1], d, 0]
        };
        assert(ints(y@) =~= merge_at(ints(x@), i as int));
        (y, true)
    } else {
        (x, false)
    }
}

/// Merges a line of four field elements toward index 0: the nonzero tiles are
/// compacted slot by slot, then pairs (0,1), (1,2) and (2,3) merge in one
/// pass in which no tile merges twice.
pub fn merge_line(line: [u64; 4]) -> (r: [u64; 4])
    requires
        line_canonical(line),
    ensures
        ints(r@) == merged_line(ints(line@)),
        line_canonical(r),
{
    let ghost v = ints(line@);
    let c0 = [false, false, false, false];
    assert(c0@ =~= none_chosen());
    let (x0, c1) = pick_next(&line, c0);
    let (x1, c2) = pick_next(&line, c1);
    let (x2, c3) = pick_next(&line, c2);
    let (x3, _c4) = pick_next(&line, c3);
    let x = [x0, x1, x2, x3];
    assert(ints(x@) =~= compact4(v));
    let (y, m0) = merge_stage(x, 0, true);
    let (z, m1) = merge_stage(y, 1, true);
    let (w, _m2) = merge_stage(z, 2, m0 || !m1);
    proof {
        lemma_selection_form(v);
    }
    w
}

} // verus!
