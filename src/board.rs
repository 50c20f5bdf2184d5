//! The board, the four move directions, and the orientation mapping that reduces
//! every direction to the merge of lines of four.
use crate::field::{add_mod, ints, mul_mod, ORDER};
use crate::line::{lemma_merge_len, line_canonical, merge_line, merged_line};
use vstd::prelude::*;

verus! {

/// The field code of the Up direction.
pub const UP: u64 = 0;

/// The field code of the Down direction.
pub const DOWN: u64 = 1;

/// The field code of the Left direction.
pub const LEFT: u64 = 2;

/// The field code of the Right direction.
pub const RIGHT: u64 = 3;

/// A move direction.
#[derive(Clone, Copy, Debug, PartialEq, Eq, Structural)]
pub enum Direction {
    Up,
    Down,
    Left,
    Right,
}

impl Direction {
    /// The field code of the direction: 0 Up, 1 Down, 2 Left, 3 Right.
    pub open spec fn spec_code(self) -> int {
        match self {
            Direction::Up => UP as int,
            Direction::Down => DOWN as int,
            Direction::Left => LEFT as int,
            Direction::Right => RIGHT as int,
        }
    }

    /// The field code of the direction.
    pub fn code(&self) -> (r: u64)
        ensures
            r as int == self.spec_code(),
    {
        match self {
            Direction::Up => UP,
            Direction::Down => DOWN,
            Direction::Left => LEFT,
            Direction::Right => RIGHT,
        }
    }

    /// The direction with the given field code; `None` for a value outside 0..=3.
    pub fn from_code(c: u64) -> (r: Option<Direction>)
        ensures
            r.is_some() <==> c < 4,
            r matches Some(d) ==> d.spec_code() == c,
    {
        if c == UP {
            Some(Direction::Up)
        } else if c == DOWN {
            Some(Direction::Down)
        } else if c == LEFT {
            Some(Direction::Left)
        } else if c == RIGHT {
            Some(Direction::Right)
        } else {
            None
        }
    }
}

/// The board cell at position `k` of line `which` for direction `d`, where
/// position 0 is the edge that the tiles slide toward.
pub open spec fn cell_index(d: int, which: int, k: int) -> int {
    if d == UP {
        k * 4 + which
    } else if d == DOWN {
        (3 - k) * 4 + which
    } else if d == LEFT {
        which * 4 + k
    } else {
        which * 4 + (3 - k)
    }
}

/// The line of direction `d` on which cell `i` lies.
pub open spec fn line_of_cell(d: int, i: int) -> int {
    if d == UP || d == DOWN {
        i % 4
    } else {
        i / 4
    }
}

/// The position of cell `i` within its line of direction `d`.
pub open spec fn pos_of_cell(d: int, i: int) -> int {
    if d == UP {
        i / 4
    } else if d == DOWN {
        3 - i / 4
    } else if d == LEFT {
        i % 4
    } else {
        3 - i % 4
    }
}

/// Line `which` of the board for direction `d`, in merge-traversal order.
pub open spec fn line_of(b: Seq<int>, d: int, which: int) -> Seq<int> {
    Seq::new(4, |k: int| b[cell_index(d, which, k)])
}

/// The board after a move in direction `d`: each cell holds the entry of the
/// merged line it lies on, at its position in that line.
pub open spec fn moved_board(b: Seq<int>, d: int) -> Seq<int> {
    Seq::new(16, |i: int| merged_line(line_of(b, d, line_of_cell(d, i)))[pos_of_cell(d, i)])
}

/// The claim that `after` is the move of `before` in the direction with field
/// code `d`: `d` names a direction, and `after` is exactly that move.
pub open spec fn legal_move(before: Seq<int>, after: Seq<int>, d: int) -> bool {
    0 <= d < 4 && after == moved_board(before, d)
}

/// A direction code outside 0..=3 names no direction: no claim made with it is
/// a legal move, whatever the two boards.
pub proof fn lemma_invalid_direction_rejected(before: Seq<int>, after: Seq<int>, d: int)
    requires
        !(0 <= d < 4),
    ensures
        !legal_move(before, after, d),
{
}

/// Every cell of a board is a canonical field element.
pub open spec fn board_canonical(b: [u64; 16]) -> bool {
    forall|i: int| 0 <= i < 16 ==> #[trigger] b[i] < ORDER
}

/// Cells and (line, position) pairs correspond one to one.
pub proof fn lemma_cell_positions(d: int)
    requires
        0 <= d < 4,
    ensures
        forall|w: int, k: int|
            0 <= w < 4 && 0 <= k < 4 ==> {
                let i = #[trigger] cell_index(d, w, k);
                &&& 0 <= i < 16
                &&& line_of_cell(d, i) == w
                &&& pos_of_cell(d, i) == k
            },
        forall|i: int|
            0 <= i < 16 ==> {
                &&& 0 <= #[trigger] line_of_cell(d, i) < 4
                &&& 0 <= pos_of_cell(d, i) < 4
                &&& cell_index(d, line_of_cell(d, i), pos_of_cell(d, i)) == i
            },
{
}

/// The board cell at position `k` of line `which` for a direction.
pub fn cell(dir: Direction, which: usize, k: usize) -> (r: usize)
    requires
        which < 4,
        k < 4,
    ensures
        r as int == cell_index(dir.spec_code(), which as int, k as int),
        r < 16,
{
    match dir {
        Direction::Up => k * 4 + which,
        Direction::Down => (3 - k) * 4 + which,
        Direction::Left => which * 4 + k,
        Direction::Right => which * 4 + (3 - k),
    }
}

/// Line `which` of the board for a direction, in merge-traversal order.
pub fn extract_line(board: &[u64; 16], dir: Direction, which: usize) -> (r: [u64; 4])
    requires
        which < 4,
    ensures
        ints(r@) == line_of(ints(board@), dir.spec_code(), which as int),
        board_canonical(*board) ==> line_canonical(r),
{
    let r = [
        board[cell(dir, which, 0)],
        board[cell(dir, which, 1)],
        board[cell(dir, which, 2)],
        board[cell(dir, which, 3)],
    ];
    assert(ints(r@) =~= line_of(ints(board@), dir.spec_code(), which as int));
    r
}

/// The board after a move: every line of the direction is merged and its
/// result written back onto the cells it came from.
pub fn apply_move(board: &[u64; 16], dir: Direction) -> (r: [u64; 16])
    requires
        board_canonical(*board),
    ensures
        ints(r@) == moved_board(ints(board@), dir.spec_code()),
        board_canonical(r),
{
    let ghost d = dir.spec_code();
    let ghost b = ints(board@);
    proof {
        lemma_cell_positions(d);
    }
    let mut out: [u64; 16] = [0; 16];
    let mut w: usize = 0;
    while w < 4
        invariant
            w <= 4,
            b == ints(board@),
            d == dir.spec_code(),
            board_canonical(*board),
            forall|i: int| 0 <= i < 16 ==> #[trigger] out[i] < ORDER,
            forall|i: int|
                0 <= i < 16 && line_of_cell(d, i) < w ==> #[trigger] out[i] as int == moved_board(b, d)[i],
        decreases 4 - w,
    {
        let line = extract_line(board, dir, w);
        let merged = merge_line(line);
        out[cell(dir, w, 0)] = merged[0];
        out[cell(dir, w, 1)] = merged[1];
        out[cell(dir, w, 2)] = merged[2];
        out[cell(dir, w, 3)] = merged[3];
        assert forall|i: int|
            0 <= i < 16 && line_of_cell(d, i) < w + 1 implies #[trigger] out[i] as int == moved_board(b, d)[i] by {
            if line_of_cell(d, i) == w {
                let k = pos_of_cell(d, i);
                assert(i == cell_index(d, w as int, k));
                assert(ints(merged@)[k] == merged[k] as int);
            }
        }
        w = w + 1;
    }
    assert(ints(out@) =~= moved_board(b, d)) by {
        assert forall|i: int| 0 <= i < 16 implies ints(out@)[i] == moved_board(b, d)[i] by {
            assert(out[i] as int == moved_board(b, d)[i]);
        }
    }
    out
}


/// Checks a claimed move on concrete values the way the constraint set does:
/// four direction indicators, the one-hot condition on them, the indicator-
/// weighted sum of the four moves for each cell, and its equality with the
/// claimed cell.
pub fn check_move(before: &[u64; 16], after: &[u64; 16], dir: u64) -> (r: bool)
    requires
        board_canonical(*before),
        board_canonical(*after),
    ensures
        r == legal_move(ints(before@), ints(after@), dir as int),
{
    let ghost b = ints(before@);
    let ghost a = ints(after@);
    let is_up: u64 = if dir == UP { 1 } else { 0 };
    let is_down: u64 = if dir == DOWN { 1 } else { 0 };
    let is_left: u64 = if dir == LEFT { 1 } else { 0 };
    let is_right: u64 = if dir == RIGHT { 1 } else { 0 };
    let one_hot = is_up + is_down + is_left + is_right == 1;
    let up = apply_move(before, Direction::Up);
    let down = apply_move(before, Direction::Down);
    let left = apply_move(before, Direction::Left);
    let right = apply_move(before, Direction::Right);
    let mut ok = one_hot;
    let mut i: usize = 0;
    while i < 16
        invariant
            i <= 16,
            b == ints(before@),
            a == ints(after@),
            board_canonical(*after),
            board_canonical(up),
            board_canonical(down),
            board_canonical(left),
            board_canonical(right),
            ints(up@) == moved_board(b, 0),
            ints(down@) == moved_board(b, 1),
            ints(left@) == moved_board(b, 2),
            ints(right@) == moved_board(b, 3),
            is_up == (if dir == UP { 1u64 } else { 0u64 }),
            is_down == (if dir == DOWN { 1u64 } else { 0u64 }),
            is_left == (if dir == LEFT { 1u64 } else { 0u64 }),
            is_right == (if dir == RIGHT { 1u64 } else { 0u64 }),
            ok == (dir < 4 && forall|j: int| 0 <= j < i ==> #[trigger] a[j] == moved_board(b, dir as int)[j]),
        decreases 16 - i,
    {
        let s0 = mul_mod(is_up, up[i]);
        let s1 = add_mod(mul_mod(is_down, down[i]), s0);
        let s2 = add_mod(mul_mod(is_left, left[i]), s1);
        let selected = add_mod(mul_mod(is_right, right[i]), s2);
        proof {
            assert(ints(up@)[i as int] == up[i as int] as int);
            assert(ints(down@)[i as int] == down[i as int] as int);
            assert(ints(left@)[i as int] == left[i as int] as int);
            assert(ints(right@)[i as int] == right[i as int] as int);
            assert(a[i as int] == after[i as int] as int);
            vstd::arithmetic::div_mod::lemma_small_mod(0, ORDER as nat);
            vstd::arithmetic::div_mod::lemma_small_mod(up[i as int] as nat, ORDER as nat);
            vstd::arithmetic::div_mod::lemma_small_mod(down[i as int] as nat, ORDER as nat);
            vstd::arithmetic::div_mod::lemma_small_mod(left[i as int] as nat, ORDER as nat);
            vstd::arithmetic::div_mod::lemma_small_mod(right[i as int] as nat, ORDER as nat);
            if dir < 4 {
                assert(selected as int == moved_board(b, dir as int)[i as int]);
            }
        }
        ok = ok && selected == after[i];
        i = i + 1;
    }
    proof {
        if ok {
            assert(a =~= moved_board(b, dir as int));
        }
    }
    ok
}

/// Flips each row of a board left to right.
pub open spec fn mirror_rows(b: Seq<int>) -> Seq<int> {
    Seq::new(16, |i: int| b[(i / 4) * 4 + (3 - i % 4)])
}

/// Flips each column of a board top to bottom.
pub open spec fn mirror_cols(b: Seq<int>) -> Seq<int> {
    Seq::new(16, |i: int| b[(3 - i / 4) * 4 + i % 4])
}

/// The four directions share one line merge. Every line of a direction,
/// read in its traversal order, becomes its merge; a Right line is a Left line
/// reversed and a Down line an Up line reversed; and so a move Right is the
/// mirror image of a move Left on the mirrored board, and Down of Up.
pub proof fn lemma_direction_symmetry(b: Seq<int>)
    requires
        b.len() == 16,
    ensures
        forall|d: int, w: int|
            0 <= d < 4 && 0 <= w < 4 ==> #[trigger] line_of(moved_board(b, d), d, w) == merged_line(
                line_of(b, d, w),
            ),
        forall|w: int|
            0 <= w < 4 ==> #[trigger] line_of(b, RIGHT as int, w) == line_of(b, LEFT as int, w).reverse(),
        forall|w: int|
            0 <= w < 4 ==> #[trigger] line_of(b, DOWN as int, w) == line_of(b, UP as int, w).reverse(),
        moved_board(b, RIGHT as int) == mirror_rows(moved_board(mirror_rows(b), LEFT as int)),
        moved_board(b, DOWN as int) == mirror_cols(moved_board(mirror_cols(b), UP as int)),
{
    assert forall|d: int, w: int|
        0 <= d < 4 && 0 <= w < 4 implies #[trigger] line_of(moved_board(b, d), d, w) == merged_line(
            line_of(b, d, w),
        ) by {
        lemma_cell_positions(d);
        lemma_merge_len(line_of(b, d, w));
        assert(line_of(moved_board(b, d), d, w) =~= merged_line(line_of(b, d, w)));
    }
    assert forall|w: int| 0 <= w < 4 implies #[trigger] line_of(b, RIGHT as int, w) == line_of(
        b,
        LEFT as int,
        w,
    ).reverse() by {
        assert(line_of(b, RIGHT as int, w) =~= line_of(b, LEFT as int, w).reverse());
    }
    assert forall|w: int| 0 <= w < 4 implies #[trigger] line_of(b, DOWN as int, w) == line_of(
        b,
        UP as int,
        w,
    ).reverse() by {
        assert(line_of(b, DOWN as int, w) =~= line_of(b, UP as int, w).reverse());
    }
    assert forall|w: int| 0 <= w < 4 implies #[trigger] line_of(mirror_rows(b), LEFT as int, w)
        == line_of(b, RIGHT as int, w) by {
        assert(line_of(mirror_rows(b), LEFT as int, w) =~= line_of(b, RIGHT as int, w));
    }
    assert forall|w: int| 0 <= w < 4 implies #[trigger] line_of(mirror_cols(b), UP as int, w)
        == line_of(b, DOWN as int, w) by {
        assert(line_of(mirror_cols(b), UP as int, w) =~= line_of(b, DOWN as int, w));
    }
    assert(moved_board(b, RIGHT as int) =~= mirror_rows(moved_board(mirror_rows(b), LEFT as int)));
    assert(moved_board(b, DOWN as int) =~= mirror_cols(moved_board(mirror_cols(b), UP as int)));
}

} // verus!
