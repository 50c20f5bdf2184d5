use game2048_plonky2::board::{apply_move, check_move, extract_line, Direction};
use game2048_plonky2::circuit::ConstraintSet;
use game2048_plonky2::encode::{Game2048Circuit, NUM_INPUTS};
use game2048_plonky2::field::{add_mod, double, mul_mod, reduce, sub_mod, ORDER};
use game2048_plonky2::line::merge_line;

const BEFORE: [u64; 16] = [2, 2, 0, 4, 0, 0, 4, 0, 2, 0, 0, 2, 0, 4, 0, 0];
const AFTER_UP: [u64; 16] = [4, 2, 4, 4, 0, 4, 0, 2, 0, 0, 0, 0, 0, 0, 0, 0];

fn circuit_merge(line: [u64; 4], expected: [u64; 4]) -> bool {
    let mut cs = ConstraintSet::new(8);
    let a = cs.input(0);
    let b = cs.input(1);
    let c = cs.input(2);
    let d = cs.input(3);
    let merged = Game2048Circuit::merge_2048_row(&mut cs, a, b, c, d);
    for k in 0..4 {
        let e = cs.input(4 + k);
        cs.connect(merged[k], e);
    }
    let mut inputs = line.to_vec();
    inputs.extend_from_slice(&expected);
    cs.is_satisfied(&inputs)
}

fn move_inputs(before: &[u64; 16], after: &[u64; 16], dir: u64) -> Vec<u64> {
    let mut inputs = before.to_vec();
    inputs.extend_from_slice(after);
    inputs.push(dir);
    inputs
}

#[test]
fn zero_line_stays_zero() {
    assert_eq!(merge_line([0, 0, 0, 0]), [0, 0, 0, 0]);
    assert!(circuit_merge([0, 0, 0, 0], [0, 0, 0, 0]));
}

#[test]
fn single_tile_slides_to_edge() {
    assert_eq!(merge_line([0, 2, 0, 0]), [2, 0, 0, 0]);
    assert!(circuit_merge([0, 2, 0, 0], [2, 0, 0, 0]));
    assert!(!circuit_merge([0, 2, 0, 0], [0, 2, 0, 0]));
}

#[test]
fn simple_pair_merges() {
    assert_eq!(merge_line([2, 2, 0, 4]), [4, 4, 0, 0]);
    assert!(circuit_merge([2, 2, 0, 4], [4, 4, 0, 0]));
    assert!(!circuit_merge([2, 2, 0, 4], [4, 0, 4, 0]));
}

#[test]
fn four_equal_tiles_merge_as_two_pairs() {
    assert_eq!(merge_line([2, 2, 2, 2]), [4, 4, 0, 0]);
    assert!(circuit_merge([2, 2, 2, 2], [4, 4, 0, 0]));
    assert!(!circuit_merge([2, 2, 2, 2], [4, 2, 2, 0]));
    assert!(!circuit_merge([2, 2, 2, 2], [8, 0, 0, 0]));
}

#[test]
fn merged_tile_does_not_merge_again() {
    assert_eq!(merge_line([4, 4, 8, 0]), [8, 8, 0, 0]);
    assert_eq!(merge_line([2, 4, 4, 8]), [2, 8, 8, 0]);
    assert_eq!(merge_line([2, 2, 2, 0]), [4, 2, 0, 0]);
    assert!(circuit_merge([4, 4, 8, 0], [8, 8, 0, 0]));
}

#[test]
fn last_pair_merges() {
    assert_eq!(merge_line([2, 4, 8, 8]), [2, 4, 16, 0]);
    assert!(circuit_merge([2, 4, 8, 8], [2, 4, 16, 0]));
    assert_eq!(merge_line([2, 2, 4, 4]), [4, 8, 0, 0]);
    assert!(circuit_merge([2, 2, 4, 4], [4, 8, 0, 0]));
}

#[test]
fn gaps_close_before_merging() {
    assert_eq!(merge_line([2, 0, 0, 2]), [4, 0, 0, 0]);
    assert_eq!(merge_line([0, 4, 0, 4]), [8, 0, 0, 0]);
    assert!(circuit_merge([2, 0, 0, 2], [4, 0, 0, 0]));
}

#[test]
fn line_without_pairs_is_only_compacted() {
    assert_eq!(merge_line([2, 0, 4, 8]), [2, 4, 8, 0]);
    assert_eq!(merge_line([0, 2, 4, 2]), [2, 4, 2, 0]);
    assert_eq!(merge_line([16, 8, 4, 2]), [16, 8, 4, 2]);
}

#[test]
fn merge_conserves_sum() {
    let lines = [[2, 2, 0, 4], [2, 2, 2, 2], [0, 4, 4, 4], [8, 0, 8, 16], [2, 4, 8, 16]];
    for line in lines {
        let merged = merge_line(line);
        assert_eq!(merged.iter().sum::<u64>(), line.iter().sum::<u64>());
    }
}

#[test]
fn merge_doubles_in_the_field() {
    let big = ORDER - 1;
    assert_eq!(merge_line([big, big, 0, 0]), [ORDER - 2, 0, 0, 0]);
}

#[test]
fn right_move_is_reversed_left_merge() {
    let board: [u64; 16] = [2, 2, 2, 0, 0, 4, 4, 4, 8, 0, 8, 2, 2, 4, 8, 16];
    let right = apply_move(&board, Direction::Right);
    let mut mirrored = board;
    for row in 0..4 {
        for col in 0..4 {
            mirrored[row * 4 + col] = board[row * 4 + 3 - col];
        }
    }
    let left = apply_move(&mirrored, Direction::Left);
    for row in 0..4 {
        for col in 0..4 {
            assert_eq!(right[row * 4 + col], left[row * 4 + 3 - col]);
        }
    }
    assert_eq!(&right[0..4], &[0, 0, 2, 4]);
    assert_eq!(&right[4..8], &[0, 0, 4, 8]);
}

#[test]
fn down_move_is_reversed_up_merge() {
    let board: [u64; 16] = [2, 0, 4, 2, 2, 4, 4, 0, 2, 4, 0, 2, 0, 8, 4, 2];
    let down = apply_move(&board, Direction::Down);
    let mut mirrored = board;
    for row in 0..4 {
        for col in 0..4 {
            mirrored[row * 4 + col] = board[(3 - row) * 4 + col];
        }
    }
    let up = apply_move(&mirrored, Direction::Up);
    for row in 0..4 {
        for col in 0..4 {
            assert_eq!(down[row * 4 + col], up[(3 - row) * 4 + col]);
        }
    }
    assert_eq!([down[0], down[4], down[8], down[12]], [0, 0, 2, 4]);
}

#[test]
fn lines_follow_traversal_order() {
    let board: [u64; 16] = [1, 2, 3, 4, 5, 6, 7, 8, 9, 10, 11, 12, 13, 14, 15, 16];
    assert_eq!(extract_line(&board, Direction::Up, 1), [2, 6, 10, 14]);
    assert_eq!(extract_line(&board, Direction::Down, 1), [14, 10, 6, 2]);
    assert_eq!(extract_line(&board, Direction::Left, 2), [9, 10, 11, 12]);
    assert_eq!(extract_line(&board, Direction::Right, 2), [12, 11, 10, 9]);
}

#[test]
fn end_to_end_up_move() {
    assert_eq!(apply_move(&BEFORE, Direction::Up), AFTER_UP);
    assert!(check_move(&BEFORE, &AFTER_UP, 0));
    let cs = Game2048Circuit::build_circuit();
    assert_eq!(cs.num_inputs, NUM_INPUTS);
    assert!(cs.is_satisfied(&move_inputs(&BEFORE, &AFTER_UP, 0)));
}

#[test]
fn end_to_end_altered_cell_is_rejected() {
    let cs = Game2048Circuit::build_circuit();
    for i in 0..16 {
        let mut after = AFTER_UP;
        after[i] = if after[i] == 0 { 2 } else { after[i] * 2 };
        assert!(!check_move(&BEFORE, &after, 0));
        assert!(!cs.is_satisfied(&move_inputs(&BEFORE, &after, 0)));
    }
}

#[test]
fn end_to_end_wrong_direction_is_rejected() {
    let cs = Game2048Circuit::build_circuit();
    for dir in 1..4 {
        assert!(!check_move(&BEFORE, &AFTER_UP, dir));
        assert!(!cs.is_satisfied(&move_inputs(&BEFORE, &AFTER_UP, dir)));
    }
}

#[test]
fn every_direction_accepts_its_own_move() {
    let cs = Game2048Circuit::build_circuit();
    let board: [u64; 16] = [2, 2, 4, 8, 2, 0, 4, 4, 2, 2, 2, 4, 0, 2, 4, 4];
    for dir in [Direction::Up, Direction::Down, Direction::Left, Direction::Right] {
        let after = apply_move(&board, dir);
        assert!(check_move(&board, &after, dir.code()));
        assert!(cs.is_satisfied(&move_inputs(&board, &after, dir.code())));
    }
    let right: [u64; 16] = [0, 4, 4, 8, 0, 0, 2, 8, 0, 2, 4, 4, 0, 0, 2, 8];
    assert_eq!(apply_move(&board, Direction::Right), right);
}

#[test]
fn direction_seven_is_unsatisfiable() {
    let cs = Game2048Circuit::build_circuit();
    assert!(!check_move(&BEFORE, &AFTER_UP, 7));
    assert!(!cs.is_satisfied(&move_inputs(&BEFORE, &AFTER_UP, 7)));
    let zeros = [0u64; 16];
    assert!(!check_move(&zeros, &zeros, 7));
    assert!(!cs.is_satisfied(&move_inputs(&zeros, &zeros, 7)));
    assert!(check_move(&zeros, &zeros, 2));
}

#[test]
fn direction_codes_round_trip() {
    for code in 0..4u64 {
        assert_eq!(Direction::from_code(code).map(|d| d.code()), Some(code));
    }
    assert_eq!(Direction::from_code(7), None);
    assert_eq!(Direction::from_code(4), None);
}

#[test]
fn field_arithmetic() {
    assert_eq!(reduce(ORDER), 0);
    assert_eq!(reduce(ORDER + 5), 5);
    assert_eq!(add_mod(ORDER - 1, 2), 1);
    assert_eq!(sub_mod(1, 3), ORDER - 2);
    assert_eq!(mul_mod(ORDER - 1, ORDER - 1), 1);
    assert_eq!(double(ORDER - 1), ORDER - 2);
    assert_eq!(double(21), 42);
}
