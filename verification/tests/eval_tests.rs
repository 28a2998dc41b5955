use tictactoe::board::{Board, Cell};
use tictactoe::eval::evaluate;

const C: Cell = Cell::Cross;
const N: Cell = Cell::Nought;

fn board_from(marks: &[(usize, usize, Cell)]) -> Board {
    let mut b = Board::new();
    for &(r, c, m) in marks {
        b.apply_move(r, c, m);
    }
    b
}

#[test]
fn terminal_computer_win_scores_positive_with_depth_bias() {
    // Top row of noughts: the computer has won.
    let mut b = board_from(&[(0, 0, N), (0, 1, N), (0, 2, N), (1, 0, C), (1, 1, C)]);
    assert_eq!(evaluate(&mut b, 3, false), 97); // 100 - depth
    let earlier = evaluate(&mut b, 2, false);
    let later = evaluate(&mut b, 3, false);
    assert!(earlier > later);
}

#[test]
fn terminal_human_win_scores_negative_with_depth_bias() {
    // Left column of crosses: the human has won.
    let mut b = board_from(&[(0, 0, C), (1, 0, C), (2, 0, C), (0, 1, N), (1, 1, N)]);
    assert_eq!(evaluate(&mut b, 3, true), -97); // -100 + depth
    let earlier = evaluate(&mut b, 2, true);
    let later = evaluate(&mut b, 3, true);
    assert!(earlier < later);
}

#[test]
fn full_drawn_board_scores_zero() {
    let mut b = board_from(&[
        (0, 0, C),
        (0, 1, N),
        (0, 2, C),
        (1, 0, C),
        (1, 1, N),
        (1, 2, N),
        (2, 0, N),
        (2, 1, C),
        (2, 2, C),
    ]);
    assert_eq!(evaluate(&mut b, 5, true), 0);
    assert_eq!(evaluate(&mut b, 5, false), 0);
}

#[test]
fn perfect_play_from_the_empty_board_is_a_draw() {
    let mut b = Board::new();
    // Human to move first, minimizing; neither side can force a win.
    assert_eq!(evaluate(&mut b, 0, false), 0);
    // The evaluator restores the board it searched.
    assert_eq!(b.canonical_key(), "EEEEEEEEE");
}

#[test]
fn evaluator_sees_immediate_computer_win() {
    // Noughts on (0,0) and (0,1); with the computer to move it can win at
    // (0,2) on the next ply.
    let mut b = board_from(&[(0, 0, N), (0, 1, N), (1, 0, C), (1, 1, C)]);
    let score = evaluate(&mut b, 0, true);
    assert_eq!(score, 99); // wins at depth 1: 100 - 1
}
