use tictactoe::board::{Board, Cell, Winner};

fn board_from(cells: [[Cell; 3]; 3]) -> Board {
    let mut b = Board::new();
    for r in 0..3 {
        for c in 0..3 {
            if cells[r][c] != Cell::Empty {
                b.apply_move(r, c, cells[r][c]);
            }
        }
    }
    b
}

const E: Cell = Cell::Empty;
const C: Cell = Cell::Cross;
const N: Cell = Cell::Nought;

#[test]
fn win_detection_all_eight_lines() {
    let lines: [[(usize, usize); 3]; 8] = [
        [(0, 0), (0, 1), (0, 2)],
        [(1, 0), (1, 1), (1, 2)],
        [(2, 0), (2, 1), (2, 2)],
        [(0, 0), (1, 0), (2, 0)],
        [(0, 1), (1, 1), (2, 1)],
        [(0, 2), (1, 2), (2, 2)],
        [(0, 0), (1, 1), (2, 2)],
        [(0, 2), (1, 1), (2, 0)],
    ];
    for line in lines.iter() {
        for (mark, expected) in [(C, Winner::CrossWin), (N, Winner::NoughtWin)] {
            let mut b = Board::new();
            for &(r, c) in line.iter() {
                b.apply_move(r, c, mark);
            }
            assert_eq!(b.winner(), expected);
        }
    }
}

#[test]
fn full_board_without_line_is_a_draw() {
    // C N C
    // C N N
    // N C C
    let b = board_from([[C, N, C], [C, N, N], [N, C, C]]);
    assert!(b.is_full());
    assert_eq!(b.winner(), Winner::NoWin);
}

#[test]
fn empty_board_has_no_winner_and_is_not_full() {
    let b = Board::new();
    assert_eq!(b.winner(), Winner::NoWin);
    assert!(!b.is_full());
}

#[test]
fn canonical_key_of_empty_board() {
    let b = Board::new();
    assert_eq!(b.canonical_key(), "EEEEEEEEE");
}

#[test]
fn canonical_key_row_major_encoding() {
    let b = board_from([[C, E, E], [E, N, E], [E, E, C]]);
    assert_eq!(b.canonical_key(), "CEEENEEEC");
}

#[test]
fn canonical_key_independent_of_move_order() {
    let mut b1 = Board::new();
    b1.apply_move(0, 0, C);
    b1.apply_move(1, 1, N);
    b1.apply_move(2, 2, C);
    let mut b2 = Board::new();
    b2.apply_move(2, 2, C);
    b2.apply_move(0, 0, C);
    b2.apply_move(1, 1, N);
    assert_eq!(b1.canonical_key(), b2.canonical_key());
    // and repeated calls on the same board agree
    assert_eq!(b1.canonical_key(), b1.canonical_key());
}

#[test]
fn clear_resets_every_cell() {
    let mut b = board_from([[C, N, C], [E, N, E], [E, E, E]]);
    b.clear();
    assert_eq!(b.canonical_key(), "EEEEEEEEE");
    for r in 0..3 {
        for c in 0..3 {
            assert_eq!(b.cell(r, c), E);
        }
    }
}

#[test]
fn legal_moves_lists_empty_cells_row_major() {
    let b = board_from([[C, E, E], [E, N, E], [E, E, C]]);
    let moves = b.legal_moves();
    let expected: Vec<(usize, usize)> = vec![(0, 1), (0, 2), (1, 0), (1, 2), (2, 0), (2, 1)];
    assert_eq!(moves, expected);
    let empty = Board::new();
    assert_eq!(empty.legal_moves().len(), 9);
}

#[test]
fn apply_move_marks_the_cell() {
    let mut b = Board::new();
    b.apply_move(1, 2, N);
    assert_eq!(b.cell(1, 2), N);
    assert_eq!(b.cell(1, 1), E);
}
