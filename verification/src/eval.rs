use vstd::prelude::*;
use crate::board::{
    Board, Cell, Winner, board_wf, count_of, lemma_count_from_update,
    lemma_count_from_zero, lemma_full_iff_no_empty, winner_of,
};

verus! {

/// The mark placed by the side whose turn it is: the computer (noughts) when
/// maximizing, the human (crosses) when minimizing.
pub open spec fn mark_to_play(maxing: bool) -> Cell {
    if maxing {
        Cell::Nought
    } else {
        Cell::Cross
    }
}

/// The minimax value of a position, searched on behalf of the computer.
///
/// A position the human has won is strongly negative but rises towards zero
/// with depth, so that among lost lines the later loss is preferred; a
/// position the computer has won is strongly positive but falls with depth,
/// so that among won lines the earlier win is preferred. A full board with
/// no winner is a draw worth zero. Any other position is worth the best
/// (maximizing) or worst (minimizing) value among all continuations.
pub open spec fn minimax_spec(s: Seq<Cell>, depth: int, maxing: bool) -> int
    decreases count_of(s, Cell::Empty), 10int,
{
    if winner_of(s) == Winner::CrossWin {
        -100 + depth
    } else if winner_of(s) == Winner::NoughtWin {
        100 - depth
    } else if count_of(s, Cell::Empty) == 0 {
        0
    } else {
        fold_moves(
            s,
            depth,
            maxing,
            0,
            if maxing {
                i32::MIN as int
            } else {
                i32::MAX as int
            },
        )
    }
}

/// Folds the minimax values of every legal move at cell index `i` or above
/// into the running best value `acc`, taking the maximum when maximizing and
/// the minimum when minimizing.
pub open spec fn fold_moves(s: Seq<Cell>, depth: int, maxing: bool, i: int, acc: int) -> int
    decreases count_of(s, Cell::Empty), 9 - i,
        when 0 <= i && board_wf(s)
        via fold_moves_dec
{
    if i >= 9 {
        acc
    } else if s[i] == Cell::Empty {
        let child = minimax_spec(s.update(i, mark_to_play(maxing)), depth + 1, !maxing);
        let acc2 = if maxing {
            if child > acc {
                child
            } else {
                acc
            }
        } else {
            if child < acc {
                child
            } else {
                acc
            }
        };
        fold_moves(s, depth, maxing, i + 1, acc2)
    } else {
        fold_moves(s, depth, maxing, i + 1, acc)
    }
}

#[via_fn]
proof fn fold_moves_dec(s: Seq<Cell>, depth: int, maxing: bool, i: int, acc: int) {
    lemma_count_from_zero(s, Cell::Empty, 0);
    if 0 <= i < 9 && s[i] == Cell::Empty {
        lemma_count_from_update(s, Cell::Empty, mark_to_play(maxing), 0, i);
        lemma_count_from_zero(s.update(i, mark_to_play(maxing)), Cell::Empty, 0);
    }
}

/// The depth bias of terminal scores: of two boards the computer has won,
/// the one reached at the smaller depth scores strictly higher, and of two
/// boards the human has won, the one reached at the smaller depth scores
/// strictly lower. Quick wins and slow losses are therefore preferred.
pub proof fn lemma_terminal_depth_bias(
    s: Seq<Cell>,
    d1: int,
    d2: int,
    maxing1: bool,
    maxing2: bool,
)
    requires
        d1 < d2,
    ensures
        winner_of(s) == Winner::NoughtWin ==> minimax_spec(s, d1, maxing1) > minimax_spec(
            s,
            d2,
            maxing2,
        ),
        winner_of(s) == Winner::CrossWin ==> minimax_spec(s, d1, maxing1) < minimax_spec(
            s,
            d2,
            maxing2,
        ),
{
}

/// The exhaustive minimax evaluator. It explores every continuation of the
/// board by playing each legal move in row-major order, recursing with the
/// sides swapped, and taking the move back, so the board is returned exactly
/// as it was given.
pub fn evaluate(board: &mut Board, depth: i32, maxing: bool) -> (score: i32)
    requires
        old(board).wf(),
        0 <= depth,
        depth + count_of(old(board)@, Cell::Empty) <= i32::MAX,
    ensures
        final(board).wf(),
        final(board)@ == old(board)@,
        score as int == minimax_spec(old(board)@, depth as int, maxing),
    decreases count_of(board@, Cell::Empty),
{
    let ghost s0 = board@;
    let w = board.winner();
    if w == Winner::CrossWin {
        return -100 + depth;
    }
    if w == Winner::NoughtWin {
        return 100 - depth;
    }
    if board.is_full() {
        proof {
            lemma_full_iff_no_empty(s0);
        }
        return 0;
    }
    proof {
        lemma_full_iff_no_empty(s0);
        lemma_count_from_zero(s0, Cell::Empty, 0);
    }
    let mark = if maxing {
        Cell::Nought
    } else {
        Cell::Cross
    };
    let mut acc: i32 = if maxing {
        i32::MIN
    } else {
        i32::MAX
    };
    let ghost init = acc as int;
    let mut i: usize = 0;
    while i < 9
        invariant
            board.wf(),
            board@ == s0,
            s0 == old(board)@,
            i <= 9,
            0 <= depth,
            depth + count_of(s0, Cell::Empty) <= i32::MAX,
            count_of(s0, Cell::Empty) > 0,
            winner_of(s0) == Winner::NoWin,
            mark == mark_to_play(maxing),
            init == if maxing {
                i32::MIN as int
            } else {
                i32::MAX as int
            },
            fold_moves(s0, depth as int, maxing, i as int, acc as int) == fold_moves(
                s0,
                depth as int,
                maxing,
                0,
                init,
            ),
        decreases 9 - i,
    {
        if board.cell_idx(i) == Cell::Empty {
            board.set_idx(i, mark);
            proof {
                lemma_count_from_update(s0, Cell::Empty, mark, 0, i as int);
                lemma_count_from_zero(s0.update(i as int, mark), Cell::Empty, 0);
            }
            let child = evaluate(board, depth + 1, !maxing);
            board.set_idx(i, Cell::Empty);
            proof {
                assert(board@ =~= s0);
            }
            if maxing {
                if child > acc {
                    acc = child;
                }
            } else {
                if child < acc {
                    acc = child;
                }
            }
        }
        i += 1;
    }
    acc
}

} // verus!
