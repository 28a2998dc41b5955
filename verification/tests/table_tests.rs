use tictactoe::board::{Board, Cell, Winner};
use tictactoe::eval::evaluate;
use tictactoe::table::{generate_table, Table};

const C: Cell = Cell::Cross;
const N: Cell = Cell::Nought;

fn sorted(mut v: Vec<(usize, usize)>) -> Vec<(usize, usize)> {
    v.sort();
    v
}

#[test]
fn regeneration_yields_the_same_keys_and_reply_sets() {
    let t1 = generate_table();
    let t2 = generate_table();
    assert_eq!(t1.records.len(), t2.records.len());
    assert!(t1.records.len() > 0);
    for rec in &t1.records {
        let other = t2
            .records
            .iter()
            .find(|r| r.key == rec.key)
            .expect("key missing from the second run");
        assert_eq!(sorted(rec.replies.clone()), sorted(other.replies.clone()));
    }
}

#[test]
fn every_recorded_reply_is_optimal_for_its_position() {
    let table = generate_table();
    // The position after the human's corner opening.
    let mut b = Board::new();
    b.apply_move(0, 0, C);
    let key = b.canonical_key();
    let rec = table
        .records
        .iter()
        .find(|r| r.key == key)
        .expect("corner opening not recorded");
    // Score every legal computer reply by minimax.
    let mut best = i32::MIN;
    let mut scores: Vec<((usize, usize), i32)> = Vec::new();
    for (r, c) in b.legal_moves() {
        let mut nb = b.duplicate();
        nb.apply_move(r, c, N);
        let score = evaluate(&mut nb, 1, false);
        if score > best {
            best = score;
        }
        scores.push(((r, c), score));
    }
    // The record holds all and only the maximal-score replies.
    for &(mv, score) in &scores {
        assert_eq!(rec.replies.contains(&mv), score == best);
    }
    // Repeated lookups always return a member of the recorded reply set.
    for _ in 0..50 {
        let reply = table.find_reply(&key).expect("lookup miss");
        assert!(rec.replies.contains(&reply));
    }
}

#[test]
fn lookup_miss_is_surfaced_not_defaulted() {
    let table = Table { records: Vec::new() };
    let key = String::from("CEEEEEEEE");
    assert_eq!(table.find_reply(&key), None);
}

#[test]
fn center_opening_scenario_never_loses() {
    let table = generate_table();
    let mut b = Board::new();
    b.apply_move(1, 1, C);
    // Row-major canonical key with the centre cross.
    let key = b.canonical_key();
    assert_eq!(key, "EEEECEEEE");
    let reply = table.find_reply(&key).expect("centre opening not recorded");
    let corners = [(0usize, 0usize), (0, 2), (2, 0), (2, 2)];
    assert!(corners.contains(&reply));
    // Play the game out: the computer follows the table, the human plays
    // optimally (minimizing the computer's value). The computer must never
    // lose from positions it chose optimally.
    b.apply_move(reply.0, reply.1, N);
    loop {
        if b.winner() != Winner::NoWin || b.is_full() {
            break;
        }
        // Optimal human move: minimize the position value after moving.
        let mut best_score = i32::MAX;
        let mut best_move = (9usize, 9usize);
        for (r, c) in b.legal_moves() {
            let mut nb = b.duplicate();
            nb.apply_move(r, c, C);
            let score = evaluate(&mut nb, 1, true);
            if score < best_score {
                best_score = score;
                best_move = (r, c);
            }
        }
        b.apply_move(best_move.0, best_move.1, C);
        if b.winner() != Winner::NoWin || b.is_full() {
            break;
        }
        let key = b.canonical_key();
        let reply = table.find_reply(&key).expect("reachable position not recorded");
        b.apply_move(reply.0, reply.1, N);
    }
    assert_ne!(b.winner(), Winner::CrossWin);
}

#[test]
fn generated_positions_are_post_human_move_and_non_terminal() {
    let table = generate_table();
    for rec in &table.records {
        let chars: Vec<char> = rec.key.chars().collect();
        assert_eq!(chars.len(), 9);
        let crosses = chars.iter().filter(|&&c| c == 'C').count();
        let noughts = chars.iter().filter(|&&c| c == 'N').count();
        assert_eq!(crosses, noughts + 1);
        assert!(!rec.replies.is_empty());
        // Rebuild the board and confirm it is non-terminal.
        let mut b = Board::new();
        for (i, &ch) in chars.iter().enumerate() {
            let m = match ch {
                'C' => C,
                'N' => N,
                _ => Cell::Empty,
            };
            if m != Cell::Empty {
                b.apply_move(i / 3, i % 3, m);
            }
        }
        assert_eq!(b.winner(), Winner::NoWin);
        assert!(!b.is_full());
    }
}

#[test]
fn table_is_closed_under_play_along_its_lines() {
    let table = generate_table();
    for rec in &table.records {
        let mut base = Board::new();
        for (idx, ch) in rec.key.chars().enumerate() {
            match ch {
                'C' => base.apply_move(idx / 3, idx % 3, C),
                'N' => base.apply_move(idx / 3, idx % 3, N),
                _ => {}
            }
        }
        for &(ry, rx) in &rec.replies {
            let mut after_reply = base.duplicate();
            after_reply.apply_move(ry, rx, N);
            for (hy, hx) in after_reply.legal_moves() {
                let mut child = after_reply.duplicate();
                child.apply_move(hy, hx, C);
                if child.winner() == Winner::NoWin && !child.is_full() {
                    let key = child.canonical_key();
                    assert!(
                        table.records.iter().any(|r| r.key == key),
                        "continuation missing from the table"
                    );
                }
            }
        }
    }
}
