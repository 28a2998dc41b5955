use vstd::prelude::*;
use crate::board::{
    Board, Cell, Winner, board_full, board_of_key, count_of, empty_board, has_line,
    key_of, lemma_count_from_update, lemma_key_of_roundtrip, valid_key, winner_of,
};
use crate::eval::{evaluate, minimax_spec};

verus! {

/// One table entry: the canonical key of a position reached by a human move,
/// together with every optimal computer reply from that position.
pub struct Record {
    pub key: String,
    pub replies: Vec<(usize, usize)>,
}

/// The tablebase: one record per unique reachable, non-terminal position in
/// which the computer is to move.
pub struct Table {
    pub records: Vec<Record>,
}

/// The row-major cell index of the coordinates `m`.
pub open spec fn cell_index(m: (usize, usize)) -> int {
    m.0 * 3 + m.1
}

/// The coordinates `m` name an empty cell of the board.
pub open spec fn legal_cell(s: Seq<Cell>, m: (usize, usize)) -> bool {
    m.0 < 3 && m.1 < 3 && s[cell_index(m)] == Cell::Empty
}

/// The value, for the computer, of answering the position `s` with a nought
/// on cell `m`: the human moves next, one ply down.
pub open spec fn reply_score(s: Seq<Cell>, m: (usize, usize)) -> int {
    minimax_spec(s.update(cell_index(m), Cell::Nought), 1, false)
}

/// The move `m` is legal and no legal move scores better.
pub open spec fn best_reply(s: Seq<Cell>, m: (usize, usize)) -> bool {
    legal_cell(s, m) && forall|m2: (usize, usize)|
        #[trigger] legal_cell(s, m2) ==> reply_score(s, m2) <= reply_score(s, m)
}

/// The reply list holds all and only the best replies to `s`.
pub open spec fn replies_exact(s: Seq<Cell>, rs: Seq<(usize, usize)>) -> bool {
    &&& forall|k: int| 0 <= k < rs.len() ==> best_reply(s, #[trigger] rs[k])
    &&& forall|m: (usize, usize)| #[trigger] best_reply(s, m) ==> rs.contains(m)
}

/// The reply list is strictly ascending in row-major order, so equal
/// positions always carry their replies in the same order.
pub open spec fn replies_sorted(rs: Seq<(usize, usize)>) -> bool {
    forall|k1: int, k2: int|
        0 <= k1 < k2 < rs.len() ==> cell_index(#[trigger] rs[k1]) < cell_index(#[trigger] rs[k2])
}

/// A syntactically well-formed record: a valid nine-character key and a
/// non-empty, sorted reply list of in-range coordinates.
pub open spec fn record_wf(r: Record) -> bool {
    &&& valid_key(r.key@)
    &&& r.replies@.len() > 0
    &&& replies_sorted(r.replies@)
    &&& forall|k: int|
        0 <= k < r.replies@.len() ==> (#[trigger] r.replies@[k]).0 < 3 && r.replies@[k].1 < 3
}

/// A record the generator is allowed to emit: its key decodes to a board on
/// which the human has just moved (one cross more than noughts), nobody has
/// won, the board is not full, and the reply list holds exactly the replies
/// of maximal minimax value.
pub open spec fn record_sound(r: Record) -> bool {
    let s = board_of_key(r.key@);
    &&& record_wf(r)
    &&& count_of(s, Cell::Cross) == count_of(s, Cell::Nought) + 1
    &&& winner_of(s) == Winner::NoWin
    &&& !board_full(s)
    &&& replies_exact(s, r.replies@)
}

/// Every record of the list is well formed and no two share a key.
pub open spec fn records_wf(t: Seq<Record>) -> bool {
    &&& forall|i: int| 0 <= i < t.len() ==> record_wf(#[trigger] t[i])
    &&& forall|i: int, j: int| 0 <= i < j < t.len() ==> t[i].key@ != t[j].key@
}

impl Table {
    /// Every record is well formed and no two records share a key.
    pub open spec fn wf(&self) -> bool {
        records_wf(self.records@)
    }

    /// Every record moreover carries exactly the optimal replies for the
    /// position its key decodes to.
    pub open spec fn sound(&self) -> bool {
        forall|i: int| 0 <= i < self.records@.len() ==> record_sound(#[trigger] self.records@[i])
    }

    /// How many positions the table records.
    pub fn len(&self) -> (n: usize)
        ensures
            n == self.records@.len(),
    {
        self.records.len()
    }
}

/// The board after one opening move by the human on the empty board.
pub open spec fn opening_board(m: (usize, usize)) -> Seq<Cell> {
    empty_board().update(cell_index(m), Cell::Cross)
}

/// Some record of the list carries the key `k`.
pub open spec fn table_contains_key(t: Seq<Record>, k: Seq<char>) -> bool {
    exists|x: int| 0 <= x < t.len() && (#[trigger] t[x]).key@ == k
}

/// Every one of the nine opening human moves has its position recorded.
pub open spec fn openings_recorded(t: Seq<Record>) -> bool {
    forall|m: (usize, usize)|
        m.0 < 3 && m.1 < 3 ==> table_contains_key(t, key_of(#[trigger] opening_board(m)))
}

/// The board after the j-th reply of record `i` is played on that record's
/// own position: the computer has just answered and the human is to move.
pub open spec fn reply_board(t: Seq<Record>, i: int, j: int) -> Seq<Cell> {
    board_of_key(t[i].key@).update(cell_index(t[i].replies@[j]), Cell::Nought)
}

/// The human may play `h` on `s` and the game then goes on: the cell is
/// empty and the move neither wins nor fills the board.
pub open spec fn human_move_continues(s: Seq<Cell>, h: (usize, usize)) -> bool {
    legal_cell(s, h) && winner_of(s.update(cell_index(h), Cell::Cross)) == Winner::NoWin
        && !board_full(s.update(cell_index(h), Cell::Cross))
}

/// Every position the human can continue to from `s` is recorded in `t`.
pub open spec fn expansion_done(t: Seq<Record>, s: Seq<Cell>) -> bool {
    forall|h: (usize, usize)|
        #[trigger] human_move_continues(s, h) ==> table_contains_key(
            t,
            key_of(s.update(cell_index(h), Cell::Cross)),
        )
}

/// The table is closed under play along its own lines: after any recorded
/// reply, every human move that keeps the game going leads to a recorded
/// position again. Together with the openings this covers every position a
/// game reaches while the computer follows the table.
pub open spec fn expansion_recorded(t: Seq<Record>) -> bool {
    forall|i: int, j: int|
        0 <= i < t.len() && 0 <= j < t[i].replies@.len() ==> expansion_done(
            t,
            #[trigger] reply_board(t, i, j),
        )
}

/// The record at `x` is an opening, or some recorded reply followed by a
/// continuing human move leads to it.
pub open spec fn record_supported(t: Seq<Record>, x: int) -> bool {
    ||| exists|m: (usize, usize)|
        m.0 < 3 && m.1 < 3 && t[x].key@ == key_of(#[trigger] opening_board(m))
    ||| exists|i: int, j: int, h: (usize, usize)|
        0 <= i < t.len() && 0 <= j < t[i].replies@.len() && #[trigger] human_move_continues(
            reply_board(t, i, j),
            h,
        ) && t[x].key@ == key_of(reply_board(t, i, j).update(cell_index(h), Cell::Cross))
}

/// No record is an orphan: each is an opening or a child of a recorded
/// line. Since a parent board holds two marks fewer than its child, support
/// chains bottom out at an opening, so every record is reachable from the
/// empty board by alternating human moves with recorded replies.
pub open spec fn records_supported(t: Seq<Record>) -> bool {
    forall|x: int| 0 <= x < t.len() ==> record_supported(t, x)
}

/// The board `s` is held by some board of the list.
pub open spec fn board_in_worklist(wl: Seq<Board>, s: Seq<Cell>) -> bool {
    exists|w: int| 0 <= w < wl.len() && (#[trigger] wl[w])@ == s
}

/// Like `expansion_done`, but only for human moves below cell index `hi`.
pub open spec fn expansion_done_below(t: Seq<Record>, s: Seq<Cell>, hi: int) -> bool {
    forall|h: (usize, usize)|
        #[trigger] human_move_continues(s, h) && cell_index(h) < hi ==> table_contains_key(
            t,
            key_of(s.update(cell_index(h), Cell::Cross)),
        )
}

/// Everything the generator guarantees of its output, as one predicate:
/// well-formed distinct records, each holding exactly the optimal replies
/// for its position, with the nine openings present, closed under play
/// along recorded lines, and holding no record a recorded line cannot
/// reach.
pub open spec fn generated(t: Seq<Record>) -> bool {
    &&& records_wf(t)
    &&& (forall|i: int| 0 <= i < t.len() ==> record_sound(#[trigger] t[i]))
    &&& openings_recorded(t)
    &&& expansion_recorded(t)
    &&& records_supported(t)
}

/// Every key of one generated table is a key of any other: support chains
/// walk back to an opening, shedding one cross per step, and openings plus
/// closure rebuild the same chain in the other table, whose reply sets
/// match position for position.
proof fn lemma_key_carries_over(t1: Seq<Record>, t2: Seq<Record>, x: int)
    requires
        generated(t1),
        generated(t2),
        0 <= x < t1.len(),
    ensures
        table_contains_key(t2, t1[x].key@),
    decreases count_of(board_of_key(t1[x].key@), Cell::Cross),
{
    assert(record_supported(t1, x));
    if exists|m: (usize, usize)|
        m.0 < 3 && m.1 < 3 && t1[x].key@ == key_of(#[trigger] opening_board(m)) {
        let m = choose|m: (usize, usize)|
            m.0 < 3 && m.1 < 3 && t1[x].key@ == key_of(#[trigger] opening_board(m));
        assert(table_contains_key(t2, key_of(opening_board(m))));
    } else {
        let (i, j, h) = choose|i: int, j: int, h: (usize, usize)|
            0 <= i < t1.len() && 0 <= j < t1[i].replies@.len() && #[trigger] human_move_continues(
                reply_board(t1, i, j),
                h,
            ) && t1[x].key@ == key_of(reply_board(t1, i, j).update(cell_index(h), Cell::Cross));
        let parent = board_of_key(t1[i].key@);
        let mine = board_of_key(t1[x].key@);
        assert(record_wf(t1[i]) && record_wf(t1[x]));
        lemma_key_of_roundtrip(reply_board(t1, i, j).update(cell_index(h), Cell::Cross));
        assert(mine == reply_board(t1, i, j).update(cell_index(h), Cell::Cross));
        lemma_count_from_update(parent, Cell::Cross, Cell::Nought, 0, cell_index(
            t1[i].replies@[j],
        ));
        lemma_count_from_update(reply_board(t1, i, j), Cell::Cross, Cell::Cross, 0, cell_index(h));
        assert(count_of(mine, Cell::Cross) == count_of(parent, Cell::Cross) + 1);
        crate::board::lemma_count_from_zero(parent, Cell::Cross, 0);
        lemma_key_carries_over(t1, t2, i);
        let i2 = choose|i2: int| 0 <= i2 < t2.len() && (#[trigger] t2[i2]).key@ == t1[i].key@;
        lemma_same_key_same_replies(t1[i], t2[i2]);
        assert(t1[i].replies@.contains(t1[i].replies@[j]));
        assert(t2[i2].replies@.contains(t1[i].replies@[j]));
        let j2 = choose|j2: int|
            0 <= j2 < t2[i2].replies@.len() && t2[i2].replies@[j2] == t1[i].replies@[j];
        assert(reply_board(t2, i2, j2) == reply_board(t1, i, j));
        assert(expansion_done(t2, reply_board(t2, i2, j2)));
        assert(human_move_continues(reply_board(t2, i2, j2), h));
        assert(table_contains_key(
            t2,
            key_of(reply_board(t2, i2, j2).update(cell_index(h), Cell::Cross)),
        ));
    }
}

/// Regeneration is deterministic in the keys too: any two tables the
/// generator could return record exactly the same set of position keys.
pub proof fn lemma_generated_keys_deterministic(t1: Seq<Record>, t2: Seq<Record>)
    requires
        generated(t1),
        generated(t2),
    ensures
        forall|k: Seq<char>| table_contains_key(t1, k) <==> table_contains_key(t2, k),
{
    assert forall|k: Seq<char>|
        table_contains_key(t1, k) <==> table_contains_key(t2, k) by {
        if table_contains_key(t1, k) {
            let x = choose|x: int| 0 <= x < t1.len() && (#[trigger] t1[x]).key@ == k;
            lemma_key_carries_over(t1, t2, x);
        }
        if table_contains_key(t2, k) {
            let x = choose|x: int| 0 <= x < t2.len() && (#[trigger] t2[x]).key@ == k;
            lemma_key_carries_over(t2, t1, x);
        }
    }
}

/// A table of pairwise distinct well-formed keys holds at most 3^9 records:
/// each key codes a distinct base-3 number below 19683.
pub proof fn lemma_records_len_bound(t: Seq<Record>)
    requires
        records_wf(t),
    ensures
        t.len() <= 19683,
{
    let codes = Seq::new(t.len(), |i: int| crate::board::key_code(t[i].key@));
    assert(codes.no_duplicates()) by {
        assert forall|i: int, j: int|
            0 <= i < codes.len() && 0 <= j < codes.len() && i != j implies codes[i]
            != codes[j] by {
            if codes[i] == codes[j] {
                crate::board::lemma_key_code_injective(t[i].key@, t[j].key@, 0);
                assert(t[i].key@ =~= t[j].key@);
            }
        }
    }
    codes.unique_seq_to_set();
    assert(codes.to_set().subset_of(vstd::set_lib::set_int_range(0, 19683))) by {
        assert forall|x: int| codes.to_set().contains(x) implies vstd::set_lib::set_int_range(
            0,
            19683,
        ).contains(x) by {
            let w = choose|w: int| 0 <= w < codes.len() && codes[w] == x;
            crate::board::lemma_key_code_from_bounds(t[w].key@, 0);
            assert(crate::board::pow3(9) == 19683) by {
                reveal_with_fuel(crate::board::pow3, 10);
            }
        }
    }
    vstd::set_lib::lemma_int_range(0, 19683);
    vstd::set_lib::lemma_len_subset(codes.to_set(), vstd::set_lib::set_int_range(0, 19683));
}

/// A board the generator still has to expand: well formed, with as many
/// crosses as noughts, so the human is to move.
pub open spec fn pending_ok(b: Board) -> bool {
    &&& b.wf()
    &&& count_of(b@, Cell::Cross) == count_of(b@, Cell::Nought)
}

/// Whether some record of `records` already carries the key `key`.
pub(crate) fn table_has_key(records: &Vec<Record>, key: &String) -> (r: bool)
    ensures
        r == exists|i: int| 0 <= i < records@.len() && (#[trigger] records@[i]).key@ == key@,
{
    let mut i: usize = 0;
    while i < records.len()
        invariant
            i <= records@.len(),
            forall|j: int| 0 <= j < i ==> (#[trigger] records@[j]).key@ != key@,
        decreases records@.len() - i,
    {
        if records[i].key == *key {
            return true;
        }
        i += 1;
    }
    false
}

/// In a sorted reply list the k-th entry sits at cell index k or above.
proof fn lemma_sorted_reply_index(rs: Seq<(usize, usize)>, k: int)
    requires
        replies_sorted(rs),
        0 <= k < rs.len(),
    ensures
        cell_index(rs[k]) >= k,
    decreases k,
{
    if k > 0 {
        lemma_sorted_reply_index(rs, k - 1);
    }
}

/// A sorted reply list of in-range coordinates never holds more than nine
/// replies: there are only nine cells.
pub proof fn lemma_replies_len_bound(rs: Seq<(usize, usize)>)
    requires
        replies_sorted(rs),
        forall|k: int| 0 <= k < rs.len() ==> (#[trigger] rs[k]).0 < 3 && rs[k].1 < 3,
    ensures
        rs.len() <= 9,
{
    if rs.len() > 9 {
        lemma_sorted_reply_index(rs, 9);
        assert(cell_index(rs[9]) <= 8);
    }
}

/// Regeneration is deterministic up to tie-break bookkeeping: two sound
/// records for the same position, wherever they come from, hold exactly the
/// same set of replies, because both hold all and only the replies of
/// maximal minimax value for the board their shared key decodes to.
pub proof fn lemma_same_key_same_replies(r1: Record, r2: Record)
    requires
        record_sound(r1),
        record_sound(r2),
        r1.key@ == r2.key@,
    ensures
        forall|m: (usize, usize)|
            r1.replies@.contains(m) <==> r2.replies@.contains(m),
{
    let s = board_of_key(r1.key@);
    assert forall|m: (usize, usize)|
        r1.replies@.contains(m) <==> r2.replies@.contains(m) by {
        if r1.replies@.contains(m) {
            let k = choose|k: int| 0 <= k < r1.replies@.len() && r1.replies@[k] == m;
            assert(best_reply(s, r1.replies@[k]));
            assert(r2.replies@.contains(m));
        }
        if r2.replies@.contains(m) {
            let k = choose|k: int| 0 <= k < r2.replies@.len() && r2.replies@[k] == m;
            assert(best_reply(s, r2.replies@[k]));
            assert(r1.replies@.contains(m));
        }
    }
}

/// Build the whole tablebase from scratch.
///
/// Starting from the empty board, every position reached by a legal human
/// move is scored: each legal computer reply is evaluated by minimax, and
/// the replies of maximal score are recorded under the position's canonical
/// key. Positions already recorded are skipped, as are positions the human
/// move made terminal. The search continues from each recorded reply until
/// the work list drains, which it must: every pop after the first was
/// enqueued for a freshly recorded key, keys are never recorded twice, and
/// only 3^9 keys exist. The result therefore records the nine openings and
/// is closed under play along its own lines, and holds nothing else.
#[verifier::rlimit(60)]
pub fn generate_table() -> (t: Table)
    ensures
        t.wf(),
        t.sound(),
        generated(t.records@),
{
    let mut worklist: Vec<Board> = Vec::new();
    worklist.push(Board::new());
    let mut records: Vec<Record> = Vec::new();
    proof {
        crate::board::lemma_count_from_zero(crate::board::empty_board(), Cell::Cross, 0);
        crate::board::lemma_count_from_zero(crate::board::empty_board(), Cell::Nought, 0);
    }
    while worklist.len() > 0
        invariant
            forall|i: int| 0 <= i < worklist@.len() ==> pending_ok(#[trigger] worklist@[i]),
            forall|i: int| 0 <= i < records@.len() ==> record_sound(#[trigger] records@[i]),
            forall|i: int, j: int|
                0 <= i < j < records@.len() ==> records@[i].key@ != records@[j].key@,
            records@.len() <= 19683,
            openings_recorded(records@) || (worklist@.len() == 1 && worklist@[0]@
                == empty_board()),
            forall|w: int|
                0 <= w < worklist@.len() ==> (#[trigger] worklist@[w])@ == empty_board()
                    || exists|i: int, j: int|
                    0 <= i < records@.len() && 0 <= j < records@[i].replies@.len()
                        && worklist@[w]@ == reply_board(records@, i, j),
            forall|i: int, j: int|
                0 <= i < records@.len() && 0 <= j < records@[i].replies@.len() ==> expansion_done(
                    records@,
                    #[trigger] reply_board(records@, i, j),
                ) || board_in_worklist(worklist@, reply_board(records@, i, j)),
            records_supported(records@),
        decreases worklist@.len() + 10 * (19684 - records@.len()),
    {
        let ghost ow = worklist@;
        let g = worklist.pop().unwrap();
        let ghost m0: int = worklist@.len() + 10 * (19684 - records@.len());
        proof {
            assert(ow[ow.len() - 1] == g);
            // Pairs whose pending board was just popped fall to the
            // in-progress case; all others keep their witnesses.
            assert forall|i: int, j: int|
                0 <= i < records@.len() && 0 <= j < records@[i].replies@.len()
                    && !expansion_done(records@, reply_board(records@, i, j))
                    && !board_in_worklist(
                    worklist@,
                    #[trigger] reply_board(records@, i, j),
                ) implies reply_board(records@, i, j) == g@ by {
                let rb = reply_board(records@, i, j);
                let w = choose|w: int| 0 <= w < ow.len() && (#[trigger] ow[w])@ == rb;
                if w < ow.len() - 1 {
                    assert(worklist@[w]@ == rb);
                }
            }
        }
        let mut hi: usize = 0;
        while hi < 9
            invariant
                hi <= 9,
                pending_ok(g),
                forall|i: int| 0 <= i < worklist@.len() ==> pending_ok(#[trigger] worklist@[i]),
                forall|i: int| 0 <= i < records@.len() ==> record_sound(#[trigger] records@[i]),
                forall|i: int, j: int|
                    0 <= i < j < records@.len() ==> records@[i].key@ != records@[j].key@,
                records@.len() <= 19683,
                worklist@.len() + 10 * (19684 - records@.len()) <= m0,
                openings_recorded(records@) || (g@ == empty_board() && forall|m: (usize, usize)|
                    m.0 < 3 && m.1 < 3 && cell_index(m) < hi ==> table_contains_key(
                        records@,
                        key_of(#[trigger] opening_board(m)),
                    )),
                g@ == empty_board() || exists|i: int, j: int|
                    0 <= i < records@.len() && 0 <= j < records@[i].replies@.len() && g@
                        == reply_board(records@, i, j),
                forall|w: int|
                    0 <= w < worklist@.len() ==> (#[trigger] worklist@[w])@ == empty_board()
                        || exists|i: int, j: int|
                        0 <= i < records@.len() && 0 <= j < records@[i].replies@.len()
                            && worklist@[w]@ == reply_board(records@, i, j),
                forall|i: int, j: int|
                    0 <= i < records@.len() && 0 <= j < records@[i].replies@.len()
                        ==> expansion_done(records@, #[trigger] reply_board(records@, i, j))
                        || board_in_worklist(worklist@, reply_board(records@, i, j)) || (
                    reply_board(records@, i, j) == g@ && expansion_done_below(
                        records@,
                        g@,
                        hi as int,
                    )),
                records_supported(records@),
            decreases 9 - hi,
        {
            if g.cell_idx(hi) == Cell::Empty {
                let mut b = g.duplicate();
                b.set_idx(hi, Cell::Cross);
                let ghost s1 = b@;
                let ghost hc: (usize, usize) = ((hi / 3) as usize, (hi % 3) as usize);
                proof {
                    lemma_count_from_update(g@, Cell::Cross, Cell::Cross, 0, hi as int);
                    lemma_count_from_update(g@, Cell::Nought, Cell::Cross, 0, hi as int);
                    assert(cell_index(hc) == hi as int);
                    assert(s1 == g@.update(cell_index(hc), Cell::Cross));
                    if g@ == empty_board() {
                        // A single cross can neither win nor fill the board.
                        assert(!has_line(s1, Cell::Cross));
                        assert(!has_line(s1, Cell::Nought));
                        assert(winner_of(s1) == Winner::NoWin);
                        if hi == 0 {
                            assert(s1[1] == Cell::Empty);
                        } else {
                            assert(s1[0] == Cell::Empty);
                        }
                        assert(!board_full(s1));
                        assert(s1 =~= opening_board(hc));
                    }
                }
                let key = b.canonical_key();
                proof {
                    lemma_key_of_roundtrip(s1);
                }
                let already = table_has_key(&records, &key);
                proof {
                    if already {
                        assert(table_contains_key(records@, key_of(s1)));
                    }
                }
                if !already {
                    let w = b.winner();
                    let full = b.is_full();
                    if w == Winner::NoWin && !full {
                        let mut best: Vec<(usize, usize)> = Vec::new();
                        let mut best_boards: Vec<Board> = Vec::new();
                        let mut max_score: i32 = i32::MIN;
                        let mut ci: usize = 0;
                        while ci < 9
                            invariant
                                ci <= 9,
                                b.wf(),
                                b@ == s1,
                                winner_of(s1) == Winner::NoWin,
                                !board_full(s1),
                                best@.len() == best_boards@.len(),
                                forall|k: int|
                                    0 <= k < best@.len() ==> legal_cell(s1, #[trigger] best@[k])
                                        && cell_index(best@[k]) < ci && reply_score(s1, best@[k])
                                        == max_score as int,
                                forall|k: int|
                                    0 <= k < best_boards@.len() ==> pending_ok(
                                        #[trigger] best_boards@[k],
                                    ),
                                forall|k: int|
                                    0 <= k < best_boards@.len() ==> (#[trigger] best_boards@[k])@
                                        == s1.update(cell_index(best@[k]), Cell::Nought),
                                replies_sorted(best@),
                                best@.len() == 0 ==> max_score == i32::MIN,
                                best@.len() == 0 ==> forall|j: int|
                                    0 <= j < ci ==> s1[j] != Cell::Empty,
                                best@.len() > 0 ==> forall|m: (usize, usize)|
                                    #[trigger] legal_cell(s1, m) && cell_index(m) < ci ==> (
                                    reply_score(s1, m) <= max_score as int && (reply_score(s1, m)
                                        == max_score as int ==> best@.contains(m))),
                                count_of(s1, Cell::Cross) == count_of(s1, Cell::Nought) + 1,
                            decreases 9 - ci,
                        {
                            if b.cell_idx(ci) == Cell::Empty {
                                let mut nb = b.duplicate();
                                nb.set_idx(ci, Cell::Nought);
                                proof {
                                    lemma_count_from_update(s1, Cell::Cross, Cell::Nought, 0, ci as int);
                                    lemma_count_from_update(s1, Cell::Nought, Cell::Nought, 0, ci as int);
                                    lemma_count_from_update(s1, Cell::Empty, Cell::Nought, 0, ci as int);
                                    crate::board::lemma_count_from_zero(
                                        s1.update(ci as int, Cell::Nought),
                                        Cell::Empty,
                                        0,
                                    );
                                }
                                let sc = evaluate(&mut nb, 1, false);
                                let mv = (ci / 3, ci % 3);
                                proof {
                                    assert(cell_index(mv) == ci as int);
                                    assert(legal_cell(s1, mv));
                                    assert(nb@ == s1.update(cell_index(mv), Cell::Nought));
                                    assert(reply_score(s1, mv) == sc as int);
                                }
                                let ghost old_best = best@;
                                let ghost old_max = max_score as int;
                                if sc > max_score {
                                    max_score = sc;
                                    best = Vec::new();
                                    best_boards = Vec::new();
                                }
                                if sc == max_score {
                                    best.push(mv);
                                    best_boards.push(nb);
                                }
                                proof {
                                    // A move below the next index is either the move just
                                    // examined or one already covered by the invariant.
                                    assert forall|m: (usize, usize)|
                                        #[trigger] legal_cell(s1, m) && cell_index(m) < ci + 1
                                            && cell_index(m) >= ci implies m == mv by {
                                        assert(cell_index(m) == ci as int);
                                        assert(m.1 < 3);
                                        assert(m.0 == ci / 3 && m.1 == ci % 3);
                                    }
                                    if sc as int == max_score as int && old_max == max_score as int {
                                        // The examined move tied: it was appended.
                                        assert(best@ == old_best.push(mv));
                                        assert(best@.contains(mv)) by {
                                            let k: int = best@.len() - 1;
                                            assert(0 <= k < best@.len());
                                            assert(best@[k] == mv);
                                        }
                                        assert forall|m: (usize, usize)|
                                            old_best.contains(m) implies best@.contains(m) by {
                                            let k = choose|k: int|
                                                0 <= k < old_best.len() && old_best[k] == m;
                                            assert(best@[k] == m);
                                        }
                                    }
                                    if sc as int > old_max {
                                        // The examined move beat everything before it.
                                        assert(best@ =~= seq![mv]);
                                        assert(best@.contains(mv)) by {
                                            assert(best@[0] == mv);
                                        }
                                    }
                                }
                            }
                            ci += 1;
                        }
                        proof {
                            assert(!board_full(s1));
                            assert(exists|j: int| 0 <= j < 9 && s1[j] == Cell::Empty);
                            if best@.len() == 0 {
                                let j = choose|j: int| 0 <= j < 9 && s1[j] == Cell::Empty;
                                assert(s1[j] != Cell::Empty);
                            }
                            assert forall|m: (usize, usize)| #[trigger] best_reply(s1, m) implies best@.contains(
                                m,
                            ) by {
                                assert(legal_cell(s1, m));
                                assert(cell_index(m) < 9);
                                assert(legal_cell(s1, best@[0]));
                                assert(reply_score(s1, best@[0]) <= reply_score(s1, m));
                                assert(reply_score(s1, m) <= max_score as int);
                            }
                            assert forall|k: int| 0 <= k < best@.len() implies best_reply(
                                s1,
                                #[trigger] best@[k],
                            ) by {
                                assert forall|m2: (usize, usize)| #[trigger] legal_cell(s1, m2) implies reply_score(
                                    s1,
                                    m2,
                                ) <= reply_score(s1, best@[k]) by {
                                    assert(cell_index(m2) < 9);
                                }
                            }
                        }
                        let ghost bb = best_boards@;
                        let rec = Record { key, replies: best };
                        let ghost pre_records = records@;
                        records.push(rec);
                        let ghost nx: int = records@.len() - 1;
                        proof {
                            assert forall|kk: Seq<char>|
                                table_contains_key(pre_records, kk) implies table_contains_key(
                                records@,
                                kk,
                            ) by {
                                let x = choose|x: int|
                                    0 <= x < pre_records.len() && (#[trigger] pre_records[x]).key@
                                        == kk;
                                assert(records@[x] == pre_records[x]);
                            }
                            assert(records@[nx].key@ == key_of(s1));
                            assert(table_contains_key(records@, key_of(s1)));
                            // the existing records and their reply boards are unchanged
                            assert forall|i: int, j: int|
                                0 <= i < pre_records.len() && 0 <= j
                                    < pre_records[i].replies@.len() implies #[trigger] reply_board(
                                records@,
                                i,
                                j,
                            ) == reply_board(pre_records, i, j) by {
                                assert(records@[i] == pre_records[i]);
                            }
                            lemma_records_len_bound(records@);
                            if g@ != empty_board() {
                                let (i0, j0) = choose|i0: int, j0: int|
                                    0 <= i0 < pre_records.len() && 0 <= j0
                                        < pre_records[i0].replies@.len() && g@ == reply_board(
                                        pre_records,
                                        i0,
                                        j0,
                                    );
                                assert(reply_board(records@, i0, j0) == g@);
                            }
                            // every record stays supported, and the new one is an
                            // opening or a child of the line through the popped board
                            assert forall|x: int| 0 <= x < records@.len() implies record_supported(
                                records@,
                                x,
                            ) by {
                                if x < pre_records.len() {
                                    assert(record_supported(pre_records, x));
                                    if exists|i: int, j: int, h: (usize, usize)|
                                        0 <= i < pre_records.len() && 0 <= j
                                            < pre_records[i].replies@.len()
                                            && #[trigger] human_move_continues(
                                            reply_board(pre_records, i, j),
                                            h,
                                        ) && pre_records[x].key@ == key_of(
                                            reply_board(pre_records, i, j).update(
                                                cell_index(h),
                                                Cell::Cross,
                                            ),
                                        ) {
                                        let (i, j, h) = choose|i: int, j: int, h: (usize, usize)|
                                            0 <= i < pre_records.len() && 0 <= j
                                                < pre_records[i].replies@.len()
                                                && #[trigger] human_move_continues(
                                                reply_board(pre_records, i, j),
                                                h,
                                            ) && pre_records[x].key@ == key_of(
                                                reply_board(pre_records, i, j).update(
                                                    cell_index(h),
                                                    Cell::Cross,
                                                ),
                                            );
                                        assert(human_move_continues(
                                            reply_board(records@, i, j),
                                            h,
                                        ));
                                    }
                                } else {
                                    if g@ == empty_board() {
                                        assert(records@[x].key@ == key_of(opening_board(hc)));
                                    } else {
                                        let (i0, j0) = choose|i0: int, j0: int|
                                            0 <= i0 < pre_records.len() && 0 <= j0
                                                < pre_records[i0].replies@.len() && g@
                                                == reply_board(pre_records, i0, j0);
                                        assert(reply_board(records@, i0, j0) == g@);
                                        assert(human_move_continues(g@, hc));
                                        assert(records@[x].key@ == key_of(
                                            reply_board(records@, i0, j0).update(
                                                cell_index(hc),
                                                Cell::Cross,
                                            ),
                                        ));
                                    }
                                }
                            }
                        }
                        let ghost pre_wl = worklist@;
                        worklist.append(&mut best_boards);
                        proof {
                            assert(worklist@ == pre_wl + bb);
                            assert forall|s: Seq<Cell>|
                                board_in_worklist(pre_wl, s) implies board_in_worklist(
                                worklist@,
                                s,
                            ) by {
                                let w = choose|w: int|
                                    0 <= w < pre_wl.len() && (#[trigger] pre_wl[w])@ == s;
                                assert(worklist@[w]@ == s);
                            }
                            // each reply of the fresh record is now pending
                            assert forall|j: int|
                                0 <= j < records@[nx].replies@.len() implies board_in_worklist(
                                worklist@,
                                #[trigger] reply_board(records@, nx, j),
                            ) by {
                                assert(worklist@[pre_wl.len() + j] == bb[j]);
                                assert(bb[j]@ == s1.update(
                                    cell_index(records@[nx].replies@[j]),
                                    Cell::Nought,
                                ));
                                assert(board_of_key(records@[nx].key@) == s1);
                            }
                            // at most nine boards were enqueued for the one new record
                            lemma_replies_len_bound(records@[nx].replies@);
                            assert(bb.len() == records@[nx].replies@.len());
                            assert(worklist@.len() == pre_wl.len() + bb.len());
                            // every pending board still comes from some recorded line
                            assert forall|w: int|
                                0 <= w < worklist@.len() implies (#[trigger] worklist@[w])@
                                == empty_board() || exists|i: int, j: int|
                                0 <= i < records@.len() && 0 <= j < records@[i].replies@.len()
                                    && worklist@[w]@ == reply_board(records@, i, j) by {
                                if w < pre_wl.len() {
                                    assert(worklist@[w] == pre_wl[w]);
                                    if pre_wl[w]@ != empty_board() {
                                        let (i, j) = choose|i: int, j: int|
                                            0 <= i < pre_records.len() && 0 <= j
                                                < pre_records[i].replies@.len() && pre_wl[w]@
                                                == reply_board(pre_records, i, j);
                                        assert(reply_board(records@, i, j) == pre_wl[w]@);
                                    }
                                } else {
                                    assert(worklist@[w] == bb[w - pre_wl.len()]);
                                    assert(worklist@[w]@ == reply_board(
                                        records@,
                                        nx,
                                        w - pre_wl.len(),
                                    ));
                                }
                            }
                        }
                    }
                }
                proof {
                    // The one human move at this cell index leads to the board
                    // just examined.
                    assert forall|m: (usize, usize)|
                        m.0 < 3 && m.1 < 3 && cell_index(m) == hi implies m == hc
                            && g@.update(cell_index(m), Cell::Cross) == s1 by {
                        assert(m.0 == hi / 3 && m.1 == hi % 3);
                    }
                }
            }
            proof {
                assert forall|m: (usize, usize)|
                    m.0 < 3 && m.1 < 3 && cell_index(m) == hi implies m == ((hi / 3) as usize, (
                hi % 3) as usize) by {
                    assert(m.0 == hi / 3 && m.1 == hi % 3);
                }
            }
            hi += 1;
        }
        proof {
            if !openings_recorded(records@) {
                assert forall|m: (usize, usize)| m.0 < 3 && m.1 < 3 implies table_contains_key(
                    records@,
                    key_of(#[trigger] opening_board(m)),
                ) by {
                    assert(cell_index(m) < 9);
                }
                assert(false);
            }
            // The popped board is fully expanded: moves at every cell index
            // below nine are covered, and there are no others.
            assert forall|i: int, j: int|
                0 <= i < records@.len() && 0 <= j < records@[i].replies@.len() implies
                expansion_done(records@, #[trigger] reply_board(records@, i, j))
                    || board_in_worklist(worklist@, reply_board(records@, i, j)) by {
                let rb = reply_board(records@, i, j);
                if !expansion_done(records@, rb) && !board_in_worklist(worklist@, rb) {
                    assert(rb == g@ && expansion_done_below(records@, g@, 9));
                    assert forall|h: (usize, usize)|
                        #[trigger] human_move_continues(rb, h) implies table_contains_key(
                        records@,
                        key_of(rb.update(cell_index(h), Cell::Cross)),
                    ) by {
                        assert(cell_index(h) < 9);
                    }
                    assert(false);
                }
            }
        }
    }
    proof {
        assert forall|i: int, j: int|
            0 <= i < records@.len() && 0 <= j < records@[i].replies@.len() implies expansion_done(
            records@,
            #[trigger] reply_board(records@, i, j),
        ) by {
            if board_in_worklist(worklist@, reply_board(records@, i, j)) {
                let w = choose|w: int|
                    0 <= w < worklist@.len() && (#[trigger] worklist@[w])@ == reply_board(
                        records@,
                        i,
                        j,
                    );
            }
        }
    }
    Table { records }
}

} // verus!
