use vstd::prelude::*;

verus! {

/// The mark held by one cell of the 3x3 board. The human plays crosses and
/// always moves first; the computer plays noughts.
#[derive(PartialEq, Eq, Structural, Copy, Clone, Debug)]
pub enum Cell {
    Empty,
    Cross,
    Nought,
}

/// The result of examining a board for three in a row. This is deliberately
/// a separate type from `Cell`, so that "nobody has won" is not conflated
/// with "this cell is unmarked".
#[derive(PartialEq, Eq, Structural, Copy, Clone, Debug)]
pub enum Winner {
    NoWin,
    CrossWin,
    NoughtWin,
}

/// A board is modelled as a sequence of exactly nine cells in row-major
/// order: cell (row, col) lives at index 3 * row + col.
pub open spec fn board_wf(s: Seq<Cell>) -> bool {
    s.len() == 9
}

/// The board on which no move has been played yet.
pub open spec fn empty_board() -> Seq<Cell> {
    Seq::new(9, |i: int| Cell::Empty)
}

/// Three given cells all hold the mark `m`.
pub open spec fn line_filled(s: Seq<Cell>, a: int, b: int, c: int, m: Cell) -> bool {
    s[a] == m && s[b] == m && s[c] == m
}

/// The mark `m` owns one of the eight winning lines: the three rows, the
/// three columns and the two diagonals.
pub open spec fn has_line(s: Seq<Cell>, m: Cell) -> bool {
    ||| line_filled(s, 0, 1, 2, m)
    ||| line_filled(s, 3, 4, 5, m)
    ||| line_filled(s, 6, 7, 8, m)
    ||| line_filled(s, 0, 3, 6, m)
    ||| line_filled(s, 1, 4, 7, m)
    ||| line_filled(s, 2, 5, 8, m)
    ||| line_filled(s, 0, 4, 8, m)
    ||| line_filled(s, 2, 4, 6, m)
}

/// Who, if anybody, has three in a row on the board.
pub open spec fn winner_of(s: Seq<Cell>) -> Winner {
    if has_line(s, Cell::Cross) {
        Winner::CrossWin
    } else if has_line(s, Cell::Nought) {
        Winner::NoughtWin
    } else {
        Winner::NoWin
    }
}

/// No cell of the board is empty.
pub open spec fn board_full(s: Seq<Cell>) -> bool {
    forall|i: int| 0 <= i < 9 ==> s[i] != Cell::Empty
}

/// How many cells at index `i` or above hold the mark `m`.
pub open spec fn count_from(s: Seq<Cell>, m: Cell, i: int) -> int
    decreases 9 - i,
{
    if i >= 9 {
        0
    } else {
        (if s[i] == m {
            1int
        } else {
            0int
        }) + count_from(s, m, i + 1)
    }
}

/// How many cells of the board hold the mark `m`.
pub open spec fn count_of(s: Seq<Cell>, m: Cell) -> int {
    count_from(s, m, 0)
}

/// Writing `v` into cell `j` changes the count of each mark by exactly the
/// contribution of that one cell.
pub proof fn lemma_count_from_update(s: Seq<Cell>, m: Cell, v: Cell, i: int, j: int)
    requires
        board_wf(s),
        0 <= i,
        0 <= j < 9,
    ensures
        count_from(s.update(j, v), m, i) == count_from(s, m, i) + if i <= j {
            (if v == m { 1int } else { 0int }) - (if s[j] == m { 1int } else { 0int })
        } else {
            0int
        },
    decreases 9 - i,
{
    if i < 9 {
        lemma_count_from_update(s, m, v, i + 1, j);
    }
}

/// A count of zero from `i` on means no cell at index `i` or above holds `m`.
pub proof fn lemma_count_from_zero(s: Seq<Cell>, m: Cell, i: int)
    requires
        board_wf(s),
        0 <= i <= 9,
    ensures
        (count_from(s, m, i) == 0) <==> (forall|j: int| i <= j < 9 ==> s[j] != m),
        count_from(s, m, i) >= 0,
        count_from(s, m, i) <= 9 - i,
    decreases 9 - i,
{
    if i < 9 {
        lemma_count_from_zero(s, m, i + 1);
    }
}

/// A full board has no empty cell and conversely.
pub proof fn lemma_full_iff_no_empty(s: Seq<Cell>)
    requires
        board_wf(s),
    ensures
        board_full(s) <==> (count_of(s, Cell::Empty) == 0),
{
    lemma_count_from_zero(s, Cell::Empty, 0);
}

/// The character that stands for a cell in a canonical key.
pub open spec fn cell_char(c: Cell) -> char {
    match c {
        Cell::Empty => 'E',
        Cell::Cross => 'C',
        Cell::Nought => 'N',
    }
}

/// The canonical key of a board: one character per cell, row-major.
pub open spec fn key_of(s: Seq<Cell>) -> Seq<char> {
    Seq::new(s.len(), |i: int| cell_char(s[i]))
}

/// The characters a canonical key may hold.
pub open spec fn valid_key_char(c: char) -> bool {
    c == 'E' || c == 'C' || c == 'N'
}

/// A well-formed canonical key: nine characters, each one of E, C or N.
pub open spec fn valid_key(k: Seq<char>) -> bool {
    k.len() == 9 && forall|i: int| 0 <= i < 9 ==> valid_key_char(#[trigger] k[i])
}

/// The cell a key character stands for.
pub open spec fn cell_of_char(c: char) -> Cell {
    if c == 'C' {
        Cell::Cross
    } else if c == 'N' {
        Cell::Nought
    } else {
        Cell::Empty
    }
}

/// The board a well-formed canonical key describes.
pub open spec fn board_of_key(k: Seq<char>) -> Seq<Cell> {
    Seq::new(k.len(), |i: int| cell_of_char(k[i]))
}

/// A canonical key is well formed and decodes back to the very board it was
/// taken from: the encoding loses nothing.
pub proof fn lemma_key_of_roundtrip(s: Seq<Cell>)
    requires
        board_wf(s),
    ensures
        valid_key(key_of(s)),
        board_of_key(key_of(s)) == s,
{
    assert(board_of_key(key_of(s)) =~= s);
}

/// Powers of three, for counting boards and keys.
pub open spec fn pow3(n: int) -> int
    decreases n,
{
    if n <= 0 {
        1
    } else {
        3 * pow3(n - 1)
    }
}

/// The base-3 digit of one key character.
pub open spec fn key_char_value(c: char) -> int {
    if c == 'E' {
        0
    } else if c == 'C' {
        1
    } else {
        2
    }
}

/// The base-3 value of a key's characters at index `i` and above.
pub open spec fn key_code_from(k: Seq<char>, i: int) -> int
    decreases 9 - i,
{
    if i >= 9 {
        0
    } else {
        key_char_value(k[i]) + 3 * key_code_from(k, i + 1)
    }
}

/// The base-3 value of a whole canonical key. Distinct well-formed keys get
/// distinct values below 3^9, so there are at most 19683 keys in all.
pub open spec fn key_code(k: Seq<char>) -> int {
    key_code_from(k, 0)
}

pub proof fn lemma_key_code_from_bounds(k: Seq<char>, i: int)
    requires
        0 <= i <= 9,
    ensures
        0 <= key_code_from(k, i) < pow3(9 - i),
    decreases 9 - i,
{
    if i < 9 {
        lemma_key_code_from_bounds(k, i + 1);
    }
}

/// Equal codes come from equal keys: the base-3 digits determine the
/// characters one by one.
pub proof fn lemma_key_code_injective(k1: Seq<char>, k2: Seq<char>, i: int)
    requires
        valid_key(k1),
        valid_key(k2),
        0 <= i <= 9,
        key_code_from(k1, i) == key_code_from(k2, i),
    ensures
        forall|j: int| i <= j < 9 ==> k1[j] == k2[j],
    decreases 9 - i,
{
    if i < 9 {
        lemma_key_code_from_bounds(k1, i + 1);
        lemma_key_code_from_bounds(k2, i + 1);
        assert(key_char_value(k1[i]) == key_char_value(k2[i]));
        assert(k1[i] == k2[i]);
        lemma_key_code_injective(k1, k2, i + 1);
    }
}

/// The canonical key is a function of the current cells alone: marks placed
/// at distinct cells may be placed in either order without changing the key.
pub proof fn lemma_key_order_independent(s: Seq<Cell>, i: int, j: int, a: Cell, b: Cell)
    requires
        board_wf(s),
        0 <= i < 9,
        0 <= j < 9,
        i != j,
    ensures
        key_of(s.update(i, a).update(j, b)) == key_of(s.update(j, b).update(i, a)),
{
    assert(s.update(i, a).update(j, b) =~= s.update(j, b).update(i, a));
}

/// If one mark owns a line and the other does not, that mark is reported as
/// the winner; with no line on either side nobody has won. Together with the
/// eight-line definition of `has_line` this covers every winning pattern.
pub proof fn lemma_win_detection(s: Seq<Cell>)
    requires
        board_wf(s),
    ensures
        has_line(s, Cell::Cross) && !has_line(s, Cell::Nought) ==> winner_of(s)
            == Winner::CrossWin,
        has_line(s, Cell::Nought) && !has_line(s, Cell::Cross) ==> winner_of(s)
            == Winner::NoughtWin,
        !has_line(s, Cell::Cross) && !has_line(s, Cell::Nought) ==> winner_of(s) == Winner::NoWin,
{
}

/// The cells (row, col) of all empty cells at index `i` or above, row-major.
pub open spec fn empty_cells_from(s: Seq<Cell>, i: int) -> Seq<(usize, usize)>
    decreases 9 - i,
{
    if i < 0 || i >= 9 {
        Seq::empty()
    } else if s[i] == Cell::Empty {
        seq![((i / 3) as usize, (i % 3) as usize)] + empty_cells_from(s, i + 1)
    } else {
        empty_cells_from(s, i + 1)
    }
}

/// The legal moves of a board: its empty cells in row-major order.
pub open spec fn legal_moves_of(s: Seq<Cell>) -> Seq<(usize, usize)> {
    empty_cells_from(s, 0)
}

/// The 3x3 board itself: a matrix of cells stored row-major.
pub struct Board {
    cells: Vec<Cell>,
}

impl View for Board {
    type V = Seq<Cell>;

    closed spec fn view(&self) -> Seq<Cell> {
        self.cells@
    }
}

impl Board {
    /// The board always holds exactly nine cells.
    pub open spec fn wf(&self) -> bool {
        board_wf(self@)
    }

    /// A fresh board with every cell empty.
    pub fn new() -> (b: Board)
        ensures
            b.wf(),
            b@ == empty_board(),
    {
        let mut cells: Vec<Cell> = Vec::new();
        let mut i: usize = 0;
        while i < 9
            invariant
                i <= 9,
                cells@.len() == i,
                forall|j: int| 0 <= j < i ==> cells@[j] == Cell::Empty,
            decreases 9 - i,
        {
            cells.push(Cell::Empty);
            i += 1;
        }
        let b = Board { cells };
        proof {
            assert(b@ =~= empty_board());
        }
        b
    }

    /// An identical, independently owned copy of the board.
    pub fn duplicate(&self) -> (b: Board)
        requires
            self.wf(),
        ensures
            b.wf(),
            b@ == self@,
    {
        let mut cells: Vec<Cell> = Vec::new();
        let mut i: usize = 0;
        while i < 9
            invariant
                self.wf(),
                i <= 9,
                cells@.len() == i,
                forall|j: int| 0 <= j < i ==> cells@[j] == self@[j],
            decreases 9 - i,
        {
            cells.push(self.cells[i]);
            i += 1;
        }
        let b = Board { cells };
        proof {
            assert(b@ =~= self@);
        }
        b
    }

    /// Reset every cell to empty, ready for a new game.
    pub fn clear(&mut self)
        requires
            old(self).wf(),
        ensures
            final(self).wf(),
            final(self)@ == empty_board(),
    {
        let mut i: usize = 0;
        while i < 9
            invariant
                self@.len() == 9,
                i <= 9,
                forall|j: int| 0 <= j < i ==> self@[j] == Cell::Empty,
            decreases 9 - i,
        {
            self.cells[i] = Cell::Empty;
            i += 1;
        }
        proof {
            assert(self@ =~= empty_board());
        }
    }

    /// The mark currently at cell index `i` (row-major).
    pub fn cell_idx(&self, i: usize) -> (c: Cell)
        requires
            self.wf(),
            i < 9,
        ensures
            c == self@[i as int],
    {
        self.cells[i]
    }

    /// The mark currently at cell (row, col).
    pub fn cell(&self, row: usize, col: usize) -> (c: Cell)
        requires
            self.wf(),
            row < 3,
            col < 3,
        ensures
            c == self@[row * 3 + col],
    {
        self.cells[row * 3 + col]
    }

    /// Overwrite cell index `i` (row-major) with the mark `m`. This is the
    /// raw cell write used internally both to play a move and to take one
    /// back while searching.
    pub(crate) fn set_idx(&mut self, i: usize, m: Cell)
        requires
            old(self).wf(),
            i < 9,
        ensures
            final(self).wf(),
            final(self)@ == old(self)@.update(i as int, m),
    {
        self.cells[i] = m;
    }

    /// Play the mark `m` onto the empty cell (row, col).
    pub fn apply_move(&mut self, row: usize, col: usize, m: Cell)
        requires
            old(self).wf(),
            row < 3,
            col < 3,
            old(self)@[row * 3 + col] == Cell::Empty,
            m != Cell::Empty,
        ensures
            final(self).wf(),
            final(self)@ == old(self)@.update(row * 3 + col, m),
    {
        self.set_idx(row * 3 + col, m);
    }

    /// Whether no empty cell remains.
    pub fn is_full(&self) -> (r: bool)
        requires
            self.wf(),
        ensures
            r == board_full(self@),
    {
        let mut i: usize = 0;
        while i < 9
            invariant
                self.wf(),
                i <= 9,
                forall|j: int| 0 <= j < i ==> self@[j] != Cell::Empty,
            decreases 9 - i,
        {
            if self.cells[i] == Cell::Empty {
                return false;
            }
            i += 1;
        }
        true
    }

    /// Whether the mark `m` owns one of the eight winning lines.
    fn mark_has_line(&self, m: Cell) -> (r: bool)
        requires
            self.wf(),
        ensures
            r == has_line(self@, m),
    {
        let g = &self.cells;
        (g[0] == m && g[1] == m && g[2] == m) || (g[3] == m && g[4] == m && g[5] == m) || (g[6] == m
            && g[7] == m && g[8] == m) || (g[0] == m && g[3] == m && g[6] == m) || (g[1] == m
            && g[4] == m && g[7] == m) || (g[2] == m && g[5] == m && g[8] == m) || (g[0] == m
            && g[4] == m && g[8] == m) || (g[2] == m && g[4] == m && g[6] == m)
    }

    /// Who, if anybody, has three in a row. All eight lines are examined for
    /// each side in turn.
    pub fn winner(&self) -> (r: Winner)
        requires
            self.wf(),
        ensures
            r == winner_of(self@),
    {
        if self.mark_has_line(Cell::Cross) {
            Winner::CrossWin
        } else if self.mark_has_line(Cell::Nought) {
            Winner::NoughtWin
        } else {
            Winner::NoWin
        }
    }

    /// Every legal move of the board: the coordinates of its empty cells, in
    /// row-major order, so that repeated calls list moves deterministically.
    pub fn legal_moves(&self) -> (moves: Vec<(usize, usize)>)
        requires
            self.wf(),
        ensures
            moves@ == legal_moves_of(self@),
    {
        let mut moves: Vec<(usize, usize)> = Vec::new();
        let mut i: usize = 0;
        while i < 9
            invariant
                self.wf(),
                i <= 9,
                moves@ + empty_cells_from(self@, i as int) == legal_moves_of(self@),
            decreases 9 - i,
        {
            if self.cells[i] == Cell::Empty {
                let ghost prev = moves@;
                moves.push((i / 3, i % 3));
                proof {
                    assert(moves@ + empty_cells_from(self@, i + 1) =~= prev + empty_cells_from(
                        self@,
                        i as int,
                    ));
                }
            }
            i += 1;
        }
        moves
    }

    /// The canonical key of the board: nine characters in row-major order,
    /// E for an empty cell, C for a cross and N for a nought. It depends on
    /// the current cells alone, so the same position always yields the same
    /// key however it was reached.
    pub fn canonical_key(&self) -> (k: String)
        requires
            self.wf(),
        ensures
            k@ == key_of(self@),
    {
        let mut k = String::new();
        let mut i: usize = 0;
        proof {
            reveal_strlit("E");
            reveal_strlit("C");
            reveal_strlit("N");
        }
        while i < 9
            invariant
                self.wf(),
                i <= 9,
                k@.len() == i,
                forall|j: int| 0 <= j < i ==> k@[j] == cell_char(self@[j]),
            decreases 9 - i,
        {
            match self.cells[i] {
                Cell::Empty => k.append("E"),
                Cell::Cross => k.append("C"),
                Cell::Nought => k.append("N"),
            }
            proof {
                reveal_strlit("E");
                reveal_strlit("C");
                reveal_strlit("N");
            }
            i += 1;
        }
        proof {
            assert(k@ =~= key_of(self@));
        }
        k
    }
}

} // verus!
