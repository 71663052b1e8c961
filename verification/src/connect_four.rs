//! Connect Four (popout variant) game model.
//!
//! The board is a `width x height` grid of cells stored row-major, row 0 at
//! the top.  A piece inserted into a column lands on the lowest empty row;
//! a player may instead pop their own bottom-most piece, sliding the rest of
//! the column down one row.

use vstd::prelude::*;

verus! {

/// One of the two players.
#[derive(Clone, Copy, Debug, PartialEq, Eq, Hash, Structural)]
pub enum Player {
    Player1,
    Player2,
}

impl Player {
    /// The opponent of this player.
    pub open spec fn opposite(self) -> Player {
        match self {
            Player::Player1 => Player::Player2,
            Player::Player2 => Player::Player1,
        }
    }

    /// Switch this value to the other player.
    pub fn other(&mut self)
        ensures
            *final(self) == old(self).opposite(),
    {
        match self {
            Player::Player1 => *self = Player::Player2,
            Player::Player2 => *self = Player::Player1,
        }
    }
}

/// One square of the board.
#[derive(Clone, Copy, Debug, PartialEq, Eq, Hash, Structural)]
pub enum Cell {
    Empty,
    Player(Player),
}

/// Why a move on the board was refused.
#[derive(Clone, Copy, Debug, PartialEq, Eq, Structural)]
pub enum ConnectFourError {
    ColumnFull(usize),
    ColumnEmpty(usize),
    ColumnNotYours(usize),
}

/// The mathematical value of a board: its cells row-major and its size.
pub struct BoardV {
    pub cells: Seq<Cell>,
    pub width: nat,
    pub height: nat,
}

impl BoardV {
    /// The cell sequence has exactly one entry per square.
    pub open spec fn wf(self) -> bool {
        self.cells.len() == self.width * self.height
    }

    /// Index of square `(col, row)` in the row-major cell sequence.
    pub open spec fn idx(self, col: int, row: int) -> int {
        row * self.width + col
    }

    pub open spec fn in_bounds(self, col: int, row: int) -> bool {
        0 <= col < self.width && 0 <= row < self.height
    }

    pub open spec fn cell(self, col: int, row: int) -> Cell {
        self.cells[self.idx(col, row)]
    }

    /// The cells of column `col`, top to bottom.
    pub open spec fn col_seq(self, col: int) -> Seq<Cell> {
        Seq::new(self.height, |row: int| self.cell(col, row))
    }

    /// The all-empty board of the given size.
    pub open spec fn empty(width: nat, height: nat) -> BoardV {
        BoardV { cells: Seq::new(width * height, |i: int| Cell::Empty), width, height }
    }

    /// Scanning rows `row, row - 1, ..., 0` of `col`, the first empty row
    /// found, or -1 if none of them is empty.
    pub open spec fn insert_row_from(self, col: int, row: int) -> int
        decreases row + 1,
    {
        if row < 0 {
            -1
        } else if self.cell(col, row) == Cell::Empty {
            row
        } else {
            self.insert_row_from(col, row - 1)
        }
    }

    /// The row where the next piece inserted into `col` lands (the lowest
    /// empty row), or -1 if the column is full.
    pub open spec fn insert_row(self, col: int) -> int {
        self.insert_row_from(col, self.height - 1)
    }

    pub open spec fn can_insert(self, col: int) -> bool {
        self.insert_row(col) >= 0
    }

    /// The board after inserting a piece of `player` into `col`.
    pub open spec fn inserted(self, col: int, player: Player) -> BoardV {
        BoardV {
            cells: self.cells.update(self.idx(col, self.insert_row(col)), Cell::Player(player)),
            ..self
        }
    }

    /// The bottom cell of `col`.
    pub open spec fn bottom(self, col: int) -> Cell {
        self.cell(col, self.height - 1)
    }

    pub open spec fn can_pop(self, col: int, player: Player) -> bool {
        self.bottom(col) == Cell::Player(player)
    }

    /// The board after popping `col`: every cell of the column moves down one
    /// row and the top cell becomes empty.  Other columns are unchanged.
    pub open spec fn popped(self, col: int) -> BoardV {
        BoardV {
            cells: Seq::new(
                self.cells.len(),
                |i: int|
                    {
                        let c = i % (self.width as int);
                        let r = i / (self.width as int);
                        if c == col {
                            if r == 0 {
                                Cell::Empty
                            } else {
                                self.cell(c, r - 1)
                            }
                        } else {
                            self.cells[i]
                        }
                    },
            ),
            ..self
        }
    }
}

/// With `col < width` and `row < height`, the row-major index of `(col, row)`
/// lies inside the cell sequence.
pub proof fn lemma_idx_in_range(b: BoardV, col: int, row: int)
    requires
        b.wf(),
        b.in_bounds(col, row),
    ensures
        0 <= b.idx(col, row) < b.cells.len(),
{
    assert(0 <= row * b.width + col < b.width * b.height) by (nonlinear_arith)
        requires
            0 <= col < b.width,
            0 <= row < b.height,
    ;
}

/// Distinct squares have distinct row-major indexes.
pub proof fn lemma_idx_injective(b: BoardV, c1: int, r1: int, c2: int, r2: int)
    requires
        b.in_bounds(c1, r1),
        b.in_bounds(c2, r2),
        (c1, r1) != (c2, r2),
    ensures
        b.idx(c1, r1) != b.idx(c2, r2),
{
    assert(r1 * b.width + c1 != r2 * b.width + c2) by (nonlinear_arith)
        requires
            0 <= c1 < b.width,
            0 <= r1 < b.height,
            0 <= c2 < b.width,
            0 <= r2 < b.height,
            c1 != c2 || r1 != r2,
    ;
}

/// The row-major index determines the square: `idx(col, row)` decomposes
/// back into `col` and `row` by division and remainder.
pub proof fn lemma_idx_decompose(b: BoardV, col: int, row: int)
    requires
        b.in_bounds(col, row),
    ensures
        b.idx(col, row) % (b.width as int) == col,
        b.idx(col, row) / (b.width as int) == row,
{
    vstd::arithmetic::div_mod::lemma_fundamental_div_mod_converse(
        b.idx(col, row),
        b.width as int,
        row,
        col,
    );
}

/// Scanning stops at the first empty row, so the landing row is at most the
/// row where the scan began, and it is empty.
pub proof fn lemma_insert_row_from(b: BoardV, col: int, row: int)
    ensures
        -1 <= b.insert_row_from(col, row),
        b.insert_row_from(col, row) >= 0 ==> b.insert_row_from(col, row) <= row && b.cell(
            col,
            b.insert_row_from(col, row),
        ) == Cell::Empty,
    decreases row + 1,
{
    if row >= 0 && b.cell(col, row) != Cell::Empty {
        lemma_insert_row_from(b, col, row - 1);
    }
}

/// The Connect Four board.
#[derive(Debug)]
pub struct Board {
    /// Cells, row-major, row 0 at the top.
    pub cells: Vec<Cell>,
    /// Number of columns.
    pub width: usize,
    /// Number of rows.
    pub height: usize,
}

impl View for Board {
    type V = BoardV;

    open spec fn view(&self) -> BoardV {
        BoardV { cells: self.cells@, width: self.width as nat, height: self.height as nat }
    }
}

impl Clone for Board {
    fn clone(&self) -> (r: Self)
        ensures
            r@ == self@,
    {
        let mut cells: Vec<Cell> = Vec::new();
        let mut i: usize = 0;
        while i < self.cells.len()
            invariant
                i <= self.cells.len(),
                cells@ == self.cells@.take(i as int),
            decreases self.cells.len() - i,
        {
            cells.push(self.cells[i]);
            i += 1;
        }
        proof {
            assert(cells@ =~= self.cells@);
        }
        let r = Board { cells, width: self.width, height: self.height };
        proof {
            assert(r@ =~= self@);
        }
        r
    }
}

impl Board {
    /// An all-empty board of the given size.
    pub fn new(width: usize, height: usize) -> (r: Self)
        requires
            width * height <= usize::MAX,
        ensures
            r@ == BoardV::empty(width as nat, height as nat),
            r@.wf(),
            r.width == width,
            r.height == height,
    {
        let n = width * height;
        let mut cells: Vec<Cell> = Vec::new();
        let mut i: usize = 0;
        while i < n
            invariant
                i <= n,
                cells@ == Seq::new(i as nat, |j: int| Cell::Empty),
            decreases n - i,
        {
            cells.push(Cell::Empty);
            proof {
                assert(cells@ =~= Seq::new((i + 1) as nat, |j: int| Cell::Empty));
            }
            i += 1;
        }
        let r = Board { cells, width, height };
        proof {
            assert(r@ =~= BoardV::empty(width as nat, height as nat));
        }
        r
    }

    /// Read one cell.
    pub fn get(&self, col: usize, row: usize) -> (r: Cell)
        requires
            self@.wf(),
            col < self.width,
            row < self.height,
        ensures
            r == self@.cell(col as int, row as int),
    {
        let n = self.cells.len();
        proof {
            lemma_idx_in_range(self@, col as int, row as int);
        }
        self.cells[row * self.width + col]
    }

    /// Borrow one cell mutably.
    pub fn get_mut(&mut self, col: usize, row: usize) -> (c: &mut Cell)
        requires
            old(self)@.wf(),
            col < old(self).width,
            row < old(self).height,
        ensures
            *c == old(self)@.cell(col as int, row as int),
            final(self).cells@ == old(self).cells@.update(
                old(self)@.idx(col as int, row as int),
                *final(c),
            ),
            final(self).width == old(self).width,
            final(self).height == old(self).height,
    {
        let n = self.cells.len();
        proof {
            lemma_idx_in_range(self@, col as int, row as int);
        }
        &mut self.cells[row * self.width + col]
    }

    /// The cells of one column, top to bottom.
    pub fn get_col(&self, col: usize) -> (r: Vec<Cell>)
        requires
            self@.wf(),
            col < self.width,
        ensures
            r@ == self@.col_seq(col as int),
    {
        let mut r: Vec<Cell> = Vec::new();
        let mut row: usize = 0;
        while row < self.height
            invariant
                self@.wf(),
                col < self.width,
                row <= self.height,
                r@ == self@.col_seq(col as int).take(row as int),
            decreases self.height - row,
        {
            r.push(self.get(col, row));
            proof {
                assert(r@ =~= self@.col_seq(col as int).take(row + 1));
            }
            row += 1;
        }
        proof {
            assert(r@ =~= self@.col_seq(col as int));
        }
        r
    }

    /// The row where an inserted piece would land, or `ColumnFull`.
    pub fn can_insert(&self, col: usize) -> (r: Result<usize, ConnectFourError>)
        requires
            self@.wf(),
            col < self.width,
        ensures
            match r {
                Ok(row) => self@.can_insert(col as int) && row == self@.insert_row(col as int),
                Err(e) => !self@.can_insert(col as int) && e == ConnectFourError::ColumnFull(col),
            },
    {
        let mut row = self.height;
        while row > 0
            invariant
                self@.wf(),
                col < self.width,
                row <= self.height,
                self@.insert_row(col as int) == self@.insert_row_from(col as int, row - 1),
            decreases row,
        {
            row -= 1;
            if self.get(col, row) == Cell::Empty {
                return Ok(row);
            }
        }
        Err(ConnectFourError::ColumnFull(col))
    }

    /// Insert a piece of `player` into `col` at the lowest empty row.
    pub fn insert(&mut self, col: usize, player: Player) -> (r: Result<(), ConnectFourError>)
        requires
            old(self)@.wf(),
            col < old(self).width,
        ensures
            final(self)@.wf(),
            final(self).width == old(self).width,
            final(self).height == old(self).height,
            match r {
                Ok(()) => old(self)@.can_insert(col as int) && final(self)@ == old(self)@.inserted(
                    col as int,
                    player,
                ),
                Err(e) => {
                    &&& !old(self)@.can_insert(col as int)
                    &&& e == ConnectFourError::ColumnFull(col)
                    &&& final(self)@ == old(self)@
                },
            },
    {
        match self.can_insert(col) {
            Ok(row) => {
                proof {
                    lemma_insert_row_from(self@, col as int, self.height - 1);
                }
                let cell = self.get_mut(col, row);
                *cell = Cell::Player(player);
                proof {
                    lemma_idx_in_range(old(self)@, col as int, row as int);
                    assert(self.cells@.len() == old(self).cells@.len());
                }
                Ok(())
            },
            Err(e) => Err(e),
        }
    }

    /// Whether `player` may pop the bottom piece of `col`.
    pub fn can_pop(&self, col: usize, player: Player) -> (r: Result<(), ConnectFourError>)
        requires
            self@.wf(),
            col < self.width,
            self.height >= 1,
        ensures
            match r {
                Ok(()) => self@.can_pop(col as int, player),
                Err(e) => !self@.can_pop(col as int, player) && match e {
                    ConnectFourError::ColumnEmpty(c) => c == col && self@.bottom(col as int)
                        == Cell::Empty,
                    ConnectFourError::ColumnNotYours(c) => c == col && self@.bottom(col as int)
                        == Cell::Player(player.opposite()),
                    _ => false,
                },
            },
    {
        let last_cell = self.get(col, self.height - 1);
        match last_cell {
            Cell::Empty => Err(ConnectFourError::ColumnEmpty(col)),
            Cell::Player(p) => {
                if p != player {
                    Err(ConnectFourError::ColumnNotYours(col))
                } else {
                    Ok(())
                }
            },
        }
    }

    /// Pop the bottom piece of `col` for `player`: the column slides down one
    /// row and the top cell becomes empty.
    pub fn pop(&mut self, col: usize, player: Player) -> (r: Result<(), ConnectFourError>)
        requires
            old(self)@.wf(),
            col < old(self).width,
            old(self).height >= 1,
        ensures
            final(self)@.wf(),
            final(self).width == old(self).width,
            final(self).height == old(self).height,
            match r {
                Ok(()) => old(self)@.can_pop(col as int, player) && final(self)@ == old(self)@.popped(col as int),
                Err(e) => {
                    &&& !old(self)@.can_pop(col as int, player)
                    &&& final(self)@ == old(self)@
                    &&& match e {
                        ConnectFourError::ColumnEmpty(c) => c == col && old(self)@.bottom(col as int)
                            == Cell::Empty,
                        ConnectFourError::ColumnNotYours(c) => c == col && old(self)@.bottom(
                            col as int,
                        ) == Cell::Player(player.opposite()),
                        _ => false,
                    }
                },
            },
    {
        match self.can_pop(col, player) {
            Ok(()) => {
                let ghost orig = self@;
                let column = self.get_col(col);
                let mut row: usize = 0;
                while row < self.height
                    invariant
                        orig.wf(),
                        self@.wf(),
                        self.width == orig.width,
                        self.height == orig.height,
                        col < self.width,
                        row <= self.height,
                        column@ == orig.col_seq(col as int),
                        forall|c: int, r: int|
                            orig.in_bounds(c, r) ==> self@.cell(c, r) == (if c == col && r
                                < row {
                                orig.popped(col as int).cell(c, r)
                            } else {
                                orig.cell(c, r)
                            }),
                    decreases self.height - row,
                {
                    let v = if row == 0 {
                        Cell::Empty
                    } else {
                        column[row - 1]
                    };
                    let ghost before = self@;
                    let cell = self.get_mut(col, row);
                    *cell = v;
                    proof {
                        lemma_idx_in_range(before, col as int, row as int);
                        assert forall|c: int, r: int| orig.in_bounds(c, r) implies self@.cell(c, r)
                            == (if c == col && r < row + 1 {
                            orig.popped(col as int).cell(c, r)
                        } else {
                            orig.cell(c, r)
                        }) by {
                            lemma_idx_in_range(before, c, r);
                            if c == col && r == row {
                                lemma_idx_decompose(orig, c, r);
                            } else {
                                lemma_idx_injective(before, c, r, col as int, row as int);
                            }
                        }
                    }
                    row += 1;
                }
                proof {
                    assert forall|i: int| 0 <= i < self@.cells.len() implies self@.cells[i]
                        == orig.popped(col as int).cells[i] by {
                        vstd::arithmetic::div_mod::lemma_fundamental_div_mod(i, orig.width as int);
                        vstd::arithmetic::div_mod::lemma_mod_bound(i, orig.width as int);
                        let c = i % (orig.width as int);
                        let r = i / (orig.width as int);
                        assert(0 <= r < orig.height) by (nonlinear_arith)
                            requires
                                i == orig.width * r + c,
                                0 <= c < orig.width,
                                0 <= i < orig.width * orig.height,
                        ;
                        assert(r * (orig.width as int) + c == i) by (nonlinear_arith)
                            requires
                                i == (orig.width as int) * r + c,
                        ;
                        assert(orig.idx(c, r) == i);
                        assert(orig.in_bounds(c, r));
                        assert(self@.cell(c, r) == (if c == col {
                            orig.popped(col as int).cell(c, r)
                        } else {
                            orig.cell(c, r)
                        }));
                        lemma_idx_decompose(orig, c, r);
                    }
                    assert(self@.cells =~= orig.popped(col as int).cells);
                }
                Ok(())
            },
            Err(e) => Err(e),
        }
    }
}

/// Whether a move inserts a new piece or pops the mover's bottom piece.
#[derive(Clone, Copy, Debug, PartialEq, Eq, Hash, Structural)]
pub enum MoveType {
    Insert,
    Pop,
}

/// A move: its kind and the column it plays in.
#[derive(Clone, Copy, Debug, PartialEq, Eq, Hash, Structural)]
pub struct Move {
    pub move_type: MoveType,
    pub column: usize,
}

impl BoardV {
    /// The legal moves of `player` in column `col`: `Insert` if the column
    /// has room, then `Pop` if the bottom piece belongs to `player`.
    pub open spec fn col_moves(self, player: Player, col: int) -> Seq<Move> {
        (if self.can_insert(col) {
            seq![Move { move_type: MoveType::Insert, column: col as usize }]
        } else {
            Seq::empty()
        }) + (if self.can_pop(col, player) {
            seq![Move { move_type: MoveType::Pop, column: col as usize }]
        } else {
            Seq::empty()
        })
    }

    /// The legal moves of `player` in columns `0 .. n`, column-ascending.
    pub open spec fn legal_moves_up_to(self, player: Player, n: int) -> Seq<Move>
        decreases n,
    {
        if n <= 0 {
            Seq::empty()
        } else {
            self.legal_moves_up_to(player, n - 1) + self.col_moves(player, n - 1)
        }
    }

    /// All legal moves of `player`, column-ascending, `Insert` before `Pop`.
    pub open spec fn legal_moves(self, player: Player) -> Seq<Move> {
        self.legal_moves_up_to(player, self.width as int)
    }

    /// Column step of direction `d` (0 horizontal, 1 vertical, 2 descending
    /// diagonal, 3 ascending diagonal).
    pub open spec fn dir_col(d: int) -> int {
        if d == 1 {
            0
        } else {
            1
        }
    }

    /// Row step of direction `d`.
    pub open spec fn dir_row(d: int) -> int {
        if d == 0 {
            0
        } else if d == 3 {
            -1
        } else {
            1
        }
    }

    /// Four cells of `player` in a line starting at `(col, row)` going in
    /// direction `d`.
    pub open spec fn win_at(self, player: Player, col: int, row: int, d: int) -> bool {
        let dc = Self::dir_col(d);
        let dr = Self::dir_row(d);
        &&& self.in_bounds(col, row)
        &&& self.in_bounds(col + 3 * dc, row + 3 * dr)
        &&& self.cell(col, row) == Cell::Player(player)
        &&& self.cell(col + dc, row + dr) == Cell::Player(player)
        &&& self.cell(col + 2 * dc, row + 2 * dr) == Cell::Player(player)
        &&& self.cell(col + 3 * dc, row + 3 * dr) == Cell::Player(player)
    }

    /// `player` has four in a row somewhere on the board.
    pub open spec fn has_win(self, player: Player) -> bool {
        exists|col: int, row: int, d: int| 0 <= d < 4 && #[trigger] self.win_at(player, col, row, d)
    }

    /// The position is over: someone has four in a row, or no move is left.
    pub open spec fn terminal(self) -> bool {
        self.has_win(Player::Player1) || self.has_win(Player::Player2) || self.legal_moves(
            Player::Player1,
        ).len() == 0
    }
}

/// All the legal moves of `player`: for each column in ascending order,
/// `Insert` if the column has room, then `Pop` if the bottom piece is
/// `player`'s.
pub fn get_legal_moves(board: &Board, player: Player) -> (r: Vec<Move>)
    requires
        board@.wf(),
        board.height >= 1,
    ensures
        r@ == board@.legal_moves(player),
{
    let mut moves: Vec<Move> = Vec::new();
    let mut col: usize = 0;
    while col < board.width
        invariant
            board@.wf(),
            board.height >= 1,
            col <= board.width,
            moves@ == board@.legal_moves_up_to(player, col as int),
        decreases board.width - col,
    {
        if board.can_insert(col).is_ok() {
            moves.push(Move { move_type: MoveType::Insert, column: col });
        }
        if board.can_pop(col, player).is_ok() {
            moves.push(Move { move_type: MoveType::Pop, column: col });
        }
        proof {
            assert(moves@ =~= board@.legal_moves_up_to(player, col + 1));
        }
        col += 1;
    }
    moves
}

/// Whether a position is terminal, and if so, how.
#[derive(Clone, Copy, Debug, PartialEq, Eq, Structural)]
pub enum TerminalPosition {
    /// The game is over and the named player has four in a row.
    IsTerminalWin(Player),
    /// The game is over with no winner: no legal move is left.
    IsTerminalDraw,
    /// The game goes on.
    IsNotTerminal,
}

/// Classify a position: a win if four equal pieces stand in a line
/// (horizontally, vertically or on either diagonal), else a draw exactly
/// when no legal move is left, else not terminal.
pub fn is_terminal_position(board: &Board) -> (r: TerminalPosition)
    requires
        board@.wf(),
        board.height >= 1,
    ensures
        match r {
            TerminalPosition::IsTerminalWin(p) => board@.has_win(p),
            TerminalPosition::IsTerminalDraw => !board@.has_win(Player::Player1) && !board@.has_win(
                Player::Player2,
            ) && board@.legal_moves(Player::Player1).len() == 0,
            TerminalPosition::IsNotTerminal => !board@.has_win(Player::Player1)
                && !board@.has_win(Player::Player2) && board@.legal_moves(
                Player::Player1,
            ).len() != 0,
        },
        r == TerminalPosition::IsNotTerminal <==> !board@.terminal(),
{
    let ghost b = board@;
    let mut row: usize = 0;
    while row < board.height
        invariant
            board@.wf(),
            board.height >= 1,
            b == board@,
            row <= board.height,
            forall|p: Player, c: int, rr: int, d: int|
                0 <= d < 4 && rr < row ==> !#[trigger] b.win_at(p, c, rr, d),
        decreases board.height - row,
    {
        let mut col: usize = 0;
        while col < board.width
            invariant
                board@.wf(),
                board.height >= 1,
                b == board@,
                row < board.height,
                col <= board.width,
                forall|p: Player, c: int, rr: int, d: int|
                    0 <= d < 4 && rr < row ==> !#[trigger] b.win_at(p, c, rr, d),
                forall|p: Player, c: int, d: int|
                    0 <= d < 4 && c < col ==> !#[trigger] b.win_at(p, c, row as int, d),
            decreases board.width - col,
        {
            let cell1 = board.get(col, row);
            if cell1 != Cell::Empty {
                let player = match cell1 {
                    Cell::Player(p) => p,
                    Cell::Empty => Player::Player1,  // unreachable: cell1 is occupied
                };
                // horizontal
                if board.width > 3 && col < board.width - 3 {
                    let cell2 = board.get(col + 1, row);
                    let cell3 = board.get(col + 2, row);
                    let cell4 = board.get(col + 3, row);
                    if cell1 == cell2 && cell2 == cell3 && cell3 == cell4 {
                        proof {
                            assert(b.win_at(player, col as int, row as int, 0));
                        }
                        return TerminalPosition::IsTerminalWin(player);
                    }
                }
                // vertical
                if board.height > 3 && row < board.height - 3 {
                    let cell2 = board.get(col, row + 1);
                    let cell3 = board.get(col, row + 2);
                    let cell4 = board.get(col, row + 3);
                    if cell1 == cell2 && cell2 == cell3 && cell3 == cell4 {
                        proof {
                            assert(b.win_at(player, col as int, row as int, 1));
                        }
                        return TerminalPosition::IsTerminalWin(player);
                    }
                }
                // descending diagonal
                if board.width > 3 && col < board.width - 3 && board.height > 3 && row
                    < board.height - 3 {
                    let cell2 = board.get(col + 1, row + 1);
                    let cell3 = board.get(col + 2, row + 2);
                    let cell4 = board.get(col + 3, row + 3);
                    if cell1 == cell2 && cell2 == cell3 && cell3 == cell4 {
                        proof {
                            assert(b.win_at(player, col as int, row as int, 2));
                        }
                        return TerminalPosition::IsTerminalWin(player);
                    }
                }
                // ascending diagonal
                if board.width > 3 && col < board.width - 3 && row >= 3 {
                    let cell2 = board.get(col + 1, row - 1);
                    let cell3 = board.get(col + 2, row - 2);
                    let cell4 = board.get(col + 3, row - 3);
                    if cell1 == cell2 && cell2 == cell3 && cell3 == cell4 {
                        proof {
                            assert(b.win_at(player, col as int, row as int, 3));
                        }
                        return TerminalPosition::IsTerminalWin(player);
                    }
                }
            }
            proof {
                assert forall|p: Player, d: int| 0 <= d < 4 implies !#[trigger] b.win_at(
                    p,
                    col as int,
                    row as int,
                    d,
                ) by {
                    if b.cell(col as int, row as int) != Cell::Player(p) {
                    } else {
                        assert(cell1 == Cell::Player(p));
                    }
                }
            }
            col += 1;
        }
        row += 1;
    }
    proof {
        assert forall|p: Player| !b.has_win(p) by {
            assert forall|c: int, rr: int, d: int| 0 <= d < 4 implies !#[trigger] b.win_at(
                p,
                c,
                rr,
                d,
            ) by {
                if b.in_bounds(c, rr) {
                    assert(rr < board.height);
                }
            }
        }
    }
    if get_legal_moves(board, Player::Player1).len() == 0 {
        TerminalPosition::IsTerminalDraw
    } else {
        TerminalPosition::IsNotTerminal
    }
}

/// The decimal digit `d` as a character.
pub open spec fn digit_char(d: int) -> char {
    if d == 0 {
        '0'
    } else if d == 1 {
        '1'
    } else if d == 2 {
        '2'
    } else if d == 3 {
        '3'
    } else if d == 4 {
        '4'
    } else if d == 5 {
        '5'
    } else if d == 6 {
        '6'
    } else if d == 7 {
        '7'
    } else if d == 8 {
        '8'
    } else {
        '9'
    }
}

/// The decimal digits of `n`, most significant first.
pub open spec fn dec_chars(n: int) -> Seq<char>
    decreases n,
{
    if n < 10 {
        seq![digit_char(n)]
    } else {
        dec_chars(n / 10).push(digit_char(n % 10))
    }
}

/// Append the decimal digits of `n` to `s`.
fn append_decimal(s: &mut String, n: usize)
    ensures
        final(s)@ == old(s)@ + dec_chars(n as int),
    decreases n,
{
    if n >= 10 {
        append_decimal(s, n / 10);
    }
    let d = n % 10;
    match d {
        0 => s.append("0"),
        1 => s.append("1"),
        2 => s.append("2"),
        3 => s.append("3"),
        4 => s.append("4"),
        5 => s.append("5"),
        6 => s.append("6"),
        7 => s.append("7"),
        8 => s.append("8"),
        _ => s.append("9"),
    }
    proof {
        reveal_strlit("0");
        reveal_strlit("1");
        reveal_strlit("2");
        reveal_strlit("3");
        reveal_strlit("4");
        reveal_strlit("5");
        reveal_strlit("6");
        reveal_strlit("7");
        reveal_strlit("8");
        reveal_strlit("9");
        if n < 10 {
            assert(final(s)@ =~= old(s)@ + dec_chars(n as int));
        } else {
            assert(final(s)@ =~= old(s)@ + dec_chars(n as int));
        }
    }
}


/// The character a cell is drawn as.
pub open spec fn cell_char(c: Cell) -> char {
    match c {
        Cell::Empty => '.',
        Cell::Player(Player::Player1) => '1',
        Cell::Player(Player::Player2) => '2',
    }
}

/// The header line up to column `n`: an indent, then the column numbers,
/// space-separated and closed by a newline.
pub open spec fn header_chars(b: BoardV, n: int) -> Seq<char>
    decreases n,
{
    if n <= 0 {
        Seq::empty()
    } else {
        header_chars(b, n - 1) + (if n - 1 == 0 {
            seq![' ', ' ']
        } else {
            Seq::empty()
        }) + dec_chars(n - 1) + (if n - 1 == b.width - 1 {
            seq!['\n']
        } else {
            seq![' ']
        })
    }
}

/// The cells of one row up to column `n`, space-separated.
pub open spec fn row_cells_chars(b: BoardV, row: int, n: int) -> Seq<char>
    decreases n,
{
    if n <= 0 {
        Seq::empty()
    } else {
        row_cells_chars(b, row, n - 1) + seq![cell_char(b.cell(n - 1, row))] + (if n - 1
            < b.width - 1 {
            seq![' ']
        } else {
            Seq::empty()
        })
    }
}

/// One full row: its number, a space, its cells, and a newline unless it
/// is the last row.
pub open spec fn row_chars(b: BoardV, row: int) -> Seq<char> {
    dec_chars(row) + seq![' '] + row_cells_chars(b, row, b.width as int) + (if row < b.height - 1 {
        seq!['\n']
    } else {
        Seq::empty()
    })
}

/// The rows up to `n`, one under the other.
pub open spec fn rows_chars(b: BoardV, n: int) -> Seq<char>
    decreases n,
{
    if n <= 0 {
        Seq::empty()
    } else {
        rows_chars(b, n - 1) + row_chars(b, n - 1)
    }
}

/// The text of a whole board: the header line, then each row.
pub open spec fn render_chars(b: BoardV) -> Seq<char> {
    header_chars(b, b.width as int) + rows_chars(b, b.height as int)
}

impl Board {
    /// Draw the board as text: column numbers on top, row numbers on the
    /// left, cells as `.`, `1` and `2`.
    pub fn render(&self) -> (r: String)
        requires
            self@.wf(),
        ensures
            r@ == render_chars(self@),
    {
        let mut s = String::new();
        let mut col: usize = 0;
        while col < self.width
            invariant
                self@.wf(),
                col <= self.width,
                s@ == header_chars(self@, col as int),
            decreases self.width - col,
        {
            let ghost before = s@;
            if col == 0 {
                s.append("  ");
            }
            append_decimal(&mut s, col);
            if col == self.width - 1 {
                s.append("\n");
            } else {
                s.append(" ");
            }
            proof {
                reveal_strlit("  ");
                reveal_strlit("\n");
                reveal_strlit(" ");
                assert(s@ =~= header_chars(self@, col + 1));
            }
            col += 1;
        }
        let mut row: usize = 0;
        while row < self.height
            invariant
                self@.wf(),
                row <= self.height,
                s@ == header_chars(self@, self@.width as int) + rows_chars(self@, row as int),
            decreases self.height - row,
        {
            append_decimal(&mut s, row);
            s.append(" ");
            let ghost mid = s@;
            let mut col: usize = 0;
            while col < self.width
                invariant
                    self@.wf(),
                    row < self.height,
                    col <= self.width,
                    s@ == mid + row_cells_chars(self@, row as int, col as int),
                decreases self.width - col,
            {
                let cell = self.get(col, row);
                match cell {
                    Cell::Empty => s.append("."),
                    Cell::Player(Player::Player1) => s.append("1"),
                    Cell::Player(Player::Player2) => s.append("2"),
                }
                if col < self.width - 1 {
                    s.append(" ");
                }
                proof {
                    reveal_strlit(".");
                    reveal_strlit("1");
                    reveal_strlit("2");
                    reveal_strlit(" ");
                    assert(s@ =~= mid + row_cells_chars(self@, row as int, col + 1));
                }
                col += 1;
            }
            if row < self.height - 1 {
                s.append("\n");
            }
            proof {
                reveal_strlit("\n");
                reveal_strlit(" ");
                assert(s@ =~= header_chars(self@, self@.width as int) + rows_chars(
                    self@,
                    row + 1,
                ));
            }
            row += 1;
        }
        s
    }
}

} // verus!
