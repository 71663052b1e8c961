//! Laws of the board: properties of inserting and popping that hold for
//! every column, every player and every insertion sequence.

use vstd::prelude::*;

use crate::connect_four::{BoardV, Cell, Player};
use crate::connect_four::{lemma_idx_decompose, lemma_idx_in_range, lemma_idx_injective};

verus! {

/// The board after inserting `players[0], players[1], ...` into `col`,
/// in that order.
pub open spec fn board_after_inserts(b: BoardV, col: int, players: Seq<Player>) -> BoardV
    decreases players.len(),
{
    if players.len() == 0 {
        b
    } else {
        board_after_inserts(b, col, players.drop_last()).inserted(col, players.last())
    }
}

/// In a column whose rows `0 .. e` are empty and whose rows `e ..` are
/// occupied, scanning from any row at or above `e - 1` lands on `e - 1`.
proof fn lemma_insert_row_from_filled(b: BoardV, col: int, e: int, row: int)
    requires
        b.wf(),
        0 <= col < b.width,
        0 <= e <= b.height,
        forall|r: int| e <= r < b.height ==> #[trigger] b.cell(col, r) != Cell::Empty,
        e >= 1 ==> b.cell(col, e - 1) == Cell::Empty,
        e - 1 <= row < b.height,
    ensures
        b.insert_row_from(col, row) == e - 1,
    decreases row + 1,
{
    if row > e - 1 {
        lemma_insert_row_from_filled(b, col, e, row - 1);
    }
}

/// As `lemma_insert_row_from_filled`, for the full downward scan: the next
/// piece lands on row `e - 1`, and a fully occupied column takes no piece.
pub proof fn lemma_insert_row_filled(b: BoardV, col: int, e: int)
    requires
        b.wf(),
        0 <= col < b.width,
        0 <= e <= b.height,
        forall|r: int| e <= r < b.height ==> #[trigger] b.cell(col, r) != Cell::Empty,
        e >= 1 ==> b.cell(col, e - 1) == Cell::Empty,
    ensures
        b.insert_row(col) == e - 1,
{
    if b.height == 0 {
        assert(e == 0);
    } else {
        lemma_insert_row_from_filled(b, col, e, b.height - 1);
    }
}

/// Inserting `n <= height` pieces into one column of the empty board fills
/// its bottom `n` rows, bottom-up in insertion order, and touches nothing
/// else.
pub proof fn lemma_after_inserts_structure(w: nat, h: nat, col: int, players: Seq<Player>)
    requires
        0 <= col < w,
        players.len() <= h,
    ensures
        ({
            let b = board_after_inserts(BoardV::empty(w, h), col, players);
            &&& b.wf()
            &&& b.width == w
            &&& b.height == h
            &&& forall|c: int, r: int|
                b.in_bounds(c, r) && c != col ==> #[trigger] b.cell(c, r) == Cell::Empty
            &&& forall|r: int|
                0 <= r < b.height - players.len() ==> #[trigger] b.cell(col, r) == Cell::Empty
            &&& forall|j: int|
                0 <= j < players.len() ==> b.cell(col, b.height - 1 - j) == Cell::Player(
                    #[trigger] players[j],
                )
        }),
    decreases players.len(),
{
    let e = BoardV::empty(w, h);
    if players.len() == 0 {
        assert(e.wf()) by {
            assert(e.cells.len() == w * h);
        }
        assert forall|c: int, r: int| e.in_bounds(c, r) implies #[trigger] e.cell(c, r)
            == Cell::Empty by {
            lemma_idx_in_range(e, c, r);
        }
    } else {
        let n = players.len() as int;
        lemma_after_inserts_structure(w, h, col, players.drop_last());
        let prev = board_after_inserts(e, col, players.drop_last());
        let fill = h - (n - 1);
        assert forall|r: int| fill <= r < prev.height implies #[trigger] prev.cell(col, r)
            != Cell::Empty by {
            let j = h - 1 - r;
            assert(prev.cell(col, prev.height - 1 - j) == Cell::Player(
                players.drop_last()[j],
            ));
        }
        lemma_insert_row_filled(prev, col, fill);
        let b = prev.inserted(col, players.last());
        assert(prev.insert_row(col) == h - n);
        lemma_idx_in_range(prev, col, h - n);
        assert forall|c: int, r: int| b.in_bounds(c, r) && c != col implies #[trigger] b.cell(c, r)
            == Cell::Empty by {
            lemma_idx_in_range(prev, c, r);
            lemma_idx_injective(prev, c, r, col, h - n);
            assert(b.cells[prev.idx(c, r)] == prev.cells[prev.idx(c, r)]);
            assert(prev.cell(c, r) == Cell::Empty);
        }
        assert forall|r: int| 0 <= r < b.height - players.len() implies #[trigger] b.cell(col, r)
            == Cell::Empty by {
            lemma_idx_in_range(prev, col, r);
            lemma_idx_injective(prev, col, r, col, h - n);
            assert(b.cells[prev.idx(col, r)] == prev.cells[prev.idx(col, r)]);
            assert(prev.cell(col, r) == Cell::Empty);
        }
        assert forall|j: int| 0 <= j < players.len() implies b.cell(col, b.height - 1 - j)
            == Cell::Player(#[trigger] players[j]) by {
            let r = h - 1 - j;
            lemma_idx_in_range(prev, col, r);
            if j == n - 1 {
                assert(b.cell(col, r) == Cell::Player(players.last()));
            } else {
                lemma_idx_injective(prev, col, r, col, h - n);
                assert(b.cells[prev.idx(col, r)] == prev.cells[prev.idx(col, r)]);
                assert(prev.cell(col, prev.height - 1 - j) == Cell::Player(
                    players.drop_last()[j],
                ));
            }
        }
    }
}

/// Popping a column prepends an empty cell and drops the bottom cell;
/// columns other than the popped one keep every cell.
pub proof fn lemma_popped_column(b: BoardV, col: int)
    requires
        b.wf(),
        0 <= col < b.width,
        b.height >= 1,
    ensures
        b.popped(col).col_seq(col) == seq![Cell::Empty] + b.col_seq(col).drop_last(),
        forall|c: int, r: int|
            b.in_bounds(c, r) && c != col ==> #[trigger] b.popped(col).cell(c, r) == b.cell(c, r),
{
    let p = b.popped(col);
    assert forall|c: int, r: int| b.in_bounds(c, r) implies #[trigger] p.cell(c, r) == (if c == col {
        if r == 0 {
            Cell::Empty
        } else {
            b.cell(c, r - 1)
        }
    } else {
        b.cell(c, r)
    }) by {
        lemma_idx_in_range(b, c, r);
        lemma_idx_decompose(b, c, r);
    }
    assert(p.col_seq(col) =~= seq![Cell::Empty] + b.col_seq(col).drop_last());
}

/// Inserting one piece anywhere on the empty board and popping the same
/// column restores the empty board.
pub proof fn lemma_insert_then_pop_is_empty(w: nat, h: nat, col: int, player: Player)
    requires
        0 <= col < w,
        h >= 1,
    ensures
        BoardV::empty(w, h).inserted(col, player).popped(col) == BoardV::empty(w, h),
        BoardV::empty(w, h).inserted(col, player).can_pop(col, player),
{
    let e = BoardV::empty(w, h);
    let players = seq![player];
    lemma_after_inserts_structure(w, h, col, players);
    let b = board_after_inserts(e, col, players);
    assert(players.drop_last() =~= Seq::<Player>::empty());
    assert(board_after_inserts(e, col, players.drop_last()) == e);
    assert(b == e.inserted(col, players.last()));
    assert(players.last() == player);
    assert(b.cell(col, b.height - 1 - 0) == Cell::Player(players[0]));
    assert(b.cell(col, h - 1) == Cell::Player(player));
    let p = b.popped(col);
    assert forall|i: int| 0 <= i < p.cells.len() implies p.cells[i] == e.cells[i] by {
        vstd::arithmetic::div_mod::lemma_fundamental_div_mod(i, b.width as int);
        vstd::arithmetic::div_mod::lemma_mod_bound(i, b.width as int);
        let c = i % (b.width as int);
        let r = i / (b.width as int);
        assert(0 <= r < b.height) by (nonlinear_arith)
            requires
                i == (b.width as int) * r + c,
                0 <= c < b.width,
                0 <= i < b.width * b.height,
        ;
        assert(r * (b.width as int) + c == i) by (nonlinear_arith)
            requires
                i == (b.width as int) * r + c,
        ;
        assert(b.idx(c, r) == i);
        if c == col {
            if r > 0 {
                assert(r - 1 < h - 1);
                assert(b.cell(col, r - 1) == Cell::Empty);
            }
        } else {
            assert(b.cell(c, r) == Cell::Empty);
        }
        assert(p.cell(c, r) == Cell::Empty);
        lemma_idx_in_range(b, c, r);
    }
    assert(p.cells =~= e.cells);
    assert(p == e);
}

/// A column that took `height` pieces is full: it takes no further insert.
pub proof fn lemma_full_column_refuses_insert(w: nat, h: nat, col: int, players: Seq<Player>)
    requires
        0 <= col < w,
        players.len() == h,
    ensures
        !board_after_inserts(BoardV::empty(w, h), col, players).can_insert(col),
{
    lemma_after_inserts_structure(w, h, col, players);
    let b = board_after_inserts(BoardV::empty(w, h), col, players);
    assert forall|r: int| 0 <= r < b.height implies #[trigger] b.cell(col, r) != Cell::Empty by {
        let j = h - 1 - r;
        assert(b.cell(col, b.height - 1 - j) == Cell::Player(players[j]));
    }
    lemma_insert_row_filled(b, col, 0);
}

/// After any non-empty insertion sequence into one column of the empty
/// board, the first player inserted owns the bottom piece, and popping the
/// column removes exactly that bottom piece, shifting the column down.
pub proof fn lemma_pop_after_inserts(w: nat, h: nat, col: int, players: Seq<Player>)
    requires
        0 <= col < w,
        1 <= players.len() <= h,
    ensures
        ({
            let b = board_after_inserts(BoardV::empty(w, h), col, players);
            &&& b.can_pop(col, players[0])
            &&& b.popped(col).col_seq(col) == seq![Cell::Empty] + b.col_seq(col).drop_last()
            &&& forall|c: int, r: int|
                b.in_bounds(c, r) && c != col ==> #[trigger] b.popped(col).cell(c, r) == b.cell(
                    c,
                    r,
                )
        }),
{
    lemma_after_inserts_structure(w, h, col, players);
    let b = board_after_inserts(BoardV::empty(w, h), col, players);
    assert(b.cell(col, b.height - 1 - 0) == Cell::Player(players[0]));
    lemma_popped_column(b, col);
}

/// Four consecutive inserts by the same player into any one column of the
/// empty board give that player four in a row vertically, and give the
/// opponent nothing.
pub proof fn lemma_four_in_a_column_wins(w: nat, h: nat, col: int, player: Player)
    requires
        0 <= col < w,
        h >= 4,
    ensures
        ({
            let b = board_after_inserts(BoardV::empty(w, h), col, Seq::new(4, |i: int| player));
            &&& b.has_win(player)
            &&& !b.has_win(player.opposite())
        }),
{
    let players = Seq::new(4, |i: int| player);
    lemma_after_inserts_structure(w, h, col, players);
    let b = board_after_inserts(BoardV::empty(w, h), col, players);
    assert(b.cell(col, b.height - 1 - 0) == Cell::Player(players[0]));
    assert(b.cell(col, b.height - 1 - 1) == Cell::Player(players[1]));
    assert(b.cell(col, b.height - 1 - 2) == Cell::Player(players[2]));
    assert(b.cell(col, b.height - 1 - 3) == Cell::Player(players[3]));
    assert(b.win_at(player, col, h - 4, 1));
    assert(b.has_win(player));
    let opp = player.opposite();
    assert forall|c: int, r: int, d: int| 0 <= d < 4 implies !#[trigger] b.win_at(
        opp,
        c,
        r,
        d,
    ) by {
        if b.in_bounds(c, r) {
            if c != col {
                assert(b.cell(c, r) == Cell::Empty);
            } else if r < b.height - 4 {
                assert(b.cell(col, r) == Cell::Empty);
            } else {
                let j = h - 1 - r;
                assert(b.cell(col, b.height - 1 - j) == Cell::Player(players[j]));
            }
        }
    }
}

/// On the empty board every column takes an insert, so the position is not
/// terminal.
pub proof fn lemma_empty_board_not_terminal(w: nat, h: nat)
    requires
        w >= 1,
        h >= 1,
    ensures
        !BoardV::empty(w, h).has_win(Player::Player1),
        !BoardV::empty(w, h).has_win(Player::Player2),
        BoardV::empty(w, h).legal_moves(Player::Player1).len() != 0,
        !BoardV::empty(w, h).terminal(),
{
    let e = BoardV::empty(w, h);
    assert(e.wf()) by {
        assert(e.cells.len() == w * h);
    }
    assert forall|p: Player, c: int, r: int, d: int| 0 <= d < 4 implies !#[trigger] e.win_at(
        p,
        c,
        r,
        d,
    ) by {
        if e.in_bounds(c, r) {
            lemma_idx_in_range(e, c, r);
            assert(e.cell(c, r) == Cell::Empty);
        }
    }
    lemma_idx_in_range(e, 0, h - 1);
    assert(e.cell(0, h - 1) == Cell::Empty);
    lemma_insert_row_filled(e, 0, h as int);
    assert(e.can_insert(0));
    lemma_legal_moves_len_nondecreasing(e, Player::Player1, 1, w as int);
    assert(e.legal_moves_up_to(Player::Player1, 1).len() >= 1);
}

/// Taking more columns into account never removes a legal move.
pub proof fn lemma_legal_moves_len_nondecreasing(b: BoardV, player: Player, m: int, n: int)
    requires
        m <= n,
    ensures
        b.legal_moves_up_to(player, m).len() <= b.legal_moves_up_to(player, n).len(),
    decreases n - m,
{
    if m < n {
        lemma_legal_moves_len_nondecreasing(b, player, m, n - 1);
    }
}

} // verus!
