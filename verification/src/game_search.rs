//! The Connect Four position as the search engine sees it: the board, the
//! player to move, and the player whose wins the search counts.

use vstd::prelude::*;

use crate::connect_four::{
    get_legal_moves, is_terminal_position, Board, BoardV, Move, MoveType, Player,
    TerminalPosition,
};

verus! {

/// A move wrapped as a search action.
#[derive(Clone, Copy, Debug, PartialEq, Eq, Hash, Structural)]
pub struct Action(pub Move);

impl crate::mcts::Action for Action {

}

/// The mathematical value of a search position.
pub struct StateV {
    pub board: BoardV,
    pub turn: Player,
    pub who_am_i: Player,
}

impl StateV {
    /// The board is consistent, machine-sized, and has at least one row,
    /// so popping and terminal checks are meaningful.
    pub open spec fn wf(self) -> bool {
        self.board.wf() && self.board.height >= 1 && self.board.width <= usize::MAX
    }

    /// The actions open to the player on turn.
    pub open spec fn actions(self) -> Seq<Action> {
        self.board.legal_moves(self.turn).map_values(|m: Move| Action(m))
    }

    /// The position after the player on turn plays `a`: the board changes
    /// and the turn passes to the opponent.
    pub open spec fn step(self, a: Action) -> StateV {
        StateV {
            board: if a.0.move_type == MoveType::Insert {
                self.board.inserted(a.0.column as int, self.turn)
            } else {
                self.board.popped(a.0.column as int)
            },
            turn: self.turn.opposite(),
            who_am_i: self.who_am_i,
        }
    }

    /// The game is over at this position.
    pub open spec fn terminal(self) -> bool {
        self.board.terminal()
    }
}

/// A search position: a board, the player on turn, and the player from
/// whose perspective playouts are scored.
#[derive(Debug)]
pub struct State {
    pub board: Board,
    pub turn: Player,
    pub who_am_i: Player,
}

impl View for State {
    type V = StateV;

    open spec fn view(&self) -> StateV {
        StateV { board: self.board@, turn: self.turn, who_am_i: self.who_am_i }
    }
}

impl Clone for State {
    fn clone(&self) -> (r: Self)
        ensures
            r@ == self@,
    {
        let r = State { board: self.board.clone(), turn: self.turn, who_am_i: self.who_am_i };
        proof {
            assert(r@ == self@);
        }
        r
    }
}

/// A legal move can in fact be played: an `Insert` finds room and a `Pop`
/// finds the mover's own piece at the bottom.
pub proof fn lemma_legal_move_playable(b: BoardV, p: Player, m: Move, n: int)
    requires
        b.legal_moves_up_to(p, n).contains(m),
        n <= b.width,
        b.width <= usize::MAX,
    ensures
        m.column < b.width,
        m.move_type == MoveType::Insert ==> b.can_insert(m.column as int),
        m.move_type == MoveType::Pop ==> b.can_pop(m.column as int, p),
    decreases n,
{
    if n > 0 {
        let pre = b.legal_moves_up_to(p, n - 1);
        let all = b.legal_moves_up_to(p, n);
        let i = choose|i: int| 0 <= i < all.len() && all[i] == m;
        if i < pre.len() {
            assert(pre[i] == m);
            assert(pre.contains(m));
            lemma_legal_move_playable(b, p, m, n - 1);
        } else {
            let cm = b.col_moves(p, n - 1);
            let j = i - pre.len();
            assert(cm[j] == m);
            let insm = Move { move_type: MoveType::Insert, column: (n - 1) as usize };
            let popm = Move { move_type: MoveType::Pop, column: (n - 1) as usize };
            if b.can_insert(n - 1) {
                if b.can_pop(n - 1, p) {
                    assert(cm[0] == insm && cm[1] == popm);
                    assert(m == insm || m == popm);
                } else {
                    assert(cm[0] == insm);
                    assert(m == insm);
                }
            } else {
                if b.can_pop(n - 1, p) {
                    assert(cm[0] == popm);
                    assert(m == popm);
                } else {
                    assert(cm.len() == 0);
                }
            }
        }
    }
}

/// A contained action unwraps to a contained move.
pub proof fn lemma_action_contains(s: StateV, a: Action)
    requires
        s.actions().contains(a),
    ensures
        s.board.legal_moves(s.turn).contains(a.0),
{
    let i = choose|i: int| 0 <= i < s.actions().len() && s.actions()[i] == a;
    assert(s.board.legal_moves(s.turn)[i] == a.0);
}

/// Playing a legal action keeps the position well formed.
pub proof fn lemma_step_wf(s: StateV, a: Action)
    requires
        s.wf(),
        s.actions().contains(a),
    ensures
        s.step(a).wf(),
{
    lemma_action_contains(s, a);
    lemma_legal_move_playable(s.board, s.turn, a.0, s.board.width as int);
    if a.0.move_type == MoveType::Insert {
        crate::connect_four::lemma_insert_row_from(
            s.board,
            a.0.column as int,
            s.board.height - 1,
        );
        crate::connect_four::lemma_idx_in_range(
            s.board,
            a.0.column as int,
            s.board.insert_row(a.0.column as int),
        );
    }
}

impl State {
    /// A fresh position: an empty board, `turn` to move.
    pub fn new(width: usize, height: usize, turn: Player, who_am_i: Player) -> (r: Self)
        requires
            width * height <= usize::MAX,
            height >= 1,
        ensures
            r@ == (StateV {
                board: BoardV::empty(width as nat, height as nat),
                turn,
                who_am_i,
            }),
            r@.wf(),
    {
        let r = State { board: Board::new(width, height), turn, who_am_i };
        proof {
            assert(r@.board.wf()) by {
                assert(r@.board.cells.len() == (width as nat) * (height as nat));
            }
        }
        r
    }

    /// Play `action` in place and pass the turn.
    pub fn apply_move(&mut self, action: &Action)
        requires
            old(self)@.wf(),
            old(self)@.actions().contains(*action),
        ensures
            final(self)@ == old(self)@.step(*action),
            final(self)@.wf(),
    {
        proof {
            lemma_action_contains(self@, *action);
            lemma_legal_move_playable(
                self@.board,
                self.turn,
                action.0,
                self@.board.width as int,
            );
        }
        let col = action.0.column;
        let played = match action.0.move_type {
            MoveType::Insert => self.board.insert(col, self.turn),
            MoveType::Pop => {
                let mover = self.turn;
                self.board.pop(col, mover)
            },
        };
        match played {
            Ok(()) => {},
            Err(_) => {
                // unreachable: the move is legal
                proof {
                    assert(false);
                }
            },
        }
        self.turn.other();
    }

    /// The actions open to the player on turn, in the stable column order
    /// of `get_legal_moves`.
    pub fn get_actions(&self) -> (r: Vec<Action>)
        requires
            self@.wf(),
        ensures
            r@ == self@.actions(),
    {
        let moves = get_legal_moves(&self.board, self.turn);
        let mut r: Vec<Action> = Vec::new();
        let mut i: usize = 0;
        while i < moves.len()
            invariant
                i <= moves.len(),
                moves@ == self@.board.legal_moves(self@.turn),
                r@ == self@.actions().take(i as int),
            decreases moves.len() - i,
        {
            r.push(Action(moves[i]));
            proof {
                assert(r@ =~= self@.actions().take(i + 1));
            }
            i += 1;
        }
        proof {
            assert(r@ =~= self@.actions());
        }
        r
    }

    /// The position after playing `action`; this position is unchanged.
    pub fn get_next_state(&self, action: &Action) -> (r: Self)
        requires
            self@.wf(),
            self@.actions().contains(*action),
        ensures
            r@ == self@.step(*action),
            r@.wf(),
    {
        let mut next = self.clone();
        next.apply_move(action);
        next
    }

    /// The game is over at this position.
    pub fn is_terminal(&self) -> (r: bool)
        requires
            self@.wf(),
        ensures
            r == self@.terminal(),
    {
        let t = is_terminal_position(&self.board);
        !matches!(t, TerminalPosition::IsNotTerminal)
    }
}

/// Playing `a` gives the mover four in a row and gives the opponent
/// nothing: an immediate clean win.
pub open spec fn wins_for_mover(s: StateV, a: Action) -> bool {
    let b2 = s.step(a).board;
    b2.has_win(s.turn) && !b2.has_win(s.turn.opposite())
}

/// Some legal action is an immediate clean win for the mover.
pub open spec fn mover_has_clean_win(s: StateV) -> bool {
    exists|i: int| 0 <= i < s.actions().len() && wins_for_mover(s, #[trigger] s.actions()[i])
}

/// No legal action hands the opponent four in a row.
pub open spec fn no_move_helps_opponent(s: StateV) -> bool {
    forall|i: int|
        0 <= i < s.actions().len() ==> !s.step(#[trigger] s.actions()[i]).board.has_win(
            s.turn.opposite(),
        )
}

/// A position where the mover can win at once, cleanly, and where no move
/// helps the opponent: the playout policy is forced to take the win.
pub open spec fn forced_win_position(s: StateV) -> bool {
    !s.terminal() && mover_has_clean_win(s) && no_move_helps_opponent(s)
}

/// One bounded playout from `state`: while the position is live and the
/// depth allows, take an immediately winning move if one exists, else a
/// uniformly random legal move.  The result is `Win` exactly when the
/// final position is a win for `who_am_i`.
///
/// When the mover has an immediate clean win available, the playout takes
/// it, so the result is `Win` exactly when the mover is `who_am_i`.
fn playout(state: State, max_depth: u32, rng: &mut rand_pcg::Pcg64) -> (r:
    crate::mcts::SimulationResult)
    requires
        state@.wf(),
    ensures
        (forced_win_position(state@) && max_depth >= 1) ==> (r
            == crate::mcts::SimulationResult::Win <==> state@.turn == state@.who_am_i),
{
    let ghost s0 = state@;
    let ghost premise = forced_win_position(s0) && max_depth >= 1;
    let mut current_player = state.turn;
    let mut board = state.board;
    let mut depth: u32 = 0;
    proof {
        if premise {
            let i = choose|i: int|
                0 <= i < s0.actions().len() && wins_for_mover(s0, #[trigger] s0.actions()[i]);
            assert(s0.actions().len() > 0);
        }
    }
    while depth < max_depth
        invariant_except_break
            premise ==> depth == 0 && board@ == s0.board && current_player == s0.turn,
        invariant
            board@.wf(),
            board@.height >= 1,
            board@.width <= usize::MAX,
            depth <= max_depth,
            premise == (forced_win_position(s0) && max_depth >= 1),
            s0.wf(),
        ensures
            premise ==> board@.has_win(s0.turn) && !board@.has_win(s0.turn.opposite()),
        decreases max_depth - depth,
    {
        if !matches!(is_terminal_position(&board), TerminalPosition::IsNotTerminal) {
            break ;
        }
        let moves = get_legal_moves(&board, current_player);
        if moves.len() == 0 {
            break ;
        }
        // look for an immediately winning move
        let mut win_idx: Option<usize> = None;
        let mut m: usize = 0;
        while win_idx.is_none() && m < moves.len()
            invariant
                board@.wf(),
                board@.height >= 1,
                board@.width <= usize::MAX,
                m <= moves@.len(),
                moves@ == board@.legal_moves(current_player),
                win_idx matches Some(wi) ==> wi < moves@.len(),
                premise ==> board@ == s0.board && current_player == s0.turn,
                premise == (forced_win_position(s0) && max_depth >= 1),
                s0.wf(),
                (premise && win_idx is None) ==> (forall|j: int|
                    0 <= j < m ==> !s0.step(#[trigger] s0.actions()[j]).board.has_win(s0.turn)),
                (premise && win_idx matches Some(wi)) ==> s0.step(
                    s0.actions()[win_idx.unwrap() as int],
                ).board.has_win(s0.turn),
            decreases moves@.len() - m,
        {
            let mv = moves[m];
            proof {
                assert(board@.legal_moves(current_player).contains(mv)) by {
                    assert(board@.legal_moves(current_player)[m as int] == mv);
                }
                lemma_legal_move_playable(board@, current_player, mv, board@.width as int);
            }
            let mut board_copy = board.clone();
            let played = match mv.move_type {
                MoveType::Insert => board_copy.insert(mv.column, current_player),
                MoveType::Pop => board_copy.pop(mv.column, current_player),
            };
            match played {
                Ok(()) => {},
                Err(_) => {
                    // unreachable: the move is legal
                    proof {
                        assert(false);
                    }
                },
            }
            let term = is_terminal_position(&board_copy);
            let won = match term {
                TerminalPosition::IsTerminalWin(p) => p == current_player,
                _ => false,
            };
            proof {
                if premise {
                    let a = Action(mv);
                    assert(s0.actions()[m as int] == a);
                    assert(board_copy@ == s0.step(a).board);
                    assert(!s0.step(a).board.has_win(s0.turn.opposite()));
                    if s0.step(a).board.has_win(s0.turn) {
                        assert(won);
                    } else {
                        assert(!won);
                    }
                }
            }
            if won {
                win_idx = Some(m);
            }
            m += 1;
        }
        match win_idx {
            Some(wi) => {
                // take the winning move and stop
                let mv = moves[wi];
                proof {
                    assert(board@.legal_moves(current_player).contains(mv)) by {
                        assert(board@.legal_moves(current_player)[wi as int] == mv);
                    }
                    lemma_legal_move_playable(board@, current_player, mv, board@.width as int);
                    if premise {
                        let a = Action(mv);
                        assert(s0.actions()[wi as int] == a);
                        assert(s0.step(a).board.has_win(s0.turn));
                        assert(!s0.step(a).board.has_win(s0.turn.opposite()));
                    }
                }
                let played = match mv.move_type {
                    MoveType::Insert => board.insert(mv.column, current_player),
                    MoveType::Pop => board.pop(mv.column, current_player),
                };
                match played {
                    Ok(()) => {},
                    Err(_) => {
                        proof {
                            assert(false);
                        }
                    },
                }
                proof {
                    if premise {
                        let a = Action(mv);
                        assert(board@ == s0.step(a).board);
                    }
                }
                current_player.other();
                break ;
            },
            None => {
                proof {
                    if premise {
                        let i = choose|i: int|
                            0 <= i < s0.actions().len() && wins_for_mover(
                                s0,
                                #[trigger] s0.actions()[i],
                            );
                        assert(!s0.step(s0.actions()[i]).board.has_win(s0.turn));
                        assert(false);
                    }
                }
            },
        }
        let pick = crate::rng::rng_below(rng, moves.len());
        let mv = moves[pick];
        proof {
            assert(board@.legal_moves(current_player).contains(mv)) by {
                assert(board@.legal_moves(current_player)[pick as int] == mv);
            }
            lemma_legal_move_playable(board@, current_player, mv, board@.width as int);
        }
        let played = match mv.move_type {
            MoveType::Insert => board.insert(mv.column, current_player),
            MoveType::Pop => board.pop(mv.column, current_player),
        };
        match played {
            Ok(()) => {},
            Err(_) => {
                // unreachable: the move is legal
                proof {
                    assert(false);
                }
            },
        }
        depth = depth + 1;
        current_player.other();
    }
    let who_am_i = state.who_am_i;
    let term = is_terminal_position(&board);
    let won = match term {
        TerminalPosition::IsTerminalWin(p) => p == who_am_i,
        _ => false,
    };
    proof {
        if premise {
            assert(won == (s0.turn == s0.who_am_i));
        }
    }
    if won {
        crate::mcts::SimulationResult::Win
    } else {
        crate::mcts::SimulationResult::NotWin
    }
}

impl State {
    /// Run `playouts` independent playouts from this position, each of at
    /// most `max_depth_per_playout` plies, and return their results.
    pub fn simulate(
        &self,
        playouts: u32,
        max_depth_per_playout: u32,
        rng: &mut rand_pcg::Pcg64,
    ) -> (r: Vec<crate::mcts::SimulationResult>)
        requires
            self@.wf(),
        ensures
            r@.len() == playouts,
            (forced_win_position(self@) && max_depth_per_playout >= 1) ==> (forall|i: int|
                0 <= i < r@.len() ==> r@[i] == (if self@.turn == self@.who_am_i {
                    crate::mcts::SimulationResult::Win
                } else {
                    crate::mcts::SimulationResult::NotWin
                })),
    {
        let mut r: Vec<crate::mcts::SimulationResult> = Vec::new();
        let mut i: u32 = 0;
        while i < playouts
            invariant
                self@.wf(),
                i <= playouts,
                r@.len() == i,
                (forced_win_position(self@) && max_depth_per_playout >= 1) ==> (forall|j: int|
                    0 <= j < r@.len() ==> r@[j] == (if self@.turn == self@.who_am_i {
                        crate::mcts::SimulationResult::Win
                    } else {
                        crate::mcts::SimulationResult::NotWin
                    })),
            decreases playouts - i,
        {
            let one = playout(self.clone(), max_depth_per_playout, rng);
            r.push(one);
            i += 1;
        }
        r
    }
}

/// The settings of one search decision.
pub struct MctsConfig {
    /// Number of search iterations.
    pub iterations: u32,
    /// The UCT exploration constant, in millionths.
    pub exploration_constant: u64,
    /// Playouts run from each expanded leaf.
    pub playouts_per_simulation: u32,
    /// Longest playout, in plies.
    pub max_depth_per_playout: u32,
    /// Where to write search-tree snapshots, if anywhere.
    pub tree_dump_dir: Option<String>,
    /// Whether to capture a snapshot of the search tree.
    pub debug_track_trees: bool,
}

impl MctsConfig {
    /// A configuration from its parts.
    pub fn new(
        iterations: u32,
        exploration_constant: u64,
        playouts_per_simulation: u32,
        max_depth_per_playout: u32,
        tree_dump_dir: Option<String>,
        debug_track_trees: bool,
    ) -> (r: Self)
        ensures
            r.iterations == iterations,
            r.exploration_constant == exploration_constant,
            r.playouts_per_simulation == playouts_per_simulation,
            r.max_depth_per_playout == max_depth_per_playout,
            r.tree_dump_dir == tree_dump_dir,
            r.debug_track_trees == debug_track_trees,
    {
        MctsConfig {
            iterations,
            exploration_constant,
            playouts_per_simulation,
            max_depth_per_playout,
            tree_dump_dir,
            debug_track_trees,
        }
    }

    /// The snapshot directory, if one is set.
    pub fn get_tree_dump_dir(&self) -> (r: Option<String>)
        ensures
            match r {
                Some(d) => self.tree_dump_dir matches Some(o) && d@ == o@,
                None => self.tree_dump_dir is None,
            },
    {
        match &self.tree_dump_dir {
            Some(d) => Some(d.as_str().to_string()),
            None => None,
        }
    }
}

impl Default for MctsConfig {
    /// The stock settings: 300 iterations, an exploration constant of
    /// the square root of two, 200 playouts of at most 50 plies, and
    /// snapshots written under `/tmp/tree-dump-dir`.
    fn default() -> (r: Self)
        ensures
            r.iterations == 300,
            r.exploration_constant == 1_414_214,
            r.playouts_per_simulation == 200,
            r.max_depth_per_playout == 50,
            r.tree_dump_dir matches Some(d) && d@ == "/tmp/tree-dump-dir"@,
            r.debug_track_trees == true,
    {
        MctsConfig::new(300, 1_414_214, 200, 50, Some("/tmp/tree-dump-dir".to_string()), true)
    }
}

/// The outcome of a search: the chosen move, and a snapshot of the search
/// tree when one was asked for.
pub struct BestMctsMove {
    pub actual_move: Move,
    pub debug_trees: Option<crate::mcts::TreeSnapshot>,
}

/// Search for the best move from `state` under `config`, drawing
/// randomness from `rng`.  The chosen move is always legal for the player
/// on turn.
pub fn get_best_mcts_move(
    state: &State,
    config: &MctsConfig,
    rng: &mut rand_pcg::Pcg64,
) -> (r: BestMctsMove)
    requires
        state@.wf(),
        !state@.terminal(),
        state@.actions().len() > 0,
        config.iterations >= 1,
        config.exploration_constant <= u32::MAX as u64,
    ensures
        state@.actions().contains(Action(r.actual_move)),
{
    proof {
        let n = config.iterations as nat;
        let k = config.playouts_per_simulation as nat;
        assert(n * k <= 0xFFFF_FFFF * 0xFFFF_FFFF) by (nonlinear_arith)
            requires
                n <= 0xFFFF_FFFF,
                k <= 0xFFFF_FFFF,
        ;
    }
    let mut mcts = crate::mcts::Mcts::new(
        state.clone(),
        crate::mcts::IterationLimitKind::Iterations(config.iterations),
        config.exploration_constant,
        config.playouts_per_simulation,
        config.max_depth_per_playout,
    );
    mcts.run(rng);
    let best = mcts.best_action();
    match best {
        Some(a) => {
            let debug_trees = if config.debug_track_trees {
                let root = mcts.tree.get_root_nodekey();
                Some(crate::mcts::create_tree_for_serialization(&mcts.tree, root, None))
            } else {
                None
            };
            BestMctsMove { actual_move: a.0, debug_trees }
        },
        None => {
            // unreachable: a live root with actions gains children in the
            // first iteration, so a recommendation exists
            proof {
                assert(false);
            }
            BestMctsMove {
                actual_move: Move { move_type: MoveType::Insert, column: 0 },
                debug_trees: None,
            }
        },
    }
}

} // verus!
