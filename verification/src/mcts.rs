//! Monte Carlo tree search: an arena tree of visit and win counters over
//! search positions, UCT selection, expansion, simulation and
//! backpropagation.

use vstd::prelude::*;

use crate::fixedpoint::{isqrt, ln_micro, ln_micro_spec, sqrt_floor};
use crate::game_search::{Action as GameAction, State, StateV};

verus! {

/// Search actions are small values that are copied freely.
pub trait Action: Copy {

}

/// The outcome of one playout, seen from the searching player: a win, or
/// anything else (loss, draw, or cut off at the depth limit).
#[derive(Clone, Copy, Debug, PartialEq, Eq, Structural)]
pub enum SimulationResult {
    Win,
    NotWin,
}

/// The budget of one search: a fixed number of iterations, or a wall-clock
/// allowance in seconds.
#[derive(Clone, Copy, Debug)]
pub enum IterationLimitKind {
    Iterations(u32),
    TimeSeconds(u64),
}

/// One node of the search tree: its parent, its children keyed by the
/// action that reaches them, and its counters.  The position the node
/// stands for is carried as a ghost value.
pub struct MctsNode {
    pub parent: Option<usize>,
    pub children: Vec<(GameAction, usize)>,
    pub visits: u64,
    pub wins: u64,
    pub pos: Ghost<StateV>,
}

/// The search tree: an arena of nodes.  Handles are indexes into the
/// arena; the root is node 0 and nodes are never removed, so handles stay
/// valid for the life of the tree.
pub struct MctsTree {
    pub nodes: Vec<MctsNode>,
    pub root: usize,
    pub root_state: State,
}

impl MctsTree {
    /// The parent index of node `i` (meaningful for `i != root`).
    pub open spec fn par(self, i: int) -> int {
        self.nodes@[i].parent.unwrap() as int
    }

    /// Structure: node 0 is the root and the only node without a parent;
    /// parents come before their children; child links and parent links
    /// agree.
    pub open spec fn wf_links(self) -> bool {
        &&& self.nodes@.len() >= 1
        &&& self.root == 0
        &&& self.nodes@[0].parent is None
        &&& forall|i: int|
            1 <= i < self.nodes@.len() ==> (#[trigger] self.nodes@[i].parent) is Some && 0
                <= self.par(i) < i
        &&& forall|i: int, k: int|
            0 <= i < self.nodes@.len() && 0 <= k < self.nodes@[i].children@.len() ==> {
                let c = (#[trigger] self.nodes@[i].children@[k]).1 as int;
                i < c < self.nodes@.len() && self.nodes@[c].parent == Some(i as usize)
            }
    }

    /// Counters: wins never exceed visits, and a child is never visited
    /// more often than its parent.
    pub open spec fn wf_counts(self) -> bool {
        &&& forall|i: int|
            0 <= i < self.nodes@.len() ==> (#[trigger] self.nodes@[i].wins) <= self.nodes@[i].visits
        &&& forall|i: int|
            1 <= i < self.nodes@.len() ==> (#[trigger] self.nodes@[i].visits)
                <= self.nodes@[self.par(i)].visits
    }

    /// Positions: the root carries the root state; every edge is labelled
    /// by a legal action of its source position, and leads to the position
    /// that action produces.
    pub open spec fn wf_positions(self) -> bool {
        &&& self.root_state@.wf()
        &&& self.nodes@[0].pos@ == self.root_state@
        &&& forall|i: int|
            0 <= i < self.nodes@.len() ==> (#[trigger] self.nodes@[i].pos@).wf()
        &&& forall|i: int, k: int|
            0 <= i < self.nodes@.len() && 0 <= k < self.nodes@[i].children@.len() ==> {
                let edge = #[trigger] self.nodes@[i].children@[k];
                self.nodes@[i].pos@.actions().contains(edge.0) && self.nodes@[edge.1 as int].pos@
                    == self.nodes@[i].pos@.step(edge.0)
            }
    }

    pub open spec fn wf(self) -> bool {
        self.wf_links() && self.wf_counts() && self.wf_positions()
    }

    /// A tree with one unvisited node standing for `root_state`.
    pub fn new(root_state: State) -> (r: Self)
        requires
            root_state@.wf(),
        ensures
            r.wf(),
            r.nodes@.len() == 1,
            r.root == 0,
            r.nodes@[0].parent is None,
            r.nodes@[0].children@.len() == 0,
            r.nodes@[0].visits == 0,
            r.nodes@[0].wins == 0,
            r.root_state@ == root_state@,
    {
        let ghost pos = root_state@;
        let node = MctsNode {
            parent: None,
            children: Vec::new(),
            visits: 0,
            wins: 0,
            pos: Ghost(pos),
        };
        let mut nodes: Vec<MctsNode> = Vec::new();
        nodes.push(node);
        MctsTree { nodes, root: 0, root_state }
    }

    /// Read a node by its handle.
    pub fn get_node_from_nodekey(&self, node: usize) -> (r: &MctsNode)
        requires
            node < self.nodes@.len(),
        ensures
            *r == self.nodes@[node as int],
    {
        &self.nodes[node]
    }

    /// Borrow a node mutably by its handle.  The caller is responsible for
    /// keeping the tree well formed.
    pub fn get_mut_node_from_nodekey(&mut self, node: usize) -> (r: &mut MctsNode)
        requires
            node < old(self).nodes@.len(),
        ensures
            *r == old(self).nodes@[node as int],
            final(self).nodes@ == old(self).nodes@.update(node as int, *final(r)),
            final(self).root == old(self).root,
            final(self).root_state == old(self).root_state,
    {
        &mut self.nodes[node]
    }

    /// Read the root node.
    pub fn get_root(&self) -> (r: &MctsNode)
        requires
            self.root < self.nodes@.len(),
        ensures
            *r == self.nodes@[self.root as int],
    {
        &self.nodes[self.root]
    }

    /// Borrow the root node mutably.
    pub fn get_mut_root(&mut self) -> (r: &mut MctsNode)
        requires
            old(self).root < old(self).nodes@.len(),
        ensures
            *r == old(self).nodes@[old(self).root as int],
            final(self).nodes@ == old(self).nodes@.update(old(self).root as int, *final(r)),
            final(self).root == old(self).root,
            final(self).root_state == old(self).root_state,
    {
        let root = self.root;
        &mut self.nodes[root]
    }

    /// The handle of the root node.
    pub fn get_root_nodekey(&self) -> (r: usize)
        ensures
            r == self.root,
    {
        self.root
    }

    /// The children of a node: the actions tried from it and the handles
    /// they lead to, in the order the children were added.
    pub fn get_children_nodekeys(&self, node: usize) -> (r: &Vec<(GameAction, usize)>)
        requires
            node < self.nodes@.len(),
        ensures
            r@ == self.nodes@[node as int].children@,
    {
        &self.nodes[node].children
    }

    /// Add a fresh, unvisited child under `parent`, reached by `action`,
    /// and return its handle.
    #[verifier::rlimit(50)]
    pub fn add_child(&mut self, parent: usize, action: GameAction) -> (child: usize)
        requires
            old(self).wf(),
            parent < old(self).nodes@.len(),
            old(self).nodes@[parent as int].pos@.actions().contains(action),
        ensures
            final(self).wf(),
            child == old(self).nodes@.len(),
            final(self).nodes@.len() == old(self).nodes@.len() + 1,
            final(self).root == old(self).root,
            final(self).root_state == old(self).root_state,
            forall|i: int|
                0 <= i < old(self).nodes@.len() && i != parent ==> final(self).nodes@[i] == old(self).nodes@[i],
            final(self).nodes@[parent as int].children@ == old(self).nodes@[parent as int].children@.push(
                (action, child),
            ),
            final(self).nodes@[parent as int].parent == old(self).nodes@[parent as int].parent,
            final(self).nodes@[parent as int].visits == old(self).nodes@[parent as int].visits,
            final(self).nodes@[parent as int].wins == old(self).nodes@[parent as int].wins,
            final(self).nodes@[parent as int].pos == old(self).nodes@[parent as int].pos,
            final(self).nodes@[child as int].parent == Some(parent),
            final(self).nodes@[child as int].children@.len() == 0,
            final(self).nodes@[child as int].visits == 0,
            final(self).nodes@[child as int].wins == 0,
            final(self).nodes@[child as int].pos@ == old(self).nodes@[parent as int].pos@.step(action),
    {
        let child = self.nodes.len();
        let ghost child_pos = self.nodes@[parent as int].pos@.step(action);
        proof {
            crate::game_search::lemma_step_wf(self.nodes@[parent as int].pos@, action);
        }
        let node = MctsNode {
            parent: Some(parent),
            children: Vec::new(),
            visits: 0,
            wins: 0,
            pos: Ghost(child_pos),
        };
        self.nodes.push(node);
        let p = &mut self.nodes[parent];
        p.children.push((action, child));
        proof {
            let new = *self;
            let oldt = *old(self);
            assert forall|i: int|
                1 <= i < new.nodes@.len() implies (#[trigger] new.nodes@[i].parent) is Some && 0
                <= new.par(i) < i by {
                if i < oldt.nodes@.len() && i != parent {
                    assert(new.nodes@[i] == oldt.nodes@[i]);
                    assert(oldt.nodes@[i].parent is Some && 0 <= oldt.par(i) < i);
                }
            }
            assert forall|i: int, k: int|
                0 <= i < new.nodes@.len() && 0 <= k < new.nodes@[i].children@.len() implies {
                let c = (#[trigger] new.nodes@[i].children@[k]).1 as int;
                i < c < new.nodes@.len() && new.nodes@[c].parent == Some(i as usize)
            } by {
                if i == parent && k == new.nodes@[i].children@.len() - 1 {
                } else {
                    assert(new.nodes@[i].children@[k] == oldt.nodes@[i].children@[k]);
                    let c = oldt.nodes@[i].children@[k].1 as int;
                    assert(i < c < oldt.nodes@.len() && oldt.nodes@[c].parent == Some(i as usize));
                }
            }
            assert forall|i: int|
                0 <= i < new.nodes@.len() implies (#[trigger] new.nodes@[i].wins)
                <= new.nodes@[i].visits by {
                if i < oldt.nodes@.len() {
                    assert(oldt.nodes@[i].wins <= oldt.nodes@[i].visits);
                }
            }
            assert forall|i: int|
                1 <= i < new.nodes@.len() implies (#[trigger] new.nodes@[i].visits)
                <= new.nodes@[new.par(i)].visits by {
                if i < oldt.nodes@.len() {
                    assert(oldt.nodes@[i].visits <= oldt.nodes@[oldt.par(i)].visits);
                }
            }
            assert forall|i: int|
                0 <= i < new.nodes@.len() implies (#[trigger] new.nodes@[i].pos@).wf() by {
                if i < oldt.nodes@.len() {
                    assert(oldt.nodes@[i].pos@.wf());
                    assert(new.nodes@[i].pos == oldt.nodes@[i].pos);
                }
            }
            assert forall|i: int, k: int|
                0 <= i < new.nodes@.len() && 0 <= k < new.nodes@[i].children@.len() implies {
                let edge = #[trigger] new.nodes@[i].children@[k];
                new.nodes@[i].pos@.actions().contains(edge.0) && new.nodes@[edge.1 as int].pos@
                    == new.nodes@[i].pos@.step(edge.0)
            } by {
                if i == parent && k == new.nodes@[i].children@.len() - 1 {
                } else {
                    assert(new.nodes@[i].children@[k] == oldt.nodes@[i].children@[k]);
                    let edge = oldt.nodes@[i].children@[k];
                    assert(oldt.nodes@[i].pos@.actions().contains(edge.0)
                        && oldt.nodes@[edge.1 as int].pos@ == oldt.nodes@[i].pos@.step(edge.0));
                }
            }
        }
        child
    }
}

/// The UCT score of a child in millionths: the win rate plus the
/// exploration bonus `c * sqrt(ln(parent visits) / visits)`, every factor
/// in millionths.  An unvisited child scores the largest value, so each
/// child is tried once before any is revisited.
pub open spec fn uct_score_spec(visits: nat, wins: nat, parent_visits: nat, c: nat) -> nat {
    if visits == 0 {
        u64::MAX as nat
    } else {
        wins * 1_000_000 / visits + c * sqrt_floor(
            ln_micro_spec(parent_visits) * 1_000_000 / visits,
        ) / 1_000_000
    }
}

/// The UCT score of a node visited `node_visits` times with `node_wins`
/// wins, under a parent visited `parent_visits` times, with exploration
/// constant `exploration_constant` in millionths.  Returns `u64::MAX` for
/// an unvisited node, standing for an unbounded score.
pub fn uct_score(node_visits: u64, node_wins: u64, parent_visits: u64, exploration_constant: u64)
    -> (r: u64)
    requires
        node_wins <= node_visits,
        exploration_constant <= u32::MAX as u64,
    ensures
        r == uct_score_spec(
            node_visits as nat,
            node_wins as nat,
            parent_visits as nat,
            exploration_constant as nat,
        ),
{
    if node_visits == 0 {
        return u64::MAX;
    }
    let ln: u64 = if parent_visits == 0 {
        proof {
            crate::fixedpoint::lemma_ln_micro_spec_zero();
        }
        0
    } else {
        ln_micro(parent_visits)
    };
    proof {
        let lnn = ln as nat;
        assert(lnn * 1_000_000 <= 45_000_000 * 1_000_000) by (nonlinear_arith)
            requires
                lnn <= 45_000_000,
        ;
        vstd::arithmetic::div_mod::lemma_div_is_ordered(
            (lnn * 1_000_000) as int,
            45_000_000int * 1_000_000,
            node_visits as int,
        );
        vstd::arithmetic::div_mod::lemma_div_nonincreasing(
            45_000_000int * 1_000_000,
            node_visits as int,
        );
    }
    let q128: u128 = (ln as u128) * 1_000_000 / (node_visits as u128);
    let q: u64 = q128 as u64;
    let sq = isqrt(q);
    proof {
        crate::fixedpoint::lemma_sqrt_floor_bounds(q as nat);
        let s = sqrt_floor(q as nat);
        if s >= 6_800_000 {
            assert(s * s >= 6_800_000 * 6_800_000) by (nonlinear_arith)
                requires
                    s >= 6_800_000nat,
            ;
        }
        assert(sq < 6_800_000);
        let w = node_wins as nat;
        let v = node_visits as nat;
        assert(w * 1_000_000 <= v * 1_000_000) by (nonlinear_arith)
            requires
                w <= v,
        ;
        vstd::arithmetic::div_mod::lemma_div_is_ordered(
            (w * 1_000_000) as int,
            (v * 1_000_000) as int,
            v as int,
        );
        vstd::arithmetic::div_mod::lemma_div_multiples_vanish(1_000_000, v as int);
        let c = exploration_constant as nat;
        assert(c * (sq as nat) <= 0x1_0000_0000 * 6_800_000) by (nonlinear_arith)
            requires
                c <= 0x1_0000_0000,
                (sq as nat) <= 6_800_000,
        ;
        vstd::arithmetic::div_mod::lemma_div_is_ordered(
            (c * (sq as nat)) as int,
            0x1_0000_0000int * 6_800_000,
            1_000_000,
        );
    }
    let exploit128: u128 = (node_wins as u128) * 1_000_000 / (node_visits as u128);
    let exploit: u64 = exploit128 as u64;
    let explore128: u128 = (exploration_constant as u128) * (sq as u128) / 1_000_000;
    let explore: u64 = explore128 as u64;
    exploit + explore
}

/// The UCT score of the `k`-th child of `node`, with constant `c`.
pub open spec fn child_uct_spec(t: MctsTree, node: int, k: int, c: nat) -> nat {
    let edge = t.nodes@[node].children@[k];
    uct_score_spec(
        t.nodes@[edge.1 as int].visits as nat,
        t.nodes@[edge.1 as int].wins as nat,
        t.nodes@[node].visits as nat,
        c,
    )
}

/// Child `k` of `node` scores at least as high as every sibling, and
/// strictly higher than every earlier sibling: it is the selected child.
pub open spec fn is_best_child(t: MctsTree, node: int, k: int, c: nat) -> bool {
    let ch = t.nodes@[node].children@;
    &&& 0 <= k < ch.len()
    &&& forall|j: int|
        0 <= j < ch.len() ==> #[trigger] child_uct_spec(t, node, j, c) <= child_uct_spec(
            t,
            node,
            k,
            c,
        )
    &&& forall|j: int|
        0 <= j < k ==> #[trigger] child_uct_spec(t, node, j, c) < child_uct_spec(t, node, k, c)
}

/// What UCT selection found at a node: the node itself when it has no
/// children (`finished`), else the best-scoring child and the action that
/// reaches it.
#[derive(Clone, Copy, Debug, PartialEq, Eq)]
pub struct UctSelectResult {
    pub node: usize,
    pub action: Option<GameAction>,
    pub finished: bool,
}

/// Pick the child of `node_key` with the greatest UCT score; the earliest
/// child wins ties.  A node without children is returned as `finished`.
pub fn uct_select(tree: &MctsTree, node_key: usize, exploration_constant: u64) -> (r:
    UctSelectResult)
    requires
        tree.wf_links(),
        tree.wf_counts(),
        node_key < tree.nodes@.len(),
        exploration_constant <= u32::MAX as u64,
    ensures
        r.finished <==> tree.nodes@[node_key as int].children@.len() == 0,
        r.finished ==> r.node == node_key && r.action is None,
        !r.finished ==> ({
            let ch = tree.nodes@[node_key as int].children@;
            exists|k: int|
                #[trigger] is_best_child(*tree, node_key as int, k, exploration_constant as nat)
                    && r.node == ch[k].1 && r.action == Some(ch[k].0)
        }),
        !r.finished ==> node_key < r.node < tree.nodes@.len(),
{
    let n_children = tree.nodes[node_key].children.len();
    if n_children == 0 {
        return UctSelectResult { node: node_key, action: None, finished: true };
    }
    let parent_visits = tree.nodes[node_key].visits;
    let ghost c = exploration_constant as nat;
    let first = tree.nodes[node_key].children[0].1;
    let mut best_k: usize = 0;
    let mut best_score = uct_score(
        tree.nodes[first].visits,
        tree.nodes[first].wins,
        parent_visits,
        exploration_constant,
    );
    let mut j: usize = 1;
    while j < n_children
        invariant
            tree.wf_links(),
            tree.wf_counts(),
            node_key < tree.nodes@.len(),
            exploration_constant <= u32::MAX as u64,
            c == exploration_constant as nat,
            parent_visits == tree.nodes@[node_key as int].visits,
            n_children == tree.nodes@[node_key as int].children@.len(),
            1 <= j <= n_children,
            best_k < j,
            best_score == child_uct_spec(*tree, node_key as int, best_k as int, c),
            forall|jj: int|
                0 <= jj < j ==> child_uct_spec(*tree, node_key as int, jj, c) <= child_uct_spec(
                    *tree,
                    node_key as int,
                    best_k as int,
                    c,
                ),
            forall|jj: int|
                0 <= jj < best_k ==> child_uct_spec(*tree, node_key as int, jj, c)
                    < child_uct_spec(*tree, node_key as int, best_k as int, c),
        decreases n_children - j,
    {
        let child = tree.nodes[node_key].children[j].1;
        let score = uct_score(
            tree.nodes[child].visits,
            tree.nodes[child].wins,
            parent_visits,
            exploration_constant,
        );
        if score > best_score {
            best_k = j;
            best_score = score;
        }
        j += 1;
    }
    proof {
        assert(is_best_child(*tree, node_key as int, best_k as int, c));
    }
    let edge = tree.nodes[node_key].children[best_k];
    UctSelectResult { node: edge.1, action: Some(edge.0), finished: false }
}

/// The parent links of a tree, on their own, so that facts about paths
/// survive changes to the counters.
pub open spec fn parents_of(t: MctsTree) -> Seq<Option<usize>> {
    t.nodes@.map_values(|n: MctsNode| n.parent)
}

/// Node `i` lies on the parent chain from `leaf` up to the root
/// (inclusive of both ends).
pub open spec fn on_path(parents: Seq<Option<usize>>, leaf: int, i: int) -> bool
    decreases leaf,
{
    if !(0 <= leaf < parents.len()) {
        false
    } else if i == leaf {
        true
    } else {
        match parents[leaf] {
            Some(p) => {
                if (p as int) < leaf {
                    on_path(parents, p as int, i)
                } else {
                    false
                }
            },
            None => false,
        }
    }
}

/// Path members lie between the root and the leaf.
pub proof fn lemma_on_path_bounds(parents: Seq<Option<usize>>, leaf: int, i: int)
    requires
        on_path(parents, leaf, i),
    ensures
        0 <= i <= leaf < parents.len(),
    decreases leaf,
{
    if i != leaf {
        lemma_on_path_bounds(parents, parents[leaf].unwrap() as int, i);
    }
}

/// In a well-formed tree every parent chain reaches the root.
pub proof fn lemma_on_path_zero(t: MctsTree, leaf: int)
    requires
        t.wf_links(),
        0 <= leaf < t.nodes@.len(),
    ensures
        on_path(parents_of(t), leaf, 0),
    decreases leaf,
{
    if leaf > 0 {
        lemma_on_path_zero(t, t.par(leaf));
    }
}

/// No node is visited more often than the root.
pub proof fn lemma_visits_le_root(t: MctsTree, i: int)
    requires
        t.wf_links(),
        t.wf_counts(),
        0 <= i < t.nodes@.len(),
    ensures
        t.nodes@[i].visits <= t.nodes@[0].visits,
    decreases i,
{
    if i > 0 {
        lemma_visits_le_root(t, t.par(i));
    }
}

/// How many of the playout results are wins.
pub open spec fn wins_in(rs: Seq<SimulationResult>) -> nat
    decreases rs.len(),
{
    if rs.len() == 0 {
        0
    } else {
        wins_in(rs.drop_last()) + (if rs.last() == SimulationResult::Win {
            1nat
        } else {
            0nat
        })
    }
}

/// There are no more wins than playouts.
pub proof fn lemma_wins_in_le_len(rs: Seq<SimulationResult>)
    ensures
        wins_in(rs) <= rs.len(),
    decreases rs.len(),
{
    if rs.len() > 0 {
        lemma_wins_in_le_len(rs.drop_last());
    }
}

/// If `cur` is on the path from `leaf` and has a parent, that parent is
/// on the path from `leaf` too.
pub proof fn lemma_on_path_step(parents: Seq<Option<usize>>, leaf: int, cur: int)
    requires
        on_path(parents, leaf, cur),
        parents[cur] is Some,
        (parents[cur].unwrap() as int) < cur,
    ensures
        on_path(parents, leaf, parents[cur].unwrap() as int),
    decreases leaf,
{
    if leaf != cur {
        lemma_on_path_step(parents, parents[leaf].unwrap() as int, cur);
    } else {
        let p = parents[cur].unwrap() as int;
        assert(on_path(parents, p, p));
        assert(on_path(parents, cur, p));
    }
}

/// The search engine: a tree grown from a root position under a budget,
/// with the configuration of one decision.
pub struct Mcts {
    pub tree: MctsTree,
    pub iteration_limit: IterationLimitKind,
    pub exploration_constant: u64,
    pub playouts_per_simulation: u32,
    pub max_depth_per_playout: u32,
}

impl Mcts {
    /// The tree is well formed and the exploration constant is small
    /// enough for the score arithmetic.
    pub open spec fn wf(self) -> bool {
        self.tree.wf() && self.exploration_constant <= u32::MAX as u64
    }

    /// The visits recorded at the root.
    pub open spec fn root_visits(self) -> nat {
        self.tree.nodes@[0].visits as nat
    }

    /// How many children the root has.
    pub open spec fn root_children_count(self) -> nat {
        self.tree.nodes@[0].children@.len()
    }

    /// The two engines hold the same configuration.
    pub open spec fn same_config(self, o: Mcts) -> bool {
        &&& self.iteration_limit == o.iteration_limit
        &&& self.exploration_constant == o.exploration_constant
        &&& self.playouts_per_simulation == o.playouts_per_simulation
        &&& self.max_depth_per_playout == o.max_depth_per_playout
    }

    /// An engine over a fresh tree for `root_state`.
    pub fn new(
        root_state: State,
        iteration_limit: IterationLimitKind,
        exploration_constant: u64,
        playouts_per_simulation: u32,
        max_depth_per_playout: u32,
    ) -> (r: Self)
        requires
            root_state@.wf(),
            exploration_constant <= u32::MAX as u64,
        ensures
            r.wf(),
            r.tree.nodes@.len() == 1,
            r.root_visits() == 0,
            r.root_children_count() == 0,
            r.tree.root_state@ == root_state@,
            r.iteration_limit == iteration_limit,
            r.exploration_constant == exploration_constant,
            r.playouts_per_simulation == playouts_per_simulation,
            r.max_depth_per_playout == max_depth_per_playout,
    {
        Mcts::new_from_tree(
            MctsTree::new(root_state),
            iteration_limit,
            exploration_constant,
            playouts_per_simulation,
            max_depth_per_playout,
        )
    }

    /// An engine over an existing tree.
    pub fn new_from_tree(
        tree: MctsTree,
        iteration_limit: IterationLimitKind,
        exploration_constant: u64,
        playouts_per_simulation: u32,
        max_depth_per_playout: u32,
    ) -> (r: Self)
        requires
            tree.wf(),
            exploration_constant <= u32::MAX as u64,
        ensures
            r.wf(),
            r.tree == tree,
            r.iteration_limit == iteration_limit,
            r.exploration_constant == exploration_constant,
            r.playouts_per_simulation == playouts_per_simulation,
            r.max_depth_per_playout == max_depth_per_playout,
    {
        Mcts {
            tree,
            iteration_limit,
            exploration_constant,
            playouts_per_simulation,
            max_depth_per_playout,
        }
    }

    /// Descend from the root by repeated UCT selection until a node with
    /// no children is reached, rebuilding its position on the way down.
    fn select(&self) -> (r: (usize, State))
        requires
            self.wf(),
        ensures
            r.0 < self.tree.nodes@.len(),
            self.tree.nodes@[r.0 as int].children@.len() == 0,
            r.1@ == self.tree.nodes@[r.0 as int].pos@,
            self.tree.nodes@[0].children@.len() == 0 ==> r.0 == 0,
    {
        let mut state = self.tree.root_state.clone();
        let mut node_key = self.tree.get_root_nodekey();
        loop
            invariant
                self.wf(),
                node_key < self.tree.nodes@.len(),
                state@ == self.tree.nodes@[node_key as int].pos@,
                self.tree.nodes@[0].children@.len() == 0 ==> node_key == 0,
            decreases self.tree.nodes@.len() - node_key,
        {
            let r = uct_select(&self.tree, node_key, self.exploration_constant);
            if r.finished {
                return (node_key, state);
            }
            let ghost ch = self.tree.nodes@[node_key as int].children@;
            let ghost k = choose|k: int|
                #[trigger] is_best_child(
                    self.tree,
                    node_key as int,
                    k,
                    self.exploration_constant as nat,
                ) && r.node == ch[k].1 && r.action == Some(ch[k].0);
            proof {
                assert(self.tree.nodes@[node_key as int].children@[k] == ch[k]);
            }
            let a = match r.action {
                Some(a) => a,
                None => {
                    // an unfinished selection always carries an action
                    proof {
                        assert(false);
                    }
                    GameAction(
                        crate::connect_four::Move {
                            move_type: crate::connect_four::MoveType::Insert,
                            column: 0,
                        },
                    )
                },
            };
            let next = state.get_next_state(&a);
            state = next;
            node_key = r.node;
        }
    }

    /// Expand a childless node: when its position is live and has actions,
    /// add one fresh child per action and return a uniformly random child
    /// with its position.  A terminal or actionless node is returned
    /// unchanged.
    fn expand(&mut self, node_key: usize, state: State, rng: &mut rand_pcg::Pcg64) -> (r: (
        usize,
        State,
    ))
        requires
            old(self).wf(),
            node_key < old(self).tree.nodes@.len(),
            old(self).tree.nodes@[node_key as int].children@.len() == 0,
            state@ == old(self).tree.nodes@[node_key as int].pos@,
        ensures
            final(self).wf(),
            final(self).same_config(*old(self)),
            final(self).tree.root_state == old(self).tree.root_state,
            final(self).tree.nodes@.len() >= old(self).tree.nodes@.len(),
            forall|i: int|
                0 <= i < old(self).tree.nodes@.len() ==> (#[trigger] final(self).tree.nodes@[i].visits) == old(self).tree.nodes@[i].visits && final(self).tree.nodes@[i].wins == old(self).tree.nodes@[i].wins,
            r.0 < final(self).tree.nodes@.len(),
            r.1@ == final(self).tree.nodes@[r.0 as int].pos@,
            final(self).tree.nodes@[0].children@.len() >= old(self).tree.nodes@[0].children@.len(),
            (node_key == 0 && !state@.terminal() && state@.actions().len() > 0) ==> final(self).tree.nodes@[0].children@.len() > 0,
            (state@.terminal() || state@.actions().len() == 0) ==> *final(self) == *old(self)
                && r.0 == node_key,
            (!state@.terminal() && state@.actions().len() > 0) ==> ({
                let ch = final(self).tree.nodes@[node_key as int].children@;
                ch.len() == state@.actions().len() && forall|k: int|
                    0 <= k < ch.len() ==> (#[trigger] final(self).tree.nodes@[ch[k].1
                        as int].visits) == 0 && final(self).tree.nodes@[ch[k].1 as int].wins == 0
            }),
    {
        if state.is_terminal() {
            return (node_key, state);
        }
        let actions = state.get_actions();
        if actions.len() == 0 {
            return (node_key, state);
        }
        let ghost base = self.tree.nodes@.len();
        let ghost orig = *self;
        let mut i: usize = 0;
        while i < actions.len()
            invariant
                self.wf(),
                self.same_config(orig),
                orig.wf(),
                node_key < orig.tree.nodes@.len(),
                actions@ == state@.actions(),
                base == orig.tree.nodes@.len(),
                i <= actions@.len(),
                self.tree.nodes@.len() == base + i,
                self.tree.root_state == orig.tree.root_state,
                state@ == self.tree.nodes@[node_key as int].pos@,
                self.tree.nodes@[node_key as int].children@.len() == i,
                forall|j: int|
                    0 <= j < i ==> #[trigger] self.tree.nodes@[node_key as int].children@[j] == (
                        actions@[j],
                        (base + j) as usize,
                    ),
                forall|idx: int|
                    0 <= idx < base ==> (#[trigger] self.tree.nodes@[idx].visits)
                        == orig.tree.nodes@[idx].visits && self.tree.nodes@[idx].wins
                        == orig.tree.nodes@[idx].wins,
                forall|idx: int|
                    base <= idx < base + i ==> (#[trigger] self.tree.nodes@[idx].visits) == 0
                        && self.tree.nodes@[idx].wins == 0,
                node_key != 0 ==> self.tree.nodes@[0].children@ == orig.tree.nodes@[0].children@,
                node_key == 0 ==> self.tree.nodes@[0].children@.len() == i,
            decreases actions@.len() - i,
        {
            let a = actions[i];
            proof {
                assert(state@.actions()[i as int] == a);
            }
            let _child = self.tree.add_child(node_key, a);
            i += 1;
        }
        let idx = crate::rng::rng_below(rng, actions.len());
        let edge = self.tree.nodes[node_key].children[idx];
        let a = edge.0;
        proof {
            assert(self.tree.nodes@[node_key as int].children@[idx as int] == (
                actions@[idx as int],
                (base + idx) as usize,
            ));
            assert(state@.actions().contains(a)) by {
                assert(state@.actions()[idx as int] == a);
            }
        }
        let n_total = self.tree.nodes.len();
        let next = state.get_next_state(&a);
        proof {
            let t = self.tree;
            assert(t.nodes@[node_key as int].children@[idx as int] == (a, edge.1));
            assert(t.nodes@[edge.1 as int].pos@ == t.nodes@[node_key as int].pos@.step(a));
            let ch = t.nodes@[node_key as int].children@;
            assert forall|k: int| 0 <= k < ch.len() implies (#[trigger] t.nodes@[ch[k].1
                as int].visits) == 0 && t.nodes@[ch[k].1 as int].wins == 0 by {
                assert(ch[k] == (actions@[k], (base + k) as usize));
                assert(base + k < t.nodes@.len());
                assert(t.nodes@.len() <= usize::MAX) by {
                    assert(t.nodes@.len() == n_total as int);
                }
                assert(ch[k].1 as int == base + k);
            }
        }
        (edge.1, next)
    }

    /// Credit the playout results to a node and every ancestor up to the
    /// root: each gains one visit per playout and one win per won playout.
    fn back_propagate(&mut self, node_key: usize, results: Vec<SimulationResult>)
        requires
            old(self).wf(),
            node_key < old(self).tree.nodes@.len(),
            old(self).tree.nodes@[0].visits + results@.len() <= u64::MAX,
        ensures
            final(self).wf(),
            final(self).same_config(*old(self)),
            final(self).tree.root_state == old(self).tree.root_state,
            final(self).tree.nodes@.len() == old(self).tree.nodes@.len(),
            forall|i: int|
                0 <= i < old(self).tree.nodes@.len() ==> {
                    let o = old(self).tree.nodes@[i];
                    let f = #[trigger] final(self).tree.nodes@[i];
                    f.parent == o.parent && f.children == o.children && f.pos == o.pos && f.visits
                        == o.visits + (if on_path(
                        parents_of(old(self).tree),
                        node_key as int,
                        i,
                    ) {
                        results@.len()
                    } else {
                        0
                    }) && f.wins == o.wins + (if on_path(
                        parents_of(old(self).tree),
                        node_key as int,
                        i,
                    ) {
                        wins_in(results@)
                    } else {
                        0
                    })
                },
    {
        let n_results: u64 = results.len() as u64;
        let mut w: u64 = 0;
        let mut i: usize = 0;
        while i < results.len()
            invariant
                i <= results@.len(),
                w == wins_in(results@.take(i as int)),
                w <= i,
            decreases results@.len() - i,
        {
            let is_win = results[i] == SimulationResult::Win;
            proof {
                assert(results@.take(i + 1).drop_last() =~= results@.take(i as int));
                assert(results@.take(i + 1).last() == results@[i as int]);
            }
            if is_win {
                w = w + 1;
            }
            i += 1;
        }
        proof {
            assert(results@.take(results@.len() as int) =~= results@);
        }
        let ghost t0 = self.tree;
        let ghost pp = parents_of(t0);
        let ghost leaf = node_key as int;
        proof {
            assert(pp.len() == t0.nodes@.len());
            assert(on_path(pp, leaf, leaf));
        }
        let mut cur = node_key;
        loop
            invariant_except_break
                cur < self.tree.nodes@.len(),
                on_path(pp, leaf, cur as int),
                forall|i: int|
                    0 <= i < t0.nodes@.len() ==> {
                        let o = t0.nodes@[i];
                        let f = #[trigger] self.tree.nodes@[i];
                        f.parent == o.parent && f.children == o.children && f.pos == o.pos
                            && f.visits == o.visits + (if on_path(pp, leaf, i) && !on_path(
                            pp,
                            cur as int,
                            i,
                        ) {
                            n_results as nat
                        } else {
                            0
                        }) && f.wins == o.wins + (if on_path(pp, leaf, i) && !on_path(
                            pp,
                            cur as int,
                            i,
                        ) {
                            w as nat
                        } else {
                            0
                        })
                    },
            invariant
                t0.wf(),
                pp == parents_of(t0),
                0 <= leaf < t0.nodes@.len(),
                self.tree.nodes@.len() == t0.nodes@.len(),
                self.tree.root == t0.root,
                self.tree.root_state == t0.root_state,
                self.same_config(*old(self)),
                t0 == old(self).tree,
                t0.nodes@[0].visits + n_results <= u64::MAX,
                n_results == results@.len(),
                w == wins_in(results@),
                w <= n_results,
            ensures
                forall|i: int|
                    0 <= i < t0.nodes@.len() ==> {
                        let o = t0.nodes@[i];
                        let f = #[trigger] self.tree.nodes@[i];
                        f.parent == o.parent && f.children == o.children && f.pos == o.pos
                            && f.visits == o.visits + (if on_path(pp, leaf, i) {
                            n_results as nat
                        } else {
                            0
                        }) && f.wins == o.wins + (if on_path(pp, leaf, i) {
                            w as nat
                        } else {
                            0
                        })
                    },
            decreases cur,
        {
            proof {
                assert(on_path(pp, cur as int, cur as int));
                lemma_visits_le_root(t0, cur as int);
                assert(self.tree.nodes@[cur as int].visits == t0.nodes@[cur as int].visits);
                assert(self.tree.nodes@[cur as int].wins == t0.nodes@[cur as int].wins);
                assert(t0.nodes@[cur as int].wins <= t0.nodes@[cur as int].visits);
            }
            let ghost before = self.tree;
            let node = self.tree.get_mut_node_from_nodekey(cur);
            node.visits = node.visits + n_results;
            node.wins = node.wins + w;
            let parent = node.parent;
            match parent {
                None => {
                    proof {
                        assert(cur == 0) by {
                            if cur != 0 {
                                assert(t0.nodes@[cur as int].parent is Some);
                            }
                        }
                        lemma_on_path_zero(t0, leaf);
                        assert forall|i: int| 0 <= i < t0.nodes@.len() && i != 0 implies !on_path(
                            pp,
                            0,
                            i,
                        ) by {
                            assert(pp[0] == t0.nodes@[0].parent);
                        }
                    }
                    break ;
                },
                Some(p) => {
                    proof {
                        assert(pp[cur as int] == t0.nodes@[cur as int].parent);
                        assert(0 <= p < cur) by {
                            assert(t0.nodes@[cur as int].parent is Some);
                        }
                        lemma_on_path_step(pp, leaf, cur as int);
                        assert forall|i: int| 0 <= i < t0.nodes@.len() implies on_path(
                            pp,
                            cur as int,
                            i,
                        ) == (i == cur as int || on_path(pp, p as int, i)) by {}
                        assert(!on_path(pp, p as int, cur as int)) by {
                            if on_path(pp, p as int, cur as int) {
                                lemma_on_path_bounds(pp, p as int, cur as int);
                            }
                        }
                    }
                    cur = p;
                },
            }
        }
        proof {
            let t1 = self.tree;
            let nv = n_results as nat;
            let nw = w as nat;
            assert forall|i: int|
                1 <= i < t1.nodes@.len() implies (#[trigger] t1.nodes@[i].parent) is Some && 0
                <= t1.par(i) < i by {
                assert(t1.nodes@[i].parent == t0.nodes@[i].parent);
                assert(t0.nodes@[i].parent is Some && 0 <= t0.par(i) < i);
            }
            assert forall|i: int, k: int|
                0 <= i < t1.nodes@.len() && 0 <= k < t1.nodes@[i].children@.len() implies {
                let c = (#[trigger] t1.nodes@[i].children@[k]).1 as int;
                i < c < t1.nodes@.len() && t1.nodes@[c].parent == Some(i as usize)
            } by {
                assert(t1.nodes@[i].children == t0.nodes@[i].children);
                let c = t0.nodes@[i].children@[k].1 as int;
                assert(i < c < t0.nodes@.len() && t0.nodes@[c].parent == Some(i as usize));
                assert(t1.nodes@[c].parent == t0.nodes@[c].parent);
            }
            assert forall|i: int|
                0 <= i < t1.nodes@.len() implies (#[trigger] t1.nodes@[i].wins)
                <= t1.nodes@[i].visits by {
                assert(t0.nodes@[i].wins <= t0.nodes@[i].visits);
            }
            assert forall|i: int|
                1 <= i < t1.nodes@.len() implies (#[trigger] t1.nodes@[i].visits)
                <= t1.nodes@[t1.par(i)].visits by {
                let par = t0.par(i);
                assert(t1.nodes@[i].parent == t0.nodes@[i].parent);
                assert(t0.nodes@[i].visits <= t0.nodes@[par].visits);
                if on_path(pp, leaf, i) {
                    assert(pp[i] == t0.nodes@[i].parent);
                    lemma_on_path_step(pp, leaf, i);
                }
            }
            assert forall|i: int|
                0 <= i < t1.nodes@.len() implies (#[trigger] t1.nodes@[i].pos@).wf() by {
                assert(t1.nodes@[i].pos == t0.nodes@[i].pos);
                assert(t0.nodes@[i].pos@.wf());
            }
            assert(t1.nodes@[0].pos == t0.nodes@[0].pos);
            assert forall|i: int, k: int|
                0 <= i < t1.nodes@.len() && 0 <= k < t1.nodes@[i].children@.len() implies {
                let edge = #[trigger] t1.nodes@[i].children@[k];
                t1.nodes@[i].pos@.actions().contains(edge.0) && t1.nodes@[edge.1 as int].pos@
                    == t1.nodes@[i].pos@.step(edge.0)
            } by {
                assert(t1.nodes@[i].children == t0.nodes@[i].children);
                assert(t1.nodes@[i].pos == t0.nodes@[i].pos);
                let edge = t0.nodes@[i].children@[k];
                assert(t0.nodes@[i].pos@.actions().contains(edge.0) && t0.nodes@[edge.1
                    as int].pos@ == t0.nodes@[i].pos@.step(edge.0));
                assert(t1.nodes@[edge.1 as int].pos == t0.nodes@[edge.1 as int].pos);
            }
        }
    }

    /// One search iteration: select a leaf, expand it, simulate from the
    /// resulting position, and credit the results up the tree.  The root
    /// gains exactly one visit per playout.
    fn iteration(&mut self, rng: &mut rand_pcg::Pcg64)
        requires
            old(self).wf(),
            old(self).root_visits() + old(self).playouts_per_simulation <= u64::MAX,
        ensures
            final(self).wf(),
            final(self).same_config(*old(self)),
            final(self).tree.root_state == old(self).tree.root_state,
            final(self).root_visits() == old(self).root_visits() + old(self).playouts_per_simulation,
            (old(self).root_children_count() > 0 || (!old(self).tree.root_state@.terminal() && old(self).tree.root_state@.actions().len() > 0)) ==> final(self).root_children_count() > 0,
    {
        let (leaf, state) = self.select();
        let (leaf2, state2) = self.expand(leaf, state, rng);
        let results = state2.simulate(
            self.playouts_per_simulation,
            self.max_depth_per_playout,
            rng,
        );
        proof {
            lemma_on_path_zero(self.tree, leaf2 as int);
        }
        self.back_propagate(leaf2, results);
    }

    /// Run the search to its budget: a fixed number of iterations, or
    /// iterations until the clock runs out.  With `Iterations(n)` the root
    /// ends with exactly `n * playouts_per_simulation` more visits.
    pub fn run(&mut self, rng: &mut rand_pcg::Pcg64)
        requires
            old(self).wf(),
            (old(self).iteration_limit matches IterationLimitKind::Iterations(n) ==> old(self).root_visits() + n * old(self).playouts_per_simulation <= u64::MAX),
        ensures
            final(self).wf(),
            final(self).same_config(*old(self)),
            final(self).tree.root_state == old(self).tree.root_state,
            (old(self).iteration_limit matches IterationLimitKind::Iterations(n) ==> final(self).root_visits() == old(self).root_visits() + n * old(self).playouts_per_simulation),
            (old(self).iteration_limit matches IterationLimitKind::TimeSeconds(_) ==> exists|
                m: nat,
            |
                final(self).root_visits() == old(self).root_visits() + (#[trigger] (m * (old(
                    self,
                ).playouts_per_simulation as nat)))),
            ({
                let live = !old(self).tree.root_state@.terminal() && old(self).tree.root_state@.actions().len() > 0;
                let runs = old(self).iteration_limit matches IterationLimitKind::Iterations(n) && n
                    >= 1;
                (old(self).root_children_count() > 0 || (live && runs)) ==> final(self).root_children_count() > 0
            }),
    {
        let limit = self.iteration_limit;
        let ghost orig = *self;
        match limit {
            IterationLimitKind::Iterations(n) => {
                let mut it: u32 = 0;
                proof {
                    assert(0 * (orig.playouts_per_simulation as nat) == 0) by (nonlinear_arith);
                }
                while it < n
                    invariant
                        self.wf(),
                        self.same_config(orig),
                        orig.iteration_limit == IterationLimitKind::Iterations(n),
                        self.tree.root_state == orig.tree.root_state,
                        it <= n,
                        self.root_visits() == orig.root_visits() + it * (
                        orig.playouts_per_simulation as nat),
                        orig.root_visits() + n * (orig.playouts_per_simulation as nat)
                            <= u64::MAX,
                        (orig.root_children_count() > 0 || (it > 0
                            && !orig.tree.root_state@.terminal()
                            && orig.tree.root_state@.actions().len() > 0)) ==> self
                            .root_children_count() > 0,
                    decreases n - it,
                {
                    proof {
                        let k = orig.playouts_per_simulation as nat;
                        assert(((it + 1) as nat) * k == (it as nat) * k + k) by (nonlinear_arith);
                        assert(((it + 1) as nat) * k <= (n as nat) * k) by (nonlinear_arith)
                            requires
                                it + 1 <= n,
                        ;
                    }
                    self.iteration(rng);
                    it = it + 1;
                }
            },
            IterationLimitKind::TimeSeconds(seconds) => {
                let start = crate::clock::instant_now();
                proof {
                    assert(0 * (orig.playouts_per_simulation as nat) == 0) by (nonlinear_arith);
                    assert(orig.root_visits() == orig.root_visits() + 0 * (
                    orig.playouts_per_simulation as nat));
                }
                while crate::clock::elapsed_secs(&start) < seconds
                    invariant
                        self.wf(),
                        self.same_config(orig),
                        self.tree.root_state == orig.tree.root_state,
                        orig.root_children_count() > 0 ==> self.root_children_count() > 0,
                        exists|m: nat|
                            self.root_visits() == orig.root_visits() + (#[trigger] (m * (
                            orig.playouts_per_simulation as nat))),
                    decreases u64::MAX - self.tree.nodes@[0].visits,
                {
                    let root_visits = self.tree.get_root().visits;
                    let k64 = self.playouts_per_simulation as u64;
                    // counters cannot grow past their width, and a search
                    // without playouts makes no progress at all
                    if k64 == 0 || root_visits > u64::MAX - k64 {
                        break ;
                    }
                    let ghost m0 = choose|m: nat|
                        self.root_visits() == orig.root_visits() + (#[trigger] (m * (
                        orig.playouts_per_simulation as nat)));
                    self.iteration(rng);
                    proof {
                        let k = orig.playouts_per_simulation as nat;
                        assert((m0 + 1) * k == m0 * k + k) by (nonlinear_arith);
                        assert(self.root_visits() == orig.root_visits() + (m0 + 1) * k);
                    }
                }
            },
        }
    }

    /// Child `k` of the root has the most visits of any root child, and
    /// strictly more than every earlier one: it is the robust child.
    pub open spec fn is_most_visited_child(t: MctsTree, k: int) -> bool {
        let ch = t.nodes@[0].children@;
        &&& 0 <= k < ch.len()
        &&& forall|j: int|
            0 <= j < ch.len() ==> (#[trigger] t.nodes@[ch[j].1 as int].visits) <= t.nodes@[ch[k].1
                as int].visits
        &&& forall|j: int|
            0 <= j < k ==> (#[trigger] t.nodes@[ch[j].1 as int].visits) < t.nodes@[ch[k].1
                as int].visits
    }

    /// The recommended action: the action to the most-visited child of the
    /// root, or `None` when the root has no children.
    pub fn best_action(&self) -> (r: Option<GameAction>)
        requires
            self.wf(),
        ensures
            r is Some <==> self.root_children_count() > 0,
            r is Some ==> ({
                let ch = self.tree.nodes@[0].children@;
                exists|k: int|
                    #[trigger] Self::is_most_visited_child(self.tree, k) && r == Some(ch[k].0)
            }),
            r is Some ==> self.tree.root_state@.actions().contains(r.unwrap()),
    {
        let root = self.tree.get_root_nodekey();
        let n_children = self.tree.nodes[root].children.len();
        if n_children == 0 {
            return None;
        }
        let first = self.tree.nodes[root].children[0].1;
        let mut best_k: usize = 0;
        let mut best_visits = self.tree.nodes[first].visits;
        let mut j: usize = 1;
        while j < n_children
            invariant
                self.wf(),
                root == 0,
                self.tree.root == 0,
                n_children == self.tree.nodes@[0].children@.len(),
                1 <= j <= n_children,
                best_k < j,
                best_visits == self.tree.nodes@[self.tree.nodes@[0].children@[best_k as int].1
                    as int].visits,
                forall|jj: int|
                    0 <= jj < j ==> (#[trigger] self.tree.nodes@[self.tree.nodes@[0].children@[jj].1
                        as int].visits) <= best_visits,
                forall|jj: int|
                    0 <= jj < best_k ==> (#[trigger] self.tree.nodes@[self.tree.nodes@[
                    0].children@[jj].1 as int].visits) < best_visits,
            decreases n_children - j,
        {
            let child = self.tree.nodes[root].children[j].1;
            let visits = self.tree.nodes[child].visits;
            if visits > best_visits {
                best_k = j;
                best_visits = visits;
            }
            j += 1;
        }
        proof {
            assert(Self::is_most_visited_child(self.tree, best_k as int));
        }
        let edge = self.tree.nodes[root].children[best_k];
        proof {
            assert(self.tree.nodes@[0].children@[best_k as int] == edge);
            assert(self.tree.nodes@[0].pos@.actions().contains(edge.0));
        }
        Some(edge.0)
    }
}

/// Every counter respects the tree's shape: wins never exceed visits, and
/// a node is never visited more often than its parent.
pub proof fn lemma_counters_monotone(t: MctsTree, i: int)
    requires
        t.wf(),
        1 <= i < t.nodes@.len(),
    ensures
        t.nodes@[i].wins <= t.nodes@[i].visits,
        t.nodes@[i].visits <= t.nodes@[t.par(i)].visits,
{
}

/// A serializable picture of one subtree: the action that led to it, its
/// counters, and its children ordered by visits, most visited first.
pub struct TreeSnapshot {
    pub action: Option<GameAction>,
    pub visits: u64,
    pub wins: u64,
    pub children: Vec<TreeSnapshot>,
}

/// The snapshots are ordered by visits, most visited first.
pub open spec fn snapshots_sorted_desc(v: Seq<TreeSnapshot>) -> bool {
    forall|i: int, j: int| 0 <= i <= j < v.len() ==> (#[trigger] v[i].visits) >= #[trigger] v[j].visits
}

/// Insert `item` into a descending-sorted vector of snapshots, keeping the
/// order.
fn insert_snapshot_sorted(v: &mut Vec<TreeSnapshot>, item: TreeSnapshot)
    requires
        snapshots_sorted_desc(old(v)@),
    ensures
        snapshots_sorted_desc(final(v)@),
        final(v)@.len() == old(v)@.len() + 1,
{
    let mut pos: usize = 0;
    while pos < v.len() && v[pos].visits >= item.visits
        invariant
            pos <= v@.len(),
            snapshots_sorted_desc(v@),
            forall|i: int| 0 <= i < pos ==> (#[trigger] v@[i].visits) >= item.visits,
        decreases v@.len() - pos,
    {
        pos += 1;
    }
    v.insert(pos, item);
}

/// The read-only observer: a snapshot of the subtree under `node`, its
/// children sorted by visits descending.  The tree itself is untouched.
pub fn create_tree_for_serialization(
    tree: &MctsTree,
    node: usize,
    action: Option<GameAction>,
) -> (r: TreeSnapshot)
    requires
        tree.wf_links(),
        node < tree.nodes@.len(),
    ensures
        r.action == action,
        r.visits == tree.nodes@[node as int].visits,
        r.wins == tree.nodes@[node as int].wins,
        r.children@.len() == tree.nodes@[node as int].children@.len(),
        snapshots_sorted_desc(r.children@),
    decreases tree.nodes@.len() - node,
{
    let n_children = tree.nodes[node].children.len();
    let mut children: Vec<TreeSnapshot> = Vec::new();
    let mut k: usize = 0;
    while k < n_children
        invariant
            tree.wf_links(),
            node < tree.nodes@.len(),
            n_children == tree.nodes@[node as int].children@.len(),
            k <= n_children,
            children@.len() == k,
            snapshots_sorted_desc(children@),
        decreases n_children - k,
    {
        let edge = tree.nodes[node].children[k];
        let child_snapshot = create_tree_for_serialization(tree, edge.1, Some(edge.0));
        insert_snapshot_sorted(&mut children, child_snapshot);
        k += 1;
    }
    TreeSnapshot {
        action,
        visits: tree.nodes[node].visits,
        wins: tree.nodes[node].wins,
        children,
    }
}

} // verus!
