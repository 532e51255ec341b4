//! Monte Carlo tree search over an arena of nodes.
//!
//! The tree is one growable array of nodes. A node names its parent and its
//! children by their positions in that array, so nothing in the tree owns
//! anything else and the whole tree goes away with the array.

use vstd::prelude::*;
use rand::rngs::StdRng;
use crate::board::{
    cells, check_for_winners, empty_cells, find_empty_fields, is_full, is_game_active,
    lemma_empty_cells, lemma_move_fills_a_cell, opponent, Board, FieldData,
};
use crate::playout::{is_playout, is_rollout_reward, lemma_playout_goes_on, mover, play};
use crate::random::{choose_one, random_bot_move};
use crate::search::{
    is_mcts_move, is_search, is_search_step, lemma_mcts_move_is_legal, lemma_search_begins,
    lemma_search_goes_on, lemma_search_invariant, root_tree,
};
use crate::ucb::{lemma_visited_scores_below_unvisited, ucb, ucb_score};

verus! {

/// The first empty cell of a board, or 0 if the board is full.
pub open spec fn first_empty_cell(c: Seq<FieldData>) -> usize {
    if empty_cells(c).len() > 0 {
        empty_cells(c)[0]
    } else {
        0
    }
}

/// A position reached in the search, with what was learned about it.
#[derive(Debug, Clone)]
pub struct Node {
    /// Position of the parent in the arena; `None` for the root.
    pub parent: Option<usize>,
    /// Positions of the children in the arena, in the order they were added.
    pub children: Vec<usize>,
    /// Sum of the rewards of the playouts that passed through this node.
    pub value: i64,
    /// Number of playouts that passed through this node.
    pub visits: u32,
    /// The board at this node.
    pub state: Board,
    /// The cell that was marked to get here from the parent; `None` for the root.
    pub action: Option<usize>,
    /// Position of this node in the arena.
    pub id: usize,
}

/// The arena: all nodes of one search.
#[derive(Debug)]
pub struct Tree {
    pub nodes: Vec<Node>,
    pub root: usize,
}

/// A node as a mathematical value.
pub struct NodeView {
    pub parent: Option<usize>,
    pub children: Seq<usize>,
    pub value: int,
    pub visits: nat,
    pub state: Seq<FieldData>,
    pub action: Option<usize>,
    pub id: usize,
}

/// A tree as a mathematical value: the sequence of its nodes.
pub struct TreeView {
    pub nodes: Seq<NodeView>,
    pub root: usize,
}

impl View for Node {
    type V = NodeView;

    open spec fn view(&self) -> NodeView {
        NodeView {
            parent: self.parent,
            children: self.children@,
            value: self.value as int,
            visits: self.visits as nat,
            state: cells(self.state),
            action: self.action,
            id: self.id,
        }
    }
}

impl View for Tree {
    type V = TreeView;

    open spec fn view(&self) -> TreeView {
        TreeView { nodes: Seq::new(self.nodes@.len(), |i: int| self.nodes@[i]@), root: self.root }
    }
}

impl NodeView {
    /// The node after one more playout with the given reward passed through it.
    pub open spec fn visited(self, reward: int) -> NodeView {
        NodeView { visits: self.visits + 1, value: self.value + reward, ..self }
    }

    /// The node can be appended to an arena of `len` nodes: it names a parent
    /// in that arena, names `len` as its own position, and has no children
    /// yet.
    pub open spec fn is_leaf_for(self, len: nat) -> bool {
        &&& self.parent matches Some(p)
        &&& p < len
        &&& self.children.len() == 0
        &&& self.state.len() == 9
        &&& self.id == len
    }

    /// The node can be the root of a new tree: it names no parent, stands at
    /// position 0 and has no children.
    pub open spec fn is_root(self) -> bool {
        &&& self.parent is None
        &&& self.children.len() == 0
        &&& self.state.len() == 9
        &&& self.id == 0
    }
}

impl TreeView {
    /// The arena is a tree: the first node is the only root, every node sits
    /// at the position that its `id` names, every other node comes after its
    /// parent and is listed among its parent's children, and every child
    /// listed comes after the node that lists it and names it as its parent.
    pub open spec fn wf(self) -> bool {
        &&& self.nodes.len() >= 1
        &&& self.root == 0
        &&& self.nodes[0].parent is None
        &&& forall|i: int|
            0 <= i < self.nodes.len() ==> {
                &&& (#[trigger] self.nodes[i]).id == i
                &&& self.nodes[i].state.len() == 9
            }
        &&& forall|i: int|
            1 <= i < self.nodes.len() ==> {
                &&& (#[trigger] self.nodes[i]).parent matches Some(p)
                &&& p < i
                &&& self.nodes[p as int].children.contains(i as usize)
            }
        &&& forall|i: int, k: int|
            0 <= i < self.nodes.len() && 0 <= k < self.nodes[i].children.len() ==> {
                &&& i < (#[trigger] self.nodes[i].children[k]) < self.nodes.len()
                &&& self.nodes[self.nodes[i].children[k] as int].parent == Some(i as usize)
            }
    }

    /// The node whose visits count as the parent's when node `i` is scored:
    /// its parent, or the root if it names none.
    pub open spec fn scoring_parent(self, i: int) -> int {
        match self.nodes[i].parent {
            None => self.root as int,
            Some(p) => p as int,
        }
    }

    /// The UCB1 score of node `i`.
    pub open spec fn score(self, i: int) -> int {
        ucb_score(
            self.nodes[i].value,
            self.nodes[i].visits,
            self.nodes[self.scoring_parent(i)].visits,
        )
    }

    /// Among the first `k` children of node `i`, the one with the highest
    /// score, and of several such the one that was added first.
    pub open spec fn best_child_among(self, i: int, k: int) -> usize
        decreases k,
    {
        let children = self.nodes[i].children;
        if k <= 1 {
            children[0]
        } else {
            let best = self.best_child_among(i, k - 1);
            if self.score(children[k - 1] as int) > self.score(best as int) {
                children[k - 1]
            } else {
                best
            }
        }
    }

    /// The child of node `i` with the highest score, and of several such the
    /// one that was added first.
    pub open spec fn best_child(self, i: int) -> usize {
        self.best_child_among(i, self.nodes[i].children.len() as int)
    }

    /// The leaf that selection reaches from node `i`: it goes from each node
    /// to its best child until it meets a node without children.
    pub open spec fn select(self, i: int) -> int
        decreases self.nodes.len() - i,
    {
        if i < 0 || i >= self.nodes.len() || self.nodes[i].children.len() == 0 {
            i
        } else {
            let child = self.best_child(i) as int;
            if i < child < self.nodes.len() {
                self.select(child)
            } else {
                i
            }
        }
    }

    /// The move to play at node `i`: the action of its best child. A node
    /// without children has no best child: there the move is the first empty
    /// cell of its board, or 0 if the board is full. A best child that
    /// records no action gives 0.
    pub open spec fn best_action(self, i: int) -> usize {
        if self.nodes[i].children.len() == 0 {
            first_empty_cell(self.nodes[i].state)
        } else {
            match self.nodes[self.best_child(i) as int].action {
                Some(action) => action,
                None => 0,
            }
        }
    }

    /// The child that expansion of node `i` makes for the empty cell `cell`,
    /// to stand at position `id`: the board of node `i` with `mark` on that
    /// cell, never visited and without children.
    pub open spec fn new_child(self, i: int, cell: usize, mark: FieldData, id: usize) -> NodeView {
        NodeView {
            parent: Some(self.nodes[i].id),
            children: Seq::empty(),
            value: 0,
            visits: 0,
            state: self.nodes[i].state.update(cell as int, mark),
            action: Some(cell),
            id,
        }
    }

    /// The tree after children were inserted below node `i` for the first `k`
    /// empty cells of its board.
    pub open spec fn expand_first(self, i: int, mark: FieldData, k: int) -> TreeView
        decreases k,
    {
        if k <= 0 {
            self
        } else {
            let before = self.expand_first(i, mark, k - 1);
            before.insert(
                self.new_child(
                    i,
                    empty_cells(self.nodes[i].state)[k - 1],
                    mark,
                    before.nodes.len() as usize,
                ),
            )
        }
    }

    /// The tree after node `i` was expanded: one child was inserted below it
    /// for each empty cell of its board, in the order of the cells.
    pub open spec fn expand(self, i: int, mark: FieldData) -> TreeView {
        self.expand_first(i, mark, empty_cells(self.nodes[i].state).len() as int)
    }

    /// `picked` may come out of the expansion of node `i`: one of the children
    /// made, or `i` itself if its board has no empty cell.
    pub open spec fn is_expansion_pick(self, i: int, picked: int) -> bool {
        let made = empty_cells(self.nodes[i].state).len();
        if made == 0 {
            picked == i
        } else {
            self.nodes.len() <= picked < self.nodes.len() + made
        }
    }

    /// The counters of every node are in the range of their machine types.
    pub open spec fn counters_fit(self) -> bool {
        forall|i: int|
            0 <= i < self.nodes.len() ==> {
                &&& (#[trigger] self.nodes[i]).visits <= u32::MAX
                &&& i64::MIN <= self.nodes[i].value <= i64::MAX
            }
    }

    /// Every counter of the tree has room for one more playout.
    pub open spec fn has_room(self) -> bool {
        forall|i: int|
            0 <= i < self.nodes.len() ==> {
                &&& (#[trigger] self.nodes[i]).visits < u32::MAX
                &&& i64::MIN + 10 <= self.nodes[i].value <= i64::MAX - 10
            }
    }

    /// Whether node `i` lies on the way from node `from` up to the root, both
    /// ends included.
    pub open spec fn on_path(self, from: int, i: int) -> bool
        decreases from,
    {
        if from < 0 || from >= self.nodes.len() {
            false
        } else if i == from {
            true
        } else {
            match self.nodes[from].parent {
                Some(p) => p < from && self.on_path(p as int, i),
                None => false,
            }
        }
    }

    /// The tree after a playout from node `from` with the given reward was
    /// recorded: every node on the way from `from` up to the root has one
    /// more visit and the reward added to its value; nothing else changes.
    pub open spec fn backprop(self, from: int, reward: int) -> TreeView {
        TreeView {
            nodes: Seq::new(
                self.nodes.len(),
                |i: int|
                    if self.on_path(from, i) {
                        self.nodes[i].visited(reward)
                    } else {
                        self.nodes[i]
                    },
            ),
            root: self.root,
        }
    }

    /// Exactly the first node names no parent, and every other node names a
    /// parent in the arena that lists it among its children.
    pub open spec fn has_one_root(self) -> bool {
        &&& self.nodes.len() >= 1
        &&& self.nodes[0].parent is None
        &&& forall|i: int|
            1 <= i < self.nodes.len() ==> {
                &&& (#[trigger] self.nodes[i]).parent matches Some(p)
                &&& p < self.nodes.len()
                &&& self.nodes[p as int].children.contains(i as usize)
            }
    }

    /// The tree after `node` was appended to the arena and listed as the last
    /// child of the parent it names.
    pub open spec fn insert(self, node: NodeView) -> TreeView {
        let appended = self.nodes.push(node);
        let at = node.parent->0 as int;
        TreeView {
            nodes: if node.parent is Some && at < self.nodes.len() {
                appended.update(
                    at,
                    NodeView {
                        children: self.nodes[at].children.push(self.nodes.len() as usize),
                        ..self.nodes[at]
                    },
                )
            } else {
                appended
            },
            root: self.root,
        }
    }
}

/// Inserting a node that names a parent in the arena leaves one root, and
/// every node but the root listed at its parent.
pub proof fn lemma_insert_keeps_one_root(tree: TreeView, node: NodeView)
    requires
        tree.has_one_root(),
        node.parent matches Some(p) && p < tree.nodes.len(),
        tree.nodes.len() < usize::MAX,
    ensures
        tree.insert(node).has_one_root(),
{
    let after = tree.insert(node);
    let at = node.parent->0 as int;
    let n = tree.nodes.len() as int;
    assert forall|i: int| 1 <= i < after.nodes.len() implies {
        &&& (#[trigger] after.nodes[i]).parent matches Some(p)
        &&& p < after.nodes.len()
        &&& after.nodes[p as int].children.contains(i as usize)
    } by {
        if i < n {
            assert(after.nodes[i].parent == tree.nodes[i].parent);
            let p = tree.nodes[i].parent->0;
            assert(tree.nodes[p as int].children.contains(i as usize));
            let k = choose|k: int|
                0 <= k < tree.nodes[p as int].children.len() && tree.nodes[p as int].children[k]
                    == i as usize;
            assert(after.nodes[p as int].children[k] == i as usize);
        } else {
            let last = after.nodes[at].children.len() - 1;
            assert(after.nodes[at].children[last] == i as usize);
        }
    }
}

/// Inserting a new leaf below a node of a tree gives a tree.
pub proof fn lemma_insert_keeps_tree(tree: TreeView, node: NodeView)
    requires
        tree.wf(),
        node.is_leaf_for(tree.nodes.len()),
        tree.nodes.len() < usize::MAX,
    ensures
        tree.insert(node).wf(),
{
    let after = tree.insert(node);
    let at = node.parent->0 as int;
    let n = tree.nodes.len() as int;
    assert forall|i: int| 1 <= i < after.nodes.len() implies {
        &&& (#[trigger] after.nodes[i]).parent matches Some(p)
        &&& p < i
        &&& after.nodes[p as int].children.contains(i as usize)
    } by {
        if i < n {
            let p = tree.nodes[i].parent->0;
            assert(tree.nodes[p as int].children.contains(i as usize));
            let k = choose|k: int|
                0 <= k < tree.nodes[p as int].children.len() && tree.nodes[p as int].children[k]
                    == i as usize;
            assert(after.nodes[p as int].children[k] == i as usize);
        } else {
            let last = after.nodes[at].children.len() - 1;
            assert(after.nodes[at].children[last] == i as usize);
        }
    }
    assert forall|i: int, k: int|
        0 <= i < after.nodes.len() && 0 <= k < after.nodes[i].children.len() implies {
        &&& i < (#[trigger] after.nodes[i].children[k]) < after.nodes.len()
        &&& after.nodes[after.nodes[i].children[k] as int].parent == Some(i as usize)
    } by {
        if i < n && !(i == at && k == tree.nodes[i].children.len()) {
            assert(after.nodes[i].children[k] == tree.nodes[i].children[k]);
        }
    }
}

/// A node on the way from `from` to the root is `from` or comes before it.
pub proof fn lemma_path_goes_down(tree: TreeView, from: int, i: int)
    requires
        tree.on_path(from, i),
    ensures
        0 <= i <= from < tree.nodes.len(),
    decreases from,
{
    if i != from {
        lemma_path_goes_down(tree, tree.nodes[from].parent->0 as int, i);
    }
}

/// The way to the root is one chain: of two nodes on it, the earlier one lies
/// on the way from the later one to the root.
pub proof fn lemma_path_is_a_chain(tree: TreeView, from: int, a: int, j: int)
    requires
        tree.on_path(from, a),
        tree.on_path(from, j),
        j <= a,
    ensures
        tree.on_path(a, j),
    decreases from,
{
    lemma_path_goes_down(tree, from, a);
    if a != from {
        lemma_path_is_a_chain(tree, tree.nodes[from].parent->0 as int, a, j);
    }
}

/// The way to the root goes on from each node on it to that node's parent.
pub proof fn lemma_path_continues(tree: TreeView, from: int, a: int)
    requires
        tree.on_path(from, a),
        tree.nodes[a].parent is Some,
        tree.nodes[a].parent->0 < a,
    ensures
        tree.on_path(from, tree.nodes[a].parent->0 as int),
    decreases from,
{
    lemma_path_goes_down(tree, from, a);
    let p = tree.nodes[a].parent->0 as int;
    if a != from {
        lemma_path_continues(tree, tree.nodes[from].parent->0 as int, a);
    } else {
        assert(tree.on_path(p, p));
    }
}

/// In a tree every way up ends at the root.
pub proof fn lemma_root_is_on_every_path(tree: TreeView, from: int)
    requires
        tree.wf(),
        0 <= from < tree.nodes.len(),
    ensures
        tree.on_path(from, 0),
    decreases from,
{
    if from != 0 {
        lemma_root_is_on_every_path(tree, tree.nodes[from].parent->0 as int);
    }
}

/// Recording a playout changes no link of a tree: it stays a tree.
pub proof fn lemma_backprop_keeps_tree(tree: TreeView, from: int, reward: int)
    requires
        tree.wf(),
    ensures
        tree.backprop(from, reward).wf(),
{
    let after = tree.backprop(from, reward);
    assert forall|i: int| 0 <= i < after.nodes.len() implies {
        &&& (#[trigger] after.nodes[i]).id == i
        &&& after.nodes[i].state.len() == 9
    } by {
        assert(tree.nodes[i].id == i);
    }
    assert forall|i: int| 1 <= i < after.nodes.len() implies {
        &&& (#[trigger] after.nodes[i]).parent matches Some(p)
        &&& p < i
        &&& after.nodes[p as int].children.contains(i as usize)
    } by {
        let p = tree.nodes[i].parent->0;
        assert(tree.nodes[p as int].children.contains(i as usize));
        assert(after.nodes[p as int].children == tree.nodes[p as int].children);
    }
    assert forall|i: int, k: int|
        0 <= i < after.nodes.len() && 0 <= k < after.nodes[i].children.len() implies {
        &&& i < (#[trigger] after.nodes[i].children[k]) < after.nodes.len()
        &&& after.nodes[after.nodes[i].children[k] as int].parent == Some(i as usize)
    } by {
        assert(after.nodes[i].children[k] == tree.nodes[i].children[k]);
    }
}

/// What `best_child_among` picks: one of the first `k` children, whose score
/// none of them exceeds and none before it equals.
pub proof fn lemma_best_child_among(tree: TreeView, i: int, k: int)
    requires
        1 <= k <= tree.nodes[i].children.len(),
    ensures
        exists|j: int|
            0 <= j < k && #[trigger] tree.nodes[i].children[j] == tree.best_child_among(i, k) && {
                &&& forall|m: int|
                    0 <= m < k ==> tree.score(#[trigger] tree.nodes[i].children[m] as int)
                        <= tree.score(tree.nodes[i].children[j] as int)
                &&& forall|m: int|
                    0 <= m < j ==> tree.score(#[trigger] tree.nodes[i].children[m] as int)
                        < tree.score(tree.nodes[i].children[j] as int)
            },
    decreases k,
{
    if k > 1 {
        lemma_best_child_among(tree, i, k - 1);
        let children = tree.nodes[i].children;
        let best = tree.best_child_among(i, k - 1);
        let j0 = choose|j: int|
            0 <= j < k - 1 && #[trigger] children[j] == best && {
                &&& forall|m: int|
                    0 <= m < k - 1 ==> tree.score(#[trigger] children[m] as int) <= tree.score(
                        children[j] as int,
                    )
                &&& forall|m: int|
                    0 <= m < j ==> tree.score(#[trigger] children[m] as int) < tree.score(
                        children[j] as int,
                    )
            };
        if tree.score(children[k - 1] as int) > tree.score(best as int) {
            assert(children[k - 1] == tree.best_child_among(i, k));
        } else {
            assert(children[j0] == tree.best_child_among(i, k));
        }
    } else {
        assert(tree.nodes[i].children[0] == tree.best_child_among(i, k));
    }
}

/// In a tree the best child of a node with children is one of its children.
pub proof fn lemma_best_child_is_a_child(tree: TreeView, i: int)
    requires
        tree.wf(),
        0 <= i < tree.nodes.len(),
        tree.nodes[i].children.len() > 0,
    ensures
        tree.nodes[i].children.contains(tree.best_child(i)),
        i < tree.best_child(i) < tree.nodes.len(),
        tree.nodes[tree.best_child(i) as int].parent == Some(i as usize),
{
    lemma_best_child_among(tree, i, tree.nodes[i].children.len() as int);
}

/// A child that was never visited is preferred to every visited one: below
/// a visited node that has an unvisited child, the best child is unvisited.
pub proof fn lemma_unvisited_child_is_preferred(tree: TreeView, i: int, k: int)
    requires
        tree.wf(),
        tree.counters_fit(),
        0 <= i < tree.nodes.len(),
        tree.nodes[i].visits > 0,
        0 <= k < tree.nodes[i].children.len(),
        tree.nodes[tree.nodes[i].children[k] as int].visits == 0,
    ensures
        tree.nodes[tree.best_child(i) as int].visits == 0,
{
    lemma_best_child_among(tree, i, tree.nodes[i].children.len() as int);
    lemma_best_child_is_a_child(tree, i);
    let best = tree.best_child(i) as int;
    let unvisited = tree.nodes[i].children[k] as int;
    assert(tree.score(unvisited) <= tree.score(best));
    if tree.nodes[best].visits > 0 {
        lemma_visited_scores_below_unvisited(
            tree.nodes[best].value,
            tree.nodes[best].visits,
            tree.nodes[i].visits,
        );
    }
}

/// In a tree selection ends at a node of the tree that has no children.
pub proof fn lemma_select_reaches_a_leaf(tree: TreeView, i: int)
    requires
        tree.wf(),
        0 <= i < tree.nodes.len(),
    ensures
        i <= tree.select(i) < tree.nodes.len(),
        tree.nodes[tree.select(i)].children.len() == 0,
    decreases tree.nodes.len() - i,
{
    if tree.nodes[i].children.len() > 0 {
        lemma_best_child_is_a_child(tree, i);
        lemma_select_reaches_a_leaf(tree, tree.best_child(i) as int);
    }
}

/// Expansion appends one node for each child it makes.
pub proof fn lemma_expand_first_len(tree: TreeView, i: int, mark: FieldData, k: int)
    requires
        0 <= k,
    ensures
        tree.expand_first(i, mark, k).nodes.len() == tree.nodes.len() + k,
    decreases k,
{
    if k > 0 {
        lemma_expand_first_len(tree, i, mark, k - 1);
    }
}

/// What the expansion of a node of a tree gives: a tree that holds the old
/// nodes, with the new children listed after the old ones at node `i` and
/// nothing else changed, followed by the new children in the order of the
/// empty cells.
pub proof fn lemma_expand_first(tree: TreeView, i: int, mark: FieldData, k: int)
    requires
        tree.wf(),
        0 <= i < tree.nodes.len(),
        0 <= k <= empty_cells(tree.nodes[i].state).len(),
        tree.nodes.len() + k <= usize::MAX,
    ensures
        tree.expand_first(i, mark, k).wf(),
        tree.expand_first(i, mark, k).nodes.len() == tree.nodes.len() + k,
        forall|j: int|
            0 <= j < tree.nodes.len() && j != i ==> #[trigger] tree.expand_first(
                i,
                mark,
                k,
            ).nodes[j] == tree.nodes[j],
        tree.expand_first(i, mark, k).nodes[i] == (NodeView {
            children: tree.nodes[i].children + Seq::new(
                k as nat,
                |m: int| (tree.nodes.len() + m) as usize,
            ),
            ..tree.nodes[i]
        }),
        forall|m: int|
            0 <= m < k ==> #[trigger] tree.expand_first(i, mark, k).nodes[tree.nodes.len() + m]
                == tree.new_child(
                i,
                empty_cells(tree.nodes[i].state)[m],
                mark,
                (tree.nodes.len() + m) as usize,
            ),
    decreases k,
{
    if k > 0 {
        lemma_expand_first(tree, i, mark, k - 1);
        lemma_empty_cells(tree.nodes[i].state);
        let before = tree.expand_first(i, mark, k - 1);
        let child = tree.new_child(
            i,
            empty_cells(tree.nodes[i].state)[k - 1],
            mark,
            before.nodes.len() as usize,
        );
        let after = tree.expand_first(i, mark, k);
        assert(after == before.insert(child));
        assert(tree.nodes[i].id == i);
        assert(child.is_leaf_for(before.nodes.len()));
        lemma_insert_keeps_tree(before, child);
        assert(after.nodes[i].children =~= tree.nodes[i].children + Seq::new(
            k as nat,
            |m: int| (tree.nodes.len() + m) as usize,
        ));
    }
}

impl Node {
    /// A node that was never visited and has no children.
    pub fn new(parent: Option<usize>, state: Board, id: usize, action: Option<usize>) -> (node:
        Node)
        ensures
            node@ == (NodeView {
                parent,
                children: Seq::empty(),
                value: 0,
                visits: 0,
                state: cells(state),
                action,
                id,
            }),
            node.state == state,
    {
        Node { parent, children: Vec::new(), value: 0, visits: 0, state, action, id }
    }
}

impl Tree {
    /// A tree that holds `root` and nothing else.
    pub fn initialize(root: Node) -> (tree: Tree)
        requires
            root@.is_root(),
        ensures
            tree@ == (TreeView { nodes: seq![root@], root: 0 }),
            tree.nodes@ == seq![root],
            tree@.wf(),
    {
        let mut nodes = Vec::new();
        nodes.push(root);
        let tree = Tree { nodes, root: 0 };
        assert(tree@.nodes =~= seq![root@]);
        tree
    }

    /// Appends `node` to the arena and lists it as the last child of the
    /// parent it names.
    ///
    /// The node must be a leaf for the end of the arena: it names a parent
    /// in the arena and the position it will stand at, and has no children.
    /// So the first node stays the only one without a parent, and every
    /// other node, the new one included, is listed at the parent it names.
    pub fn insert_new_node(&mut self, node: Node)
        requires
            node@.is_leaf_for(old(self).nodes@.len()),
        ensures
            final(self)@ == old(self)@.insert(node@),
            final(self).nodes@.len() == old(self).nodes@.len() + 1,
            old(self)@.has_one_root() ==> final(self)@.has_one_root(),
            old(self)@.wf() ==> final(self)@.wf(),
    {
        let parent_index = match node.parent {
            Some(x) => x,
            None => vstd::pervasive::unreached(),
        };
        let new_node_index = self.nodes.len();
        self.nodes.push(node);
        self.nodes[parent_index].children.push(new_node_index);
        proof {
            assert(self.nodes.len() <= usize::MAX);
            assert(self@.nodes =~= old(self)@.insert(node@).nodes);
            if old(self)@.has_one_root() {
                lemma_insert_keeps_one_root(old(self)@, node@);
            }
            if old(self)@.wf() {
                lemma_insert_keeps_tree(old(self)@, node@);
            }
        }
    }

    /// Records a playout from node `node_index` with the reward `value`: every
    /// node on the way from there up to the root gets one more visit and the
    /// reward added to its value. A `node_index` outside the arena records
    /// nothing.
    pub fn back_propagate(&mut self, node_index: usize, value: i32)
        requires
            old(self)@.wf(),
            forall|i: int|
                0 <= i < old(self)@.nodes.len() && old(self)@.on_path(node_index as int, i) ==> {
                    &&& (#[trigger] old(self)@.nodes[i]).visits < u32::MAX
                    &&& i64::MIN <= old(self)@.nodes[i].value + value <= i64::MAX
                },
        ensures
            final(self)@ == old(self)@.backprop(node_index as int, value as int),
            final(self)@.wf(),
    {
        let ghost start = self@;
        let mut index = node_index;
        let mut climbing = index < self.nodes.len();
        proof {
            assert forall|i: int| start.on_path(node_index as int, i) implies i <= node_index by {
                lemma_path_goes_down(start, node_index as int, i);
            }
        }
        while climbing
            invariant
                start == old(self)@,
                start.wf(),
                self@.nodes.len() == start.nodes.len(),
                self.root == start.root,
                climbing ==> index < start.nodes.len() && start.on_path(
                    node_index as int,
                    index as int,
                ),
                !climbing ==> index >= start.nodes.len() || forall|i: int|
                    start.on_path(node_index as int, i) ==> i >= index,
                forall|i: int|
                    0 <= i < start.nodes.len() && start.on_path(node_index as int, i) ==> {
                        &&& (#[trigger] start.nodes[i]).visits < u32::MAX
                        &&& i64::MIN <= start.nodes[i].value + value <= i64::MAX
                    },
                forall|i: int|
                    0 <= i < start.nodes.len() ==> #[trigger] self@.nodes[i] == if start.on_path(
                        node_index as int,
                        i,
                    ) && (!climbing || i > index) {
                        start.nodes[i].visited(value as int)
                    } else {
                        start.nodes[i]
                    },
            decreases
                if climbing {
                    index + 1
                } else {
                    0
                },
        {
            let ghost before = self@;
            let ghost at = index as int;
            assert(before.nodes[at] == start.nodes[at]);
            self.nodes[index].visits += 1;
            self.nodes[index].value += value as i64;
            let parent = self.nodes[index].parent;
            assert(self@.nodes[index as int] == start.nodes[index as int].visited(value as int));
            assert forall|i: int| 0 <= i < start.nodes.len() && i != at implies #[trigger] self@
                .nodes[i] == before.nodes[i] by {}
            proof {
                assert forall|i: int|
                    start.on_path(node_index as int, i) && i < index implies parent is Some && i
                    <= parent->0 by {
                    lemma_path_is_a_chain(start, node_index as int, index as int, i);
                    lemma_path_goes_down(start, parent->0 as int, i);
                }
                if parent is Some {
                    lemma_path_continues(start, node_index as int, index as int);
                }
            }
            match parent {
                Some(parent_index) => {
                    index = parent_index;
                },
                None => {
                    climbing = false;
                },
            }
            assert forall|i: int| 0 <= i < start.nodes.len() implies #[trigger] self@.nodes[i]
                == if start.on_path(node_index as int, i) && (!climbing || i > index) {
                start.nodes[i].visited(value as int)
            } else {
                start.nodes[i]
            } by {
                if i != at {
                    assert(self@.nodes[i] == before.nodes[i]);
                }
            }
        }
        proof {
            if node_index < start.nodes.len() {
                assert forall|i: int|
                    start.on_path(node_index as int, i) implies 0 <= i < start.nodes.len() by {
                    lemma_path_goes_down(start, node_index as int, i);
                }
            }
            assert(self@.nodes =~= start.backprop(node_index as int, value as int).nodes);
            lemma_backprop_keeps_tree(start, node_index as int, value as int);
        }
    }
    /// The child of node `node_index` with the highest UCB1 score; of several
    /// such the one that was added first.
    pub fn best_child(&self, node_index: usize) -> (index_of_max: usize)
        requires
            self@.wf(),
            node_index < self.nodes@.len(),
            self.nodes@[node_index as int].children@.len() > 0,
        ensures
            index_of_max == self@.best_child(node_index as int),
            node_index < index_of_max < self.nodes@.len(),
    {
        proof {
            lemma_best_child_is_a_child(self@, node_index as int);
        }
        let node_children = &self.nodes[node_index].children;
        let mut index_of_max = node_children[0];
        assert(index_of_max == self@.nodes[node_index as int].children[0]);
        let mut max_ucb = calculate_ucb(index_of_max, self);
        let mut k: usize = 1;
        while k < node_children.len()
            invariant
                self@.wf(),
                node_index < self.nodes@.len(),
                node_children@ == self@.nodes[node_index as int].children,
                1 <= k <= node_children@.len(),
                index_of_max == self@.best_child_among(node_index as int, k as int),
                max_ucb == self@.score(index_of_max as int),
            decreases node_children@.len() - k,
        {
            let child = node_children[k];
            assert(child == self@.nodes[node_index as int].children[k as int]);
            let ucb = calculate_ucb(child, self);
            if ucb > max_ucb {
                index_of_max = child;
                max_ucb = ucb;
            }
            k += 1;
        }
        index_of_max
    }

    /// The move to play at node `node_index`: the action of its child with the
    /// highest UCB1 score, of several such the one added first. At a node
    /// without children it is the first empty cell of the node's board, or 0
    /// if that board is full.
    pub fn get_best_action(&self, node_index: usize) -> (action: usize)
        requires
            self@.wf(),
            node_index < self.nodes@.len(),
        ensures
            action == self@.best_action(node_index as int),
    {
        if self.nodes[node_index].children.len() == 0 {
            let empty_fields = find_empty_fields(&self.nodes[node_index].state);
            return if empty_fields.len() > 0 {
                empty_fields[0]
            } else {
                0
            };
        }
        let index_of_max = self.best_child(node_index);
        match self.nodes[index_of_max].action {
            Some(x) => x,
            None => 0,
        }
    }
}

/// The UCB1 score of node `node_index`, with the visits of its parent, or of
/// the root if it names no parent, as the parent's visits.
pub fn calculate_ucb(node_index: usize, tree: &Tree) -> (score: i128)
    requires
        node_index < tree.nodes@.len(),
        0 <= tree@.scoring_parent(node_index as int) < tree.nodes@.len(),
    ensures
        score == tree@.score(node_index as int),
{
    let node = &tree.nodes[node_index];
    let index = match node.parent {
        None => tree.root,
        Some(x) => x,
    };
    assert(tree@.nodes[node_index as int] == node@);
    assert(tree@.nodes[index as int] == tree.nodes@[index as int]@);
    ucb(node.value, node.visits, tree.nodes[index].visits)
}

/// The leaf that selection reaches from the root.
pub fn selection(tree: &Tree) -> (leaf: usize)
    requires
        tree@.wf(),
    ensures
        leaf == tree@.select(tree.root as int),
        leaf < tree.nodes@.len(),
        tree.nodes@[leaf as int].children@.len() == 0,
{
    _selection(tree.root, tree)
}

/// The leaf that selection reaches from node `current_index`: it goes from
/// each node to its child with the highest UCB1 score, of several such the one
/// added first, until it meets a node without children.
pub fn _selection(current_index: usize, tree: &Tree) -> (leaf: usize)
    requires
        tree@.wf(),
        current_index < tree.nodes@.len(),
    ensures
        leaf == tree@.select(current_index as int),
        current_index <= leaf < tree.nodes@.len(),
        tree.nodes@[leaf as int].children@.len() == 0,
    decreases tree.nodes@.len() - current_index,
{
    if tree.nodes[current_index].children.len() == 0 {
        return current_index;
    }
    let index_of_max = tree.best_child(current_index);
    _selection(index_of_max, tree)
}

/// Plays random moves from the board of node `node_index` until the game is
/// over, `player` beginning, and returns what the finished game is worth to
/// `player`. The tree is left as it is: the moves are made on a copy of the
/// node's board.
pub fn rollout(node_index: usize, tree: &mut Tree, player: &FieldData, rng: &mut StdRng) -> (value:
    i32)
    requires
        node_index < old(tree).nodes@.len(),
        *player !is Empty,
    ensures
        *final(tree) == *old(tree),
        is_rollout_reward(old(tree)@.nodes[node_index as int].state, *player, value as int),
        value == -10 || value == 0 || value == 10,
{
    let mut new_state = tree.nodes[node_index].state;
    let ghost start = cells(new_state);
    let ghost mut moves: Seq<usize> = Seq::empty();
    let mut next = *player;
    while is_game_active(&new_state)
        invariant
            *player !is Empty,
            is_playout(start, *player, moves),
            cells(new_state) == play(start, *player, moves),
            next == mover(*player, moves.len() as int),
        decreases empty_cells(cells(new_state)).len(),
    {
        let bot_move = random_bot_move(&new_state, rng);
        let ghost before = cells(new_state);
        proof {
            lemma_playout_goes_on(start, *player, moves, bot_move);
            lemma_move_fills_a_cell(before, bot_move as int, next);
            moves = moves.push(bot_move);
        }
        new_state[bot_move / 3][bot_move % 3] = next;
        assert(cells(new_state) == before.update(bot_move as int, next));
        next = opponent(next);
    }
    let won = check_for_winners(&new_state);
    if won == FieldData::Empty {
        0
    } else if won == *player {
        10
    } else {
        -10
    }
}

/// Expands node `node_index`: for each empty cell of its board, in the order
/// of the cells, a child is inserted whose board has `player`'s mark on that
/// cell. Returns one of the new children, picked at random, or `node_index`
/// if the board has no empty cell.
pub fn node_expansion(
    node_index: usize,
    tree: &mut Tree,
    player: &FieldData,
    rng: &mut StdRng,
) -> (picked: usize)
    requires
        old(tree)@.wf(),
        node_index < old(tree).nodes@.len(),
        *player !is Empty,
    ensures
        final(tree)@ == old(tree)@.expand(node_index as int, *player),
        final(tree)@.wf(),
        old(tree)@.is_expansion_pick(node_index as int, picked as int),
        picked < final(tree).nodes@.len(),
{
    let ghost start = tree@;
    let (parent_id, state) = {
        let node = &tree.nodes[node_index];
        (node.id, node.state)
    };
    assert(start.nodes[node_index as int] == tree.nodes@[node_index as int]@);
    let empty_fields = find_empty_fields(&state);
    let mut children_ids: Vec<usize> = Vec::new();
    let mut j: usize = 0;
    while j < empty_fields.len()
        invariant
            start.wf(),
            node_index < start.nodes.len(),
            parent_id == node_index,
            cells(state) == start.nodes[node_index as int].state,
            empty_fields@ == empty_cells(cells(state)),
            j <= empty_fields@.len(),
            tree@ == start.expand_first(node_index as int, *player, j as int),
            tree.nodes@.len() == start.nodes.len() + j,
            children_ids@.len() == j,
            forall|m: int| 0 <= m < j ==> #[trigger] children_ids@[m] == start.nodes.len() + m,
        decreases empty_fields@.len() - j,
    {
        let empty_index = empty_fields[j];
        proof {
            lemma_empty_cells(cells(state));
        }
        let mut new_state = state;
        new_state[empty_index / 3][empty_index % 3] = *player;
        assert(cells(new_state) == cells(state).update(empty_index as int, *player));
        let child_id = tree.nodes.len();
        let new_node = Node::new(Some(parent_id), new_state, child_id, Some(empty_index));
        children_ids.push(child_id);
        tree.insert_new_node(new_node);
        j += 1;
    }
    proof {
        assert(tree.nodes.len() <= usize::MAX);
        lemma_expand_first(start, node_index as int, *player, j as int);
    }
    match choose_one(&children_ids, rng) {
        Some(id) => {
            let ghost m = choose|m: int| 0 <= m < children_ids@.len() && children_ids@[m] == id;
            assert(children_ids@[m] == start.nodes.len() + m);
            id
        },
        None => node_index,
    }
}

/// Searches the board for `budget` steps and returns the move that the tree
/// then holds as the best one for `player` at its root.
///
/// Each step selects a leaf. A leaf that was never visited is evaluated by a
/// playout; any other leaf is expanded, and a new child, picked at random, is
/// evaluated by a playout. The reward of the playout is recorded on the way
/// from the evaluated node up to the root.
///
/// On a board with an empty cell the move is an empty cell. A search of
/// fewer than two steps has not expanded the root and returns the first empty
/// cell of the board. A search on a full board returns 0.
pub fn mcts(board: &mut Board, player: &FieldData, budget: u32, rng: &mut StdRng) -> (field_num:
    usize)
    requires
        *player !is Empty,
    ensures
        *final(board) == *old(board),
        is_mcts_move(cells(*old(board)), *player, budget as nat, field_num),
        !is_full(cells(*old(board))) ==> field_num < 9 && cells(
            *old(board),
        )[field_num as int] is Empty,
        is_full(cells(*old(board))) ==> field_num == 0,
        budget < 2 ==> field_num == first_empty_cell(cells(*old(board))),
{
    let ghost c = cells(*board);
    let mut tree = Tree::initialize(Node::new(None, *board, 0, None));
    proof {
        assert(tree@.nodes =~= root_tree(c).nodes);
        lemma_search_begins(c, *player);
    }
    let mut done: u32 = 0;
    while done < budget
        invariant
            done <= budget,
            *player !is Empty,
            c.len() == 9,
            is_search(c, *player, done as nat, tree@),
        decreases budget - done,
    {
        let ghost before = tree@;
        proof {
            assert(tree.nodes.len() <= usize::MAX);
            lemma_search_invariant(c, *player, done as nat, before);
        }
        search_step(&mut tree, player, rng);
        proof {
            lemma_search_goes_on(c, *player, done as nat, before, tree@);
        }
        done += 1;
    }
    proof {
        assert(tree.nodes.len() <= usize::MAX);
        lemma_search_invariant(c, *player, budget as nat, tree@);
        assert(is_mcts_move(c, *player, budget as nat, tree@.best_action(0)));
        lemma_mcts_move_is_legal(c, *player, budget as nat, tree@.best_action(0));
    }
    tree.get_best_action(tree.root)
}

/// One step of the search: selects a leaf; evaluates it by a playout if it
/// was never visited, and otherwise expands it and evaluates one of the new
/// children, picked at random; records the reward of the playout on the way
/// from the evaluated node up to the root.
pub fn search_step(tree: &mut Tree, player: &FieldData, rng: &mut StdRng)
    requires
        old(tree)@.wf(),
        old(tree)@.has_room(),
        *player !is Empty,
    ensures
        is_search_step(old(tree)@, final(tree)@, *player),
        final(tree)@.wf(),
{
    let ghost before = tree@;
    let selected_index = selection(tree);
    assert(before.nodes[selected_index as int] == tree.nodes@[selected_index as int]@);
    if tree.nodes[selected_index].visits == 0 {
        let rollout_value = rollout(selected_index, tree, player, rng);
        tree.back_propagate(selected_index, rollout_value);
    } else {
        let selected_new_node_index = node_expansion(selected_index, tree, player, rng);
        let ghost grown = tree@;
        let rollout_value = rollout(selected_new_node_index, tree, player, rng);
        proof {
            let made = empty_cells(before.nodes[selected_index as int].state).len() as int;
            assert(tree.nodes.len() <= usize::MAX);
            lemma_expand_first_len(before, selected_index as int, *player, made);
            lemma_expand_first(before, selected_index as int, *player, made);
            assert forall|i: int| 0 <= i < grown.nodes.len() implies {
                &&& (#[trigger] grown.nodes[i]).visits < u32::MAX
                &&& i64::MIN + 10 <= grown.nodes[i].value <= i64::MAX - 10
            } by {
                if i < before.nodes.len() {
                    assert(before.nodes[i].visits < u32::MAX);
                } else {
                    let m = i - before.nodes.len();
                    assert(grown.nodes[before.nodes.len() + m].visits == 0);
                }
            }
        }
        tree.back_propagate(selected_new_node_index, rollout_value);
    }
}

} // verus!
