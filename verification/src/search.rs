//! What a Monte Carlo tree search may return.
//!
//! A search grows a tree from a root that holds the board, one step at a
//! time. The random choices of a step are the child that an expansion hands
//! on and the playout; everything else is determined by the tree. `is_search`
//! relates a board to every tree that some run of the search can grow from
//! it, and the laws below say what holds of all of them.

use vstd::prelude::*;
use crate::board::{empty_cells, is_full, lemma_empty_cells, FieldData};
use crate::mcts::{
    first_empty_cell, lemma_backprop_keeps_tree, lemma_best_child_is_a_child, lemma_expand_first,
    lemma_expand_first_len, lemma_root_is_on_every_path, lemma_select_reaches_a_leaf, NodeView,
    TreeView,
};
use crate::playout::is_rollout_reward;

verus! {

/// The tree that a search of board `c` starts from: a root that holds the
/// board and was never visited.
pub open spec fn root_tree(c: Seq<FieldData>) -> TreeView {
    TreeView {
        nodes: seq![
            NodeView {
                parent: None,
                children: Seq::empty(),
                value: 0,
                visits: 0,
                state: c,
                action: None,
                id: 0,
            },
        ],
        root: 0,
    }
}

/// `after` may come out of one step of the search on the tree `before`.
///
/// The step selects a leaf. If the leaf was never visited, a playout from its
/// board is recorded at the leaf. Otherwise the leaf is expanded, and a
/// playout from the board of the node that the expansion hands on is recorded
/// at that node.
pub open spec fn is_search_step(before: TreeView, after: TreeView, player: FieldData) -> bool {
    let leaf = before.select(before.root as int);
    if before.nodes[leaf].visits == 0 {
        exists|r: int|
            is_rollout_reward(before.nodes[leaf].state, player, r) && after
                == #[trigger] before.backprop(leaf, r)
    } else {
        let grown = before.expand(leaf, player);
        exists|picked: int, r: int|
            before.is_expansion_pick(leaf, picked) && is_rollout_reward(
                grown.nodes[picked].state,
                player,
                r,
            ) && after == #[trigger] grown.backprop(picked, r)
    }
}

/// `trees` is a run of the search for `player` on board `c`: it begins with
/// the tree that holds the board alone, and each tree comes out of a step of
/// the search on the tree before it.
pub open spec fn is_search_run(
    c: Seq<FieldData>,
    player: FieldData,
    trees: Seq<TreeView>,
) -> bool {
    &&& trees.len() >= 1
    &&& trees[0] == root_tree(c)
    &&& forall|k: int|
        0 <= k < trees.len() - 1 ==> is_search_step(#[trigger] trees[k], trees[k + 1], player)
}

/// `tree` may come out of `steps` steps of the search for `player` on board `c`.
pub open spec fn is_search(
    c: Seq<FieldData>,
    player: FieldData,
    steps: nat,
    tree: TreeView,
) -> bool {
    exists|trees: Seq<TreeView>|
        #[trigger] is_search_run(c, player, trees) && trees.len() == steps + 1 && trees.last()
            == tree
}

/// `field_num` may come out of a search of `budget` steps for `player` on
/// board `c`: it is the best action at the root of a tree that the search can
/// grow in that many steps.
pub open spec fn is_mcts_move(
    c: Seq<FieldData>,
    player: FieldData,
    budget: nat,
    field_num: usize,
) -> bool {
    exists|tree: TreeView|
        #[trigger] is_search(c, player, budget, tree) && tree.nodes.len() <= usize::MAX
            && field_num == tree.best_action(0)
}

/// Node `i`, which is not the root, holds the position that `player` reaches
/// from the board of its parent by marking the cell that its action names,
/// and that cell is empty at the parent.
pub open spec fn holds_reply(tree: TreeView, player: FieldData, i: int) -> bool {
    let node = tree.nodes[i];
    let parent = tree.nodes[node.parent->0 as int];
    &&& node.action matches Some(cell)
    &&& cell < 9
    &&& parent.state[cell as int] is Empty
    &&& node.state == parent.state.update(cell as int, player)
}

/// Node `i` has no children, or one child for each empty cell of its board,
/// in the order of the cells, whose action is that cell.
pub open spec fn is_leaf_or_expanded(tree: TreeView, i: int) -> bool {
    let node = tree.nodes[i];
    node.children.len() == 0 || {
        &&& node.children.len() == empty_cells(node.state).len()
        &&& forall|k: int|
            0 <= k < node.children.len() ==> tree.nodes[#[trigger] node.children[k] as int].action
                == Some(empty_cells(node.state)[k])
    }
}

/// The tree is a tree of positions of a search for `player`: every node but
/// the root holds the reply to its parent's board that its action names, and
/// every node is a leaf or has all the replies to its board as children.
pub open spec fn is_game_tree(tree: TreeView, player: FieldData) -> bool {
    &&& tree.wf()
    &&& forall|i: int| 1 <= i < tree.nodes.len() ==> #[trigger] holds_reply(tree, player, i)
    &&& forall|i: int| 0 <= i < tree.nodes.len() ==> #[trigger] is_leaf_or_expanded(tree, i)
}

/// No node was visited more than `steps` times, and the value of each node
/// lies within ten times its visits of 0.
pub open spec fn counters_in_range(tree: TreeView, steps: nat) -> bool {
    forall|i: int|
        0 <= i < tree.nodes.len() ==> {
            &&& (#[trigger] tree.nodes[i]).visits <= steps
            &&& -10 * tree.nodes[i].visits <= tree.nodes[i].value <= 10 * tree.nodes[i].visits
        }
}

/// What holds of every tree that `steps` steps of a search for `player` on
/// board `c` can grow: it is a tree of positions whose root holds the board
/// and has been visited once in each step; its counters are in range; and
/// the root has no children before the second step and all replies to the
/// board as children from then on.
pub open spec fn search_invariant(
    c: Seq<FieldData>,
    player: FieldData,
    steps: nat,
    tree: TreeView,
) -> bool {
    &&& is_game_tree(tree, player)
    &&& tree.nodes[0].state == c
    &&& tree.nodes[0].visits == steps
    &&& counters_in_range(tree, steps)
    &&& steps <= 1 ==> tree.nodes[0].children.len() == 0
    &&& steps >= 2 ==> tree.nodes[0].children.len() == empty_cells(c).len()
}

/// A playout is worth -10, 0 or 10.
pub proof fn lemma_rollout_reward_range(c: Seq<FieldData>, player: FieldData, r: int)
    requires
        is_rollout_reward(c, player, r),
    ensures
        r == -10 || r == 0 || r == 10,
{
}

/// A step of the search takes no node out of the arena.
pub proof fn lemma_step_grows(before: TreeView, after: TreeView, player: FieldData)
    requires
        is_search_step(before, after, player),
    ensures
        before.nodes.len() <= after.nodes.len(),
{
    let leaf = before.select(before.root as int);
    if before.nodes[leaf].visits != 0 {
        lemma_expand_first_len(
            before,
            leaf,
            player,
            empty_cells(before.nodes[leaf].state).len() as int,
        );
    }
}

/// Recording a playout leaves every node where it is, with its links, its
/// board and its action, and takes no visit away.
pub proof fn lemma_backprop_keeps_the_nodes(tree: TreeView, from: int, r: int, i: int)
    requires
        0 <= i < tree.nodes.len(),
    ensures
        tree.backprop(from, r).nodes.len() == tree.nodes.len(),
        tree.backprop(from, r).nodes[i].id == tree.nodes[i].id,
        tree.backprop(from, r).nodes[i].parent == tree.nodes[i].parent,
        tree.backprop(from, r).nodes[i].state == tree.nodes[i].state,
        tree.backprop(from, r).nodes[i].action == tree.nodes[i].action,
        tree.backprop(from, r).nodes[i].children == tree.nodes[i].children,
        tree.nodes[i].visits <= tree.backprop(from, r).nodes[i].visits <= tree.nodes[i].visits + 1,
{
}

/// Expanding a node leaves every node where it is, with its parent, its
/// board, its action and its counters, and adds children after those it had.
pub proof fn lemma_expand_keeps_the_nodes(tree: TreeView, leaf: int, player: FieldData, i: int)
    requires
        tree.wf(),
        0 <= leaf < tree.nodes.len(),
        0 <= i < tree.nodes.len(),
        tree.nodes.len() + empty_cells(tree.nodes[leaf].state).len() <= usize::MAX,
    ensures
        i < tree.expand(leaf, player).nodes.len(),
        tree.expand(leaf, player).nodes[i].id == tree.nodes[i].id,
        tree.expand(leaf, player).nodes[i].parent == tree.nodes[i].parent,
        tree.expand(leaf, player).nodes[i].state == tree.nodes[i].state,
        tree.expand(leaf, player).nodes[i].action == tree.nodes[i].action,
        tree.expand(leaf, player).nodes[i].visits == tree.nodes[i].visits,
        tree.expand(leaf, player).nodes[i].value == tree.nodes[i].value,
        tree.nodes[i].children.is_prefix_of(tree.expand(leaf, player).nodes[i].children),
{
    let made = empty_cells(tree.nodes[leaf].state).len() as int;
    lemma_expand_first(tree, leaf, player, made);
    let grown = tree.expand(leaf, player);
    if i != leaf {
        assert(grown.nodes[i] == tree.nodes[i]);
    }
}

/// A step of the search only appends to the arena and only counts upwards:
/// every node that was in the tree keeps its position, its parent, its board
/// and its action; its children are those it had, followed by any new ones;
/// and its visits do not go down.
pub proof fn lemma_step_keeps_the_nodes(
    before: TreeView,
    after: TreeView,
    player: FieldData,
    i: int,
)
    requires
        before.wf(),
        is_search_step(before, after, player),
        after.nodes.len() <= usize::MAX,
        0 <= i < before.nodes.len(),
    ensures
        i < after.nodes.len(),
        after.nodes[i].id == before.nodes[i].id,
        after.nodes[i].parent == before.nodes[i].parent,
        after.nodes[i].state == before.nodes[i].state,
        after.nodes[i].action == before.nodes[i].action,
        before.nodes[i].children.is_prefix_of(after.nodes[i].children),
        before.nodes[i].visits <= after.nodes[i].visits <= before.nodes[i].visits + 1,
{
    let leaf = before.select(0);
    lemma_select_reaches_a_leaf(before, 0);
    lemma_step_grows(before, after, player);
    if before.nodes[leaf].visits == 0 {
        let r = choose|r: int|
            is_rollout_reward(before.nodes[leaf].state, player, r) && after
                == #[trigger] before.backprop(leaf, r);
        lemma_backprop_keeps_the_nodes(before, leaf, r, i);
    } else {
        let made = empty_cells(before.nodes[leaf].state).len() as int;
        let grown = before.expand(leaf, player);
        let (picked, r) = choose|picked: int, r: int|
            before.is_expansion_pick(leaf, picked) && is_rollout_reward(
                grown.nodes[picked].state,
                player,
                r,
            ) && after == #[trigger] grown.backprop(picked, r);
        lemma_expand_first_len(before, leaf, player, made);
        lemma_expand_keeps_the_nodes(before, leaf, player, i);
        lemma_backprop_keeps_the_nodes(grown, picked, r, i);
    }
}

/// Recording a playout changes no position of a tree of positions.
pub proof fn lemma_backprop_keeps_game_tree(
    tree: TreeView,
    player: FieldData,
    from: int,
    r: int,
)
    requires
        is_game_tree(tree, player),
    ensures
        is_game_tree(tree.backprop(from, r), player),
{
    let after = tree.backprop(from, r);
    lemma_backprop_keeps_tree(tree, from, r);
    assert forall|i: int| 1 <= i < after.nodes.len() implies #[trigger] holds_reply(
        after,
        player,
        i,
    ) by {
        assert(holds_reply(tree, player, i));
        let p = tree.nodes[i].parent->0 as int;
        assert(0 <= p < i);
        assert(after.nodes[p].state == tree.nodes[p].state);
    }
    assert forall|i: int| 0 <= i < after.nodes.len() implies #[trigger] is_leaf_or_expanded(
        after,
        i,
    ) by {
        assert(is_leaf_or_expanded(tree, i));
        assert(after.nodes[i].children == tree.nodes[i].children);
        assert forall|k: int| 0 <= k < after.nodes[i].children.len() implies after.nodes[
            #[trigger] after.nodes[i].children[k] as int
        ].action == Some(empty_cells(after.nodes[i].state)[k]) by {
            let child = tree.nodes[i].children[k] as int;
            assert(0 <= child < tree.nodes.len());
            assert(after.nodes[child].action == tree.nodes[child].action);
        }
    }
}

/// What the expansion of a node makes: the child for the `m`-th empty cell of
/// its board stands `m` positions after the old end of the arena and is the
/// `m`-th new entry of the node's list of children.
pub proof fn lemma_expand_makes_the_replies(
    tree: TreeView,
    leaf: int,
    player: FieldData,
    m: int,
)
    requires
        tree.wf(),
        0 <= leaf < tree.nodes.len(),
        0 <= m < empty_cells(tree.nodes[leaf].state).len(),
        tree.nodes.len() + empty_cells(tree.nodes[leaf].state).len() <= usize::MAX,
    ensures
        tree.expand(leaf, player).nodes[tree.nodes.len() + m] == tree.new_child(
            leaf,
            empty_cells(tree.nodes[leaf].state)[m],
            player,
            (tree.nodes.len() + m) as usize,
        ),
        tree.expand(leaf, player).nodes[leaf].children.len() == tree.nodes[leaf].children.len()
            + empty_cells(tree.nodes[leaf].state).len(),
        tree.expand(leaf, player).nodes[leaf].children[tree.nodes[leaf].children.len() + m]
            == tree.nodes.len() + m,
        tree.nodes[leaf].id == leaf,
{
    let made = empty_cells(tree.nodes[leaf].state).len() as int;
    lemma_expand_first(tree, leaf, player, made);
}

/// Expanding a leaf of a tree of positions gives a tree of positions.
pub proof fn lemma_expand_keeps_game_tree(tree: TreeView, player: FieldData, leaf: int)
    requires
        is_game_tree(tree, player),
        0 <= leaf < tree.nodes.len(),
        tree.nodes[leaf].children.len() == 0,
        tree.nodes.len() + empty_cells(tree.nodes[leaf].state).len() <= usize::MAX,
    ensures
        is_game_tree(tree.expand(leaf, player), player),
{
    let made = empty_cells(tree.nodes[leaf].state).len() as int;
    let grown = tree.expand(leaf, player);
    let old_len = tree.nodes.len() as int;
    lemma_expand_first_len(tree, leaf, player, made);
    assert(grown.wf()) by {
        lemma_expand_first(tree, leaf, player, made);
    }
    lemma_empty_cells(tree.nodes[leaf].state);
    assert forall|i: int| 1 <= i < grown.nodes.len() implies #[trigger] holds_reply(
        grown,
        player,
        i,
    ) by {
        lemma_expand_keeps_the_nodes(tree, leaf, player, leaf);
        if i < old_len {
            assert(holds_reply(tree, player, i));
            let p = tree.nodes[i].parent->0 as int;
            assert(0 <= p < i);
            lemma_expand_keeps_the_nodes(tree, leaf, player, i);
            lemma_expand_keeps_the_nodes(tree, leaf, player, p);
        } else {
            lemma_expand_makes_the_replies(tree, leaf, player, i - old_len);
        }
    }
    assert forall|i: int| 0 <= i < grown.nodes.len() implies #[trigger] is_leaf_or_expanded(
        grown,
        i,
    ) by {
        if i == leaf {
            lemma_expand_keeps_the_nodes(tree, leaf, player, leaf);
            if made > 0 {
                lemma_expand_makes_the_replies(tree, leaf, player, 0);
            }
            assert forall|k: int| 0 <= k < grown.nodes[i].children.len() implies grown.nodes[
                #[trigger] grown.nodes[i].children[k] as int
            ].action == Some(empty_cells(grown.nodes[i].state)[k]) by {
                lemma_expand_makes_the_replies(tree, leaf, player, k);
            }
        } else if i < old_len {
            assert(is_leaf_or_expanded(tree, i));
            assert(grown.nodes[i] == tree.nodes[i]) by {
                lemma_expand_first(tree, leaf, player, made);
            }
            assert forall|k: int| 0 <= k < grown.nodes[i].children.len() implies grown.nodes[
                #[trigger] grown.nodes[i].children[k] as int
            ].action == Some(empty_cells(grown.nodes[i].state)[k]) by {
                let child = tree.nodes[i].children[k] as int;
                assert(i < child < old_len);
                lemma_expand_keeps_the_nodes(tree, leaf, player, child);
            }
        } else {
            lemma_expand_makes_the_replies(tree, leaf, player, i - old_len);
        }
    }
}

/// Recording a playout keeps what the search maintains, with one more step.
proof fn lemma_record_keeps_invariant(
    c: Seq<FieldData>,
    player: FieldData,
    steps: nat,
    tree: TreeView,
    from: int,
    r: int,
)
    requires
        is_game_tree(tree, player),
        0 <= from < tree.nodes.len(),
        r == -10 || r == 0 || r == 10,
        tree.nodes[0].state == c,
        tree.nodes[0].visits == steps,
        counters_in_range(tree, steps),
        steps + 1 <= 1 ==> tree.nodes[0].children.len() == 0,
        steps + 1 >= 2 ==> tree.nodes[0].children.len() == empty_cells(c).len(),
    ensures
        search_invariant(c, player, steps + 1, tree.backprop(from, r)),
{
    let after = tree.backprop(from, r);
    lemma_backprop_keeps_game_tree(tree, player, from, r);
    lemma_root_is_on_every_path(tree, from);
    assert forall|i: int| 0 <= i < after.nodes.len() implies {
        &&& (#[trigger] after.nodes[i]).visits <= steps + 1
        &&& -10 * after.nodes[i].visits <= after.nodes[i].value <= 10 * after.nodes[i].visits
    } by {
        assert(tree.nodes[i].visits <= steps);
    }
}

/// A step of the search keeps what the search maintains.
pub proof fn lemma_step_keeps_invariant(
    c: Seq<FieldData>,
    player: FieldData,
    steps: nat,
    before: TreeView,
    after: TreeView,
)
    requires
        search_invariant(c, player, steps, before),
        is_search_step(before, after, player),
        after.nodes.len() <= usize::MAX,
    ensures
        search_invariant(c, player, steps + 1, after),
{
    let leaf = before.select(0);
    lemma_select_reaches_a_leaf(before, 0);
    lemma_step_grows(before, after, player);
    if before.nodes[leaf].visits == 0 {
        let r = choose|r: int|
            is_rollout_reward(before.nodes[leaf].state, player, r) && after
                == #[trigger] before.backprop(leaf, r);
        lemma_rollout_reward_range(before.nodes[leaf].state, player, r);
        lemma_record_keeps_invariant(c, player, steps, before, leaf, r);
    } else {
        let made = empty_cells(before.nodes[leaf].state).len() as int;
        let grown = before.expand(leaf, player);
        let (picked, r) = choose|picked: int, r: int|
            before.is_expansion_pick(leaf, picked) && is_rollout_reward(
                grown.nodes[picked].state,
                player,
                r,
            ) && after == #[trigger] grown.backprop(picked, r);
        lemma_rollout_reward_range(grown.nodes[picked].state, player, r);
        lemma_expand_first_len(before, leaf, player, made);
        lemma_expand_first(before, leaf, player, made);
        lemma_expand_keeps_game_tree(before, player, leaf);
        let old_len = before.nodes.len() as int;
        assert forall|i: int| 0 <= i < grown.nodes.len() implies {
            &&& (#[trigger] grown.nodes[i]).visits <= steps
            &&& -10 * grown.nodes[i].visits <= grown.nodes[i].value <= 10 * grown.nodes[i].visits
        } by {
            if i < old_len {
                assert(before.nodes[i].visits <= steps);
            } else {
                assert(grown.nodes[old_len + (i - old_len)].visits == 0);
            }
        }
        lemma_record_keeps_invariant(c, player, steps, grown, picked, r);
    }
}

/// Along a run of the search the arena only grows.
pub proof fn lemma_run_grows(
    c: Seq<FieldData>,
    player: FieldData,
    trees: Seq<TreeView>,
    j: int,
    k: int,
)
    requires
        is_search_run(c, player, trees),
        0 <= j <= k < trees.len(),
    ensures
        trees[j].nodes.len() <= trees[k].nodes.len(),
    decreases k - j,
{
    if j < k {
        lemma_step_grows(trees[j], trees[j + 1], player);
        lemma_run_grows(c, player, trees, j + 1, k);
    }
}

/// Every tree of a run of the search has what the search maintains.
pub proof fn lemma_run_invariant(
    c: Seq<FieldData>,
    player: FieldData,
    trees: Seq<TreeView>,
    k: int,
)
    requires
        c.len() == 9,
        is_search_run(c, player, trees),
        0 <= k < trees.len(),
        trees[k].nodes.len() <= usize::MAX,
    ensures
        search_invariant(c, player, k as nat, trees[k]),
    decreases k,
{
    if k > 0 {
        lemma_run_grows(c, player, trees, k - 1, k);
        lemma_run_invariant(c, player, trees, k - 1);
        assert(is_search_step(trees[k - 1], trees[k - 1 + 1], player));
        lemma_step_keeps_invariant(c, player, (k - 1) as nat, trees[k - 1], trees[k]);
    }
}

/// Every tree that a search can grow has what the search maintains.
pub proof fn lemma_search_invariant(
    c: Seq<FieldData>,
    player: FieldData,
    steps: nat,
    tree: TreeView,
)
    requires
        c.len() == 9,
        is_search(c, player, steps, tree),
        tree.nodes.len() <= usize::MAX,
    ensures
        search_invariant(c, player, steps, tree),
{
    let trees = choose|trees: Seq<TreeView>|
        #[trigger] is_search_run(c, player, trees) && trees.len() == steps + 1 && trees.last()
            == tree;
    lemma_run_invariant(c, player, trees, steps as int);
}

/// A search goes on by one step.
pub proof fn lemma_search_goes_on(
    c: Seq<FieldData>,
    player: FieldData,
    steps: nat,
    before: TreeView,
    after: TreeView,
)
    requires
        is_search(c, player, steps, before),
        is_search_step(before, after, player),
    ensures
        is_search(c, player, steps + 1, after),
{
    let trees = choose|trees: Seq<TreeView>|
        #[trigger] is_search_run(c, player, trees) && trees.len() == steps + 1 && trees.last()
            == before;
    let longer = trees.push(after);
    assert forall|k: int| 0 <= k < longer.len() - 1 implies is_search_step(
        #[trigger] longer[k],
        longer[k + 1],
        player,
    ) by {
        if k < trees.len() - 1 {
            assert(is_search_step(trees[k], trees[k + 1], player));
        }
    }
    assert(is_search_run(c, player, longer));
    assert(longer.last() == after);
}

/// The tree that holds the board alone comes out of no step of a search.
pub proof fn lemma_search_begins(c: Seq<FieldData>, player: FieldData)
    ensures
        is_search(c, player, 0, root_tree(c)),
{
    let trees = seq![root_tree(c)];
    assert(is_search_run(c, player, trees));
    assert(trees.last() == root_tree(c));
}

/// A search on a board with an empty cell returns an empty cell, however
/// many steps it takes: the action of a child of the root once the root is
/// expanded, and the first empty cell of the board before that. A search on
/// a full board returns 0.
pub proof fn lemma_mcts_move_is_legal(
    c: Seq<FieldData>,
    player: FieldData,
    budget: nat,
    field_num: usize,
)
    requires
        c.len() == 9,
        is_mcts_move(c, player, budget, field_num),
    ensures
        !is_full(c) ==> field_num < 9 && c[field_num as int] is Empty,
        is_full(c) ==> field_num == 0,
        budget < 2 ==> field_num == first_empty_cell(c),
{
    let tree = choose|tree: TreeView|
        #[trigger] is_search(c, player, budget, tree) && tree.nodes.len() <= usize::MAX
            && field_num == tree.best_action(0);
    lemma_search_invariant(c, player, budget, tree);
    lemma_empty_cells(c);
    assert(is_leaf_or_expanded(tree, 0));
    if tree.nodes[0].children.len() > 0 {
        lemma_best_child_is_a_child(tree, 0);
        let best = tree.best_child(0);
        let k = choose|k: int|
            0 <= k < tree.nodes[0].children.len() && tree.nodes[0].children[k] == best;
        assert(tree.nodes[tree.nodes[0].children[k] as int].action == Some(empty_cells(c)[k]));
    }
}

/// On a board with one empty cell a search returns that cell, however many
/// steps it takes.
pub proof fn lemma_mcts_takes_the_last_cell(
    c: Seq<FieldData>,
    player: FieldData,
    budget: nat,
    i: int,
    field_num: usize,
)
    requires
        c.len() == 9,
        0 <= i < 9,
        c[i] is Empty,
        forall|j: int| 0 <= j < 9 && j != i ==> c[j] !is Empty,
        is_mcts_move(c, player, budget, field_num),
    ensures
        field_num == i,
{
    lemma_mcts_move_is_legal(c, player, budget, field_num);
}

/// The move that a search returns on a board with an empty cell is an empty
/// cell: marking it changes that one cell from `Empty` to the mark placed and
/// no other cell.
pub proof fn lemma_mcts_move_changes_one_cell(
    c: Seq<FieldData>,
    player: FieldData,
    budget: nat,
    field_num: usize,
    after: Seq<FieldData>,
)
    requires
        c.len() == 9,
        !is_full(c),
        is_mcts_move(c, player, budget, field_num),
        after == c.update(field_num as int, player),
    ensures
        field_num < 9,
        c[field_num as int] is Empty,
        after[field_num as int] == player,
        forall|j: int| 0 <= j < 9 && j != field_num ==> after[j] == c[j],
{
    lemma_mcts_move_is_legal(c, player, budget, field_num);
}

} // verus!
