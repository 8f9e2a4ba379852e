//! What it means for an arena of nodes to hold a search tree, and what
//! expansion and backpropagation keep true of it.
//!
//! `linked` says that the arena is a tree whose shape follows the game:
//! the children of a node are the positions that its position leads to.
//! `in_balance` says that the simulations add up: every simulation that a
//! node counts either ran from the node itself or went through a child.

use crate::game::Game;
use crate::game::fanout;
use crate::game::successor;
use crate::node::MctsNode;
use crate::node::added;
use crate::node::score_room;
use vstd::prelude::*;

verus! {

/// `child` is one of the children of `parent`.
pub open spec fn has_child<T: Game>(nodes: Seq<MctsNode<T>>, parent: int, child: int) -> bool {
    let block = nodes[parent].children@;
    block.len() > 0 && block[0] <= child < block[0] + block.len()
}

/// `ancestor` is `node` itself or lies on the way from `node` up to the
/// root.
pub open spec fn on_path<T: Game>(nodes: Seq<MctsNode<T>>, ancestor: int, node: int) -> bool
    decreases node,
{
    if node < 0 || node >= nodes.len() {
        false
    } else if ancestor == node {
        true
    } else {
        match nodes[node].parent {
            Some(up) => if up < node {
                on_path(nodes, ancestor, up as int)
            } else {
                false
            },
            None => false,
        }
    }
}

/// The node of index `i` is consistent and tied into the tree: only the
/// root lacks a parent, a parent lists each of its children, and the
/// children of an expanded node are one block of the arena, one child per
/// way on from the node's position and in that order.
pub open spec fn node_ok<T: Game>(nodes: Seq<MctsNode<T>>, i: int) -> bool {
    let node = nodes[i];
    let block = node.children@;
    let p = node.state.position();
    &&& node.wf()
    &&& (node.parent is None <==> i == 0)
    &&& (node.parent matches Some(up) ==> up < i && has_child(nodes, up as int, i))
    &&& (block.len() > 0 ==> block.len() == fanout::<T>(p))
    &&& forall|k: int|
        0 <= k < block.len() ==> {
            &&& #[trigger] block[k] == block[0] + k
            &&& i < block[k] < nodes.len()
            &&& nodes[block[k] as int].parent == Some(i as usize)
            &&& nodes[block[k] as int].state.position() == successor::<T>(p, k)
        }
}

/// The arena holds a tree: every node is tied in.
pub open spec fn linked<T: Game>(nodes: Seq<MctsNode<T>>) -> bool {
    forall|i: int| 0 <= i < nodes.len() ==> #[trigger] node_ok(nodes, i)
}

/// The simulations of the nodes `ids`, added up.
pub open spec fn visits_of<T: Game>(nodes: Seq<MctsNode<T>>, ids: Seq<usize>) -> int
    decreases ids.len(),
{
    if ids.len() == 0 {
        0
    } else {
        visits_of(nodes, ids.drop_last()) + nodes[ids.last() as int].simulations
    }
}

/// The simulations that node `i` counts and that did not go through one of
/// its children: those that were recorded from the node itself.
pub open spec fn direct_visits<T: Game>(nodes: Seq<MctsNode<T>>, i: int) -> int {
    nodes[i].simulations - visits_of(nodes, nodes[i].children@)
}

/// The number of simulations that were run from node `i` itself when it was
/// made: one if it is the first child of its parent, from which the game was
/// played out when the parent was expanded, and none otherwise.
pub open spec fn own_visits<T: Game>(nodes: Seq<MctsNode<T>>, i: int) -> int {
    match nodes[i].parent {
        Some(up) => if nodes[up as int].children@.len() > 0 && nodes[up as int].children@[0]
            == i {
            1
        } else {
            0
        },
        None => 0,
    }
}

/// The simulations of node `i`, with `missing` more, are accounted for. A
/// node that is not terminal counts the simulations that were run from
/// itself and those that went through its children. A terminal node has no
/// children; it counts the simulations that ended at it, whatever their
/// number.
pub open spec fn balanced_at<T: Game>(nodes: Seq<MctsNode<T>>, i: int, missing: int) -> bool {
    let node = nodes[i];
    if T::over(node.state.position()) {
        node.children@.len() == 0
    } else {
        node.simulations + missing == own_visits(nodes, i) + visits_of(nodes, node.children@)
    }
}

/// The simulations of node `i` are accounted for, with one missing if `i`
/// is `short`.
pub open spec fn balanced_short<T: Game>(nodes: Seq<MctsNode<T>>, i: int, short: int) -> bool {
    balanced_at(
        nodes,
        i,
        if i == short {
            1
        } else {
            0
        },
    )
}

/// Every node's simulations are accounted for.
pub open spec fn in_balance<T: Game>(nodes: Seq<MctsNode<T>>) -> bool {
    forall|i: int| 0 <= i < nodes.len() ==> #[trigger] balanced_at(nodes, i, 0)
}

/// Every node's simulations are accounted for, except that `node` is one
/// simulation short: the state of the tree between the moment a simulation
/// is run from `node` and the moment it is recorded.
pub open spec fn in_balance_but<T: Game>(nodes: Seq<MctsNode<T>>, node: int) -> bool {
    forall|i: int| 0 <= i < nodes.len() ==> #[trigger] balanced_short(nodes, i, node)
}

/// Every node on the path from `node` to the root can count one simulation
/// more.
pub open spec fn path_has_room<T: Game>(nodes: Seq<MctsNode<T>>, node: int) -> bool {
    forall|i: int|
        0 <= i < nodes.len() && #[trigger] on_path(nodes, i, node) ==> nodes[i].simulations
            < usize::MAX
}

/// Every node of `before` is in `after` with the state, the parent and the
/// children that it had.
pub open spec fn same_links<T: Game>(before: Seq<MctsNode<T>>, after: Seq<MctsNode<T>>) -> bool {
    &&& after.len() == before.len()
    &&& forall|i: int|
        0 <= i < after.len() ==> {
            &&& (#[trigger] after[i]).state == before[i].state
            &&& after[i].parent == before[i].parent
            &&& after[i].children == before[i].children
        }
}

/// No child has more simulations than its parent: all that selection needs
/// to know of the simulations in a tree.
pub open spec fn parents_outweigh<T: Game>(nodes: Seq<MctsNode<T>>) -> bool {
    forall|i: int|
        0 <= i < nodes.len() ==> ((#[trigger] nodes[i]).parent matches Some(up)
            ==> nodes[i].simulations <= nodes[up as int].simulations)
}

/// `after` is `before` with a block of `count` fresh nodes at the end of the
/// arena, which are now the children of the node `node`: the child of index
/// `k` holds the position that the way of index `k` leads to. Nothing else
/// changed: of the node's fields only `children` is another, and its state
/// is the very state it was.
pub open spec fn grown_by<T: Game>(
    before: Seq<MctsNode<T>>,
    after: Seq<MctsNode<T>>,
    node: int,
    count: int,
) -> bool {
    let p = before[node].state.position();
    &&& after.len() == before.len() + count
    &&& forall|i: int| 0 <= i < before.len() && i != node ==> #[trigger] after[i] == before[i]
    &&& after[node].state == before[node].state
    &&& after[node].scores == before[node].scores
    &&& after[node].simulations == before[node].simulations
    &&& after[node].parent == before[node].parent
    &&& after[node].children@.len() == count
    &&& forall|k: int| 0 <= k < count ==> #[trigger] after[node].children@[k] == before.len() + k
    &&& forall|i: int|
        before.len() <= i < after.len() ==> (#[trigger] after[i]).fresh(
            Some(node as usize),
            successor::<T>(p, i - before.len()),
        )
}

/// `after` is `before` with the childless node `node` expanded: it has one
/// fresh child per way on from its position, in that order.
pub open spec fn expansion<T: Game>(
    before: Seq<MctsNode<T>>,
    after: Seq<MctsNode<T>>,
    node: int,
) -> bool {
    grown_by(before, after, node, fanout::<T>(before[node].state.position()) as int)
}

/// `after` is `before` with one simulation recorded from `node` up to the
/// root: each node on that path counts one simulation more and has `scores`
/// added to its totals, player by player. Nothing else changed.
pub open spec fn recorded<T: Game>(
    before: Seq<MctsNode<T>>,
    after: Seq<MctsNode<T>>,
    node: int,
    scores: Seq<i64>,
) -> bool {
    &&& after.len() == before.len()
    &&& forall|i: int|
        0 <= i < after.len() ==> {
            &&& (#[trigger] after[i]).state == before[i].state
            &&& after[i].parent == before[i].parent
            &&& after[i].children == before[i].children
            &&& if on_path(before, i, node) {
                &&& after[i].simulations == before[i].simulations + 1
                &&& after[i].scores@ == added(before[i].scores@, scores)
            } else {
                after[i] == before[i]
            }
        }
}

/// The tree `after` is the tree `before`, grown: each node of `before` is
/// still there with its position and its parent, has no fewer simulations,
/// and, if it had children, has the same children.
pub open spec fn extends<T: Game>(before: Seq<MctsNode<T>>, after: Seq<MctsNode<T>>) -> bool {
    &&& after.len() >= before.len()
    &&& forall|i: int|
        0 <= i < before.len() ==> {
            &&& (#[trigger] after[i]).state.position() == before[i].state.position()
            &&& after[i].parent == before[i].parent
            &&& after[i].simulations >= before[i].simulations
            &&& before[i].children@.len() > 0 ==> after[i].children@ == before[i].children@
        }
}

/// A member of a path is an index of the arena, at or below the path's
/// start.
pub proof fn lemma_path_bounds<T: Game>(nodes: Seq<MctsNode<T>>, ancestor: int, node: int)
    requires
        on_path(nodes, ancestor, node),
    ensures
        0 <= ancestor <= node < nodes.len(),
    decreases node,
{
    if ancestor != node {
        lemma_path_bounds(nodes, ancestor, nodes[node].parent.unwrap() as int);
    }
}

/// The parent of a member of a path is a member too.
pub proof fn lemma_path_up<T: Game>(nodes: Seq<MctsNode<T>>, ancestor: int, node: int)
    requires
        on_path(nodes, ancestor, node),
        nodes[ancestor].parent is Some,
        nodes[ancestor].parent.unwrap() < ancestor,
    ensures
        on_path(nodes, nodes[ancestor].parent.unwrap() as int, node),
    decreases node,
{
    let up = nodes[ancestor].parent.unwrap() as int;
    lemma_path_bounds(nodes, ancestor, node);
    if ancestor == node {
        assert(on_path(nodes, up, up));
    } else {
        lemma_path_up(nodes, ancestor, nodes[node].parent.unwrap() as int);
    }
}

/// A path holds no node between one of its members and that member's
/// parent: what lies below the member on the path lies on the parent's path.
pub proof fn lemma_path_gap<T: Game>(nodes: Seq<MctsNode<T>>, lower: int, member: int, node: int)
    requires
        on_path(nodes, lower, node),
        on_path(nodes, member, node),
        lower < member,
    ensures
        nodes[member].parent is Some,
        nodes[member].parent.unwrap() < member,
        on_path(nodes, lower, nodes[member].parent.unwrap() as int),
    decreases node,
{
    lemma_path_bounds(nodes, member, node);
    if member != node {
        lemma_path_gap(nodes, lower, member, nodes[node].parent.unwrap() as int);
    }
}

/// The root lies on the path of every node.
pub proof fn lemma_root_on_path<T: Game>(nodes: Seq<MctsNode<T>>, node: int)
    requires
        linked(nodes),
        0 <= node < nodes.len(),
    ensures
        on_path(nodes, 0, node),
    decreases node,
{
    assert(node_ok(nodes, node));
    if node != 0 {
        lemma_root_on_path(nodes, nodes[node].parent.unwrap() as int);
    }
}

/// Every position in the tree has the root's number of players.
pub proof fn lemma_same_players<T: Game>(nodes: Seq<MctsNode<T>>, i: int)
    requires
        linked(nodes),
        0 <= i < nodes.len(),
    ensures
        T::players(nodes[i].state.position()) == T::players(nodes[0].state.position()),
    decreases i,
{
    assert(node_ok(nodes, i));
    if i != 0 {
        let up = nodes[i].parent.unwrap() as int;
        assert(node_ok(nodes, up));
        lemma_same_players(nodes, up);
        let block = nodes[up].children@;
        let k = i - block[0];
        assert(block[k] == block[0] + k);
        nodes[up].state.rules();
        let p = nodes[up].state.position();
        if T::chance(p) {
            assert(T::players(T::branches(p)[k]) == T::players(p));
        } else {
            assert(T::players(T::play(p, k as nat)) == T::players(p));
        }
    }
}

/// Whether the arena is a tree depends only on the positions, the links
/// and the consistency of each node.
pub proof fn lemma_keep_links<T: Game>(before: Seq<MctsNode<T>>, after: Seq<MctsNode<T>>)
    requires
        linked(before),
        after.len() == before.len(),
        forall|i: int|
            0 <= i < after.len() ==> {
                &&& (#[trigger] after[i]).wf()
                &&& after[i].state.position() == before[i].state.position()
                &&& after[i].parent == before[i].parent
                &&& after[i].children@ == before[i].children@
            },
    ensures
        linked(after),
{
    assert forall|i: int| 0 <= i < after.len() implies #[trigger] node_ok(after, i) by {
        assert(node_ok(before, i));
        let block = after[i].children@;
        assert forall|k: int| 0 <= k < block.len() implies {
            &&& #[trigger] block[k] == block[0] + k
            &&& i < block[k] < after.len()
            &&& after[block[k] as int].parent == Some(i as usize)
            &&& after[block[k] as int].state.position() == successor::<T>(
                after[i].state.position(),
                k,
            )
        } by {
            assert(before[i].children@[k] == block[k]);
        }
    }
}

/// Nodes that kept their simulations add up to what they did.
pub proof fn lemma_visits_same<T: Game>(
    before: Seq<MctsNode<T>>,
    after: Seq<MctsNode<T>>,
    ids: Seq<usize>,
)
    requires
        forall|k: int|
            0 <= k < ids.len() ==> after[#[trigger] ids[k] as int].simulations
                == before[ids[k] as int].simulations,
    ensures
        visits_of(after, ids) == visits_of(before, ids),
    decreases ids.len(),
{
    if ids.len() > 0 {
        lemma_visits_same(before, after, ids.drop_last());
    }
}

/// Nodes without simulations add up to none.
pub proof fn lemma_visits_none<T: Game>(nodes: Seq<MctsNode<T>>, ids: Seq<usize>)
    requires
        forall|k: int| 0 <= k < ids.len() ==> nodes[#[trigger] ids[k] as int].simulations == 0,
    ensures
        visits_of(nodes, ids) == 0,
    decreases ids.len(),
{
    if ids.len() > 0 {
        lemma_visits_none(nodes, ids.drop_last());
    }
}

/// One more simulation at node `at` adds one to the sum over a block of
/// nodes that holds `at`, and nothing to the sum over a block that does not.
pub proof fn lemma_visits_bump<T: Game>(
    before: Seq<MctsNode<T>>,
    after: Seq<MctsNode<T>>,
    ids: Seq<usize>,
    at: int,
)
    requires
        forall|k: int| 0 <= k < ids.len() ==> #[trigger] ids[k] == ids[0] + k,
        after[at].simulations == before[at].simulations + 1,
        forall|k: int|
            0 <= k < ids.len() && ids[k] != at ==> after[#[trigger] ids[k] as int].simulations
                == before[ids[k] as int].simulations,
    ensures
        visits_of(after, ids) == visits_of(before, ids) + if ids.len() > 0 && ids[0] <= at
            < ids[0] + ids.len() {
            1int
        } else {
            0int
        },
    decreases ids.len(),
{
    if ids.len() > 0 {
        let rest = ids.drop_last();
        assert forall|k: int| 0 <= k < rest.len() implies #[trigger] rest[k] == rest[0] + k by {
            assert(rest[k] == ids[k]);
            assert(rest[0] == ids[0]);
        }
        assert forall|k: int| 0 <= k < rest.len() && rest[k] != at implies after[#[trigger] rest[k] as int].simulations
            == before[rest[k] as int].simulations by {
            assert(rest[k] == ids[k]);
        }
        lemma_visits_bump(before, after, rest, at);
        let last = ids.len() - 1;
        assert(ids[last] == ids[0] + last);
        if rest.len() > 0 {
            assert(rest[0] == ids[0]);
        }
    }
}

/// A sum of simulations is not negative.
pub proof fn lemma_visits_floor<T: Game>(nodes: Seq<MctsNode<T>>, ids: Seq<usize>)
    ensures
        visits_of(nodes, ids) >= 0,
    decreases ids.len(),
{
    if ids.len() > 0 {
        lemma_visits_floor(nodes, ids.drop_last());
    }
}

/// No member of a sum exceeds the sum.
pub proof fn lemma_visits_share<T: Game>(nodes: Seq<MctsNode<T>>, ids: Seq<usize>, k: int)
    requires
        0 <= k < ids.len(),
    ensures
        nodes[ids[k] as int].simulations <= visits_of(nodes, ids),
        visits_of(nodes, ids) >= 0,
    decreases ids.len(),
{
    lemma_visits_floor(nodes, ids.drop_last());
    if k < ids.len() - 1 {
        lemma_visits_share(nodes, ids.drop_last(), k);
    }
}

/// Of two children of one parent at most one lies on a path.
pub proof fn lemma_path_one_child<T: Game>(
    nodes: Seq<MctsNode<T>>,
    one: int,
    other: int,
    node: int,
)
    requires
        linked(nodes),
        on_path(nodes, one, node),
        on_path(nodes, other, node),
        nodes[one].parent is Some,
        nodes[one].parent == nodes[other].parent,
    ensures
        one == other,
{
    lemma_path_bounds(nodes, one, node);
    lemma_path_bounds(nodes, other, node);
    assert(node_ok(nodes, one));
    assert(node_ok(nodes, other));
    if one < other {
        lemma_path_gap(nodes, one, other, node);
        lemma_path_bounds(nodes, one, nodes[other].parent.unwrap() as int);
    } else if other < one {
        lemma_path_gap(nodes, other, one, node);
        lemma_path_bounds(nodes, other, nodes[one].parent.unwrap() as int);
    }
}

/// A member of a path other than its start has a child on the path.
pub proof fn lemma_path_child<T: Game>(nodes: Seq<MctsNode<T>>, member: int, node: int) -> (k: int)
    requires
        linked(nodes),
        on_path(nodes, member, node),
        member != node,
    ensures
        0 <= k < nodes[member].children@.len(),
        on_path(nodes, nodes[member].children@[k] as int, node),
    decreases node,
{
    lemma_path_bounds(nodes, member, node);
    assert(node_ok(nodes, node));
    let up = nodes[node].parent.unwrap() as int;
    if up == member {
        assert(node_ok(nodes, member));
        let block = nodes[member].children@;
        let k = node - block[0];
        assert(block[k] == block[0] + k);
        k
    } else {
        lemma_path_child(nodes, member, up)
    }
}

/// Recording a simulation from `node` adds one to each total of every node
/// on the path from `node` to the root, and counts one simulation more
/// there: the scores are added exactly, whatever their size.
pub proof fn lemma_recorded_on_path<T: Game>(
    before: Seq<MctsNode<T>>,
    after: Seq<MctsNode<T>>,
    node: int,
    scores: Seq<i64>,
    member: int,
    player: int,
)
    requires
        linked(before),
        recorded(before, after, node, scores),
        on_path(before, member, node),
        scores.len() == before[node].scores@.len(),
        0 <= player < scores.len(),
    ensures
        after[member].simulations == before[member].simulations + 1,
        after[member].scores@.len() == scores.len(),
        after[member].scores@[player] == before[member].scores@[player] + scores[player],
{
    lemma_path_bounds(before, member, node);
    lemma_same_players(before, member);
    lemma_same_players(before, node);
    assert(node_ok(before, member));
    assert(node_ok(before, node));
    assert(after[member].scores@ == added(before[member].scores@, scores));
    assert(-score_room(before[member].simulations as int) <= before[member].scores@[player]
        <= score_room(before[member].simulations as int));
}

/// Recording a simulation changes no node off the path.
pub proof fn lemma_recorded_off_path<T: Game>(
    before: Seq<MctsNode<T>>,
    after: Seq<MctsNode<T>>,
    node: int,
    scores: Seq<i64>,
    other: int,
)
    requires
        recorded(before, after, node, scores),
        0 <= other < before.len(),
        !on_path(before, other, node),
    ensures
        after[other] == before[other],
        after[other].scores@ == before[other].scores@,
        after[other].simulations == before[other].simulations,
{
    assert(after[other] == before[other]);
}

/// Recording a simulation leaves the shape of the tree alone: every node
/// keeps its state, its parent and its children.
pub proof fn lemma_recorded_keeps_links<T: Game>(
    before: Seq<MctsNode<T>>,
    after: Seq<MctsNode<T>>,
    node: int,
    scores: Seq<i64>,
    other: int,
)
    requires
        recorded(before, after, node, scores),
        0 <= other < before.len(),
    ensures
        after.len() == before.len(),
        after[other].state == before[other].state,
        after[other].parent == before[other].parent,
        after[other].children@ == before[other].children@,
{
    assert(after[other].children == before[other].children);
}

/// Recording a simulation from `node` is one more direct visit at `node`
/// and none anywhere else: at every other node of the path the simulation
/// went through exactly one child.
pub proof fn lemma_recorded_direct<T: Game>(
    before: Seq<MctsNode<T>>,
    after: Seq<MctsNode<T>>,
    node: int,
    scores: Seq<i64>,
    other: int,
)
    requires
        linked(before),
        recorded(before, after, node, scores),
        0 <= node < before.len(),
        0 <= other < before.len(),
    ensures
        direct_visits(after, other) == direct_visits(before, other) + if other == node {
            1int
        } else {
            0int
        },
{
    let block = before[other].children@;
    assert(after[other].children@ == block) by {
        assert(after[other].children == before[other].children);
    }
    assert(node_ok(before, other));
    assert(on_path(before, node, node));
    if exists|k: int| 0 <= k < block.len() && on_path(before, #[trigger] block[k] as int, node) {
        let k = choose|k: int|
            0 <= k < block.len() && on_path(before, #[trigger] block[k] as int, node);
        let child = block[k] as int;
        assert(block[k] == block[0] + k);
        assert(before[child].parent == Some(other as usize));
        lemma_path_up(before, child, node);
        lemma_path_bounds(before, child, node);
        assert(after[child].simulations == before[child].simulations + 1);
        assert forall|j: int| 0 <= j < block.len() && block[j] != child implies after[#[trigger] block[j] as int].simulations
            == before[block[j] as int].simulations by {
            if on_path(before, block[j] as int, node) {
                assert(before[block[j] as int].parent == Some(other as usize));
                lemma_path_one_child(before, block[j] as int, child, node);
            }
            assert(after[block[j] as int] == before[block[j] as int]);
        }
        lemma_visits_bump(before, after, block, child);
    } else {
        assert forall|j: int| 0 <= j < block.len() implies after[#[trigger] block[j] as int].simulations
            == before[block[j] as int].simulations by {
            assert(block[j] == block[0] + j);
            assert(after[block[j] as int] == before[block[j] as int]);
        }
        lemma_visits_same(before, after, block);
        if on_path(before, other, node) && other != node {
            let k = lemma_path_child(before, other, node);
            assert(on_path(before, block[k] as int, node));
        }
    }
}

/// Recording a simulation in a tree leaves a tree: the totals stay within
/// what the simulations can account for.
pub proof fn lemma_recorded_links<T: Game>(
    before: Seq<MctsNode<T>>,
    after: Seq<MctsNode<T>>,
    node: int,
    scores: Seq<i64>,
)
    requires
        linked(before),
        recorded(before, after, node, scores),
        0 <= node < before.len(),
        scores.len() == before[node].scores@.len(),
    ensures
        linked(after),
{
    lemma_same_players(before, node);
    assert(node_ok(before, node));
    assert forall|i: int| 0 <= i < after.len() implies {
        &&& (#[trigger] after[i]).wf()
        &&& after[i].state.position() == before[i].state.position()
        &&& after[i].parent == before[i].parent
        &&& after[i].children@ == before[i].children@
    } by {
        assert(node_ok(before, i));
        lemma_same_players(before, i);
        assert(after[i].children == before[i].children);
        if on_path(before, i, node) {
            assert(after[i].scores@ == added(before[i].scores@, scores));
            assert forall|j: int| 0 <= j < after[i].scores@.len() implies -score_room(
                after[i].simulations as int,
            ) <= #[trigger] after[i].scores@[j] <= score_room(after[i].simulations as int) by {
                assert(-score_room(before[i].simulations as int) <= before[i].scores@[j]
                    <= score_room(before[i].simulations as int));
            }
        }
    }
    lemma_keep_links(before, after);
}

/// Where every node had at least as many simulations as its children
/// together, it has so after a simulation is recorded.
pub proof fn lemma_recorded_covers<T: Game>(
    before: Seq<MctsNode<T>>,
    after: Seq<MctsNode<T>>,
    node: int,
    scores: Seq<i64>,
)
    requires
        linked(before),
        recorded(before, after, node, scores),
        0 <= node < before.len(),
        forall|i: int| 0 <= i < before.len() ==> #[trigger] direct_visits(before, i) >= 0,
    ensures
        forall|i: int| 0 <= i < after.len() ==> #[trigger] direct_visits(after, i) >= 0,
{
    assert forall|i: int| 0 <= i < after.len() implies #[trigger] direct_visits(after, i) >= 0 by {
        lemma_recorded_direct(before, after, node, scores, i);
        assert(direct_visits(before, i) >= 0);
    }
}

/// Where no child has more simulations than its parent, no node has more
/// than the root.
pub proof fn lemma_root_outweighs<T: Game>(nodes: Seq<MctsNode<T>>, i: int)
    requires
        linked(nodes),
        parents_outweigh(nodes),
        0 <= i < nodes.len(),
    ensures
        nodes[i].simulations <= nodes[0].simulations,
    decreases i,
{
    assert(node_ok(nodes, i));
    if i != 0 {
        lemma_root_outweighs(nodes, nodes[i].parent.unwrap() as int);
    }
}

/// Fresh children have no simulations, so an expansion leaves no child
/// with more simulations than its parent where there was none.
pub proof fn lemma_expansion_orders<T: Game>(
    before: Seq<MctsNode<T>>,
    after: Seq<MctsNode<T>>,
    node: int,
)
    requires
        linked(before),
        parents_outweigh(before),
        0 <= node < before.len(),
        before[node].children@.len() == 0,
        expansion(before, after, node),
    ensures
        parents_outweigh(after),
{
    let base = before.len() as int;
    assert forall|i: int| 0 <= i < after.len() implies ((#[trigger] after[i]).parent matches Some(
        up,
    ) ==> after[i].simulations <= after[up as int].simulations) by {
        if i < base {
            assert(node_ok(before, i));
            if i != 0 {
                let up = before[i].parent.unwrap() as int;
                assert(before[i].simulations <= before[up].simulations);
                if up != node {
                    assert(after[up] == before[up]);
                }
                if i != node {
                    assert(after[i] == before[i]);
                }
            }
        } else {
            let k = i - base;
            assert(after[node].children@[k] == base + k);
        }
    }
}

/// Recording a simulation leaves no child with more simulations than its
/// parent where there was none: a node on the path has its parent on the
/// path.
pub proof fn lemma_recorded_orders<T: Game>(
    before: Seq<MctsNode<T>>,
    after: Seq<MctsNode<T>>,
    node: int,
    scores: Seq<i64>,
)
    requires
        linked(before),
        parents_outweigh(before),
        recorded(before, after, node, scores),
    ensures
        parents_outweigh(after),
{
    assert forall|i: int| 0 <= i < after.len() implies ((#[trigger] after[i]).parent matches Some(
        up,
    ) ==> after[i].simulations <= after[up as int].simulations) by {
        assert(node_ok(before, i));
        if i != 0 {
            let up = before[i].parent.unwrap() as int;
            assert(before[i].simulations <= before[up].simulations);
            assert(after[up].parent == before[up].parent);
            if on_path(before, i, node) {
                lemma_path_up(before, i, node);
            }
        }
    }
}

/// In a tree whose simulations are accounted for, a node with children is
/// not terminal, its simulations are its own and those of its children
/// together, and no child has more simulations than it.
pub proof fn lemma_children_account<T: Game>(nodes: Seq<MctsNode<T>>, parent: int, k: int)
    requires
        linked(nodes),
        in_balance(nodes),
        0 <= parent < nodes.len(),
        0 <= k < nodes[parent].children@.len(),
    ensures
        !T::over(nodes[parent].state.position()),
        nodes[parent].simulations == own_visits(nodes, parent) + visits_of(
            nodes,
            nodes[parent].children@,
        ),
        nodes[nodes[parent].children@[k] as int].simulations <= nodes[parent].simulations,
{
    assert(balanced_at(nodes, parent, 0));
    lemma_visits_share(nodes, nodes[parent].children@, k);
}

/// In a tree whose simulations are accounted for, the simulations of a root
/// that is not terminal are those of its children together.
pub proof fn lemma_root_accounts<T: Game>(nodes: Seq<MctsNode<T>>)
    requires
        linked(nodes),
        in_balance(nodes),
        nodes.len() > 0,
        !T::over(nodes[0].state.position()),
    ensures
        nodes[0].simulations == visits_of(nodes, nodes[0].children@),
{
    assert(node_ok(nodes, 0));
    assert(balanced_at(nodes, 0, 0));
}

/// A tree whose simulations are accounted for is one simulation short at
/// none of its nodes, and may be taken to be short at a terminal node: there
/// every number of simulations is in order.
pub proof fn lemma_balance_short<T: Game>(nodes: Seq<MctsNode<T>>, short: int)
    requires
        in_balance(nodes),
        0 <= short < nodes.len() ==> T::over(nodes[short].state.position()),
    ensures
        in_balance_but(nodes, short),
{
    assert forall|i: int| 0 <= i < nodes.len() implies #[trigger] balanced_short(nodes, i, short) by {
        assert(balanced_at(nodes, i, 0));
    }
}

/// Recording one simulation at `at` moves the shortfall from `at` to its
/// parent, and settles it at the root.
pub proof fn lemma_balance_climbs<T: Game>(
    before: Seq<MctsNode<T>>,
    after: Seq<MctsNode<T>>,
    at: int,
)
    requires
        linked(before),
        in_balance_but(before, at),
        0 <= at < before.len(),
        after.len() == before.len(),
        after[at].simulations == before[at].simulations + 1,
        forall|i: int|
            0 <= i < after.len() ==> {
                &&& (#[trigger] after[i]).state.position() == before[i].state.position()
                &&& after[i].parent == before[i].parent
                &&& after[i].children@ == before[i].children@
                &&& i != at ==> after[i].simulations == before[i].simulations
            },
    ensures
        before[at].parent matches Some(up) ==> in_balance_but(after, up as int),
        before[at].parent is None ==> in_balance(after),
{
    let up: int = match before[at].parent {
        Some(up) => up as int,
        None => -1,
    };
    assert(node_ok(before, at));
    assert forall|i: int| 0 <= i < after.len() implies #[trigger] balanced_short(after, i, up) by {
        assert(node_ok(before, i));
        assert(balanced_short(before, i, at));
        assert(own_visits(after, i) == own_visits(before, i)) by {
            if before[i].parent is Some {
                let above = before[i].parent.unwrap() as int;
                assert(after[above].children@ == before[above].children@);
            }
        }
        let block = before[i].children@;
        assert(after[i].children@ == block);
        lemma_visits_bump(before, after, block, at);
        if block.len() > 0 && block[0] <= at < block[0] + block.len() {
            let k = at - block[0];
            assert(block[k] == block[0] + k);
            assert(before[at].parent == Some(i as usize));
        } else if i == up {
            assert(has_child(before, up, at));
        }
    }
    if up < 0 {
        assert forall|i: int| 0 <= i < after.len() implies #[trigger] balanced_at(after, i, 0) by {
            assert(balanced_short(after, i, up));
        }
    }
}

/// One more child: a fresh node for the next way on is put at the end of
/// the arena, and its index at the end of the node's children.
pub proof fn lemma_grown_further<T: Game>(
    before: Seq<MctsNode<T>>,
    grown: Seq<MctsNode<T>>,
    tail: Seq<MctsNode<T>>,
    after: Seq<MctsNode<T>>,
    node: int,
    count: int,
)
    requires
        0 <= node < before.len(),
        0 <= count,
        grown_by(before, grown, node, count),
        tail.len() == grown.len() + 1,
        tail.subrange(0, grown.len() as int) == grown,
        tail[grown.len() as int].fresh(
            Some(node as usize),
            successor::<T>(before[node].state.position(), count),
        ),
        after.len() == tail.len(),
        forall|i: int| 0 <= i < tail.len() && i != node ==> #[trigger] after[i] == tail[i],
        after[node].state == tail[node].state,
        after[node].scores == tail[node].scores,
        after[node].simulations == tail[node].simulations,
        after[node].parent == tail[node].parent,
        after[node].children@ == tail[node].children@.push(grown.len() as usize),
        grown.len() <= usize::MAX,
    ensures
        grown_by(before, after, node, count + 1),
{
    let p = before[node].state.position();
    assert forall|i: int| 0 <= i < grown.len() implies tail[i] == grown[i] by {
        assert(tail.subrange(0, grown.len() as int)[i] == tail[i]);
    }
    assert forall|k: int| 0 <= k < count + 1 implies #[trigger] after[node].children@[k]
        == before.len() + k by {
        if k < count {
            assert(grown[node].children@[k] == before.len() + k);
        }
    }
    assert forall|i: int| before.len() <= i < after.len() implies (#[trigger] after[i]).fresh(
        Some(node as usize),
        successor::<T>(p, i - before.len()),
    ) by {
        assert(after[i] == tail[i]);
        if i < grown.len() {
            assert(grown[i].fresh(Some(node as usize), successor::<T>(p, i - before.len())));
        }
    }
}

/// Expanding a childless node of a tree gives a tree. If the simulations
/// were accounted for and the node is not terminal, they still are, but for
/// the one that is about to be run from the node's first child.
pub proof fn lemma_expansion_links<T: Game>(
    before: Seq<MctsNode<T>>,
    after: Seq<MctsNode<T>>,
    node: int,
)
    requires
        linked(before),
        0 <= node < before.len(),
        before[node].children@.len() == 0,
        expansion(before, after, node),
    ensures
        linked(after),
        in_balance(before) && !T::over(before[node].state.position()) ==> in_balance_but(
            after,
            before.len() as int,
        ),
{
    let p = before[node].state.position();
    let count = fanout::<T>(p);
    let base = before.len() as int;
    assert(node_ok(before, node));
    assert forall|i: int| 0 <= i < after.len() implies #[trigger] node_ok(after, i) by {
        if i < base {
            assert(node_ok(before, i));
            let block = after[i].children@;
            assert forall|k: int| 0 <= k < block.len() implies {
                &&& #[trigger] block[k] == block[0] + k
                &&& i < block[k] < after.len()
                &&& after[block[k] as int].parent == Some(i as usize)
                &&& after[block[k] as int].state.position() == successor::<T>(
                    after[i].state.position(),
                    k,
                )
            } by {
                if i != node {
                    assert(before[i].children@[k] == block[k]);
                    assert(before[block[k] as int].parent == Some(i as usize));
                } else {
                    assert(block[0] == base + 0);
                }
            }
            if i != 0 {
                let up = before[i].parent.unwrap() as int;
                assert(before[up].children@.len() > 0);
                assert(up != node);
            }
        } else {
            let k = i - base;
            assert(after[node].children@[k] == base + k);
            assert(after[node].children@[0] == base + 0);
            assert(after[i].fresh(Some(node as usize), successor::<T>(p, k)));
        }
    }
    if in_balance(before) && !T::over(p) {
        assert(balanced_at(before, node, 0));
        before[node].state.rules();
        assert(after[node].children@[0] == base + 0);
        assert forall|i: int| 0 <= i < after.len() implies #[trigger] balanced_short(
            after,
            i,
            base,
        ) by {
            if i >= base {
                let k = i - base;
                assert(after[node].children@[k] == base + k);
                assert(after[i].fresh(Some(node as usize), successor::<T>(p, k)));
                assert(visits_of(after, after[i].children@) == 0);
            } else if i == node {
                let block = after[node].children@;
                assert forall|k: int| 0 <= k < block.len() implies after[#[trigger] block[k] as int].simulations
                    == 0 by {
                    assert(block[k] == base + k);
                }
                lemma_visits_none(after, block);
                lemma_visits_none(before, before[node].children@);
                if before[node].parent is Some {
                    let up = before[node].parent.unwrap() as int;
                    assert(before[up].children@.len() > 0);
                    assert(after[up] == before[up]);
                }
            } else {
                assert(node_ok(before, i));
                assert(balanced_at(before, i, 0));
                let block = before[i].children@;
                assert forall|k: int| 0 <= k < block.len() implies after[#[trigger] block[k] as int].simulations
                    == before[block[k] as int].simulations by {
                    assert(block[k] == block[0] + k);
                }
                lemma_visits_same(before, after, block);
                if before[i].parent is Some {
                    let up = before[i].parent.unwrap() as int;
                    assert(before[up].children@.len() > 0);
                    assert(after[up] == before[up]);
                }
            }
        }
    }
}

} // verus!
