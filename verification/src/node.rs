//! The nodes of the search tree, held in an arena and addressed by index.
//!
//! A node names its parent and its children by their indices in the arena.
//! Children are appended in one block when their parent is expanded, so a
//! parent's index is below those of its children and the root has index 0.
//!
//! A game scores a player with an `i64`; a node adds the scores up in an
//! `i128`, which no number of simulations can overflow.

use crate::game::Game;
use crate::tree::direct_visits;
use crate::tree::expansion;
use crate::tree::grown_by;
use crate::tree::in_balance;
use crate::tree::in_balance_but;
use crate::tree::lemma_balance_climbs;
use crate::tree::lemma_expansion_links;
use crate::tree::lemma_expansion_orders;
use crate::tree::lemma_grown_further;
use crate::tree::lemma_keep_links;
use crate::tree::lemma_path_bounds;
use crate::tree::lemma_path_gap;
use crate::tree::lemma_path_up;
use crate::tree::lemma_recorded_direct;
use crate::tree::lemma_recorded_on_path;
use crate::tree::lemma_recorded_orders;
use crate::tree::lemma_same_players;
use crate::tree::linked;
use crate::tree::node_ok;
use crate::tree::on_path;
use crate::tree::parents_outweigh;
use crate::tree::path_has_room;
use crate::tree::recorded;
use crate::tree::same_links;
use vstd::prelude::*;

verus! {

/// One position reached during the search, with what the simulations that
/// passed through it have accumulated.
pub struct MctsNode<T: Game> {
    /// The accumulated score of each player.
    pub scores: Vec<i128>,
    /// The number of simulations that passed through this node.
    pub simulations: usize,
    /// The game state at this node.
    pub state: T,
    /// The index of the parent; `None` at the root.
    pub parent: Option<usize>,
    /// The indices of the children, one per way on from `state`; empty until
    /// the node is expanded.
    pub children: Vec<usize>,
}

/// The largest magnitude that the scores of `simulations` simulations can
/// add up to.
pub open spec fn score_room(simulations: int) -> int {
    simulations * 0x8000_0000_0000_0000
}

/// `len` accumulators at zero.
pub open spec fn zeros(len: nat) -> Seq<i128> {
    Seq::new(len, |j: int| 0i128)
}

/// The accumulators `totals` after `scores` has been added to them, player
/// by player.
pub open spec fn added(totals: Seq<i128>, scores: Seq<i64>) -> Seq<i128> {
    Seq::new(totals.len(), |j: int| (totals[j] + scores[j]) as i128)
}

impl<T: Game> MctsNode<T> {
    /// The node holds a consistent state, one accumulator per player, and
    /// totals that its number of simulations can account for.
    pub open spec fn wf(&self) -> bool {
        &&& self.state.wf()
        &&& self.scores@.len() == T::players(self.state.position())
        &&& forall|j: int|
            0 <= j < self.scores@.len() ==> -score_room(self.simulations as int)
                <= #[trigger] self.scores@[j] <= score_room(self.simulations as int)
    }

    /// The node is as `new` makes it: no statistics and no children.
    pub open spec fn fresh(&self, parent: Option<usize>, position: T::Position) -> bool {
        &&& self.state.wf()
        &&& self.state.position() == position
        &&& self.scores@ == zeros(T::players(position))
        &&& self.simulations == 0
        &&& self.parent == parent
        &&& self.children@.len() == 0
    }

    /// A node for `state` below `parent`, with zero statistics and no
    /// children.
    pub fn new(parent: Option<usize>, state: T) -> (node: Self)
        requires
            state.wf(),
        ensures
            node.fresh(parent, state.position()),
            node.state == state,
            node.wf(),
    {
        let count = state.player_count();
        let mut scores: Vec<i128> = Vec::new();
        let mut filled: usize = 0;
        while filled < count
            invariant
                filled <= count,
                scores@ == zeros(filled as nat),
            decreases count - filled,
        {
            scores.push(0);
            filled = filled + 1;
            assert(scores@ =~= zeros(filled as nat));
        }
        MctsNode { scores, simulations: 0, state, parent, children: Vec::new() }
    }

    /// Puts a node for `state` below `parent` at the end of the arena and
    /// returns its index. The node is not yet among its parent's children.
    pub fn new_rc(nodes: &mut Vec<MctsNode<T>>, parent: Option<usize>, state: T) -> (index: usize)
        requires
            state.wf(),
        ensures
            index == old(nodes)@.len(),
            final(nodes)@.len() == old(nodes)@.len() + 1,
            final(nodes)@.subrange(0, index as int) == old(nodes)@,
            final(nodes)@[index as int].fresh(parent, state.position()),
            final(nodes)@[index as int].state == state,
    {
        let index = nodes.len();
        let node = MctsNode::new(parent, state);
        nodes.push(node);
        assert(nodes@.subrange(0, index as int) =~= old(nodes)@);
        index
    }

    /// Counts one simulation at this node and adds its scores to the totals.
    pub fn record(&mut self, scores: &Vec<i64>)
        requires
            old(self).wf(),
            scores@.len() == old(self).scores@.len(),
            old(self).simulations < usize::MAX,
        ensures
            final(self).wf(),
            final(self).simulations == old(self).simulations + 1,
            final(self).scores@ == added(old(self).scores@, scores@),
            final(self).state == old(self).state,
            final(self).parent == old(self).parent,
            final(self).children == old(self).children,
    {
        self.simulations = self.simulations + 1;
        let mut player: usize = 0;
        while player < scores.len()
            invariant
                player <= scores@.len(),
                scores@.len() == old(self).scores@.len(),
                self.scores@.len() == old(self).scores@.len(),
                self.simulations == old(self).simulations + 1,
                self.state == old(self).state,
                self.parent == old(self).parent,
                self.children == old(self).children,
                old(self).wf(),
                forall|j: int|
                    0 <= j < player ==> #[trigger] self.scores@[j] == old(self).scores@[j]
                        + scores@[j],
                forall|j: int|
                    player <= j < self.scores@.len() ==> #[trigger] self.scores@[j] == old(
                        self,
                    ).scores@[j],
            decreases scores@.len() - player,
        {
            let total = self.scores[player] + (scores[player] as i128);
            self.scores[player] = total;
            player = player + 1;
        }
        assert(self.scores@ =~= added(old(self).scores@, scores@));
    }

    /// Whether every node on the path from `node` to the root can count one
    /// simulation more.
    pub fn has_room(nodes: &Vec<MctsNode<T>>, node: usize) -> (room: bool)
        requires
            linked(nodes@),
            node < nodes@.len(),
        ensures
            room == path_has_room(nodes@, node as int),
    {
        let mut at = node;
        let mut more = true;
        proof {
            assert forall|i: int| #[trigger] on_path(nodes@, i, node as int) implies i <= node by {
                lemma_path_bounds(nodes@, i, node as int);
            }
        }
        while more
            invariant
                linked(nodes@),
                node < nodes@.len(),
                more ==> on_path(nodes@, at as int, node as int),
                forall|i: int|
                    0 <= i < nodes@.len() && #[trigger] on_path(nodes@, i, node as int) && (i > at
                        || !more) ==> nodes@[i].simulations < usize::MAX,
            decreases
                    if more {
                        at + 1
                    } else {
                        0
                    },
        {
            proof {
                lemma_path_bounds(nodes@, at as int, node as int);
                assert(node_ok(nodes@, at as int));
            }
            if nodes[at].simulations == usize::MAX {
                return false;
            }
            match nodes[at].parent {
                Some(parent) => {
                    proof {
                        lemma_path_up(nodes@, at as int, node as int);
                        assert forall|i: int| #[trigger]
                            on_path(nodes@, i, node as int) && i > parent implies i >= at by {
                            if i < at {
                                lemma_path_gap(nodes@, i, at as int, node as int);
                                lemma_path_bounds(nodes@, i, parent as int);
                            }
                        }
                    }
                    at = parent;
                },
                None => {
                    proof {
                        assert forall|i: int| #[trigger]
                            on_path(nodes@, i, node as int) implies i >= at by {
                            lemma_path_bounds(nodes@, i, node as int);
                        }
                    }
                    more = false;
                },
            }
        }
        true
    }

    /// Folds the scores of one simulation into `node` and into every node
    /// above it, up to the root: each of them counts one simulation more and
    /// adds `scores` to its totals. No other node changes. Where a node on
    /// the path cannot count one simulation more, nothing is recorded and
    /// `false` comes back.
    pub fn backpropagate(nodes: &mut Vec<MctsNode<T>>, node: usize, scores: &Vec<i64>) -> (done:
        bool)
        requires
            linked(old(nodes)@),
            node < old(nodes)@.len(),
            scores@.len() == old(nodes)@[node as int].scores@.len(),
        ensures
            done == path_has_room(old(nodes)@, node as int),
            done ==> recorded(old(nodes)@, final(nodes)@, node as int, scores@),
            done ==> forall|i: int, player: int|
                0 <= i < final(nodes)@.len() && on_path(old(nodes)@, i, node as int) && 0 <= player
                    < scores@.len() ==> #[trigger] final(nodes)@[i].scores@[player] == old(
                    nodes,
                )@[i].scores@[player] + scores@[player],
            !done ==> final(nodes)@ == old(nodes)@,
            same_links(old(nodes)@, final(nodes)@),
            forall|i: int|
                0 <= i < final(nodes)@.len() && !on_path(old(nodes)@, i, node as int)
                    ==> #[trigger] final(nodes)@[i] == old(nodes)@[i],
            forall|i: int|
                0 <= i < final(nodes)@.len() ==> #[trigger] direct_visits(final(nodes)@, i)
                    == direct_visits(old(nodes)@, i) + if done && i == node {
                    1int
                } else {
                    0int
                },
            linked(final(nodes)@),
            parents_outweigh(old(nodes)@) ==> parents_outweigh(final(nodes)@),
            done && in_balance_but(old(nodes)@, node as int) ==> in_balance(final(nodes)@),
    {
        if !Self::has_room(nodes, node) {
            return false;
        }
        let mut at = node;
        let mut more = true;
        proof {
            assert forall|i: int| #[trigger] on_path(old(nodes)@, i, node as int) implies i
                <= node by {
                lemma_path_bounds(old(nodes)@, i, node as int);
            }
        }
        while more
            invariant
                linked(nodes@),
                nodes@.len() == old(nodes)@.len(),
                linked(old(nodes)@),
                node < nodes@.len(),
                scores@.len() == old(nodes)@[node as int].scores@.len(),
                path_has_room(old(nodes)@, node as int),
                forall|i: int|
                    0 <= i < nodes@.len() ==> {
                        &&& (#[trigger] nodes@[i]).state == old(nodes)@[i].state
                        &&& nodes@[i].parent == old(nodes)@[i].parent
                        &&& nodes@[i].children == old(nodes)@[i].children
                    },
                more ==> on_path(old(nodes)@, at as int, node as int),
                forall|i: int|
                    0 <= i < nodes@.len() && #[trigger] on_path(old(nodes)@, i, node as int) && (i
                        > at || !more) ==> {
                        &&& nodes@[i].simulations == old(nodes)@[i].simulations + 1
                        &&& nodes@[i].scores@ == added(old(nodes)@[i].scores@, scores@)
                    },
                forall|i: int|
                    0 <= i < nodes@.len() && !(on_path(old(nodes)@, i, node as int) && (i > at
                        || !more)) ==> #[trigger] nodes@[i] == old(nodes)@[i],
                in_balance_but(old(nodes)@, node as int) ==> if more {
                    in_balance_but(nodes@, at as int)
                } else {
                    in_balance(nodes@)
                },
            decreases
                    if more {
                        at + 1
                    } else {
                        0
                    },
        {
            let ghost before = nodes@;
            proof {
                lemma_path_bounds(old(nodes)@, at as int, node as int);
                lemma_same_players(old(nodes)@, at as int);
                lemma_same_players(old(nodes)@, node as int);
                assert(node_ok(old(nodes)@, at as int));
                assert(node_ok(old(nodes)@, node as int));
                assert(node_ok(before, at as int));
            }
            nodes[at].record(scores);
            let up = nodes[at].parent;
            proof {
                assert forall|i: int| 0 <= i < nodes@.len() implies {
                    &&& (#[trigger] nodes@[i]).wf()
                    &&& nodes@[i].state.position() == before[i].state.position()
                    &&& nodes@[i].parent == before[i].parent
                    &&& nodes@[i].children@ == before[i].children@
                } by {
                    assert(node_ok(before, i));
                }
                lemma_keep_links(before, nodes@);
                if in_balance_but(old(nodes)@, node as int) {
                    lemma_balance_climbs(before, nodes@, at as int);
                }
            }
            match up {
                Some(parent) => {
                    proof {
                        lemma_path_up(old(nodes)@, at as int, node as int);
                        assert forall|i: int| #[trigger]
                            on_path(old(nodes)@, i, node as int) && i > parent implies i >= at by {
                            if i < at {
                                lemma_path_gap(old(nodes)@, i, at as int, node as int);
                                lemma_path_bounds(old(nodes)@, i, parent as int);
                            }
                        }
                    }
                    at = parent;
                },
                None => {
                    proof {
                        assert forall|i: int| #[trigger]
                            on_path(old(nodes)@, i, node as int) implies i >= at by {
                            lemma_path_bounds(old(nodes)@, i, node as int);
                        }
                    }
                    more = false;
                },
            }
        }
        proof {
            assert forall|i: int| 0 <= i < nodes@.len() implies {
                &&& (#[trigger] nodes@[i]).state == old(nodes)@[i].state
                &&& nodes@[i].parent == old(nodes)@[i].parent
                &&& nodes@[i].children == old(nodes)@[i].children
                &&& if on_path(old(nodes)@, i, node as int) {
                    &&& nodes@[i].simulations == old(nodes)@[i].simulations + 1
                    &&& nodes@[i].scores@ == added(old(nodes)@[i].scores@, scores@)
                } else {
                    nodes@[i] == old(nodes)@[i]
                }
            } by {
                if on_path(old(nodes)@, i, node as int) {
                }
            }
            if parents_outweigh(old(nodes)@) {
                lemma_recorded_orders(old(nodes)@, nodes@, node as int, scores@);
            }
            assert forall|i: int, player: int|
                0 <= i < nodes@.len() && on_path(old(nodes)@, i, node as int) && 0 <= player
                    < scores@.len() implies #[trigger] nodes@[i].scores@[player] == old(
                nodes,
            )@[i].scores@[player] + scores@[player] by {
                lemma_recorded_on_path(old(nodes)@, nodes@, node as int, scores@, i, player);
            }
            assert forall|i: int| 0 <= i < nodes@.len() implies #[trigger] direct_visits(nodes@, i)
                == direct_visits(old(nodes)@, i) + if i == node {
                1int
            } else {
                0int
            } by {
                lemma_recorded_direct(old(nodes)@, nodes@, node as int, scores@, i);
            }
        }
        true
    }

    /// Expands the node `node` if it has no children: it gets one child per
    /// chance outcome at a chance step, one per legal action otherwise. A
    /// node that has children is not expanded again: nothing changes and
    /// `false` comes back.
    pub fn expand(nodes: &mut Vec<MctsNode<T>>, node: usize) -> (grown: bool)
        requires
            linked(old(nodes)@),
            node < old(nodes)@.len(),
        ensures
            grown == (old(nodes)@[node as int].children@.len() == 0),
            grown ==> expansion(old(nodes)@, final(nodes)@, node as int),
            !grown ==> final(nodes)@ == old(nodes)@,
            linked(final(nodes)@),
            parents_outweigh(old(nodes)@) ==> parents_outweigh(final(nodes)@),
            grown && in_balance(old(nodes)@) && !T::over(old(nodes)@[node as int].state.position())
                ==> in_balance_but(final(nodes)@, old(nodes)@.len() as int),
    {
        proof {
            assert(node_ok(nodes@, node as int));
        }
        if nodes[node].children.len() > 0 {
            return false;
        }
        if nodes[node].state.is_random_step() {
            Self::expand_random(nodes, node);
        } else {
            Self::expand_actions(nodes, node);
        }
        proof {
            lemma_expansion_links(old(nodes)@, nodes@, node as int);
            if parents_outweigh(old(nodes)@) {
                lemma_expansion_orders(old(nodes)@, nodes@, node as int);
            }
        }
        true
    }

    /// Adds one child for each outcome of the chance event at `node`.
    fn expand_random(nodes: &mut Vec<MctsNode<T>>, node: usize)
        requires
            node < old(nodes)@.len(),
            old(nodes)@[node as int].state.wf(),
            old(nodes)@[node as int].children@.len() == 0,
            T::chance(old(nodes)@[node as int].state.position()),
        ensures
            expansion(old(nodes)@, final(nodes)@, node as int),
    {
        let ghost p = nodes@[node as int].state.position();
        let outcomes = nodes[node].state.possible_random().unwrap();
        let mut k: usize = 0;
        while k < outcomes.len()
            invariant
                k <= outcomes@.len(),
                outcomes@.len() == T::branches(p).len(),
                forall|j: int|
                    0 <= j < outcomes@.len() ==> {
                        &&& (#[trigger] outcomes@[j]).wf()
                        &&& outcomes@[j].position() == T::branches(p)[j]
                    },
                T::chance(p),
                p == old(nodes)@[node as int].state.position(),
                node < old(nodes)@.len(),
                grown_by(old(nodes)@, nodes@, node as int, k as int),
            decreases outcomes@.len() - k,
        {
            let state = outcomes[k].snapshot();
            let ghost grown = nodes@;
            let child = MctsNode::new_rc(nodes, Some(node), state);
            let ghost tail = nodes@;
            nodes[node].children.push(child);
            proof {
                lemma_grown_further(old(nodes)@, grown, tail, nodes@, node as int, k as int);
            }
            k = k + 1;
        }
    }

    /// Adds one child for each legal action at `node`. The actions are
    /// cached on a copy of the node's state, and each child is made from a
    /// copy of that copy: the node's own state is not touched.
    fn expand_actions(nodes: &mut Vec<MctsNode<T>>, node: usize)
        requires
            node < old(nodes)@.len(),
            old(nodes)@[node as int].state.wf(),
            old(nodes)@[node as int].children@.len() == 0,
            !T::chance(old(nodes)@[node as int].state.position()),
        ensures
            expansion(old(nodes)@, final(nodes)@, node as int),
    {
        let ghost p = nodes@[node as int].state.position();
        let mut cached = nodes[node].state.snapshot();
        let count = cached.cache_actions();
        let mut action: usize = 0;
        while action < count
            invariant
                action <= count,
                count == T::actions(p),
                !T::chance(p),
                p == old(nodes)@[node as int].state.position(),
                node < old(nodes)@.len(),
                cached.wf(),
                cached.ready(),
                cached.position() == p,
                grown_by(old(nodes)@, nodes@, node as int, action as int),
            decreases count - action,
        {
            let mut state = cached.snapshot();
            state.make_action(action);
            let ghost grown = nodes@;
            let child = MctsNode::new_rc(nodes, Some(node), state);
            let ghost tail = nodes@;
            nodes[node].children.push(child);
            proof {
                lemma_grown_further(old(nodes)@, grown, tail, nodes@, node as int, action as int);
            }
            action = action + 1;
        }
    }
}

} // verus!
