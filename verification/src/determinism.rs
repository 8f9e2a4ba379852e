//! What the search leaves to chance, and what it does not.
//!
//! With a policy that is a function, and in a game without chance events,
//! selection is decided by the tree: it can come to one node only. What is
//! left to the random source is how the games that are played out end, and
//! that is decided by the actions drawn. Two searches that begin alike and
//! whose games end alike grow trees that are alike and choose the same
//! child of the root.

use crate::game::Game;
use crate::game::fanout;
use crate::game::follows;
use crate::game::line_of_play;
use crate::game::played_out;
use crate::game::successor;
use crate::node::MctsNode;
use crate::search::child_visits;
use crate::search::descent;
use crate::search::first_max;
use crate::search::keyed;
use crate::search::lemma_first_max_unique;
use crate::search::lemma_preferred_unique;
use crate::search::preferred;
use crate::search::searched;
use crate::search::simulated;
use crate::search::single_valued;
use crate::search::started_at;
use crate::search::step;
use crate::tree::expansion;
use crate::tree::lemma_expansion_links;
use crate::tree::lemma_path_bounds;
use crate::tree::lemma_path_child;
use crate::tree::lemma_recorded_links;
use crate::tree::lemma_same_players;
use crate::tree::linked;
use crate::tree::node_ok;
use crate::tree::on_path;
use crate::tree::recorded;
use vstd::prelude::*;

verus! {

/// No node of the tree holds a chance step.
pub open spec fn decisions_only<T: Game>(nodes: Seq<MctsNode<T>>) -> bool {
    forall|i: int| 0 <= i < nodes.len() ==> !T::chance((#[trigger] nodes[i]).state.position())
}

/// Selection stops at node `i`: it is terminal or has no children.
pub open spec fn stops<T: Game>(nodes: Seq<MctsNode<T>>, i: int) -> bool {
    T::over(nodes[i].state.position()) || nodes[i].children@.len() == 0
}

/// A descent ends at or below a node that it began at, and on that node's
/// way down.
pub proof fn lemma_descent_bounds<T: Game, P: Fn(i128, usize, usize) -> i64>(
    nodes: Seq<MctsNode<T>>,
    policy: P,
    from: int,
    to: int,
)
    requires
        descent(nodes, policy, from, to),
    ensures
        0 <= from <= to < nodes.len(),
        on_path(nodes, from, to),
    decreases to,
{
    if to != from {
        lemma_descent_bounds(nodes, policy, from, nodes[to].parent.unwrap() as int);
    }
}

/// A descent came through every node between its start and its end.
pub proof fn lemma_descent_through<T: Game, P: Fn(i128, usize, usize) -> i64>(
    nodes: Seq<MctsNode<T>>,
    policy: P,
    from: int,
    to: int,
    member: int,
)
    requires
        descent(nodes, policy, from, to),
        on_path(nodes, member, to),
        from <= member,
    ensures
        descent(nodes, policy, from, member),
    decreases to,
{
    lemma_path_bounds(nodes, member, to);
    if member != to {
        if to == from {
        } else {
            lemma_descent_through(nodes, policy, from, nodes[to].parent.unwrap() as int, member);
        }
    }
}

/// Of two descents from one node, one is the beginning of the other.
pub proof fn lemma_descents_nest<T: Game, P: Fn(i128, usize, usize) -> i64>(
    nodes: Seq<MctsNode<T>>,
    policy: P,
    from: int,
    upper: int,
    lower: int,
)
    requires
        linked(nodes),
        decisions_only(nodes),
        single_valued(policy),
        descent(nodes, policy, from, upper),
        descent(nodes, policy, from, lower),
        upper <= lower,
    ensures
        on_path(nodes, upper, lower),
    decreases lower,
{
    lemma_descent_bounds(nodes, policy, from, upper);
    lemma_descent_bounds(nodes, policy, from, lower);
    if upper != lower {
        let up = nodes[lower].parent.unwrap() as int;
        lemma_descent_bounds(nodes, policy, from, up);
        if upper <= up {
            lemma_descents_nest(nodes, policy, from, upper, up);
        } else {
            // the two descents part at `up`, where selection prefers one child
            lemma_descents_nest(nodes, policy, from, up, upper);
            let k = lemma_path_child(nodes, up, upper);
            assert(node_ok(nodes, up));
            let block = nodes[up].children@;
            let child = block[k] as int;
            assert(block[k] == block[0] + k);
            lemma_path_bounds(nodes, child, upper);
            lemma_descent_through(nodes, policy, from, upper, child);
            assert(step(nodes, policy, up, child));
            assert(step(nodes, policy, up, lower));
            lemma_preferred_unique(nodes, policy, up, child - block[0], lower - block[0]);
        }
    }
}

/// Selection is decided by the tree: from one node it can come to one node
/// only.
pub proof fn lemma_selection_unique<T: Game, P: Fn(i128, usize, usize) -> i64>(
    nodes: Seq<MctsNode<T>>,
    policy: P,
    from: int,
    one: int,
    other: int,
)
    requires
        linked(nodes),
        decisions_only(nodes),
        single_valued(policy),
        descent(nodes, policy, from, one),
        descent(nodes, policy, from, other),
        stops(nodes, one),
        stops(nodes, other),
    ensures
        one == other,
{
    let upper = if one <= other {
        one
    } else {
        other
    };
    let lower = if one <= other {
        other
    } else {
        one
    };
    lemma_descents_nest(nodes, policy, from, upper, lower);
    lemma_descent_bounds(nodes, policy, from, upper);
    if upper != lower {
        let k = lemma_path_child(nodes, upper, lower);
        assert(node_ok(nodes, upper));
        let child = nodes[upper].children@[k] as int;
        assert(nodes[upper].children@[k] == nodes[upper].children@[0] + k);
        lemma_path_bounds(nodes, child, lower);
        lemma_descent_through(nodes, policy, from, lower, child);
        assert(step(nodes, policy, upper, child));
    }
}

/// Two trees are alike: they have the same shape and hold, node by node,
/// the same position, the same simulations and the same totals. Their
/// states may differ in what is no part of the position.
pub open spec fn alike<T: Game>(one: Seq<MctsNode<T>>, other: Seq<MctsNode<T>>) -> bool {
    &&& one.len() == other.len()
    &&& forall|i: int|
        #![trigger one[i]]
        #![trigger other[i]]
        0 <= i < one.len() ==> {
            &&& one[i].state.position() == other[i].state.position()
            &&& one[i].parent == other[i].parent
            &&& one[i].children@ == other[i].children@
            &&& one[i].simulations == other[i].simulations
            &&& one[i].scores@ == other[i].scores@
        }
}

/// What a simulation does to the tree once selection has come to `leaf`
/// and the game that was played out has ended with `scores`: a leaf that
/// is not terminal is expanded, and the scores are recorded from the leaf,
/// if it is terminal, or else from its first child.
pub open spec fn simulated_from<T: Game>(
    before: Seq<MctsNode<T>>,
    after: Seq<MctsNode<T>>,
    leaf: int,
    scores: Seq<i64>,
) -> bool {
    exists|grown: Seq<MctsNode<T>>|
        {
            &&& if T::over(before[leaf].state.position()) {
                grown == before
            } else {
                before[leaf].children@.len() == 0 && expansion(before, grown, leaf)
            }
            &&& #[trigger] recorded(grown, after, started_at(before, leaf), scores)
        }
}

/// Trees that are alike have the same paths.
pub proof fn lemma_path_alike<T: Game>(
    one: Seq<MctsNode<T>>,
    other: Seq<MctsNode<T>>,
    ancestor: int,
    node: int,
)
    requires
        alike(one, other),
    ensures
        on_path(one, ancestor, node) == on_path(other, ancestor, node),
    decreases node,
{
    if 0 <= node < one.len() && ancestor != node {
        assert(one[node].parent == other[node].parent);
        if one[node].parent is Some && one[node].parent.unwrap() < node {
            lemma_path_alike(one, other, ancestor, one[node].parent.unwrap() as int);
        }
    }
}

/// In trees that are alike selection prefers the same child.
pub proof fn lemma_preferred_alike<T: Game, P: Fn(i128, usize, usize) -> i64>(
    one: Seq<MctsNode<T>>,
    other: Seq<MctsNode<T>>,
    policy: P,
    parent: int,
    k: int,
)
    requires
        linked(one),
        alike(one, other),
        0 <= parent < one.len(),
        preferred(one, policy, parent, k),
    ensures
        preferred(other, policy, parent, k),
{
    assert(node_ok(one, parent));
    let block = one[parent].children@;
    assert(other[parent].children@ == block);
    assert forall|j: int| 0 <= j < block.len() implies one[#[trigger] block[j] as int].simulations
        == other[block[j] as int].simulations && one[block[j] as int].scores@
        == other[block[j] as int].scores@ by {
        assert(block[j] == block[0] + j);
        assert(one[block[j] as int].parent == other[block[j] as int].parent);
    }
    if one[block[k] as int].simulations != 0 {
        let keys = choose|keys: Seq<int>| #[trigger]
            keyed(one, policy, parent, keys) && first_max(keys, k);
        assert(keyed(other, policy, parent, keys));
    }
}

/// In trees that are alike selection descends alike.
pub proof fn lemma_descent_alike<T: Game, P: Fn(i128, usize, usize) -> i64>(
    one: Seq<MctsNode<T>>,
    other: Seq<MctsNode<T>>,
    policy: P,
    from: int,
    to: int,
)
    requires
        linked(one),
        alike(one, other),
        descent(one, policy, from, to),
    ensures
        descent(other, policy, from, to),
    decreases to,
{
    lemma_descent_bounds(one, policy, from, to);
    assert(one[to].parent == other[to].parent);
    if to != from {
        let up = one[to].parent.unwrap() as int;
        lemma_descent_alike(one, other, policy, from, up);
        lemma_descent_bounds(one, policy, from, up);
        assert(one[up].children@ == other[up].children@);
        if !T::chance(one[up].state.position()) {
            lemma_preferred_alike(one, other, policy, up, to - one[up].children@[0]);
        }
    }
}

/// One simulation is decided by the tree, the node that selection came to
/// and the scores that the game played out to: from trees that are alike
/// it leaves trees that are alike.
pub proof fn lemma_simulation_alike<T: Game>(
    one: Seq<MctsNode<T>>,
    other: Seq<MctsNode<T>>,
    one_after: Seq<MctsNode<T>>,
    other_after: Seq<MctsNode<T>>,
    leaf: int,
    scores: Seq<i64>,
)
    requires
        alike(one, other),
        0 <= leaf < one.len(),
        simulated_from(one, one_after, leaf, scores),
        simulated_from(other, other_after, leaf, scores),
    ensures
        alike(one_after, other_after),
{
    let grown = choose|grown: Seq<MctsNode<T>>|
        {
            &&& if T::over(one[leaf].state.position()) {
                grown == one
            } else {
                one[leaf].children@.len() == 0 && expansion(one, grown, leaf)
            }
            &&& #[trigger] recorded(grown, one_after, started_at(one, leaf), scores)
        };
    let grown_other = choose|grown: Seq<MctsNode<T>>|
        {
            &&& if T::over(other[leaf].state.position()) {
                grown == other
            } else {
                other[leaf].children@.len() == 0 && expansion(other, grown, leaf)
            }
            &&& #[trigger] recorded(grown, other_after, started_at(other, leaf), scores)
        };
    assert(one[leaf].state.position() == other[leaf].state.position());
    let start = started_at(one, leaf);
    assert(start == started_at(other, leaf));
    assert(alike(grown, grown_other)) by {
        if !T::over(one[leaf].state.position()) {
            let base = one.len() as int;
            assert forall|i: int|
                #![trigger grown[i]]
                #![trigger grown_other[i]]
                0 <= i < grown.len() implies {
                &&& grown[i].state.position() == grown_other[i].state.position()
                &&& grown[i].parent == grown_other[i].parent
                &&& grown[i].children@ == grown_other[i].children@
                &&& grown[i].simulations == grown_other[i].simulations
                &&& grown[i].scores@ == grown_other[i].scores@
            } by {
                if i < base {
                    assert(one[i].parent == other[i].parent);
                    if i != leaf {
                        assert(grown[i] == one[i]);
                        assert(grown_other[i] == other[i]);
                    } else {
                        assert(grown[i].children@ =~= grown_other[i].children@);
                    }
                } else {
                    assert(grown[i].children@ =~= grown_other[i].children@);
                }
            }
        }
    }
    assert forall|i: int|
        #![trigger one_after[i]]
        #![trigger other_after[i]]
        0 <= i < one_after.len() implies {
        &&& one_after[i].state.position() == other_after[i].state.position()
        &&& one_after[i].parent == other_after[i].parent
        &&& one_after[i].children@ == other_after[i].children@
        &&& one_after[i].simulations == other_after[i].simulations
        &&& one_after[i].scores@ == other_after[i].scores@
    } by {
        lemma_path_alike(grown, grown_other, i, start);
        assert(grown[i].parent == grown_other[i].parent);
        assert(one_after[i].children == grown[i].children);
        assert(other_after[i].children == grown_other[i].children);
    }
}

/// The game has no chance events.
pub open spec fn no_chance<T: Game>() -> bool {
    forall|p: T::Position| !(#[trigger] T::chance(p))
}

/// The position that the game comes to from `start` when the actions of the
/// indices `draws` are taken one after the other.
pub open spec fn rolled<T: Game>(start: T::Position, draws: Seq<nat>) -> T::Position
    decreases draws.len(),
{
    if draws.len() == 0 {
        start
    } else {
        T::play(rolled::<T>(start, draws.drop_last()), draws.last())
    }
}

/// In a game without chance events a line of play is the line of the
/// actions that were drawn: its end is a function of its start and the
/// draws, each of which was a legal action where it was taken.
pub proof fn lemma_line_draws<T: Game>(line: Seq<T::Position>) -> (draws: Seq<nat>)
    requires
        no_chance::<T>(),
        line.len() > 0,
        line_of_play::<T>(line),
    ensures
        draws.len() == line.len() - 1,
        rolled::<T>(line[0], draws) == line.last(),
        forall|s: int|
            0 <= s < draws.len() ==> #[trigger] draws[s] < T::actions(
                rolled::<T>(line[0], draws.subrange(0, s)),
            ),
    decreases line.len(),
{
    if line.len() == 1 {
        Seq::empty()
    } else {
        let shorter = line.drop_last();
        assert forall|s: int| 0 <= s < shorter.len() - 1 implies follows::<T>(
            #[trigger] shorter[s],
            shorter[s + 1],
        ) by {
            assert(follows::<T>(line[s], line[s + 1]));
        }
        let earlier = lemma_line_draws::<T>(shorter);
        let p = line[line.len() - 2];
        let q = line.last();
        assert(follows::<T>(p, q));
        let k = choose|k: int| 0 <= k < fanout::<T>(p) && q == #[trigger] successor::<T>(p, k);
        assert(!T::chance(p));
        let draws = earlier.push(k as nat);
        assert(draws.drop_last() =~= earlier);
        assert forall|s: int| 0 <= s < draws.len() implies #[trigger] draws[s] < T::actions(
            rolled::<T>(line[0], draws.subrange(0, s)),
        ) by {
            if s < earlier.len() {
                assert(draws.subrange(0, s) =~= earlier.subrange(0, s));
                assert(earlier[s] < T::actions(rolled::<T>(shorter[0], earlier.subrange(0, s))));
            } else {
                assert(draws.subrange(0, s) =~= earlier);
            }
        }
        draws
    }
}

/// In a game without chance events the scores that a game is played out to
/// are decided by the position it starts from and the actions drawn.
pub proof fn lemma_rollout_decided<T: Game>(start: T::Position, scores: Seq<i64>) -> (draws: Seq<
    nat,
>)
    requires
        no_chance::<T>(),
        played_out::<T>(start, scores),
    ensures
        T::over(rolled::<T>(start, draws)),
        scores == T::outcome(rolled::<T>(start, draws)),
{
    let line = choose|line: Seq<T::Position>|
        {
            &&& line.len() > 0
            &&& line[0] == start
            &&& #[trigger] line_of_play::<T>(line)
            &&& T::over(line.last())
            &&& scores == T::outcome(line.last())
        };
    lemma_line_draws::<T>(line)
}

/// `after` is `before` after one simulation for each entry of `outcomes`,
/// in their order: each time selection came from the root to a node where
/// it stops, and the game that was played out ended with the scores of the
/// entry.
pub open spec fn replayed<T: Game, P: Fn(i128, usize, usize) -> i64>(
    before: Seq<MctsNode<T>>,
    after: Seq<MctsNode<T>>,
    policy: P,
    outcomes: Seq<Seq<i64>>,
) -> bool
    decreases outcomes.len(),
{
    if outcomes.len() == 0 {
        after == before
    } else {
        exists|middle: Seq<MctsNode<T>>, leaf: int|
            {
                &&& replayed(before, middle, policy, outcomes.drop_last())
                &&& 0 <= leaf < middle.len()
                &&& descent(middle, policy, 0, leaf)
                &&& stops(middle, leaf)
                &&& outcomes.last().len() == middle[0].scores@.len()
                &&& #[trigger] simulated_from(middle, after, leaf, outcomes.last())
            }
    }
}

/// A simulation in a tree leaves a tree.
pub proof fn lemma_simulated_links<T: Game>(
    before: Seq<MctsNode<T>>,
    after: Seq<MctsNode<T>>,
    leaf: int,
    scores: Seq<i64>,
)
    requires
        linked(before),
        0 <= leaf < before.len(),
        scores.len() == before[0].scores@.len(),
        simulated_from(before, after, leaf, scores),
    ensures
        linked(after),
{
    let grown = choose|grown: Seq<MctsNode<T>>|
        {
            &&& if T::over(before[leaf].state.position()) {
                grown == before
            } else {
                before[leaf].children@.len() == 0 && expansion(before, grown, leaf)
            }
            &&& #[trigger] recorded(grown, after, started_at(before, leaf), scores)
        };
    let start = started_at(before, leaf);
    assert(node_ok(before, leaf));
    assert(node_ok(before, 0));
    if !T::over(before[leaf].state.position()) {
        lemma_expansion_links(before, grown, leaf);
        before[leaf].state.rules();
        assert(grown[0].state == before[0].state);
        assert(grown[0].scores@ == before[0].scores@) by {
            if leaf != 0 {
                assert(grown[0] == before[0]);
            }
        }
    }
    assert(node_ok(grown, 0));
    assert(node_ok(grown, start));
    lemma_same_players(grown, start);
    lemma_recorded_links(grown, after, start, scores);
}

/// A search is a replay of the scores that its simulations played out to.
pub proof fn lemma_searched_replays<T: Game, P: Fn(i128, usize, usize) -> i64>(
    before: Seq<MctsNode<T>>,
    after: Seq<MctsNode<T>>,
    policy: P,
    count: nat,
) -> (outcomes: Seq<Seq<i64>>)
    requires
        searched(before, after, policy, count),
    ensures
        outcomes.len() == count,
        replayed(before, after, policy, outcomes),
    decreases count,
{
    if count == 0 {
        Seq::empty()
    } else {
        let middle = choose|middle: Seq<MctsNode<T>>|
            searched(before, middle, policy, (count - 1) as nat) && #[trigger] simulated(
                middle,
                after,
                policy,
            );
        let earlier = lemma_searched_replays(before, middle, policy, (count - 1) as nat);
        let (leaf, grown, scores) = choose|leaf: int, grown: Seq<MctsNode<T>>, scores: Seq<i64>|
            {
                &&& 0 <= leaf < middle.len()
                &&& descent(middle, policy, 0, leaf)
                &&& scores.len() == middle[0].scores@.len()
                &&& if T::over(middle[leaf].state.position()) {
                    &&& grown == middle
                    &&& scores == T::outcome(middle[leaf].state.position())
                } else {
                    &&& middle[leaf].children@.len() == 0
                    &&& expansion(middle, grown, leaf)
                    &&& played_out::<T>(
                        successor::<T>(middle[leaf].state.position(), 0),
                        scores,
                    )
                }
                &&& #[trigger] recorded(grown, after, started_at(middle, leaf), scores)
            };
        let outcomes = earlier.push(scores);
        assert(outcomes.drop_last() =~= earlier);
        assert(outcomes.last() == scores);
        assert(simulated_from(middle, after, leaf, scores));
        outcomes
    }
}

/// Two searches that begin with trees that are alike, and whose games end
/// with the same scores one after the other, leave trees that are alike,
/// where the policy is a function and the game has no chance events.
pub proof fn lemma_search_decided<T: Game, P: Fn(i128, usize, usize) -> i64>(
    one: Seq<MctsNode<T>>,
    other: Seq<MctsNode<T>>,
    one_after: Seq<MctsNode<T>>,
    other_after: Seq<MctsNode<T>>,
    policy: P,
    outcomes: Seq<Seq<i64>>,
)
    requires
        linked(one),
        linked(other),
        alike(one, other),
        no_chance::<T>(),
        single_valued(policy),
        replayed(one, one_after, policy, outcomes),
        replayed(other, other_after, policy, outcomes),
    ensures
        alike(one_after, other_after),
        linked(one_after),
        linked(other_after),
    decreases outcomes.len(),
{
    if outcomes.len() > 0 {
        let (middle, leaf) = choose|middle: Seq<MctsNode<T>>, leaf: int|
            {
                &&& replayed(one, middle, policy, outcomes.drop_last())
                &&& 0 <= leaf < middle.len()
                &&& descent(middle, policy, 0, leaf)
                &&& stops(middle, leaf)
                &&& outcomes.last().len() == middle[0].scores@.len()
                &&& #[trigger] simulated_from(middle, one_after, leaf, outcomes.last())
            };
        let (other_middle, other_leaf) = choose|middle: Seq<MctsNode<T>>, leaf: int|
            {
                &&& replayed(other, middle, policy, outcomes.drop_last())
                &&& 0 <= leaf < middle.len()
                &&& descent(middle, policy, 0, leaf)
                &&& stops(middle, leaf)
                &&& outcomes.last().len() == middle[0].scores@.len()
                &&& #[trigger] simulated_from(middle, other_after, leaf, outcomes.last())
            };
        lemma_search_decided(one, other, middle, other_middle, policy, outcomes.drop_last());
        lemma_descent_alike(middle, other_middle, policy, 0, leaf);
        assert(middle[leaf].state.position() == other_middle[leaf].state.position());
        assert(middle[leaf].children@ == other_middle[leaf].children@);
        assert(decisions_only(other_middle));
        lemma_selection_unique(other_middle, policy, 0, leaf, other_leaf);
        lemma_simulation_alike(
            middle,
            other_middle,
            one_after,
            other_after,
            leaf,
            outcomes.last(),
        );
        lemma_simulated_links(middle, one_after, leaf, outcomes.last());
        lemma_simulated_links(other_middle, other_after, leaf, outcomes.last());
    }
}

/// In trees that are alike the most visited child of a node is the same.
pub proof fn lemma_choice_alike<T: Game>(
    one: Seq<MctsNode<T>>,
    other: Seq<MctsNode<T>>,
    parent: int,
    a: int,
    b: int,
)
    requires
        linked(one),
        alike(one, other),
        0 <= parent < one.len(),
        first_max(child_visits(one, parent), a),
        first_max(child_visits(other, parent), b),
    ensures
        a == b,
{
    assert(node_ok(one, parent));
    let block = one[parent].children@;
    assert(other[parent].children@ == block);
    assert forall|j: int| 0 <= j < block.len() implies child_visits(one, parent)[j]
        == child_visits(other, parent)[j] by {
        assert(block[j] == block[0] + j);
        assert(one[block[j] as int].parent == other[block[j] as int].parent);
    }
    assert(child_visits(one, parent) =~= child_visits(other, parent));
    lemma_first_max_unique(child_visits(one, parent), a, b);
}

/// A replay takes no node out of the tree.
pub proof fn lemma_replayed_grows<T: Game, P: Fn(i128, usize, usize) -> i64>(
    before: Seq<MctsNode<T>>,
    after: Seq<MctsNode<T>>,
    policy: P,
    outcomes: Seq<Seq<i64>>,
)
    requires
        replayed(before, after, policy, outcomes),
    ensures
        after.len() >= before.len(),
    decreases outcomes.len(),
{
    if outcomes.len() > 0 {
        let (middle, leaf) = choose|middle: Seq<MctsNode<T>>, leaf: int|
            {
                &&& replayed(before, middle, policy, outcomes.drop_last())
                &&& 0 <= leaf < middle.len()
                &&& descent(middle, policy, 0, leaf)
                &&& stops(middle, leaf)
                &&& outcomes.last().len() == middle[0].scores@.len()
                &&& #[trigger] simulated_from(middle, after, leaf, outcomes.last())
            };
        lemma_replayed_grows(before, middle, policy, outcomes.drop_last());
        let grown = choose|grown: Seq<MctsNode<T>>|
            {
                &&& if T::over(middle[leaf].state.position()) {
                    grown == middle
                } else {
                    middle[leaf].children@.len() == 0 && expansion(middle, grown, leaf)
                }
                &&& #[trigger] recorded(grown, after, started_at(middle, leaf), outcomes.last())
            };
    }
}

/// The decision of a search is decided by the tree it begins with, the
/// policy and the scores that its games end with: two searches that agree
/// in these choose the same child of the root, where the policy is a
/// function and the game has no chance events.
pub proof fn lemma_decision_decided<T: Game, P: Fn(i128, usize, usize) -> i64>(
    one: Seq<MctsNode<T>>,
    other: Seq<MctsNode<T>>,
    one_after: Seq<MctsNode<T>>,
    other_after: Seq<MctsNode<T>>,
    policy: P,
    outcomes: Seq<Seq<i64>>,
    choice: int,
    other_choice: int,
)
    requires
        one.len() > 0,
        linked(one),
        linked(other),
        alike(one, other),
        no_chance::<T>(),
        single_valued(policy),
        replayed(one, one_after, policy, outcomes),
        replayed(other, other_after, policy, outcomes),
        first_max(child_visits(one_after, 0), choice),
        first_max(child_visits(other_after, 0), other_choice),
    ensures
        alike(one_after, other_after),
        choice == other_choice,
{
    lemma_search_decided(one, other, one_after, other_after, policy, outcomes);
    lemma_replayed_grows(one, one_after, policy, outcomes);
    lemma_choice_alike(one_after, other_after, 0, choice, other_choice);
}

} // verus!
