//! The search driver: selection, expansion, rollout and backpropagation,
//! repeated for a budget of simulations, and the choice of the move that the
//! simulations visited most.
//!
//! The score by which selection ranks the visited children of a decision
//! node is the caller's: a function from a child's accumulated score for the
//! player to move, the child's simulations and its parent's simulations to
//! an integer key. The driver handles what does not depend on that score:
//! a child without simulations goes first, and ties go to the first child.
//! At a chance node selection draws a child uniformly from the random source
//! of the search.

use crate::game::Game;
use crate::game::follows;
use crate::game::line_of_play;
use crate::game::played_out;
use crate::game::successor;
use crate::node::MctsNode;
use crate::rng::draw_below;
use crate::rng::entropy_source;
use crate::rng::seeded_source;
use crate::tree::balanced_at;
use crate::tree::expansion;
use crate::tree::extends;
use crate::tree::has_child;
use crate::tree::in_balance;
use crate::tree::lemma_balance_short;
use crate::tree::lemma_root_on_path;
use crate::tree::lemma_root_outweighs;
use crate::tree::lemma_same_players;
use crate::tree::linked;
use crate::tree::node_ok;
use crate::tree::on_path;
use crate::tree::parents_outweigh;
use crate::tree::recorded;
use crate::tree::visits_of;
use rand::rngs::StdRng;
use vstd::prelude::*;

verus! {

/// The seed of the random source of a search that could get none from the
/// operating system.
pub const FALLBACK_SEED: u64 = 0x9E37_79B9_7F4A_7C15;

/// One search: a budget of simulations and the tree they grow, rooted at the
/// position to decide on.
pub struct Mcts<T: Game> {
    /// The number of simulations that one call of `select_action` runs.
    pub max_simulations: usize,
    /// The arena that holds the search tree; the root has index 0.
    pub nodes: Vec<MctsNode<T>>,
    /// The random source that rollouts and chance nodes draw from.
    pub source: StdRng,
}

/// `k` is the first index at which `values` is greatest.
pub open spec fn first_max(values: Seq<int>, k: int) -> bool {
    &&& 0 <= k < values.len()
    &&& forall|j: int| 0 <= j < values.len() ==> #[trigger] values[j] <= values[k]
    &&& forall|j: int| 0 <= j < k ==> #[trigger] values[j] < values[k]
}

/// The simulations of each child of `parent`, in the order of the children.
pub open spec fn child_visits<T: Game>(nodes: Seq<MctsNode<T>>, parent: int) -> Seq<int> {
    Seq::new(
        nodes[parent].children@.len(),
        |j: int| nodes[nodes[parent].children@[j] as int].simulations as int,
    )
}

/// The policy can be asked about every visited child of a parent.
pub open spec fn usable<P: Fn(i128, usize, usize) -> i64>(policy: P) -> bool {
    forall|total: i128, visits: usize, parent_visits: usize|
        0 < visits <= parent_visits ==> call_requires(policy, (total, visits, parent_visits))
}

/// `keys` holds, for each child of `parent`, a key that the policy can give
/// for it: for the child's accumulated score of the player to move at
/// `parent`, the child's simulations and the parent's.
pub open spec fn keyed<T: Game, P: Fn(i128, usize, usize) -> i64>(
    nodes: Seq<MctsNode<T>>,
    policy: P,
    parent: int,
    keys: Seq<int>,
) -> bool {
    let block = nodes[parent].children@;
    let player = T::mover(nodes[parent].state.position()) as int;
    &&& keys.len() == block.len()
    &&& forall|j: int|
        0 <= j < block.len() ==> i64::MIN <= #[trigger] keys[j] <= i64::MAX && call_ensures(
            policy,
            (
                nodes[block[j] as int].scores@[player],
                nodes[block[j] as int].simulations,
                nodes[parent].simulations,
            ),
            keys[j] as i64,
        )
}

/// The child of index `k` is the one that selection prefers at the decision
/// node `parent`: the first child without simulations, or, where every
/// child has some, the first with the greatest key.
pub open spec fn preferred<T: Game, P: Fn(i128, usize, usize) -> i64>(
    nodes: Seq<MctsNode<T>>,
    policy: P,
    parent: int,
    k: int,
) -> bool {
    let block = nodes[parent].children@;
    &&& 0 <= k < block.len()
    &&& if nodes[block[k] as int].simulations == 0 {
        forall|j: int| 0 <= j < k ==> nodes[#[trigger] block[j] as int].simulations > 0
    } else {
        &&& forall|j: int| 0 <= j < block.len() ==> nodes[#[trigger] block[j] as int].simulations > 0
        &&& exists|keys: Seq<int>| #[trigger] keyed(nodes, policy, parent, keys) && first_max(keys, k)
    }
}

/// Selection goes from `parent` to `child`: the parent is not terminal, the
/// child is one of its children, and at a decision node it is the child that
/// selection prefers. At a chance node any child will do.
pub open spec fn step<T: Game, P: Fn(i128, usize, usize) -> i64>(
    nodes: Seq<MctsNode<T>>,
    policy: P,
    parent: int,
    child: int,
) -> bool {
    let p = nodes[parent].state.position();
    &&& !T::over(p)
    &&& has_child(nodes, parent, child)
    &&& !T::chance(p) ==> preferred(nodes, policy, parent, child - nodes[parent].children@[0])
}

/// Selection, started at `from`, comes to `to`: every node on the way from
/// `from` down to `to` is the one that selection takes at its parent.
pub open spec fn descent<T: Game, P: Fn(i128, usize, usize) -> i64>(
    nodes: Seq<MctsNode<T>>,
    policy: P,
    from: int,
    to: int,
) -> bool
    decreases to,
{
    if to < 0 || to >= nodes.len() {
        false
    } else if to == from {
        true
    } else {
        match nodes[to].parent {
            Some(up) => if up < to {
                descent(nodes, policy, from, up as int) && step(nodes, policy, up as int, to)
            } else {
                false
            },
            None => false,
        }
    }
}

/// The node that the simulation selected at `leaf` is recorded from: the
/// leaf itself if it is terminal, else the first of the children that the
/// expansion appends to the arena.
pub open spec fn started_at<T: Game>(before: Seq<MctsNode<T>>, leaf: int) -> int {
    if T::over(before[leaf].state.position()) {
        leaf
    } else {
        before.len() as int
    }
}

/// `after` is `before` after one simulation: selection came from the root
/// to a node that is terminal or has no children. If it is terminal, its
/// own scores were recorded from it up to the root. If not, it was
/// expanded, the game was played out from its first child, and the scores
/// at the end were recorded from that child up to the root.
pub open spec fn simulated<T: Game, P: Fn(i128, usize, usize) -> i64>(
    before: Seq<MctsNode<T>>,
    after: Seq<MctsNode<T>>,
    policy: P,
) -> bool {
    exists|leaf: int, grown: Seq<MctsNode<T>>, scores: Seq<i64>|
        {
            &&& 0 <= leaf < before.len()
            &&& descent(before, policy, 0, leaf)
            &&& scores.len() == before[0].scores@.len()
            &&& if T::over(before[leaf].state.position()) {
                &&& grown == before
                &&& scores == T::outcome(before[leaf].state.position())
            } else {
                &&& before[leaf].children@.len() == 0
                &&& expansion(before, grown, leaf)
                &&& played_out::<T>(successor::<T>(before[leaf].state.position(), 0), scores)
            }
            &&& #[trigger] recorded(grown, after, started_at(before, leaf), scores)
        }
}

/// `after` is `before` after `count` simulations, one after the other.
pub open spec fn searched<T: Game, P: Fn(i128, usize, usize) -> i64>(
    before: Seq<MctsNode<T>>,
    after: Seq<MctsNode<T>>,
    policy: P,
    count: nat,
) -> bool
    decreases count,
{
    if count == 0 {
        after == before
    } else {
        exists|middle: Seq<MctsNode<T>>|
            searched(before, middle, policy, (count - 1) as nat) && #[trigger] simulated(
                middle,
                after,
                policy,
            )
    }
}

/// A descent, taken apart: it ends at a node of the arena, and unless it
/// ends where it began, it came to the parent of its end and took the step
/// from there.
pub proof fn lemma_descent_unfolds<T: Game, P: Fn(i128, usize, usize) -> i64>(
    nodes: Seq<MctsNode<T>>,
    policy: P,
    from: int,
    to: int,
)
    requires
        descent(nodes, policy, from, to),
    ensures
        0 <= to < nodes.len(),
        to != from ==> (nodes[to].parent matches Some(up) && up < to && descent(
            nodes,
            policy,
            from,
            up as int,
        ) && step(nodes, policy, up as int, to)),
{
}

/// A search, taken apart: without simulations the tree is what it was, and
/// a search of more is a search of one fewer and then one simulation.
pub proof fn lemma_searched_unfolds<T: Game, P: Fn(i128, usize, usize) -> i64>(
    before: Seq<MctsNode<T>>,
    after: Seq<MctsNode<T>>,
    policy: P,
    count: nat,
)
    requires
        searched(before, after, policy, count),
    ensures
        count == 0 ==> after == before,
        count > 0 ==> exists|middle: Seq<MctsNode<T>>|
            searched(before, middle, policy, (count - 1) as nat) && #[trigger] simulated(
                middle,
                after,
                policy,
            ),
{
}

/// The policy is a function: it gives one key for given statistics.
pub open spec fn single_valued<P: Fn(i128, usize, usize) -> i64>(policy: P) -> bool {
    forall|total: i128, visits: usize, parent_visits: usize, one: i64, other: i64|
        #![trigger
            call_ensures(policy, (total, visits, parent_visits), one),
            call_ensures(policy, (total, visits, parent_visits), other)
        ]
        call_ensures(policy, (total, visits, parent_visits), one) && call_ensures(
            policy,
            (total, visits, parent_visits),
            other,
        ) ==> one == other
}

/// Ties do not leave the choice open: only one index is the first at which
/// the values are greatest.
pub proof fn lemma_first_max_unique(values: Seq<int>, a: int, b: int)
    requires
        first_max(values, a),
        first_max(values, b),
    ensures
        a == b,
{
    if a < b {
        assert(values[a] < values[b]);
        assert(values[b] <= values[a]);
    } else if b < a {
        assert(values[b] < values[a]);
        assert(values[a] <= values[b]);
    }
}

/// Where the policy is a function, the tree decides which child selection
/// prefers at a decision node: no two children are preferred.
pub proof fn lemma_preferred_unique<T: Game, P: Fn(i128, usize, usize) -> i64>(
    nodes: Seq<MctsNode<T>>,
    policy: P,
    parent: int,
    a: int,
    b: int,
)
    requires
        single_valued(policy),
        preferred(nodes, policy, parent, a),
        preferred(nodes, policy, parent, b),
    ensures
        a == b,
{
    let block = nodes[parent].children@;
    if nodes[block[a] as int].simulations == 0 || nodes[block[b] as int].simulations == 0 {
        // a child without simulations is preferred only if it is the first
        assert(nodes[block[a] as int].simulations == 0 && nodes[block[b] as int].simulations
            == 0);
    } else {
        let first = choose|keys: Seq<int>| #[trigger]
            keyed(nodes, policy, parent, keys) && first_max(keys, a);
        let second = choose|keys: Seq<int>| #[trigger]
            keyed(nodes, policy, parent, keys) && first_max(keys, b);
        assert forall|j: int| 0 <= j < first.len() implies first[j] == second[j] by {
            assert(i64::MIN <= first[j] <= i64::MAX);
            assert(i64::MIN <= second[j] <= i64::MAX);
            assert((first[j] as i64) == (second[j] as i64));
        }
        assert(first =~= second);
        lemma_first_max_unique(first, a, b);
    }
}

impl<T: Game> Mcts<T> {
    /// The arena holds a tree with a root, in which no child has more
    /// simulations than its parent: what selection and a single simulation
    /// ask of the tree.
    pub open spec fn sound(&self) -> bool {
        &&& self.nodes@.len() > 0
        &&& linked(self.nodes@)
        &&& parents_outweigh(self.nodes@)
    }

    /// The tree is sound and every simulation in it is accounted for: what
    /// holds of a tree that only the search has grown.
    pub open spec fn wf(&self) -> bool {
        &&& self.sound()
        &&& in_balance(self.nodes@)
    }

    /// A search of `max_simulations` simulations from `state`, with a random
    /// source seeded by the operating system. Where the system has no
    /// entropy to give, the source is seeded as `with_seed` seeds it with
    /// `FALLBACK_SEED`.
    pub fn new(max_simulations: usize, state: T) -> (search: Self)
        requires
            state.wf(),
        ensures
            search.wf(),
            search.max_simulations == max_simulations,
            search.nodes@.len() == 1,
            search.nodes@[0].fresh(None, state.position()),
            search.nodes@[0].state == state,
    {
        let source = match entropy_source() {
            Some(source) => source,
            None => seeded_source(FALLBACK_SEED),
        };
        Self::with_source(max_simulations, state, source)
    }

    /// A search of `max_simulations` simulations from `state`, with a random
    /// source that is a function of `seed`: two searches with the same seed
    /// draw the same numbers.
    pub fn with_seed(max_simulations: usize, state: T, seed: u64) -> (search: Self)
        requires
            state.wf(),
        ensures
            search.wf(),
            search.max_simulations == max_simulations,
            search.nodes@.len() == 1,
            search.nodes@[0].fresh(None, state.position()),
            search.nodes@[0].state == state,
    {
        Self::with_source(max_simulations, state, seeded_source(seed))
    }

    fn with_source(max_simulations: usize, state: T, source: StdRng) -> (search: Self)
        requires
            state.wf(),
        ensures
            search.wf(),
            search.max_simulations == max_simulations,
            search.nodes@.len() == 1,
            search.nodes@[0].fresh(None, state.position()),
            search.nodes@[0].state == state,
    {
        let mut nodes: Vec<MctsNode<T>> = Vec::new();
        MctsNode::new_rc(&mut nodes, None, state);
        proof {
            assert(node_ok(nodes@, 0));
            assert(balanced_at(nodes@, 0, 0));
            assert(nodes@[0].parent is None);
        }
        Mcts { max_simulations, nodes, source }
    }

    /// The index, among the children of `parent`, of the child with the most
    /// simulations, the first of them if several have as many; `None` if
    /// `parent` has no children.
    pub fn best_visited(nodes: &Vec<MctsNode<T>>, parent: usize) -> (choice: Option<usize>)
        requires
            linked(nodes@),
            parent < nodes@.len(),
        ensures
            choice is None <==> nodes@[parent as int].children@.len() == 0,
            choice matches Some(k) ==> first_max(child_visits(nodes@, parent as int), k as int),
    {
        proof {
            assert(node_ok(nodes@, parent as int));
        }
        let count = nodes[parent].children.len();
        if count == 0 {
            return None;
        }
        let ghost visits = child_visits(nodes@, parent as int);
        let mut best: usize = 0;
        let mut most: usize = nodes[nodes[parent].children[0]].simulations;
        let mut k: usize = 1;
        while k < count
            invariant
                1 <= k <= count,
                count == nodes@[parent as int].children@.len(),
                parent < nodes@.len(),
                node_ok(nodes@, parent as int),
                visits == child_visits(nodes@, parent as int),
                best < k,
                most == visits[best as int],
                forall|j: int| 0 <= j < k ==> #[trigger] visits[j] <= most,
                forall|j: int| 0 <= j < best ==> #[trigger] visits[j] < most,
            decreases count - k,
        {
            let child = nodes[parent].children[k];
            proof {
                assert(nodes@[parent as int].children@[k as int] == nodes@[parent as int].children@[0]
                    + k);
            }
            let seen = nodes[child].simulations;
            if seen > most {
                best = k;
                most = seen;
            }
            k = k + 1;
        }
        Some(best)
    }

    /// The index, among the children of the decision node `parent`, of the
    /// child that selection descends into.
    pub fn best_child<P: Fn(i128, usize, usize) -> i64>(
        nodes: &Vec<MctsNode<T>>,
        parent: usize,
        policy: &P,
    ) -> (k: usize)
        requires
            linked(nodes@),
            parents_outweigh(nodes@),
            parent < nodes@.len(),
            nodes@[parent as int].children@.len() > 0,
            !T::chance(nodes@[parent as int].state.position()),
            usable(*policy),
        ensures
            preferred(nodes@, *policy, parent as int, k as int),
    {
        proof {
            assert(node_ok(nodes@, parent as int));
            nodes@[parent as int].state.rules();
        }
        let count = nodes[parent].children.len();
        let ghost block = nodes@[parent as int].children@;
        let mut k: usize = 0;
        while k < count
            invariant
                k <= count,
                count == nodes@[parent as int].children@.len(),
                parent < nodes@.len(),
                node_ok(nodes@, parent as int),
                block == nodes@[parent as int].children@,
                forall|j: int| 0 <= j < k ==> nodes@[#[trigger] block[j] as int].simulations > 0,
            decreases count - k,
        {
            let child = nodes[parent].children[k];
            proof {
                assert(nodes@[parent as int].children@[k as int] == nodes@[parent as int].children@[0]
                    + k);
            }
            if nodes[child].simulations == 0 {
                return k;
            }
            k = k + 1;
        }
        let player = nodes[parent].state.active_player().unwrap();
        let parent_visits = nodes[parent].simulations;
        let ghost mut keys: Seq<int> = Seq::empty();
        let mut best: usize = 0;
        let mut top: i64 = i64::MIN;
        k = 0;
        while k < count
            invariant
                k <= count,
                0 < count == nodes@[parent as int].children@.len(),
                parent < nodes@.len(),
                linked(nodes@),
                parents_outweigh(nodes@),
                usable(*policy),
                player == T::mover(nodes@[parent as int].state.position()),
                player < T::players(nodes@[parent as int].state.position()),
                parent_visits == nodes@[parent as int].simulations,
                block == nodes@[parent as int].children@,
                forall|j: int|
                    0 <= j < count ==> nodes@[#[trigger] block[j] as int].simulations > 0,
                keys.len() == k,
                forall|j: int|
                    0 <= j < k ==> i64::MIN <= #[trigger] keys[j] <= i64::MAX && call_ensures(
                        *policy,
                        (
                            nodes@[nodes@[parent as int].children@[j] as int].scores@[player as int],
                            nodes@[nodes@[parent as int].children@[j] as int].simulations,
                            nodes@[parent as int].simulations,
                        ),
                        keys[j] as i64,
                    ),
                k == 0 ==> best == 0 && top == i64::MIN,
                k > 0 ==> best < k && top == keys[best as int],
                forall|j: int| 0 <= j < k ==> #[trigger] keys[j] <= top,
                forall|j: int| 0 <= j < best ==> #[trigger] keys[j] < top,
            decreases count - k,
        {
            let child = nodes[parent].children[k];
            proof {
                assert(node_ok(nodes@, parent as int));
                assert(nodes@[parent as int].children@[k as int] == nodes@[parent as int].children@[0]
                    + k);
                lemma_same_players(nodes@, child as int);
                lemma_same_players(nodes@, parent as int);
                assert(node_ok(nodes@, child as int));
                assert(nodes@[child as int].parent == Some(parent));
                assert(nodes@[block[k as int] as int].simulations > 0);
            }
            let key = policy(nodes[child].scores[player], nodes[child].simulations, parent_visits);
            proof {
                keys = keys.push(key as int);
            }
            if k == 0 || key > top {
                best = k;
                top = key;
            }
            k = k + 1;
        }
        proof {
            assert(keyed(nodes@, *policy, parent as int, keys));
            assert(first_max(keys, best as int));
        }
        best
    }

    /// Descends from `node` to the node that the next simulation starts at:
    /// a terminal node, or one that has no children yet. The tree stays as
    /// it is.
    pub fn select_node<P: Fn(i128, usize, usize) -> i64>(&mut self, node: usize, policy: &P) -> (leaf:
        usize)
        requires
            old(self).sound(),
            node < old(self).nodes@.len(),
            usable(*policy),
        ensures
            final(self).nodes == old(self).nodes,
            final(self).max_simulations == old(self).max_simulations,
            descent(final(self).nodes@, *policy, node as int, leaf as int),
            node <= leaf < final(self).nodes@.len(),
            T::over(final(self).nodes@[leaf as int].state.position())
                || final(self).nodes@[leaf as int].children@.len() == 0,
            leaf == node <==> T::over(final(self).nodes@[node as int].state.position())
                || final(self).nodes@[node as int].children@.len() == 0,
            leaf != node ==> (final(self).nodes@[leaf as int].parent matches Some(up) && node <= up
                < leaf && descent(final(self).nodes@, *policy, node as int, up as int) && step(
                final(self).nodes@,
                *policy,
                up as int,
                leaf as int,
            )),
    {
        let mut at = node;
        loop
            invariant
                self.nodes == old(self).nodes,
                self.max_simulations == old(self).max_simulations,
                self.sound(),
                usable(*policy),
                node <= at < self.nodes@.len(),
                descent(self.nodes@, *policy, node as int, at as int),
                at != node ==> !T::over(self.nodes@[node as int].state.position())
                    && self.nodes@[node as int].children@.len() > 0,
                at != node ==> (self.nodes@[at as int].parent matches Some(up) && node <= up < at
                    && descent(self.nodes@, *policy, node as int, up as int) && step(
                    self.nodes@,
                    *policy,
                    up as int,
                    at as int,
                )),
            ensures
                T::over(self.nodes@[at as int].state.position())
                    || self.nodes@[at as int].children@.len() == 0,
            decreases self.nodes@.len() - at,
        {
            proof {
                assert(node_ok(self.nodes@, at as int));
            }
            let count = self.nodes[at].children.len();
            if count == 0 || self.nodes[at].state.is_over() {
                break ;
            }
            let k = if self.nodes[at].state.is_random_step() {
                draw_below(&mut self.source, count)
            } else {
                Self::best_child(&self.nodes, at, policy)
            };
            let child = self.nodes[at].children[k];
            proof {
                let block = self.nodes@[at as int].children@;
                assert(block[k as int] == block[0] + k);
                assert(step(self.nodes@, *policy, at as int, child as int));
            }
            at = child;
        }
        at
    }

    /// Plays the game out from the state of `node`: chance events happen as
    /// the game lets them, and at each decision one of the legal actions is
    /// drawn uniformly. Returns the scores at the end.
    pub fn simulate(&mut self, node: usize) -> (scores: Vec<i64>)
        requires
            node < old(self).nodes@.len(),
            old(self).nodes@[node as int].state.wf(),
        ensures
            final(self).nodes == old(self).nodes,
            final(self).max_simulations == old(self).max_simulations,
            played_out::<T>(old(self).nodes@[node as int].state.position(), scores@),
            scores@.len() == T::players(old(self).nodes@[node as int].state.position()),
    {
        let mut game = self.nodes[node].state.snapshot();
        let ghost start = game.position();
        let ghost mut line: Seq<T::Position> = seq![start];
        while !game.is_over()
            invariant
                self.nodes == old(self).nodes,
                self.max_simulations == old(self).max_simulations,
                game.wf(),
                line.len() > 0,
                line[0] == start,
                line.last() == game.position(),
                line_of_play::<T>(line),
                T::players(game.position()) == T::players(start),
            decreases T::horizon(game.position()),
        {
            let ghost p = game.position();
            proof {
                game.rules();
            }
            if game.is_random_step() {
                game.make_random_step();
                proof {
                    let k = choose|k: int|
                        0 <= k < T::branches(p).len() && game.position() == #[trigger] T::branches(
                            p,
                        )[k];
                    assert(game.position() == successor::<T>(p, k));
                }
            } else {
                let count = game.cache_actions();
                let action = draw_below(&mut self.source, count);
                game.make_action(action);
                proof {
                    assert(game.position() == successor::<T>(p, action as int));
                }
            }
            proof {
                assert(follows::<T>(p, game.position()));
                let longer = line.push(game.position());
                assert forall|s: int| 0 <= s < longer.len() - 1 implies follows::<T>(
                    #[trigger] longer[s],
                    longer[s + 1],
                ) by {
                    if s < line.len() - 1 {
                        assert(follows::<T>(line[s], line[s + 1]));
                    }
                }
                line = longer;
            }
        }
        proof {
            game.rules();
        }
        game.scores().unwrap()
    }

    /// Runs one simulation: selects a node from the root; if it is terminal,
    /// takes its scores; if not, expands it and plays the game out from its
    /// first child. The scores are recorded from the node that the game was
    /// played out from, or from the terminal node, up to the root.
    pub fn run_simulation<P: Fn(i128, usize, usize) -> i64>(&mut self, policy: &P)
        requires
            old(self).sound(),
            usable(*policy),
            old(self).nodes@[0].simulations < usize::MAX,
        ensures
            final(self).sound(),
            old(self).wf() ==> final(self).wf(),
            final(self).max_simulations == old(self).max_simulations,
            final(self).nodes@[0].simulations == old(self).nodes@[0].simulations + 1,
            simulated(old(self).nodes@, final(self).nodes@, *policy),
            extends(old(self).nodes@, final(self).nodes@),
    {
        let leaf = self.select_node(0, policy);
        let ghost before = self.nodes@;
        proof {
            assert(node_ok(before, leaf as int));
        }
        let start: usize;
        let scores: Vec<i64>;
        if self.nodes[leaf].state.is_over() {
            proof {
                if in_balance(before) {
                    lemma_balance_short(before, leaf as int);
                }
                before[leaf as int].state.rules();
            }
            start = leaf;
            scores = self.nodes[leaf].state.scores().unwrap();
        } else {
            let expanded = MctsNode::expand(&mut self.nodes, leaf);
            proof {
                assert(expanded);
                before[leaf as int].state.rules();
                assert(self.nodes@[leaf as int].children@[0] == before.len() + 0);
                assert(self.nodes@[before.len() as int].fresh(
                    Some(leaf),
                    successor::<T>(before[leaf as int].state.position(), 0),
                ));
            }
            start = self.nodes[leaf].children[0];
            scores = self.simulate(start);
        }
        let ghost grown = self.nodes@;
        proof {
            assert(node_ok(grown, start as int));
            assert forall|i: int|
                0 <= i < grown.len() && on_path(grown, i, start as int) implies grown[i].simulations
                < usize::MAX by {
                lemma_root_outweighs(grown, i);
            }
            assert(on_path(grown, 0, start as int)) by {
                lemma_root_on_path(grown, start as int);
            }
        }
        proof {
            lemma_same_players(grown, start as int);
            lemma_same_players(before, leaf as int);
            assert(node_ok(grown, 0));
            assert(node_ok(before, 0));
        }
        let done = MctsNode::backpropagate(&mut self.nodes, start, &scores);
        proof {
            assert(done);
            assert(scores@.len() == before[0].scores@.len());
            assert(recorded(grown, self.nodes@, started_at(before, leaf as int), scores@));
            assert(self.nodes@[0].state == grown[0].state);
            assert forall|i: int| 0 <= i < before.len() implies {
                &&& (#[trigger] self.nodes@[i]).state.position() == before[i].state.position()
                &&& self.nodes@[i].parent == before[i].parent
                &&& self.nodes@[i].simulations >= before[i].simulations
                &&& before[i].children@.len() > 0 ==> self.nodes@[i].children@
                    == before[i].children@
            } by {
                if on_path(grown, i, start as int) {
                }
                if i != leaf {
                    assert(grown[i] == before[i]);
                }
            }
        }
    }

    /// Runs the budget of simulations and returns the index of the root's
    /// child that they visited most, the first of them if several were
    /// visited as often. Returns `None` where there is nothing to choose
    /// from: the root is terminal, or the budget was zero and the root has
    /// not been expanded.
    pub fn select_action<P: Fn(i128, usize, usize) -> i64>(&mut self, policy: P) -> (choice: Option<
        usize,
    >)
        requires
            old(self).wf(),
            usable(policy),
            old(self).nodes@[0].simulations + old(self).max_simulations <= usize::MAX,
        ensures
            final(self).wf(),
            final(self).max_simulations == old(self).max_simulations,
            searched(
                old(self).nodes@,
                final(self).nodes@,
                policy,
                old(self).max_simulations as nat,
            ),
            old(self).max_simulations == 0 ==> final(self).nodes@ == old(self).nodes@,
            extends(old(self).nodes@, final(self).nodes@),
            final(self).nodes@[0].simulations == old(self).nodes@[0].simulations + old(
                self,
            ).max_simulations,
            !T::over(final(self).nodes@[0].state.position()) ==> visits_of(
                final(self).nodes@,
                final(self).nodes@[0].children@,
            ) == final(self).nodes@[0].simulations,
            choice is None <==> final(self).nodes@[0].children@.len() == 0,
            choice is None <==> T::over(old(self).nodes@[0].state.position()) || (old(
                self,
            ).max_simulations == 0 && old(self).nodes@[0].children@.len() == 0),
            choice matches Some(k) ==> first_max(child_visits(final(self).nodes@, 0), k as int),
    {
        let mut done: usize = 0;
        while done < self.max_simulations
            invariant
                self.wf(),
                usable(policy),
                self.max_simulations == old(self).max_simulations,
                done <= self.max_simulations,
                old(self).nodes@[0].simulations + old(self).max_simulations <= usize::MAX,
                self.nodes@[0].simulations == old(self).nodes@[0].simulations + done,
                extends(old(self).nodes@, self.nodes@),
                old(self).wf(),
                searched(old(self).nodes@, self.nodes@, policy, done as nat),
            decreases self.max_simulations - done,
        {
            let ghost before = self.nodes@;
            self.run_simulation(&policy);
            proof {
                assert forall|i: int| 0 <= i < old(self).nodes@.len() implies {
                    &&& (#[trigger] self.nodes@[i]).state.position() == old(
                        self,
                    ).nodes@[i].state.position()
                    &&& self.nodes@[i].parent == old(self).nodes@[i].parent
                    &&& self.nodes@[i].simulations >= old(self).nodes@[i].simulations
                    &&& old(self).nodes@[i].children@.len() > 0 ==> self.nodes@[i].children@ == old(
                        self,
                    ).nodes@[i].children@
                } by {
                    assert(before[i].parent == old(self).nodes@[i].parent);
                }
            }
            done = done + 1;
        }
        proof {
            assert(node_ok(self.nodes@, 0));
            assert(node_ok(old(self).nodes@, 0));
            assert(balanced_at(self.nodes@, 0, 0));
            assert(balanced_at(old(self).nodes@, 0, 0));
        }
        Self::best_visited(&self.nodes, 0)
    }
}

} // verus!
