//! The contract a game has to meet to be searched.
//!
//! A game is modelled as a transition system on abstract positions. The
//! rules (`over`, `players`, `play`, ...) are functions of a position alone;
//! a value of the implementing type is a concrete state that stands for one
//! position and may carry a cache of its legal actions.

use vstd::prelude::*;

verus! {

pub trait Game: Sized {
    /// The abstract position that a state stands for.
    type Position;

    /// The position this state stands for.
    spec fn position(&self) -> Self::Position;

    /// The state is internally consistent.
    spec fn wf(&self) -> bool;

    /// The legal actions of the current position are cached in this state.
    spec fn ready(&self) -> bool;

    /// The game has ended at `p`.
    spec fn over(p: Self::Position) -> bool;

    /// The number of players.
    spec fn players(p: Self::Position) -> nat;

    /// The next transition from `p` is a chance event, not a decision.
    spec fn chance(p: Self::Position) -> bool;

    /// The player to move at a decision position.
    spec fn mover(p: Self::Position) -> nat;

    /// The score of each player at a terminal position.
    spec fn outcome(p: Self::Position) -> Seq<i64>;

    /// The number of legal actions at `p`.
    spec fn actions(p: Self::Position) -> nat;

    /// The position reached from `p` by the legal action of index `action`.
    spec fn play(p: Self::Position, action: nat) -> Self::Position;

    /// The positions that the chance event at `p` can lead to.
    spec fn branches(p: Self::Position) -> Seq<Self::Position>;

    /// A bound on the number of transitions left before the game ends.
    spec fn horizon(p: Self::Position) -> nat;

    /// What every game owes the search: a terminal position scores each
    /// player once, a position that is not terminal has a way on, and every
    /// transition keeps the number of players and brings the end nearer.
    proof fn rules(&self)
        requires
            self.wf(),
        ensures
            Self::players(self.position()) >= 1,
            Self::over(self.position()) ==> Self::outcome(self.position()).len() == Self::players(
                self.position(),
            ),
            !Self::chance(self.position()) ==> Self::mover(self.position()) < Self::players(
                self.position(),
            ),
            !Self::over(self.position()) && !Self::chance(self.position()) ==> Self::actions(
                self.position(),
            ) >= 1,
            !Self::over(self.position()) && Self::chance(self.position()) ==> Self::branches(
                self.position(),
            ).len() >= 1,
            forall|a: nat|
                !Self::chance(self.position()) && a < Self::actions(self.position()) ==> {
                    &&& Self::players(#[trigger] Self::play(self.position(), a)) == Self::players(
                        self.position(),
                    )
                    &&& Self::horizon(Self::play(self.position(), a)) < Self::horizon(
                        self.position(),
                    )
                },
            forall|k: int|
                Self::chance(self.position()) && 0 <= k < Self::branches(self.position()).len()
                    ==> {
                    &&& Self::players(#[trigger] Self::branches(self.position())[k])
                        == Self::players(self.position())
                    &&& Self::horizon(Self::branches(self.position())[k]) < Self::horizon(
                        self.position(),
                    )
                },
    ;

    /// Whether the game has ended.
    fn is_over(&self) -> (over: bool)
        requires
            self.wf(),
        ensures
            over == Self::over(self.position()),
    ;

    /// The number of players, the same along every line of play.
    fn player_count(&self) -> (count: usize)
        requires
            self.wf(),
        ensures
            count == Self::players(self.position()),
    ;

    /// The player to move; `None` exactly at a chance step.
    fn active_player(&self) -> (player: Option<usize>)
        requires
            self.wf(),
        ensures
            Self::chance(self.position()) ==> player.is_none(),
            !Self::chance(self.position()) ==> player.is_some() && player.unwrap() == Self::mover(
                self.position(),
            ),
    ;

    /// The score of each player; `None` until the game has ended.
    fn scores(&self) -> (scores: Option<Vec<i64>>)
        requires
            self.wf(),
        ensures
            !Self::over(self.position()) ==> scores.is_none(),
            Self::over(self.position()) ==> scores.is_some() && scores.unwrap()@ == Self::outcome(
                self.position(),
            ),
    ;

    /// Whether the next transition is a chance event.
    fn is_random_step(&self) -> (chance: bool)
        requires
            self.wf(),
        ensures
            chance == Self::chance(self.position()),
    ;

    /// Caches the legal actions of the current position and returns how many
    /// there are. The position stays as it is.
    fn cache_actions(&mut self) -> (count: usize)
        requires
            old(self).wf(),
        ensures
            final(self).wf(),
            final(self).ready(),
            final(self).position() == old(self).position(),
            count == Self::actions(old(self).position()),
    ;

    /// Every state that the chance event can lead to, in the order of
    /// `branches`; `None` unless the current step is a chance event.
    fn possible_random(&self) -> (states: Option<Vec<Self>>)
        requires
            self.wf(),
        ensures
            !Self::chance(self.position()) ==> states.is_none(),
            Self::chance(self.position()) ==> {
                &&& states.is_some()
                &&& states.unwrap()@.len() == Self::branches(self.position()).len()
                &&& forall|k: int|
                    0 <= k < states.unwrap()@.len() ==> {
                        &&& (#[trigger] states.unwrap()@[k]).wf()
                        &&& states.unwrap()@[k].position() == Self::branches(self.position())[k]
                    }
            },
    ;

    /// Lets the chance event happen: the state moves on to one of the
    /// branches, whichever the game picks. Where the current step is no
    /// chance event the position stays as it is.
    fn make_random_step(&mut self)
        requires
            old(self).wf(),
        ensures
            final(self).wf(),
            !Self::chance(old(self).position()) ==> final(self).position() == old(
                self,
            ).position(),
            Self::chance(old(self).position()) && !Self::over(old(self).position()) ==> exists|
                k: int,
            |
                0 <= k < Self::branches(old(self).position()).len() && final(self).position()
                    == #[trigger] Self::branches(old(self).position())[k],
    ;

    /// Applies the cached action of index `action`. The actions must have
    /// been cached for the current position and the index must be one of
    /// theirs.
    fn make_action(&mut self, action: usize)
        requires
            old(self).wf(),
            old(self).ready(),
            !Self::chance(old(self).position()),
            action < Self::actions(old(self).position()),
        ensures
            final(self).wf(),
            final(self).position() == Self::play(old(self).position(), action as nat),
    ;

    /// A copy of this state: the same position, with the same cache.
    fn snapshot(&self) -> (copy: Self)
        requires
            self.wf(),
        ensures
            copy.wf(),
            copy.position() == self.position(),
            copy.ready() == self.ready(),
    ;
}

/// The number of ways on from `p`: its chance outcomes at a chance step, its
/// legal actions otherwise.
pub open spec fn fanout<T: Game>(p: T::Position) -> nat {
    if T::chance(p) {
        T::branches(p).len()
    } else {
        T::actions(p)
    }
}

/// The position that the way of index `k` leads to from `p`.
pub open spec fn successor<T: Game>(p: T::Position, k: int) -> T::Position {
    if T::chance(p) {
        T::branches(p)[k]
    } else {
        T::play(p, k as nat)
    }
}

/// The game can go from `p` to `q` in one transition.
pub open spec fn follows<T: Game>(p: T::Position, q: T::Position) -> bool {
    !T::over(p) && exists|k: int| 0 <= k < fanout::<T>(p) && q == #[trigger] successor::<T>(p, k)
}

/// Each position of `line` follows from the one before it.
pub open spec fn line_of_play<T: Game>(line: Seq<T::Position>) -> bool {
    forall|s: int| 0 <= s < line.len() - 1 ==> follows::<T>(#[trigger] line[s], line[s + 1])
}

/// `scores` is the outcome of a game played from `start` to its end.
pub open spec fn played_out<T: Game>(start: T::Position, scores: Seq<i64>) -> bool {
    exists|line: Seq<T::Position>|
        {
            &&& line.len() > 0
            &&& line[0] == start
            &&& #[trigger] line_of_play::<T>(line)
            &&& T::over(line.last())
            &&& scores == T::outcome(line.last())
        }
}

} // verus!
