//! Calling a coin: a small game with chance events.
//!
//! Each round begins with the toss of a coin, a chance event with two
//! outcomes. The player to move then calls a side, action 0 or action 1, and
//! wins a point if the call is the side that the coin shows. The players
//! take turns, and after the last round each player's score is the number
//! of points by which that player leads.

use crate::game::Game;
use vstd::prelude::*;

verus! {

/// A position: the rounds still to play, the side that the coin shows once
/// it is tossed, the player to move, and the lead of player 0 in points.
pub struct Call {
    pub rounds: nat,
    pub coin: Option<usize>,
    pub mover: nat,
    pub lead: int,
}

/// A game in progress. Besides its position the state holds the number of
/// actions that `cache_actions` found last and the seed that the next toss
/// is drawn from.
#[derive(Clone, Copy)]
pub struct CoinCall {
    pub rounds_left: u32,
    pub coin: Option<usize>,
    pub mover: usize,
    pub lead: i64,
    pub cached: usize,
    pub seed: u64,
}

/// The position `p` with the coin showing `side`.
pub open spec fn tossed(p: Call, side: usize) -> Call {
    Call { rounds: p.rounds, coin: Some(side), mover: p.mover, lead: p.lead }
}

/// What the call `action` adds to the lead of player 0: a point for the
/// player to move if the call is right.
pub open spec fn gain(p: Call, action: nat) -> int {
    if p.coin == Some(action as usize) {
        if p.mover == 0 {
            1int
        } else {
            -1int
        }
    } else {
        0int
    }
}

/// The position after the player to move has called `action`.
pub open spec fn called(p: Call, action: nat) -> Call {
    Call {
        rounds: (p.rounds - 1) as nat,
        coin: None,
        mover: if p.mover == 0 {
            1
        } else {
            0
        },
        lead: p.lead + gain(p, action),
    }
}

impl CoinCall {
    /// A game of `rounds` rounds, with player 0 to call first. The tosses
    /// that `make_random_step` makes are a function of `seed`.
    pub fn new(rounds: u32, seed: u64) -> (game: Self)
        ensures
            game.wf(),
            game.position() == (Call { rounds: rounds as nat, coin: None, mover: 0, lead: 0 }),
    {
        CoinCall { rounds_left: rounds, coin: None, mover: 0, lead: 0, cached: 0, seed }
    }
}

impl Game for CoinCall {
    type Position = Call;

    open spec fn position(&self) -> Call {
        Call {
            rounds: self.rounds_left as nat,
            coin: self.coin,
            mover: self.mover as nat,
            lead: self.lead as int,
        }
    }

    open spec fn wf(&self) -> bool {
        &&& self.mover <= 1
        &&& self.coin matches Some(side) ==> side <= 1
        &&& -0xFFFF_FFFF <= self.lead - self.rounds_left
        &&& self.lead + self.rounds_left <= 0xFFFF_FFFF
    }

    open spec fn ready(&self) -> bool {
        self.cached == Self::actions(self.position())
    }

    open spec fn over(p: Call) -> bool {
        p.rounds == 0
    }

    open spec fn players(p: Call) -> nat {
        2
    }

    open spec fn chance(p: Call) -> bool {
        p.rounds > 0 && p.coin is None
    }

    open spec fn mover(p: Call) -> nat {
        p.mover
    }

    open spec fn outcome(p: Call) -> Seq<i64> {
        seq![p.lead as i64, (-p.lead) as i64]
    }

    open spec fn actions(p: Call) -> nat {
        if p.rounds > 0 && p.coin is Some {
            2
        } else {
            0
        }
    }

    open spec fn play(p: Call, action: nat) -> Call {
        called(p, action)
    }

    open spec fn branches(p: Call) -> Seq<Call> {
        seq![tossed(p, 0), tossed(p, 1)]
    }

    open spec fn horizon(p: Call) -> nat {
        if p.coin is Some {
            (2 * p.rounds - 1) as nat
        } else {
            2 * p.rounds
        }
    }

    proof fn rules(&self) {
    }

    fn is_over(&self) -> (over: bool) {
        self.rounds_left == 0
    }

    fn player_count(&self) -> (count: usize) {
        2
    }

    fn active_player(&self) -> (player: Option<usize>) {
        if self.is_random_step() {
            None
        } else {
            Some(self.mover)
        }
    }

    fn scores(&self) -> (scores: Option<Vec<i64>>) {
        if self.rounds_left > 0 {
            return None;
        }
        let behind = 0 - self.lead;
        let scores = vec![self.lead, behind];
        proof {
            assert(scores@ =~= Self::outcome(self.position()));
        }
        Some(scores)
    }

    fn is_random_step(&self) -> (chance: bool) {
        self.rounds_left > 0 && self.coin.is_none()
    }

    fn cache_actions(&mut self) -> (count: usize) {
        self.cached = if self.rounds_left > 0 && self.coin.is_some() {
            2
        } else {
            0
        };
        self.cached
    }

    fn possible_random(&self) -> (states: Option<Vec<Self>>) {
        if !self.is_random_step() {
            return None;
        }
        let mut heads = self.snapshot();
        heads.coin = Some(0);
        let mut tails = self.snapshot();
        tails.coin = Some(1);
        let states = vec![heads, tails];
        proof {
            assert(states@[0].position() == Self::branches(self.position())[0]);
            assert(states@[1].position() == Self::branches(self.position())[1]);
        }
        Some(states)
    }

    fn make_random_step(&mut self) {
        if self.is_random_step() {
            self.seed = self.seed.wrapping_mul(6364136223846793005).wrapping_add(
                1442695040888963407,
            );
            let side: usize = if self.seed < 0x8000_0000_0000_0000 {
                0
            } else {
                1
            };
            self.coin = Some(side);
            proof {
                assert(self.position() == Self::branches(old(self).position())[side as int]);
            }
        }
    }

    fn make_action(&mut self, action: usize) {
        if self.coin == Some(action) {
            if self.mover == 0 {
                self.lead = self.lead + 1;
            } else {
                self.lead = self.lead - 1;
            }
        }
        self.coin = None;
        self.mover = 1 - self.mover;
        self.rounds_left = self.rounds_left - 1;
    }

    fn snapshot(&self) -> (copy: Self) {
        CoinCall {
            rounds_left: self.rounds_left,
            coin: self.coin,
            mover: self.mover,
            lead: self.lead,
            cached: self.cached,
            seed: self.seed,
        }
    }
}

} // verus!
