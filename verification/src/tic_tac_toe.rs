//! Three in a row on a board of three by three tiles: a small game without
//! chance events that meets the contract of the search.
//!
//! Tiles are numbered row by row from 0 to 8. Player 0 marks a tile with -1,
//! player 1 with 1, and 0 is an empty tile.

use crate::determinism::no_chance;
use crate::game::Game;
use vstd::prelude::*;

verus! {

/// A position: the marks on the nine tiles and the player to move.
pub struct Board {
    pub tiles: Seq<i8>,
    pub mover: nat,
}

/// A move: the tile that gets the mark.
#[derive(Clone, Copy)]
pub struct TicTacToeMove {
    pub tile: usize,
}

/// A game in progress. `actions` holds the moves that `cache_actions` found
/// last, one per empty tile in the order of the tiles.
#[derive(Clone)]
pub struct TicTacToe {
    board: [i8; 9],
    pub active_player: usize,
    winner: Option<usize>,
    pub actions: Vec<TicTacToeMove>,
    moves_made: usize,
}

/// The three tiles of the line of index `l`: rows first, then columns, then
/// the two diagonals.
pub open spec fn line_tiles(l: int) -> (int, int, int) {
    if l == 0 {
        (0, 1, 2)
    } else if l == 1 {
        (3, 4, 5)
    } else if l == 2 {
        (6, 7, 8)
    } else if l == 3 {
        (0, 3, 6)
    } else if l == 4 {
        (1, 4, 7)
    } else if l == 5 {
        (2, 5, 8)
    } else if l == 6 {
        (0, 4, 8)
    } else {
        (2, 4, 6)
    }
}

/// The player whose mark fills the line `l`, if one does.
pub open spec fn line_owner(tiles: Seq<i8>, l: int) -> Option<usize> {
    let (a, b, c) = line_tiles(l);
    if tiles[a] != 0 && tiles[a] == tiles[b] && tiles[a] == tiles[c] {
        if tiles[a] == -1 {
            Some(0usize)
        } else {
            Some(1usize)
        }
    } else {
        None
    }
}

/// The owner of the first filled line among the first `count` lines.
pub open spec fn winner_among(tiles: Seq<i8>, count: int) -> Option<usize>
    decreases count,
{
    if count <= 0 {
        None
    } else {
        match winner_among(tiles, count - 1) {
            Some(w) => Some(w),
            None => line_owner(tiles, count - 1),
        }
    }
}

/// The winner: the owner of the first filled line of the eight.
pub open spec fn winner_of(tiles: Seq<i8>) -> Option<usize> {
    winner_among(tiles, 8)
}

/// The empty tiles among the first `count`, in ascending order.
pub open spec fn free_among(tiles: Seq<i8>, count: int) -> Seq<usize>
    decreases count,
{
    if count <= 0 {
        Seq::empty()
    } else if tiles[count - 1] == 0 {
        free_among(tiles, count - 1).push((count - 1) as usize)
    } else {
        free_among(tiles, count - 1)
    }
}

/// The empty tiles of the board, in ascending order.
pub open spec fn free_tiles(tiles: Seq<i8>) -> Seq<usize> {
    free_among(tiles, 9)
}

/// Every tile is empty or holds the mark of a player.
pub open spec fn marks_only(tiles: Seq<i8>) -> bool {
    forall|i: int| 0 <= i < tiles.len() ==> -1 <= #[trigger] tiles[i] <= 1
}

/// The mark of a player.
pub open spec fn mark_of(mover: nat) -> i8 {
    if mover == 0 {
        -1i8
    } else {
        1i8
    }
}

/// The position after the player to move has marked the empty tile of index
/// `action` among the empty tiles.
pub open spec fn placed(p: Board, action: nat) -> Board {
    Board {
        tiles: p.tiles.update(free_tiles(p.tiles)[action as int] as int, mark_of(p.mover)),
        mover: if p.mover == 0 {
            1
        } else {
            0
        },
    }
}

/// The scores of a finished game: 1 for the winner and -1 for the loser, or
/// 0 for both after a draw.
pub open spec fn result_of(tiles: Seq<i8>) -> Seq<i64> {
    match winner_of(tiles) {
        None => seq![0i64, 0i64],
        Some(w) => if w == 0 {
            seq![1i64, -1i64]
        } else {
            seq![-1i64, 1i64]
        },
    }
}

/// The empty tiles among the first `count` are empty, lie below `count`, and
/// are no more than `count`.
pub proof fn lemma_free_tiles(tiles: Seq<i8>, count: int)
    requires
        0 <= count <= tiles.len(),
        count <= 9,
    ensures
        free_among(tiles, count).len() <= count,
        forall|k: int|
            0 <= k < free_among(tiles, count).len() ==> (#[trigger] free_among(tiles, count)[k])
                < count && tiles[free_among(tiles, count)[k] as int] == 0,
    decreases count,
{
    if count > 0 {
        lemma_free_tiles(tiles, count - 1);
    }
}

/// A mark on an empty tile leaves one empty tile fewer among the tiles that
/// hold it, and as many among those that do not.
pub proof fn lemma_mark_fills(tiles: Seq<i8>, tile: int, mark: i8, count: int)
    requires
        0 <= count <= tiles.len(),
        0 <= tile < tiles.len(),
        tiles[tile] == 0,
        mark != 0,
    ensures
        free_among(tiles.update(tile, mark), count).len() + (if tile < count {
            1int
        } else {
            0int
        }) == free_among(tiles, count).len(),
    decreases count,
{
    if count > 0 {
        lemma_mark_fills(tiles, tile, mark, count - 1);
    }
}

impl TicTacToe {
    /// The marks on the board.
    pub closed spec fn tiles(&self) -> Seq<i8> {
        self.board@
    }

    /// The player to move.
    pub closed spec fn to_move(&self) -> nat {
        self.active_player as nat
    }

    /// The tiles of the cached moves, in the order of the moves.
    pub closed spec fn cached(&self) -> Seq<usize> {
        Seq::new(self.actions@.len(), |k: int| self.actions@[k].tile)
    }

    /// A consistent game has a board of nine tiles, each empty or marked by
    /// a player, and player 0 or player 1 is to move.
    pub proof fn lemma_board(&self)
        requires
            self.wf(),
        ensures
            self.position().tiles.len() == 9,
            marks_only(self.position().tiles),
            self.position().mover <= 1,
    {
    }

    /// The tile that the cached move of index `action` marks.
    pub fn tile(&self, action: usize) -> (tile: usize)
        requires
            action < self.cached().len(),
        ensures
            tile == self.cached()[action as int],
    {
        self.actions[action].tile
    }

    /// The game has no chance events.
    pub proof fn lemma_no_chance()
        ensures
            no_chance::<TicTacToe>(),
    {
    }

    /// An empty board with player 0 to move.
    pub fn new() -> (game: Self)
        ensures
            game.wf(),
            game.position() == (Board { tiles: Seq::new(9, |i: int| 0i8), mover: 0 }),
            game.cached().len() == 0,
    {
        let game = TicTacToe {
            board: [0;9],
            active_player: 0,
            winner: None,
            actions: Vec::new(),
            moves_made: 0,
        };
        proof {
            assert(game.board@ =~= Seq::new(9, |i: int| 0i8));
            reveal_with_fuel(free_among, 10);
            reveal_with_fuel(winner_among, 9);
        }
        game
    }

    /// Looks for a filled line and records its owner as the winner.
    fn check_winner(&mut self)
        ensures
            final(self).winner == winner_of(old(self).board@),
            final(self).board == old(self).board,
            final(self).active_player == old(self).active_player,
            final(self).actions == old(self).actions,
            final(self).moves_made == old(self).moves_made,
    {
        let lines: [[usize; 3]; 8] = [
            [0, 1, 2],
            [3, 4, 5],
            [6, 7, 8],
            [0, 3, 6],
            [1, 4, 7],
            [2, 5, 8],
            [0, 4, 8],
            [2, 4, 6],
        ];
        let mut l: usize = 0;
        while l < 8
            invariant
                l <= 8,
                self.board == old(self).board,
                self.active_player == old(self).active_player,
                self.actions == old(self).actions,
                self.moves_made == old(self).moves_made,
                winner_among(self.board@, l as int) is None,
                forall|i: int|
                    0 <= i < 8 ==> (#[trigger] lines@[i])@ == seq![
                        line_tiles(i).0 as usize,
                        line_tiles(i).1 as usize,
                        line_tiles(i).2 as usize,
                    ],
            decreases 8 - l,
        {
            let line = lines[l];
            proof {
                assert(lines@[l as int]@[0] == line_tiles(l as int).0);
                assert(lines@[l as int]@[1] == line_tiles(l as int).1);
                assert(lines@[l as int]@[2] == line_tiles(l as int).2);
            }
            let first = self.board[line[0]];
            if first != 0 && first == self.board[line[1]] && first == self.board[line[2]] {
                self.winner = if first == -1 {
                    Some(0)
                } else {
                    Some(1)
                };
                proof {
                    reveal_with_fuel(winner_among, 9);
                    lemma_winner_found(self.board@, l as int, 8);
                }
                return ;
            }
            l = l + 1;
        }
        self.winner = None;
    }
}

/// The three tiles of the line `l` hold the mark of `player`.
pub open spec fn line_held(tiles: Seq<i8>, l: int, player: nat) -> bool {
    let (a, b, c) = line_tiles(l);
    tiles[a] == mark_of(player) && tiles[b] == mark_of(player) && tiles[c] == mark_of(player)
}

/// On a board that holds only marks, the winner holds a line and no line
/// before it in the order of the lines is filled; without a winner no line
/// is filled.
pub proof fn lemma_winner_holds_line(tiles: Seq<i8>)
    requires
        tiles.len() == 9,
        marks_only(tiles),
    ensures
        winner_of(tiles) matches Some(w) ==> w <= 1 && exists|l: int|
            0 <= l < 8 && #[trigger] line_held(tiles, l, w as nat) && winner_among(tiles, l)
                is None,
        winner_of(tiles) is None ==> forall|l: int|
            0 <= l < 8 ==> #[trigger] line_owner(tiles, l) is None,
{
    reveal_with_fuel(winner_among, 9);
    if winner_of(tiles) is Some {
        let w = winner_of(tiles).unwrap();
        let l = choose|l: int| 0 <= l < 8 && winner_among(tiles, l) is None && line_owner(tiles, l)
            == Some(w);
        assert(line_held(tiles, l, w as nat));
    }
}

/// The first filled line decides: once a line among the first `found + 1`
/// is filled and none before it, the winner among more lines is its owner.
pub proof fn lemma_winner_found(tiles: Seq<i8>, found: int, count: int)
    requires
        0 <= found < count,
        winner_among(tiles, found) is None,
        line_owner(tiles, found) is Some,
    ensures
        winner_among(tiles, count) == line_owner(tiles, found),
    decreases count,
{
    if count > found + 1 {
        lemma_winner_found(tiles, found, count - 1);
    }
}

impl Game for TicTacToe {
    type Position = Board;

    open spec fn position(&self) -> Board {
        Board { tiles: self.tiles(), mover: self.to_move() }
    }

    closed spec fn wf(&self) -> bool {
        &&& self.active_player <= 1
        &&& marks_only(self.board@)
        &&& self.winner == winner_of(self.board@)
        &&& self.moves_made + free_tiles(self.board@).len() == 9
    }

    open spec fn ready(&self) -> bool {
        self.cached() == free_tiles(self.tiles())
    }

    open spec fn over(p: Board) -> bool {
        winner_of(p.tiles) is Some || free_tiles(p.tiles).len() == 0
    }

    open spec fn players(p: Board) -> nat {
        2
    }

    open spec fn chance(p: Board) -> bool {
        false
    }

    open spec fn mover(p: Board) -> nat {
        p.mover
    }

    open spec fn outcome(p: Board) -> Seq<i64> {
        result_of(p.tiles)
    }

    open spec fn actions(p: Board) -> nat {
        free_tiles(p.tiles).len()
    }

    open spec fn play(p: Board, action: nat) -> Board {
        placed(p, action)
    }

    open spec fn branches(p: Board) -> Seq<Board> {
        Seq::empty()
    }

    open spec fn horizon(p: Board) -> nat {
        free_tiles(p.tiles).len()
    }

    proof fn rules(&self) {
        let p = self.position();
        lemma_free_tiles(p.tiles, 9);
        assert forall|a: nat| a < Self::actions(p) implies {
            &&& Self::players(#[trigger] Self::play(p, a)) == Self::players(p)
            &&& Self::horizon(Self::play(p, a)) < Self::horizon(p)
        } by {
            let tile = free_tiles(p.tiles)[a as int] as int;
            lemma_mark_fills(p.tiles, tile, mark_of(p.mover), 9);
        }
    }

    fn is_over(&self) -> (over: bool) {
        self.winner.is_some() || self.moves_made == 9
    }

    fn player_count(&self) -> (count: usize) {
        2
    }

    fn active_player(&self) -> (player: Option<usize>) {
        Some(self.active_player)
    }

    fn scores(&self) -> (scores: Option<Vec<i64>>) {
        if !self.is_over() {
            return None;
        }
        let scores = match self.winner {
            None => vec![0, 0],
            Some(0) => vec![1, -1],
            _ => vec![-1, 1],
        };
        proof {
            assert(scores@ =~= result_of(self.board@));
        }
        Some(scores)
    }

    fn is_random_step(&self) -> (chance: bool) {
        false
    }

    fn cache_actions(&mut self) -> (count: usize) {
        let mut actions: Vec<TicTacToeMove> = Vec::new();
        let mut tile: usize = 0;
        while tile < 9
            invariant
                tile <= 9,
                Seq::new(actions@.len(), |k: int| actions@[k].tile) == free_among(
                    self.board@,
                    tile as int,
                ),
            decreases 9 - tile,
        {
            if self.board[tile] == 0 {
                actions.push(TicTacToeMove { tile });
            }
            tile = tile + 1;
            assert(Seq::new(actions@.len(), |k: int| actions@[k].tile) =~= free_among(
                self.board@,
                tile as int,
            ));
        }
        self.actions = actions;
        self.actions.len()
    }

    fn possible_random(&self) -> (states: Option<Vec<Self>>) {
        None
    }

    fn make_random_step(&mut self) {
    }

    fn make_action(&mut self, action: usize) {
        proof {
            lemma_free_tiles(self.board@, 9);
            assert(self.cached()[action as int] == self.actions@[action as int].tile);
        }
        self.moves_made = self.moves_made + 1;
        let tile = self.actions[action].tile;
        proof {
            lemma_mark_fills(self.board@, tile as int, mark_of(self.active_player as nat), 9);
        }
        if self.active_player == 0 {
            self.board[tile] = -1;
            self.active_player = 1;
        } else {
            self.board[tile] = 1;
            self.active_player = 0;
        }
        self.check_winner();
        proof {
            assert(self.board@ =~= old(self).board@.update(
                tile as int,
                mark_of(old(self).active_player as nat),
            ));
        }
    }

    fn snapshot(&self) -> (copy: Self) {
        let mut actions: Vec<TicTacToeMove> = Vec::new();
        let mut k: usize = 0;
        while k < self.actions.len()
            invariant
                k <= self.actions@.len(),
                actions@ == self.actions@.subrange(0, k as int),
            decreases self.actions@.len() - k,
        {
            actions.push(self.actions[k]);
            k = k + 1;
            assert(actions@ =~= self.actions@.subrange(0, k as int));
        }
        assert(actions@ =~= self.actions@);
        let copy = TicTacToe {
            board: self.board,
            active_player: self.active_player,
            winner: self.winner,
            actions,
            moves_made: self.moves_made,
        };
        assert(copy.cached() =~= self.cached());
        copy
    }
}

} // verus!
