//! Game logic — state machine for a single Scrabble game.
//! Manages turns, scoring, tile drawing, and word formation.

use vstd::prelude::*;
use vstd::multiset::Multiset;
use crate::board::{Board, SquareView, premium_spec, clone_opt_string};
use crate::dictionary::Dictionary;
use crate::tiles::{Tile, standard_tile_bag, standard_bag, tiles_view};
use crate::random::shuffle_vec;

verus! {

/// Player in the game.
pub struct Player {
    pub id: String,
    pub name: String,
    pub score: u32,
    pub rack: Vec<Tile>,
    pub ready: bool,
    pub is_bot: bool,
    pub bot_level: Option<String>,
}

impl Clone for Player {
    fn clone(&self) -> (res: Self)
        ensures
            res.same_as(*self),
    {
        Player {
            id: self.id.clone(),
            name: self.name.clone(),
            score: self.score,
            rack: clone_tiles(&self.rack),
            ready: self.ready,
            is_bot: self.is_bot,
            bot_level: clone_opt_string(&self.bot_level),
        }
    }
}

impl Player {
    /// Equal fields, the rack compared by its contents.
    pub open spec fn same_as(&self, other: Player) -> bool {
        &&& self.id == other.id
        &&& self.name == other.name
        &&& self.score == other.score
        &&& self.rack@ == other.rack@
        &&& self.ready == other.ready
        &&& self.is_bot == other.is_bot
        &&& self.bot_level == other.bot_level
    }
}

/// Copies a sequence of tiles.
pub fn clone_tiles(v: &Vec<Tile>) -> (res: Vec<Tile>)
    ensures
        res@ == v@,
{
    let res = v.clone();
    assert forall|j: int| 0 <= j < v@.len() implies res@[j] == v@[j] by {
        assert(cloned::<Tile>(v@[j], res@[j]));
    }
    assert(res@ =~= v@);
    res
}

/// Current game state.
#[derive(Debug, Clone, Copy, PartialEq, Eq, Structural)]
pub enum GamePhase {
    Lobby,
    Playing,
    Finished,
}

/// The full game state.
pub struct Game {
    pub board: Board,
    pub players: Vec<Player>,
    pub tile_bag: Vec<Tile>,
    pub current_turn: usize,
    pub phase: GamePhase,
    pub consecutive_passes: u32,
    pub dictionary: Dictionary,
    pub winner: Option<String>,
    pub tiles_placed_this_turn: Vec<(usize, usize)>,
}

/// The tiles of all racks, taken together.
pub open spec fn racks_multiset(players: Seq<Player>) -> Multiset<Tile>
    decreases players.len(),
{
    if players.len() == 0 {
        Multiset::empty()
    } else {
        racks_multiset(players.drop_last()).add(players.last().rack@.to_multiset())
    }
}

/// How many tiles the k-th player receives when `bag_len` tiles are dealt in
/// turns of `hand` tiles from the end of the bag.
pub open spec fn dealt_count(bag_len: int, hand: int, k: int) -> int {
    let left = bag_len - hand * k;
    if left <= 0 { 0 } else if left < hand { left } else { hand }
}

/// `new` is `old` after its bag was shuffled and each player, in turn, was
/// given the next seven tiles from the end of the bag (fewer when it runs
/// out), in place of the rack they had. No tile is lost or made.
pub open spec fn dealt(old: Game, new: Game) -> bool {
    &&& new.tile_bag@.len() == if old.tile_bag@.len() > 7 * old.players@.len() {
        old.tile_bag@.len() - 7 * old.players@.len()
    } else {
        0
    }
    &&& new.players@.len() == old.players@.len()
    &&& forall|i: int| 0 <= i < new.players@.len() ==> {
        &&& (#[trigger] new.players@[i]).rack@.len() == dealt_count(old.tile_bag@.len() as int, 7, i)
        &&& new.players@[i].id == old.players@[i].id
        &&& new.players@[i].name == old.players@[i].name
        &&& new.players@[i].score == old.players@[i].score
        &&& new.players@[i].ready == old.players@[i].ready
        &&& new.players@[i].is_bot == old.players@[i].is_bot
        &&& new.players@[i].bot_level == old.players@[i].bot_level
    }
    &&& new.tile_bag@.to_multiset().add(racks_multiset(new.players@)) == old.tile_bag@.to_multiset()
    &&& new.board == old.board
    &&& new.dictionary == old.dictionary
    &&& new.winner == old.winner
    &&& new.tiles_placed_this_turn == old.tiles_placed_this_turn
}

/// `new` is `old` after its current player passed: the turn moves on, and
/// the game ends, with no winner, once every player has passed in a row.
pub open spec fn passed(old: Game, new: Game) -> bool {
    &&& new.consecutive_passes == old.consecutive_passes + 1
    &&& new.current_turn == (old.current_turn + 1) % (old.players@.len() as int)
    &&& new.tiles_placed_this_turn@.len() == 0
    &&& old.consecutive_passes + 1 >= (old.players@.len() as u32) ==> {
        &&& new.phase == GamePhase::Finished
        &&& new.winner is None
    }
    &&& old.consecutive_passes + 1 < (old.players@.len() as u32) ==> {
        &&& new.phase == old.phase
        &&& new.winner == old.winner
    }
    &&& new.board == old.board
    &&& new.players == old.players
    &&& new.tile_bag == old.tile_bag
    &&& new.dictionary == old.dictionary
}

/// Passing all round ends the game: when every player, one after the other,
/// passes from a state with no passes counted, the game is over with no
/// winner.
pub proof fn lemma_all_pass_ends_game(games: Seq<Game>)
    requires
        games.len() > 1,
        games[0].players@.len() == games.len() - 1,
        games[0].players@.len() <= u32::MAX,
        games[0].consecutive_passes == 0,
        forall|i: int| 0 <= i < games.len() - 1 ==> passed(#[trigger] games[i], games[i + 1]),
    ensures
        games.last().phase == GamePhase::Finished,
        games.last().winner is None,
{
    let n = games.len() - 1;
    lemma_passes_counted(games, n - 1);
    assert(passed(games[n - 1], games[n]));
    assert(games[n - 1].consecutive_passes + 1 >= (games[n - 1].players@.len() as u32));
}

proof fn lemma_passes_counted(games: Seq<Game>, i: int)
    requires
        0 <= i < games.len(),
        games[0].consecutive_passes == 0,
        forall|k: int| 0 <= k < games.len() - 1 ==> passed(#[trigger] games[k], games[k + 1]),
    ensures
        games[i].consecutive_passes == i,
        games[i].players == games[0].players,
    decreases i,
{
    if i > 0 {
        lemma_passes_counted(games, i - 1);
        assert(passed(games[i - 1], games[i]));
    }
}

/// `new` is `old` with the turn moved on to the next player.
pub open spec fn turn_moved_on(old: Game, new: Game) -> bool {
    &&& new.current_turn == (old.current_turn + 1) % (old.players@.len() as int)
    &&& new.tiles_placed_this_turn@.len() == 0
    &&& new.board == old.board
    &&& new.players == old.players
    &&& new.tile_bag == old.tile_bag
    &&& new.phase == old.phase
    &&& new.consecutive_passes == old.consecutive_passes
    &&& new.dictionary == old.dictionary
    &&& new.winner == old.winner
}

/// `new` is `old` ended because a player emptied their rack with the bag
/// empty: the last player with the highest score wins.
pub open spec fn ended_on_empty_rack(old: Game, new: Game) -> bool {
    &&& new.phase == GamePhase::Finished
    &&& exists|i: int| is_last_top_scorer(old.players@, i) && new.winner == Some(old.players@[i].id)
    &&& new.board == old.board
    &&& new.players == old.players
    &&& new.tile_bag == old.tile_bag
    &&& new.current_turn == old.current_turn
    &&& new.consecutive_passes == old.consecutive_passes
    &&& new.dictionary == old.dictionary
    &&& new.tiles_placed_this_turn == old.tiles_placed_this_turn
}

/// Whether every player has said they are ready.
pub open spec fn everyone_ready(players: Seq<Player>) -> bool {
    forall|i: int| 0 <= i < players.len() ==> #[trigger] players[i].ready
}

/// The index of the last player with the highest score (the one that
/// `max_by_key` picks).
pub open spec fn is_last_top_scorer(players: Seq<Player>, i: int) -> bool {
    &&& 0 <= i < players.len()
    &&& forall|j: int| 0 <= j < players.len() ==> #[trigger] players[j].score <= players[i].score
    &&& forall|j: int| i < j < players.len() ==> #[trigger] players[j].score < players[i].score
}

impl Game {
    /// The game is well formed: its board is square and its dictionary consistent.
    pub open spec fn wf(&self) -> bool {
        &&& self.board.wf()
        &&& self.dictionary.wf()
    }

    /// Index of the player whose turn it is.
    pub open spec fn turn_index(&self) -> int {
        self.current_turn as int % self.players@.len() as int
    }

    /// Create a new game with the given dictionary.
    pub fn new(dictionary: Dictionary) -> (game: Self)
        requires
            dictionary.wf(),
        ensures
            game.wf(),
            game.board.size == 15,
            forall|r: int, c: int| 0 <= r < 15 && 0 <= c < 15 ==> #[trigger] game.board.cell(r, c) == (SquareView {
                row: r as usize,
                col: c as usize,
                premium: premium_spec(r, c),
                tile: None,
                owner: None,
            }),
            game.players@.len() == 0,
            tiles_view(game.tile_bag@) == standard_bag(),
            game.current_turn == 0,
            game.phase == GamePhase::Lobby,
            game.consecutive_passes == 0,
            game.dictionary == dictionary,
            game.winner is None,
            game.tiles_placed_this_turn@.len() == 0,
    {
        Game {
            board: Board::new(),
            players: Vec::new(),
            tile_bag: standard_tile_bag(),
            current_turn: 0,
            phase: GamePhase::Lobby,
            consecutive_passes: 0,
            dictionary,
            winner: None,
            tiles_placed_this_turn: Vec::new(),
        }
    }

    /// Add a player to the game.
    pub fn add_player(&mut self, id: String, name: String)
        ensures
            final(self).players@ == old(self).players@.push(Player {
                id: id,
                name: name,
                score: 0,
                rack: final(self).players@.last().rack,
                ready: false,
                is_bot: false,
                bot_level: None,
            }),
            final(self).players@.last().rack@.len() == 0,
            final(self).board == old(self).board,
            final(self).tile_bag == old(self).tile_bag,
            final(self).current_turn == old(self).current_turn,
            final(self).phase == old(self).phase,
            final(self).consecutive_passes == old(self).consecutive_passes,
            final(self).dictionary == old(self).dictionary,
            final(self).winner == old(self).winner,
            final(self).tiles_placed_this_turn == old(self).tiles_placed_this_turn,
    {
        self.players.push(Player {
            id,
            name,
            score: 0,
            rack: Vec::new(),
            ready: false,
            is_bot: false,
            bot_level: None,
        });
    }

    /// Draw N tiles from the bag: the last `min(N, bag size)` tiles, in bag order.
    pub fn draw_tiles(&mut self, count: usize) -> (drawn: Vec<Tile>)
        ensures
            ({
                let n = old(self).tile_bag@.len();
                let k = if count < n { n - count } else { 0 };
                &&& drawn@ == old(self).tile_bag@.subrange(k as int, n as int)
                &&& final(self).tile_bag@ == old(self).tile_bag@.subrange(0, k as int)
            }),
            final(self).tile_bag@.to_multiset().add(drawn@.to_multiset()) == old(self).tile_bag@.to_multiset(),
            final(self).board == old(self).board,
            final(self).players == old(self).players,
            final(self).current_turn == old(self).current_turn,
            final(self).phase == old(self).phase,
            final(self).consecutive_passes == old(self).consecutive_passes,
            final(self).dictionary == old(self).dictionary,
            final(self).winner == old(self).winner,
            final(self).tiles_placed_this_turn == old(self).tiles_placed_this_turn,
    {
        let available = if self.tile_bag.len() < count { self.tile_bag.len() } else { count };
        if available == 0 {
            let ghost n = self.tile_bag@.len();
            assert(self.tile_bag@.subrange(n as int, n as int) =~= Seq::<Tile>::empty());
            assert(self.tile_bag@.subrange(0, n as int) =~= self.tile_bag@);
            proof {
                lemma_split_multiset(self.tile_bag@, self.tile_bag@, Seq::<Tile>::empty());
            }
            return Vec::new();
        }
        let ghost whole = self.tile_bag@;
        let at = self.tile_bag.len() - available;
        let drawn = self.tile_bag.split_off(at);
        proof {
            lemma_split_multiset(whole, self.tile_bag@, drawn@);
        }
        drawn
    }

    /// Shuffle and deal initial tiles to all players (7 each).
    pub fn deal_tiles(&mut self)
        ensures
            dealt(*old(self), *final(self)),
            final(self).current_turn == old(self).current_turn,
            final(self).phase == old(self).phase,
            final(self).consecutive_passes == old(self).consecutive_passes,
    {
        let ghost start = *self;
        shuffle_vec(&mut self.tile_bag);
        let player_count = self.players.len();
        let mut i: usize = 0;
        while i < player_count
            invariant
                0 <= i <= player_count,
                player_count == start.players@.len(),
                self.players@.len() == player_count,
                self.tile_bag@.len() == if start.tile_bag@.len() > 7 * i { start.tile_bag@.len() - 7 * i } else { 0 },
                forall|j: int| 0 <= j < player_count ==> {
                    &&& (j < i ==> (#[trigger] self.players@[j]).rack@.len() == dealt_count(start.tile_bag@.len() as int, 7, j))
                    &&& (j >= i ==> self.players@[j].rack == start.players@[j].rack)
                    &&& self.players@[j].id == start.players@[j].id
                    &&& self.players@[j].name == start.players@[j].name
                    &&& self.players@[j].score == start.players@[j].score
                    &&& self.players@[j].ready == start.players@[j].ready
                    &&& self.players@[j].is_bot == start.players@[j].is_bot
                    &&& self.players@[j].bot_level == start.players@[j].bot_level
                },
                self.tile_bag@.to_multiset().add(racks_multiset(self.players@.take(i as int)))
                    == start.tile_bag@.to_multiset(),
                self.board == start.board,
                self.current_turn == start.current_turn,
                self.phase == start.phase,
                self.consecutive_passes == start.consecutive_passes,
                self.dictionary == start.dictionary,
                self.winner == start.winner,
                self.tiles_placed_this_turn == start.tiles_placed_this_turn,
            decreases player_count - i,
        {
            let ghost bag_before = self.tile_bag@;
            let ghost players_before = self.players@;
            let drawn = self.draw_tiles(7);
            proof {
                lemma_split_multiset(bag_before, self.tile_bag@, drawn@);
            }
            let mut rack = drawn;
            std::mem::swap(&mut self.players[i].rack, &mut rack);
            proof {
                assert(self.players@.take(i + 1).drop_last() =~= self.players@.take(i as int));
                assert forall|j: int| 0 <= j < i implies self.players@.take(i as int)[j] == players_before.take(i as int)[j] by {}
                assert(self.players@.take(i as int) =~= players_before.take(i as int));
                broadcast use vstd::multiset::group_multiset_axioms;
                assert(self.tile_bag@.to_multiset().add(racks_multiset(self.players@.take(i + 1)))
                    =~= bag_before.to_multiset().add(racks_multiset(players_before.take(i as int))));
            }
            i = i + 1;
        }
        assert(self.players@.take(player_count as int) =~= self.players@);
    }

    /// Check if all players are ready.
    pub fn all_ready(&self) -> (res: bool)
        ensures
            res == (self.players@.len() >= 2 && everyone_ready(self.players@)),
    {
        if self.players.len() < 2 {
            return false;
        }
        let mut i: usize = 0;
        while i < self.players.len()
            invariant
                0 <= i <= self.players@.len(),
                forall|j: int| 0 <= j < i ==> #[trigger] self.players@[j].ready,
            decreases self.players@.len() - i,
        {
            if !self.players[i].ready {
                return false;
            }
            i = i + 1;
        }
        true
    }

    /// Start the game with a specific first player.
    pub fn start(&mut self, first_player: usize) -> (res: Result<(), String>)
        ensures
            old(self).players@.len() < 2 ==> {
                &&& res matches Err(e) && e@ == "Need at least 2 players"@
                &&& *final(self) == *old(self)
            },
            old(self).players@.len() >= 2 ==> {
                &&& res is Ok
                &&& dealt(*old(self), *final(self))
                &&& final(self).phase == GamePhase::Playing
                &&& final(self).current_turn == first_player
                &&& final(self).consecutive_passes == 0
            },
    {
        if self.players.len() < 2 {
            return Err("Need at least 2 players".to_owned());
        }
        self.deal_tiles();
        self.phase = GamePhase::Playing;
        self.current_turn = first_player;
        self.consecutive_passes = 0;
        Ok(())
    }

    /// Index of current player.
    pub fn current_player_index(&self) -> (i: usize)
        requires
            self.players@.len() > 0,
        ensures
            i == self.turn_index(),
    {
        self.current_turn % self.players.len()
    }

    /// Advance to the next player's turn.
    pub fn next_turn(&mut self)
        requires
            old(self).players@.len() > 0,
            old(self).current_turn < usize::MAX,
        ensures
            turn_moved_on(*old(self), *final(self)),
    {
        self.current_turn = (self.current_turn + 1) % self.players.len();
        self.tiles_placed_this_turn.clear();
    }

    /// Pass the current player's turn; once every player has passed in a
    /// row, the game ends without a winner.
    pub fn pass_turn(&mut self)
        requires
            old(self).players@.len() > 0,
            old(self).current_turn < usize::MAX,
            old(self).consecutive_passes < u32::MAX,
        ensures
            passed(*old(self), *final(self)),
    {
        self.consecutive_passes = self.consecutive_passes + 1;
        if self.consecutive_passes >= self.players.len() as u32 {
            self.end_game(None, "All players passed".to_owned());
        }
        self.next_turn();
    }

    /// End the game.
    pub fn end_game(&mut self, winner: Option<String>, reason: String)
        ensures
            final(self).phase == GamePhase::Finished,
            final(self).winner == winner,
            final(self).board == old(self).board,
            final(self).players == old(self).players,
            final(self).tile_bag == old(self).tile_bag,
            final(self).current_turn == old(self).current_turn,
            final(self).consecutive_passes == old(self).consecutive_passes,
            final(self).dictionary == old(self).dictionary,
            final(self).tiles_placed_this_turn == old(self).tiles_placed_this_turn,
    {
        self.phase = GamePhase::Finished;
        self.winner = winner;
    }

    /// The last player with the highest score.
    fn last_top_scorer(&self) -> (i: usize)
        requires
            self.players@.len() > 0,
        ensures
            is_last_top_scorer(self.players@, i as int),
    {
        let mut best: usize = 0;
        let mut i: usize = 1;
        while i < self.players.len()
            invariant
                1 <= i <= self.players@.len(),
                is_last_top_scorer(self.players@.take(i as int), best as int),
            decreases self.players@.len() - i,
        {
            if self.players[i].score >= self.players[best].score {
                best = i;
            }
            assert(self.players@.take(i + 1).drop_last() =~= self.players@.take(i as int));
            i = i + 1;
        }
        assert(self.players@.take(i as int) =~= self.players@);
        best
    }

    /// Check if the game should end: the current player has emptied their
    /// rack and the bag is empty. The winner is then the last player with
    /// the highest score.
    pub fn check_game_end(&mut self) -> (ended: bool)
        requires
            old(self).players@.len() > 0,
        ensures
            ended == (old(self).players@[old(self).turn_index()].rack@.len() == 0 && old(self).tile_bag@.len() == 0),
            ended ==> ended_on_empty_rack(*old(self), *final(self)),
            !ended ==> *final(self) == *old(self),
    {
        let idx = self.current_player_index();
        if self.players[idx].rack.len() == 0 && self.tile_bag.len() == 0 {
            let best = self.last_top_scorer();
            let winner = self.players[best].id.clone();
            self.end_game(Some(winner), "Player used all tiles".to_owned());
            return true;
        }
        false
    }

    /// Get the winner if game is finished.
    pub fn get_winner(&self) -> (w: Option<String>)
        ensures
            w == self.winner,
    {
        clone_opt_string(&self.winner)
    }

    /// Number of tiles remaining in bag.
    pub fn tiles_remaining(&self) -> (n: usize)
        ensures
            n == self.tile_bag@.len(),
    {
        self.tile_bag.len()
    }
}

proof fn lemma_split_multiset(whole: Seq<Tile>, front: Seq<Tile>, back: Seq<Tile>)
    requires
        front.len() <= whole.len(),
        front == whole.subrange(0, front.len() as int),
        back == whole.subrange(front.len() as int, whole.len() as int),
    ensures
        front.to_multiset().add(back.to_multiset()) == whole.to_multiset(),
{
    assert(whole =~= front + back);
    vstd::seq_lib::lemma_multiset_commutative(front, back);
}

} // verus!
