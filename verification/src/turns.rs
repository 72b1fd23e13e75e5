//! A player's turn as the session runs it: whose turn it is, a move, a pass
//! or an exchange sent by a player, getting ready, and the draw that starts
//! the game.

use vstd::prelude::*;
use crate::game::{Game, GamePhase, passed, turn_moved_on, ended_on_empty_rack, everyone_ready};
use crate::play::{play_in_range, play_outcome, result_view};
use crate::protocol::{ActiveRoomInfo, DrawEntry};
use crate::rack::{exchange_outcome, slice_texts};
use crate::session::{is_first_seat, seated_nowhere};
use crate::text::same_text;

verus! {

/// What became of a move that a player sent.
pub enum MoveTurn {
    /// It is another player's turn; nothing changed.
    NotYourTurn,
    /// The move was refused, with this message; the player's turn is over.
    Forfeited { message: String },
    /// The move was played for `score` points, forming `words`.
    /// `bingo_announced` when it placed all seven tiles; `game_over` when it ended
    /// the game, otherwise the turn has moved on.
    Played { words: Vec<String>, score: u32, bingo_announced: bool, game_over: bool },
}

/// Whether it is the turn of the player with the given id.
pub open spec fn turn_of(g: Game, id: Seq<char>) -> bool {
    g.players@[g.turn_index()].id@ == id
}

/// The words of a move's result, as characters.
pub open spec fn word_texts(words: Seq<String>) -> Seq<Seq<char>> {
    words.map_values(|w: String| w@)
}

/// The game after a move sent by player `id`, and what became of it.
pub open spec fn move_turn_outcome(old: Game, id: Seq<char>, ps: Seq<(usize, usize, String)>, new: Game, res: MoveTurn) -> bool {
    if !turn_of(old, id) {
        res is NotYourTurn && new == old
    } else {
        exists|mid: Game, r: Result<(Seq<Seq<char>>, u32), Seq<char>>| {
            &&& #[trigger] play_outcome(old, ps, mid, r)
            &&& match r {
                Err(m) => res matches MoveTurn::Forfeited { message } && message@ == m && turn_moved_on(mid, new),
                Ok((words, score)) => {
                    let over = mid.players@[old.turn_index()].rack@.len() == 0 && mid.tile_bag@.len() == 0;
                    &&& res matches MoveTurn::Played { words: w, score: s, bingo_announced: b, game_over: o }
                        && word_texts(w@) == words && s == score && b == (ps.len() == 7) && o == over
                    &&& if over { ended_on_empty_rack(mid, new) } else { turn_moved_on(mid, new) }
                },
            }
        }
    }
}

impl Game {
    /// Whether it is the turn of the player with the given id.
    pub fn is_turn_of(&self, player_id: &str) -> (res: bool)
        requires
            self.players@.len() > 0,
        ensures
            res == turn_of(*self, player_id@),
    {
        let idx = self.current_player_index();
        same_text(self.players[idx].id.as_str(), player_id)
    }

    /// A move sent by the player with the given id. Refused without effect
    /// when it is not their turn; otherwise played (`place_tiles`): a refused
    /// move forfeits the turn, a played one ends the game when the player's
    /// rack and the bag are empty and passes the turn on otherwise. `None`,
    /// with the game unchanged, where the move's scoring would leave the
    /// machine integers (`play_in_range`).
    pub fn take_move_turn(&mut self, player_id: &str, placements: &[(usize, usize, String)]) -> (res: Option<MoveTurn>)
        requires
            old(self).wf(),
            old(self).players@.len() > 0,
            turn_of(*old(self), player_id@) ==> old(self).current_turn < usize::MAX,
        ensures
            final(self).wf(),
            res is None <==> turn_of(*old(self), player_id@) && !play_in_range(*old(self), placements@),
            res is None ==> *final(self) == *old(self),
            res matches Some(t) ==> move_turn_outcome(*old(self), player_id@, placements@, *final(self), t),
    {
        if !self.is_turn_of(player_id) {
            return Some(MoveTurn::NotYourTurn);
        }
        if !self.move_in_range(placements) {
            return None;
        }
        let ghost g = *self;
        let idx = self.current_player_index();
        let result = self.place_tiles(placements);
        let ghost mid = *self;
        let ghost r = result_view(result);
        assert(play_outcome(g, placements@, mid, r));
        match result {
            Err(message) => {
                self.next_turn();
                Some(MoveTurn::Forfeited { message })
            },
            Ok((words, score)) => {
                assert(word_texts(words@) =~= crate::rack::texts(words@));
                let bingo_announced = placements.len() == 7;
                let over = self.check_game_end();
                if !over {
                    self.next_turn();
                }
                Some(MoveTurn::Played { words, score, bingo_announced, game_over: over })
            },
        }
    }

    /// A pass sent by the player with the given id: `None`, with nothing
    /// changed, when it is not their turn; otherwise the turn is passed
    /// (`pass_turn`) and the result says whether the game is now over.
    pub fn take_pass_turn(&mut self, player_id: &str) -> (res: Option<bool>)
        requires
            old(self).players@.len() > 0,
            turn_of(*old(self), player_id@) ==> old(self).current_turn < usize::MAX,
            turn_of(*old(self), player_id@) ==> old(self).consecutive_passes < u32::MAX,
        ensures
            res is None <==> !turn_of(*old(self), player_id@),
            res is None ==> *final(self) == *old(self),
            res matches Some(over) ==> passed(*old(self), *final(self)) && over == (final(self).phase == GamePhase::Finished),
    {
        if !self.is_turn_of(player_id) {
            return None;
        }
        self.pass_turn();
        Some(self.phase == GamePhase::Finished)
    }

    /// An exchange sent by the player with the given id: `None`, with nothing
    /// changed, when it is not their turn; otherwise the exchange's result
    /// (`exchange_tiles`), after which the turn moves on if it succeeded.
    pub fn take_exchange_turn(&mut self, player_id: &str, letters: &[String]) -> (res: Option<Result<(), String>>)
        requires
            old(self).players@.len() > 0,
            turn_of(*old(self), player_id@) ==> old(self).current_turn < usize::MAX,
        ensures
            res is None <==> !turn_of(*old(self), player_id@),
            res is None ==> *final(self) == *old(self),
            res matches Some(r) ==> exists|mid: Game| {
                &&& #[trigger] exchange_outcome(*old(self), slice_texts(letters), mid, r)
                &&& if r is Ok { turn_moved_on(mid, *final(self)) } else { *final(self) == mid }
            },
    {
        if !self.is_turn_of(player_id) {
            return None;
        }
        let result = self.exchange_tiles(letters);
        let ghost mid = *self;
        if result.is_ok() {
            self.next_turn();
        }
        Some(result)
    }

    /// Marks the first player with the given id as ready; `false`, with
    /// nothing changed, when no player has it.
    pub fn mark_ready(&mut self, player_id: &str) -> (found: bool)
        ensures
            found <==> !seated_nowhere(old(self).players@, player_id@),
            !found ==> *final(self) == *old(self),
            found ==> exists|i: int| {
                &&& is_first_seat(old(self).players@, player_id@, i)
                &&& final(self).players@ == old(self).players@.update(i, crate::game::Player { ready: true, ..old(self).players@[i] })
            },
            final(self).board == old(self).board,
            final(self).tile_bag == old(self).tile_bag,
            final(self).current_turn == old(self).current_turn,
            final(self).phase == old(self).phase,
            final(self).consecutive_passes == old(self).consecutive_passes,
            final(self).dictionary == old(self).dictionary,
            final(self).winner == old(self).winner,
            final(self).tiles_placed_this_turn == old(self).tiles_placed_this_turn,
    {
        let mut i: usize = 0;
        while i < self.players.len()
            invariant
                *self == *old(self),
                0 <= i <= self.players@.len(),
                forall|j: int| 0 <= j < i ==> (#[trigger] self.players@[j]).id@ != player_id@,
            decreases self.players@.len() - i,
        {
            if same_text(self.players[i].id.as_str(), player_id) {
                let ghost before = self.players@;
                let mut p = self.players.remove(i);
                p.ready = true;
                self.players.insert(i, p);
                assert(self.players@ =~= before.update(i as int, crate::game::Player { ready: true, ..before[i as int] }));
                assert(is_first_seat(before, player_id@, i as int));
                return true;
            }
            i = i + 1;
        }
        false
    }
}

/// The name shown for the player with the given id: that of the first player
/// seated with it, empty when there is none.
pub open spec fn seated_name(players: Seq<crate::game::Player>, id: Seq<char>) -> Seq<char> {
    if exists|i: int| is_first_seat(players, id, i) {
        players[choose|i: int| is_first_seat(players, id, i)].name@
    } else {
        Seq::empty()
    }
}

/// The draws for first play as they are announced: each drawer's id, name
/// (`seated_name`) and letter, in drawing order.
pub fn draw_entries(game: &Game, draws: &Vec<(String, String)>) -> (res: Vec<DrawEntry>)
    ensures
        res@.len() == draws@.len(),
        forall|k: int| 0 <= k < draws@.len() ==> {
            &&& (#[trigger] res@[k]).player_id@ == draws@[k].0@
            &&& res@[k].player_name@ == seated_name(game.players@, draws@[k].0@)
            &&& res@[k].letter@ == draws@[k].1@
        },
{
    let mut res: Vec<DrawEntry> = Vec::new();
    let mut k: usize = 0;
    while k < draws.len()
        invariant
            0 <= k <= draws@.len(),
            res@.len() == k,
            forall|j: int| 0 <= j < k ==> {
                &&& (#[trigger] res@[j]).player_id@ == draws@[j].0@
                &&& res@[j].player_name@ == seated_name(game.players@, draws@[j].0@)
                &&& res@[j].letter@ == draws@[j].1@
            },
        decreases draws@.len() - k,
    {
        let id = &draws[k].0;
        let mut name = String::new();
        let mut i: usize = 0;
        let mut found = false;
        while i < game.players.len()
            invariant
                0 <= i <= game.players@.len(),
                !found ==> forall|j: int| 0 <= j < i ==> (#[trigger] game.players@[j]).id@ != id@,
                !found ==> name@ == Seq::<char>::empty(),
                found ==> name@ == seated_name(game.players@, id@),
            decreases game.players@.len() - i,
        {
            if !found && same_text(game.players[i].id.as_str(), id.as_str()) {
                proof {
                    assert(is_first_seat(game.players@, id@, i as int));
                    crate::session::lemma_first_seat_unique(game.players@, id@, i as int);
                }
                name = game.players[i].name.clone();
                found = true;
            }
            i = i + 1;
        }
        proof {
            if !found {
                assert(!exists|j: int| is_first_seat(game.players@, id@, j));
            }
        }
        res.push(DrawEntry { player_id: id.clone(), player_name: name, letter: draws[k].1.clone() });
        k = k + 1;
    }
    res
}

/// Whether a room with this game has a free seat.
pub fn has_free_seat(game: &Game, max_players: usize) -> (res: bool)
    ensures
        res == (game.players@.len() < max_players),
{
    game.players.len() < max_players
}

/// Whether the room's game has started, and whether it is over.
pub fn game_flags(game: &Game) -> (res: (bool, bool))
    ensures
        res.0 == (game.phase == GamePhase::Playing || game.phase == GamePhase::Finished),
        res.1 == (game.phase == GamePhase::Finished),
{
    (game.phase == GamePhase::Playing || game.phase == GamePhase::Finished, game.phase == GamePhase::Finished)
}

/// A room as listed among the active rooms: `None` once its game is over.
pub fn active_room_info(id: &str, name: &str, game: &Game, max_players: usize) -> (res: Option<ActiveRoomInfo>)
    ensures
        res is None <==> game.phase == GamePhase::Finished,
        res matches Some(info) ==> {
            &&& info.id@ == id@
            &&& info.name@ == name@
            &&& info.player_count == game.players@.len()
            &&& info.max_players == max_players
            &&& info.game_started == (game.phase == GamePhase::Playing)
        },
{
    if game.phase == GamePhase::Finished {
        return None;
    }
    Some(ActiveRoomInfo {
        id: id.to_owned(),
        name: name.to_owned(),
        player_count: game.players.len(),
        max_players,
        game_started: game.phase == GamePhase::Playing,
    })
}

} // verus!
