//! The decisions a game session makes around the game itself: what the
//! players and the board look like to the clients, a resignation, and the
//! results recorded for registered players.

use vstd::prelude::*;
use crate::board::{Board, clone_opt_string};
use crate::game::{Game, GamePhase, Player};
use crate::persistence::{premium_name, premium_text};
use crate::protocol::{BoardSquare, PlayerInfo};
use crate::text::{contains_char, same_text};

verus! {

/// What the clients are told of a player.
pub open spec fn info_of(p: Player) -> PlayerInfo {
    PlayerInfo {
        id: p.id,
        name: p.name,
        score: p.score,
        tile_count: p.rack@.len() as usize,
        is_bot: p.is_bot,
        bot_level: p.bot_level,
    }
}

/// The players as the clients see them, in seating order.
pub fn player_info_list(game: &Game) -> (res: Vec<PlayerInfo>)
    ensures
        res@ == game.players@.map_values(|p: Player| info_of(p)),
{
    let mut res: Vec<PlayerInfo> = Vec::new();
    let mut i: usize = 0;
    while i < game.players.len()
        invariant
            0 <= i <= game.players@.len(),
            res@ == game.players@.take(i as int).map_values(|p: Player| info_of(p)),
        decreases game.players@.len() - i,
    {
        let p = &game.players[i];
        res.push(PlayerInfo {
            id: p.id.clone(),
            name: p.name.clone(),
            score: p.score,
            tile_count: p.rack.len(),
            is_bot: p.is_bot,
            bot_level: clone_opt_string(&p.bot_level),
        });
        assert(game.players@.take(i + 1).map_values(|p: Player| info_of(p)) =~= game.players@.take(i as int).map_values(|p: Player| info_of(p)).push(info_of(game.players@[i as int])));
        i = i + 1;
    }
    assert(game.players@.take(game.players@.len() as int) =~= game.players@);
    res
}

/// A square of the board as the clients see it, its premium by name.
pub open spec fn shown_square(b: &Board, r: int, c: int, sq: BoardSquare) -> bool {
    let s = b.squares@[r]@[c];
    &&& sq.row == s.row
    &&& sq.col == s.col
    &&& sq.premium@ == premium_name(s.premium)
    &&& sq.tile == s.tile
    &&& sq.owner == s.owner
}

/// The board as the clients see it, row by row.
pub fn board_squares(board: &Board) -> (res: Vec<Vec<BoardSquare>>)
    ensures
        res@.len() == board.squares@.len(),
        forall|r: int| 0 <= r < res@.len() ==> (#[trigger] res@[r])@.len() == board.squares@[r]@.len(),
        forall|r: int, c: int| 0 <= r < res@.len() && 0 <= c < res@[r]@.len() ==> shown_square(board, r, c, #[trigger] res@[r]@[c]),
{
    let mut res: Vec<Vec<BoardSquare>> = Vec::new();
    let mut r: usize = 0;
    while r < board.squares.len()
        invariant
            0 <= r <= board.squares@.len(),
            res@.len() == r,
            forall|i: int| 0 <= i < r ==> (#[trigger] res@[i])@.len() == board.squares@[i]@.len(),
            forall|i: int, c: int| 0 <= i < r && 0 <= c < res@[i]@.len() ==> shown_square(board, i, c, #[trigger] res@[i]@[c]),
        decreases board.squares@.len() - r,
    {
        let row = &board.squares[r];
        let mut out: Vec<BoardSquare> = Vec::new();
        let mut c: usize = 0;
        while c < row.len()
            invariant
                row@ == board.squares@[r as int]@,
                0 <= r < board.squares@.len(),
                0 <= c <= row@.len(),
                out@.len() == c,
                forall|k: int| 0 <= k < c ==> shown_square(board, r as int, k, #[trigger] out@[k]),
            decreases row@.len() - c,
        {
            let sq = &row[c];
            out.push(BoardSquare {
                row: sq.row,
                col: sq.col,
                premium: premium_text(sq.premium),
                tile: clone_opt_string(&sq.tile),
                owner: sq.owner,
            });
            c = c + 1;
        }
        res.push(out);
        r = r + 1;
    }
    res
}

/// Whether `i` is the first seat of the player with the given id.
pub open spec fn is_first_seat(players: Seq<Player>, id: Seq<char>, i: int) -> bool {
    &&& 0 <= i < players.len()
    &&& players[i].id@ == id
    &&& forall|j: int| 0 <= j < i ==> (#[trigger] players[j]).id@ != id
}

/// Whether no player has the given id.
pub open spec fn seated_nowhere(players: Seq<Player>, id: Seq<char>) -> bool {
    forall|j: int| 0 <= j < players.len() ==> (#[trigger] players[j]).id@ != id
}

/// The first seat of the player with the given id.
fn seat_of(players: &Vec<Player>, id: &str) -> (res: Option<usize>)
    ensures
        res matches Some(i) ==> is_first_seat(players@, id@, i as int),
        res is None ==> seated_nowhere(players@, id@),
{
    let mut i: usize = 0;
    while i < players.len()
        invariant
            0 <= i <= players@.len(),
            forall|j: int| 0 <= j < i ==> (#[trigger] players@[j]).id@ != id@,
        decreases players@.len() - i,
    {
        if same_text(players[i].id.as_str(), id) {
            return Some(i);
        }
        i = i + 1;
    }
    None
}

/// The share of a resigning player's score that each opponent receives.
pub open spec fn resign_share(players: Seq<Player>, idx: int) -> int {
    if players.len() > 1 { players[idx].score as int / (players.len() - 1) } else { 0 }
}

/// Whether `w` is the last opponent of `idx` with the highest score (the one
/// that `max_by_key` picks).
pub open spec fn is_top_opponent(players: Seq<Player>, idx: int, w: int) -> bool {
    &&& 0 <= w < players.len()
    &&& w != idx
    &&& forall|j: int| 0 <= j < players.len() && j != idx ==> (#[trigger] players[j]).score <= players[w].score
    &&& forall|j: int| w < j < players.len() && j != idx ==> (#[trigger] players[j]).score < players[w].score
}

/// Player `k` after player `idx` resigned: the resigning player's score drops
/// to zero, every opponent gains the share.
pub open spec fn after_resign(old: Seq<Player>, idx: int, k: int) -> Player {
    Player { score: (if k == idx { 0 } else { old[k].score + resign_share(old, idx) }) as u32, ..old[k] }
}

/// The players after player `idx` resigned.
pub open spec fn scores_after_resign(old: Seq<Player>, idx: int, new: Seq<Player>) -> bool {
    &&& new.len() == old.len()
    &&& forall|i: int| 0 <= i < old.len() ==> #[trigger] new[i] == after_resign(old, idx, i)
}

/// The name shown for the winner of a resignation: that of the first player
/// with the winner's id, "Opponent" when there is none.
pub open spec fn winner_label(players: Seq<Player>, winner: Option<String>) -> Seq<char> {
    match winner {
        Some(w) => if exists|i: int| is_first_seat(players, w@, i) {
            players[choose|i: int| is_first_seat(players, w@, i)].name@
        } else {
            "Opponent"@
        },
        None => "Opponent"@,
    }
}

/// The message announcing a resignation.
pub open spec fn resign_message(name: Seq<char>, label: Seq<char>) -> Seq<char> {
    name + " resigned. Their points were transferred to "@ + label + "!"@
}

/// Whether no opponent's score would leave `u32` on receiving the share of
/// player `idx`.
pub open spec fn resign_fits(players: Seq<Player>, idx: int) -> bool {
    forall|i: int| 0 <= i < players.len() && i != idx ==> (#[trigger] players[i]).score + resign_share(players, idx) <= u32::MAX
}

pub(crate) proof fn lemma_first_seat_unique(players: Seq<Player>, id: Seq<char>, k: int)
    requires
        is_first_seat(players, id, k),
    ensures
        forall|i: int| is_first_seat(players, id, i) ==> i == k,
{
    assert forall|i: int| is_first_seat(players, id, i) implies i == k by {
        if i < k {
            assert(players[i].id@ != id);
        } else if k < i {
            assert(players[k].id@ != id);
        }
    }
}

impl Game {
    /// Whether a resignation of the player with the given id keeps every
    /// score within `u32` (the condition `resign` requires).
    pub fn resign_fits_scores(&self, player_id: &str) -> (res: bool)
        ensures
            res == (self.players@.len() <= u32::MAX
                && forall|i: int| is_first_seat(self.players@, player_id@, i) ==> resign_fits(self.players@, i)),
    {
        let n = self.players.len();
        if n > u32::MAX as usize {
            return false;
        }
        let idx = match seat_of(&self.players, player_id) {
            Some(i) => i,
            None => {
                return true;
            },
        };
        proof {
            lemma_first_seat_unique(self.players@, player_id@, idx as int);
        }
        let opponents: u32 = (n - 1) as u32;
        let share: u32 = if n > 1 { self.players[idx].score / opponents } else { 0 };
        assert(share == resign_share(self.players@, idx as int));
        let mut i: usize = 0;
        while i < n
            invariant
                n == self.players@.len(),
                n <= u32::MAX,
                idx < n,
                is_first_seat(self.players@, player_id@, idx as int),
                forall|j: int| is_first_seat(self.players@, player_id@, j) ==> j == idx,
                share == resign_share(self.players@, idx as int),
                0 <= i <= n,
                forall|k: int| 0 <= k < i && k != idx ==> (#[trigger] self.players@[k]).score + share <= u32::MAX,
            decreases n - i,
        {
            if i != idx && self.players[i].score > u32::MAX - share {
                assert(self.players@[i as int].score + resign_share(self.players@, idx as int) > u32::MAX);
                assert(!resign_fits(self.players@, idx as int));
                assert(is_first_seat(self.players@, player_id@, idx as int));
                return false;
            }
            i = i + 1;
        }
        true
    }

    /// The player with the given id resigns (the first one seated with it):
    /// their points go to their opponents in equal shares (the remainder of
    /// the division is lost), the last opponent with the highest score wins,
    /// and the game ends. Returns the winner and the message announcing it;
    /// `None`, with the game unchanged, when no player has that id.
    pub fn resign(&mut self, player_id: &str) -> (res: Option<(Option<String>, String)>)
        requires
            old(self).players@.len() <= u32::MAX,
            forall|i: int| is_first_seat(old(self).players@, player_id@, i) ==> resign_fits(old(self).players@, i),
        ensures
            seated_nowhere(old(self).players@, player_id@) <==> res is None,
            res is None ==> *final(self) == *old(self),
            res matches Some(r) ==> exists|idx: int| {
                &&& is_first_seat(old(self).players@, player_id@, idx)
                &&& scores_after_resign(old(self).players@, idx, final(self).players@)
                &&& (old(self).players@.len() > 1 ==> exists|w: int| is_top_opponent(final(self).players@, idx, w) && r.0 == Some(final(self).players@[w].id))
                &&& (old(self).players@.len() <= 1 ==> r.0 is None)
                &&& r.1@ == resign_message(old(self).players@[idx].name@, winner_label(final(self).players@, r.0))
            },
            res is Some ==> {
                &&& final(self).phase == GamePhase::Finished
                &&& res.unwrap().0 == final(self).winner
                &&& final(self).board == old(self).board
                &&& final(self).tile_bag == old(self).tile_bag
                &&& final(self).current_turn == old(self).current_turn
                &&& final(self).consecutive_passes == old(self).consecutive_passes
                &&& final(self).dictionary == old(self).dictionary
                &&& final(self).tiles_placed_this_turn == old(self).tiles_placed_this_turn
            },
    {
        let idx = match seat_of(&self.players, player_id) {
            Some(i) => i,
            None => {
                return None;
            },
        };
        let ghost before = self.players@;
        assert(resign_fits(before, idx as int));
        let resigning_score = self.players[idx].score;
        let resigning_name = self.players[idx].name.clone();
        let n = self.players.len();
        let opponents: u32 = (n - 1) as u32;
        let share: u32 = if n > 1 { resigning_score / opponents } else { 0 };
        assert(share == resign_share(before, idx as int));
        let mut players: Vec<Player> = Vec::new();
        std::mem::swap(&mut players, &mut self.players);
        let mut i: usize = 0;
        while i < n
            invariant
                n == before.len(),
                players@.len() == n,
                idx < n,
                share == resign_share(before, idx as int),
                resign_fits(before, idx as int),
                0 <= i <= n,
                forall|k: int| 0 <= k < i ==> #[trigger] players@[k] == after_resign(before, idx as int, k),
                forall|k: int| i <= k < n ==> #[trigger] players@[k] == before[k],
            decreases n - i,
        {
            let mut p = players.remove(i);
            if i == idx {
                p.score = 0;
            } else {
                assert(before[i as int].score + share <= u32::MAX);
                p.score = p.score + share;
            }
            players.insert(i, p);
            i = i + 1;
        }
        self.players = players;
        assert(scores_after_resign(before, idx as int, self.players@));
        let mut winner: Option<String> = None;
        let mut best: usize = 0;
        let mut j: usize = 0;
        while j < n
            invariant
                n == self.players@.len(),
                idx < n,
                0 <= j <= n,
                best < n,
                winner is None ==> (j == 0 || (j == 1 && idx == 0)),
                winner is Some ==> {
                    &&& best != idx
                    &&& best < j
                    &&& winner == Some(self.players@[best as int].id)
                    &&& forall|k: int| 0 <= k < j && k != idx ==> (#[trigger] self.players@[k]).score <= self.players@[best as int].score
                    &&& forall|k: int| best < k < j && k != idx ==> (#[trigger] self.players@[k]).score < self.players@[best as int].score
                },
            decreases n - j,
        {
            if j != idx {
                if winner.is_none() || self.players[j].score >= self.players[best].score {
                    best = j;
                    winner = Some(self.players[j].id.clone());
                }
            }
            j = j + 1;
        }
        assert(n > 1 ==> winner is Some);
        assert(winner is Some ==> is_top_opponent(self.players@, idx as int, best as int));
        let label = match &winner {
            Some(w) => match seat_of(&self.players, w.as_str()) {
                Some(k) => {
                    proof {
                        lemma_first_seat_unique(self.players@, w@, k as int);
                    }
                    self.players[k].name.clone()
                },
                None => "Opponent".to_owned(),
            },
            None => "Opponent".to_owned(),
        };
        assert(label@ == winner_label(self.players@, winner));
        let mut reason = resigning_name.clone();
        reason.append(" resigned");
        self.end_game(clone_opt_string(&winner), reason);
        let mut message = resigning_name;
        message.append(" resigned. Their points were transferred to ");
        message.append(label.as_str());
        message.append("!");
        Some((winner, message))
    }
}

/// Whether a player id belongs to a registered account (an email address).
pub open spec fn is_registered(id: Seq<char>) -> bool {
    id.contains('@')
}

/// Whether the game's winner is the player with id `id`.
pub open spec fn won(winner: Option<String>, id: Seq<char>) -> bool {
    winner matches Some(w) && w@ == id
}

/// The results to record for the registered players, in seating order: the
/// player's id, final score, and whether they won.
pub open spec fn recorded_results(players: Seq<Player>, winner: Option<String>) -> Seq<(Seq<char>, u32, bool)>
    decreases players.len(),
{
    if players.len() == 0 {
        Seq::empty()
    } else {
        let p = players.last();
        let rest = recorded_results(players.drop_last(), winner);
        if is_registered(p.id@) { rest.push((p.id@, p.score, won(winner, p.id@))) } else { rest }
    }
}

/// The results to record for the registered players (`recorded_results`).
pub fn registered_results(game: &Game) -> (res: Vec<(String, u32, bool)>)
    ensures
        res@.map_values(|r: (String, u32, bool)| (r.0@, r.1, r.2)) == recorded_results(game.players@, game.winner),
{
    let mut res: Vec<(String, u32, bool)> = Vec::new();
    let mut i: usize = 0;
    while i < game.players.len()
        invariant
            0 <= i <= game.players@.len(),
            res@.map_values(|r: (String, u32, bool)| (r.0@, r.1, r.2)) == recorded_results(game.players@.take(i as int), game.winner),
        decreases game.players@.len() - i,
    {
        assert(game.players@.take(i + 1).drop_last() =~= game.players@.take(i as int));
        let p = &game.players[i];
        if contains_char(p.id.as_str(), '@') {
            let won = match &game.winner {
                Some(w) => same_text(w.as_str(), p.id.as_str()),
                None => false,
            };
            let ghost before = res@;
            res.push((p.id.clone(), p.score, won));
            assert(res@.map_values(|r: (String, u32, bool)| (r.0@, r.1, r.2)) =~= before.map_values(|r: (String, u32, bool)| (r.0@, r.1, r.2)).push((p.id@, p.score, won)));
        }
        i = i + 1;
    }
    assert(game.players@.take(game.players@.len() as int) =~= game.players@);
    res
}

/// The sum of the players' scores.
pub open spec fn total_score(players: Seq<Player>) -> int
    decreases players.len(),
{
    if players.len() == 0 {
        0
    } else {
        total_score(players.drop_last()) + players.last().score
    }
}

proof fn lemma_resign_prefix(old: Seq<Player>, idx: int, new: Seq<Player>, k: int)
    requires
        0 <= idx < old.len(),
        0 <= k <= old.len(),
        scores_after_resign(old, idx, new),
        resign_fits(old, idx),
    ensures
        total_score(new.take(k)) == total_score(old.take(k))
            + resign_share(old, idx) * (if idx < k { k - 1 } else { k })
            - (if idx < k { old[idx].score as int } else { 0 }),
    decreases k,
{
    let share = resign_share(old, idx);
    if k == 0 {
        assert(new.take(0) =~= Seq::<Player>::empty());
        assert(old.take(0) =~= Seq::<Player>::empty());
    } else {
        lemma_resign_prefix(old, idx, new, k - 1);
        assert(new.take(k).drop_last() =~= new.take(k - 1));
        assert(old.take(k).drop_last() =~= old.take(k - 1));
        assert(new[k - 1] == after_resign(old, idx, k - 1));
        let c = if idx < k - 1 { k - 2 } else { k - 1 };
        assert(share * (c + 1) == share * c + share) by (nonlinear_arith);
        if k - 1 != idx {
            assert(old[k - 1].score + share <= u32::MAX);
        }
    }
}

/// A resignation moves points and makes none: the scores after it add up to
/// those before, less the remainder of dividing the resigning player's score
/// among the opponents (all of it when nobody else is seated).
pub proof fn lemma_resign_keeps_points(old: Seq<Player>, idx: int, new: Seq<Player>)
    requires
        0 <= idx < old.len(),
        scores_after_resign(old, idx, new),
        resign_fits(old, idx),
    ensures
        total_score(new) == total_score(old) - if old.len() > 1 {
            old[idx].score as int % (old.len() - 1)
        } else {
            old[idx].score as int
        },
{
    let n = old.len() as int;
    lemma_resign_prefix(old, idx, new, n);
    assert(new.take(n) =~= new);
    assert(old.take(n) =~= old);
    if n > 1 {
        let s = old[idx].score as int;
        let d = n - 1;
        assert(d * (s / d) + s % d == s) by (nonlinear_arith)
            requires
                d > 0,
        ;
        assert((s / d) * d == d * (s / d)) by (nonlinear_arith);
    }
}

} // verus!
