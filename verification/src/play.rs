//! Playing tiles: the whole move, from its checks to the score it earns or
//! the state it leaves behind when it is refused.

use vstd::prelude::*;
use crate::board::{Board, BoardModel, Direction, SquareView, out_of_bounds_message, occupied_message};
use crate::dictionary::Dictionary;
use crate::game::{Game, GamePhase, clone_tiles};
use crate::placement::{covers_center, move_direction, placement_error, placement_in_range, same_row, same_col};
use crate::rack::{rack_after_move, texts, missing_tile_message, take_letters_for_move};
use crate::scoring::{move_score, score_fits, squares_of};
use crate::tiles::Tile;
use crate::text::{lowercase, to_lowercase};

verus! {

/// The letters of the placements, lowercased.
pub open spec fn lowered_letters(ps: Seq<(usize, usize, String)>) -> Seq<Seq<char>> {
    ps.map_values(|p: (usize, usize, String)| lowercase(p.2@))
}

/// The board after the first `k` placements are put down one by one by
/// `owner`, and the message of the first one that fails (those before it stay).
pub open spec fn board_after_placing(b: BoardModel, ps: Seq<(usize, usize, String)>, owner: u8, k: int) -> (BoardModel, Option<Seq<char>>)
    decreases k,
{
    if k <= 0 {
        (b, None)
    } else {
        let prev = board_after_placing(b, ps, owner, k - 1);
        let p = ps[k - 1];
        if prev.1 is Some {
            prev
        } else if !prev.0.on_board(p.0 as int, p.1 as int) {
            (prev.0, Some(out_of_bounds_message(p.0 as int, p.1 as int)))
        } else if prev.0.cell(p.0 as int, p.1 as int).tile is Some {
            (prev.0, Some(occupied_message(p.0 as int, p.1 as int)))
        } else {
            (prev.0.with_tile(p.0 as int, p.1 as int, p.2@, owner), None)
        }
    }
}

/// The board after the tiles of the first `k` placements are taken back.
pub open spec fn board_after_undo(b: BoardModel, ps: Seq<(usize, usize, String)>, k: int) -> BoardModel
    decreases k,
{
    if k <= 0 {
        b
    } else {
        board_after_undo(b, ps, k - 1).without_tile(ps[k - 1].0 as int, ps[k - 1].1 as int)
    }
}

/// The words of `words` that the dictionary rejects, in order.
pub open spec fn rejected_words(d: Dictionary, words: Seq<Seq<char>>) -> Seq<Seq<char>>
    decreases words.len(),
{
    if words.len() == 0 {
        Seq::empty()
    } else {
        rejected_words(d, words.drop_last()) + (if d.accepts(words.last()) {
            Seq::empty()
        } else {
            seq![words.last()]
        })
    }
}

/// The items of `list` joined by `sep`.
pub open spec fn joined(list: Seq<Seq<char>>, sep: Seq<char>) -> Seq<char>
    decreases list.len(),
{
    if list.len() == 0 {
        Seq::empty()
    } else if list.len() == 1 {
        list[0]
    } else {
        joined(list.drop_last(), sep) + sep + list.last()
    }
}

/// Why a move is refused before anything changes, if it is.
pub open spec fn move_refusal(g: Game, ps: Seq<(usize, usize, String)>) -> Option<Seq<char>> {
    if g.phase != GamePhase::Playing {
        Some("Game is not in playing phase"@)
    } else if ps.len() == 0 {
        Some("No tiles placed"@)
    } else {
        match move_direction(ps) {
            None => Some("Tiles must be in a single row or column"@),
            Some(d) => placement_error(g.board.model(), ps, d),
        }
    }
}

/// The bonus for a move that places `n` tiles: 50 for using all seven.
pub open spec fn bonus(n: int) -> int {
    if n == 7 { 50 } else { 0 }
}

/// The inputs on which a move stays within machine integers: the checks of
/// the move, its scoring, and the player's new score.
pub open spec fn play_in_range(g: Game, ps: Seq<(usize, usize, String)>) -> bool {
    (g.phase == GamePhase::Playing && ps.len() > 0 && move_direction(ps) is Some) ==> {
        let dir = move_direction(ps).unwrap();
        &&& placement_in_range(g.board.model(), ps, dir)
        &&& placement_error(g.board.model(), ps, dir) is None ==> {
            &&& g.players@.len() > 0
            &&& ({
                let idx = g.turn_index();
                let rm = rack_after_move(g.players@[idx].rack@, lowered_letters(ps));
                let pl = board_after_placing(g.board.model(), ps, idx as u8, ps.len() as int);
                (rm.1 is None && pl.1 is None) ==> {
                    &&& score_fits(pl.0, ps, dir)
                    &&& rejected_words(g.dictionary, move_score(pl.0, ps, dir).0).len() == 0 ==>
                        g.players@[idx].score + move_score(pl.0, ps, dir).1 + bonus(ps.len() as int) <= u32::MAX
                }
            })
        }
    }
}

/// Whether a move would be played: nothing refuses it, the rack holds its
/// letters, its tiles go down, and the dictionary accepts every word it forms.
pub open spec fn play_succeeds(g: Game, ps: Seq<(usize, usize, String)>) -> bool {
    &&& move_refusal(g, ps) is None
    &&& ({
        let dir = move_direction(ps).unwrap();
        let idx = g.turn_index();
        let rm = rack_after_move(g.players@[idx].rack@, lowered_letters(ps));
        let pl = board_after_placing(g.board.model(), ps, idx as u8, ps.len() as int);
        &&& rm.1 is None
        &&& pl.1 is None
        &&& rejected_words(g.dictionary, move_score(pl.0, ps, dir).0).len() == 0
    })
}

/// The score a move earns.
pub open spec fn play_score(g: Game, ps: Seq<(usize, usize, String)>) -> int {
    let dir = move_direction(ps).unwrap();
    let idx = g.turn_index();
    let pl = board_after_placing(g.board.model(), ps, idx as u8, ps.len() as int);
    move_score(pl.0, ps, dir).1
}

/// The game after a move, and what the move returns.
pub open spec fn play_outcome(g: Game, ps: Seq<(usize, usize, String)>, new: Game, res: Result<(Seq<Seq<char>>, u32), Seq<char>>) -> bool {
    match move_refusal(g, ps) {
        Some(m) => res == Err::<(Seq<Seq<char>>, u32), Seq<char>>(m) && new == g,
        None => {
            let dir = move_direction(ps).unwrap();
            let idx = g.turn_index();
            let old_p = g.players@[idx];
            let p = new.players@[idx];
            let rm = rack_after_move(old_p.rack@, lowered_letters(ps));
            let pl = board_after_placing(g.board.model(), ps, idx as u8, ps.len() as int);
            let ms = move_score(pl.0, ps, dir);
            let rejected = rejected_words(g.dictionary, ms.0);
            &&& new.players@.len() == g.players@.len()
            &&& forall|i: int| 0 <= i < g.players@.len() && i != idx ==> #[trigger] new.players@[i] == g.players@[i]
            &&& p.id == old_p.id && p.name == old_p.name && p.ready == old_p.ready
            &&& p.is_bot == old_p.is_bot && p.bot_level == old_p.bot_level
            &&& new.current_turn == g.current_turn
            &&& new.phase == g.phase
            &&& new.dictionary == g.dictionary
            &&& new.winner == g.winner
            &&& new.board.wf() && new.board.size == g.board.size
            &&& if rm.1 is Some {
                &&& res == Err::<(Seq<Seq<char>>, u32), Seq<char>>(missing_tile_message(rm.1.unwrap()))
                &&& p.score == old_p.score && p.rack@ == rm.0
                &&& new.board.model() == g.board.model()
                &&& new.tile_bag == g.tile_bag
                &&& new.consecutive_passes == g.consecutive_passes
                &&& new.tiles_placed_this_turn == g.tiles_placed_this_turn
            } else if pl.1 is Some {
                &&& res == Err::<(Seq<Seq<char>>, u32), Seq<char>>("Failed to place tile: "@ + pl.1.unwrap())
                &&& p.score == old_p.score && p.rack@ == rm.0
                &&& new.board.model() == pl.0
                &&& new.tile_bag == g.tile_bag
                &&& new.consecutive_passes == g.consecutive_passes
                &&& new.tiles_placed_this_turn == g.tiles_placed_this_turn
            } else if rejected.len() > 0 {
                &&& res == Err::<(Seq<Seq<char>>, u32), Seq<char>>("Invalid word(s): "@ + joined(rejected, ", "@))
                &&& p.score == old_p.score
                &&& p.rack@ == old_p.rack@
                &&& new.board.model() == board_after_undo(pl.0, ps, ps.len() as int)
                &&& new.tile_bag == g.tile_bag
                &&& new.consecutive_passes == g.consecutive_passes
                &&& new.tiles_placed_this_turn@ == squares_of(ps)
            } else {
                let bag = g.tile_bag@;
                let k = if ps.len() < bag.len() { bag.len() - ps.len() } else { 0 };
                &&& res == Ok::<(Seq<Seq<char>>, u32), Seq<char>>((ms.0, ms.1 as u32))
                &&& p.score == old_p.score + ms.1 + bonus(ps.len() as int)
                &&& p.rack@ == rm.0 + bag.subrange(k as int, bag.len() as int)
                &&& new.tile_bag@ == bag.subrange(0, k as int)
                &&& new.board.model() == pl.0
                &&& new.consecutive_passes == 0
                &&& new.tiles_placed_this_turn@ == squares_of(ps)
            }
        },
    }
}

/// The characters of a move's result.
pub open spec fn result_view(res: Result<(Vec<String>, u32), String>) -> Result<(Seq<Seq<char>>, u32), Seq<char>> {
    match res {
        Ok(r) => Ok((texts(r.0@), r.1)),
        Err(e) => Err(e@),
    }
}

/// Joins the words with `sep`.
fn join_words(list: &Vec<String>, sep: &str) -> (res: String)
    ensures
        res@ == joined(texts(list@), sep@),
{
    let mut out = String::new();
    let mut i: usize = 0;
    while i < list.len()
        invariant
            0 <= i <= list@.len(),
            out@ == joined(texts(list@).take(i as int), sep@),
        decreases list@.len() - i,
    {
        assert(texts(list@).take(i + 1).drop_last() =~= texts(list@).take(i as int));
        if i > 0 {
            out.append(sep);
        } else {
            assert(texts(list@).take(0) =~= Seq::<Seq<char>>::empty());
        }
        out.append(list[i].as_str());
        i = i + 1;
    }
    assert(texts(list@).take(list@.len() as int) =~= texts(list@));
    out
}

impl Board {
    /// Puts down the tiles of a move one by one, stopping at the first that fails.
    fn place_all(&mut self, placements: &[(usize, usize, String)], owner: u8) -> (res: Result<(), String>)
        requires
            old(self).wf(),
        ensures
            final(self).wf(),
            final(self).size == old(self).size,
            final(self).model() == board_after_placing(old(self).model(), placements@, owner, placements@.len() as int).0,
            match board_after_placing(old(self).model(), placements@, owner, placements@.len() as int).1 {
                Some(m) => res matches Err(e) && e@ == m,
                None => res is Ok,
            },
    {
        let ghost start = self.model();
        let ghost ps = placements@;
        let mut i: usize = 0;
        while i < placements.len()
            invariant
                self.wf(),
                self.size == start.size,
                ps == placements@,
                0 <= i <= ps.len(),
                start == old(self).model(),
                self.model() == board_after_placing(start, ps, owner, i as int).0,
                board_after_placing(start, ps, owner, i as int).1 is None,
            decreases ps.len() - i,
        {
            let (row, col) = (placements[i].0, placements[i].1);
            match self.place_tile(row, col, placements[i].2.as_str(), owner) {
                Ok(()) => {},
                Err(e) => {
                    proof { lemma_placing_stops(start, ps, owner, i as int + 1); }
                    return Err(e);
                },
            }
            i = i + 1;
        }
        Ok(())
    }

    /// Takes back the tiles of a move.
    fn undo_all(&mut self, placements: &[(usize, usize, String)])
        requires
            old(self).wf(),
            forall|i: int| 0 <= i < placements@.len() ==> old(self).on_board((#[trigger] placements@[i]).0 as int, placements@[i].1 as int),
        ensures
            final(self).wf(),
            final(self).size == old(self).size,
            final(self).model() == board_after_undo(old(self).model(), placements@, placements@.len() as int),
    {
        let ghost start = self.model();
        let ghost ps = placements@;
        let mut i: usize = 0;
        while i < placements.len()
            invariant
                self.wf(),
                self.size == start.size,
                ps == placements@,
                forall|i: int| 0 <= i < ps.len() ==> self.on_board((#[trigger] ps[i]).0 as int, ps[i].1 as int),
                0 <= i <= ps.len(),
                self.model() == board_after_undo(start, ps, i as int),
            decreases ps.len() - i,
        {
            self.set_cell(placements[i].0, placements[i].1, None, None);
            i = i + 1;
        }
    }
}

proof fn lemma_placing_ok(b: BoardModel, ps: Seq<(usize, usize, String)>, owner: u8, k: int)
    requires
        0 <= k <= ps.len(),
        board_after_placing(b, ps, owner, k).1 is None,
    ensures
        board_after_placing(b, ps, owner, k).0.size == b.size,
        forall|i: int| 0 <= i < k ==> b.on_board((#[trigger] ps[i]).0 as int, ps[i].1 as int),
    decreases k,
{
    if k > 0 {
        lemma_placing_ok(b, ps, owner, k - 1);
    }
}

impl Game {
    /// The direction of a non-empty move, if its tiles share a row or a column.
    fn move_direction_of(&self, placements: &[(usize, usize, String)]) -> (d: Option<Direction>)
        requires
            placements@.len() > 0,
        ensures
            d == move_direction(placements@),
    {
        let n = placements.len();
        let mut rows_same = true;
        let mut cols_same = true;
        let mut i: usize = 0;
        while i < n
            invariant
                n == placements@.len(),
                n > 0,
                0 <= i <= n,
                rows_same == forall|j: int| 0 <= j < i ==> (#[trigger] placements@[j]).0 == placements@[0].0,
                cols_same == forall|j: int| 0 <= j < i ==> (#[trigger] placements@[j]).1 == placements@[0].1,
            decreases n - i,
        {
            if placements[i].0 != placements[0].0 {
                rows_same = false;
            }
            if placements[i].1 != placements[0].1 {
                cols_same = false;
            }
            i = i + 1;
        }
        if rows_same {
            Some(Direction::Across)
        } else if cols_same {
            Some(Direction::Down)
        } else {
            None
        }
    }

    /// Process a move: place tiles and calculate score.
    /// Returns the words formed and total score.
    pub fn place_tiles(&mut self, placements: &[(usize, usize, String)]) -> (res: Result<(Vec<String>, u32), String>)
        requires
            old(self).wf(),
            play_in_range(*old(self), placements@),
        ensures
            final(self).wf(),
            play_outcome(*old(self), placements@, *final(self), result_view(res)),
    {
        let ghost g = *self;
        let ghost ps = placements@;
        if self.phase != GamePhase::Playing {
            return Err("Game is not in playing phase".to_owned());
        }
        if placements.len() == 0 {
            return Err("No tiles placed".to_owned());
        }
        let direction = match self.move_direction_of(placements) {
            Some(d) => d,
            None => {
                return Err("Tiles must be in a single row or column".to_owned());
            },
        };
        match self.validate_placement(placements, direction) {
            Ok(()) => {},
            Err(e) => {
                return Err(e);
            },
        }
        let player_idx = self.current_player_index();
        let n = placements.len();
        let letters_to_place = lowered_letters_of(placements);
        let saved_rack = clone_tiles(&self.players[player_idx].rack);
        match self.remove_tiles_from_rack(player_idx, &letters_to_place) {
            Ok(()) => {},
            Err(e) => {
                return Err(e);
            },
        }
        let ghost rm = rack_after_move(g.players@[player_idx as int].rack@, lowered_letters(ps));
        let player_idx_u8 = #[verifier::truncate] (player_idx as u8);
        match self.board.place_all(placements, player_idx_u8) {
            Ok(()) => {},
            Err(e) => {
                let mut m = "Failed to place tile: ".to_owned();
                m.append(e.as_str());
                return Err(m);
            },
        }
        let ghost pl = board_after_placing(g.board.model(), ps, player_idx_u8, n as int);
        proof { lemma_placing_ok(g.board.model(), ps, player_idx_u8, n as int); }
        let mut placed: Vec<(usize, usize)> = Vec::new();
        let mut i: usize = 0;
        while i < n
            invariant
                n == ps.len(),
                ps == placements@,
                0 <= i <= n,
                placed@ == squares_of(ps).take(i as int),
            decreases n - i,
        {
            placed.push((placements[i].0, placements[i].1));
            assert(placed@ =~= squares_of(ps).take(i + 1));
            i = i + 1;
        }
        assert(squares_of(ps).take(n as int) =~= squares_of(ps));
        self.tiles_placed_this_turn = placed;
        let (words, score) = match self.board.calculate_score(placements, direction) {
            Some(r) => r,
            None => {
                proof { assert(false); }
                return Err(String::new());
            },
        };
        // the words that the dictionary rejects
        let invalid = self.rejected_of(&words);
        if invalid.len() > 0 {
            // Undo: remove placed tiles from board
            self.board.undo_all(placements);
            // Return the player's tiles to the rack as they were
            let mut rack = saved_rack;
            std::mem::swap(&mut rack, &mut self.players[player_idx].rack);
            let mut m = "Invalid word(s): ".to_owned();
            let list = join_words(&invalid, ", ");
            m.append(list.as_str());
            return Err(m);
        }
        // Add score to player, with the bonus for using all seven tiles
        let old_score = self.players[player_idx].score;
        let mut new_score = old_score + score;
        if n == 7 {
            new_score = new_score + 50;
        }
        self.players[player_idx].score = new_score;
        // Draw replacement tiles
        let mut drawn = self.draw_tiles(n);
        let mut rack: Vec<Tile> = Vec::new();
        std::mem::swap(&mut rack, &mut self.players[player_idx].rack);
        rack.append(&mut drawn);
        std::mem::swap(&mut rack, &mut self.players[player_idx].rack);
        self.consecutive_passes = 0;
        Ok((words, score))
    }
}

/// The letters of the placements, lowercased.
fn lowered_letters_of(placements: &[(usize, usize, String)]) -> (letters: Vec<String>)
    ensures
        texts(letters@) == lowered_letters(placements@),
{
    let ghost ps = placements@;
    let n = placements.len();
    let mut letters: Vec<String> = Vec::new();
    let mut i: usize = 0;
    while i < n
        invariant
            n == ps.len(),
            ps == placements@,
            0 <= i <= n,
            texts(letters@) == lowered_letters(ps).take(i as int),
        decreases n - i,
    {
        let l = to_lowercase(placements[i].2.as_str());
        let ghost before = letters@;
        letters.push(l);
        assert(letters@ == before.push(letters@.last()));
        assert(texts(letters@) =~= texts(before).push(lowercase(ps[i as int].2@)));
        assert(lowered_letters(ps).take(i + 1) =~= lowered_letters(ps).take(i as int).push(lowercase(ps[i as int].2@)));
        i = i + 1;
    }
    assert(lowered_letters(ps).take(n as int) =~= lowered_letters(ps));
    letters
}

impl Game {
    /// The words that the dictionary rejects, in order.
    fn rejected_of(&self, words: &Vec<String>) -> (invalid: Vec<String>)
        requires
            self.dictionary.wf(),
        ensures
            texts(invalid@) == rejected_words(self.dictionary, texts(words@)),
    {
        let mut invalid: Vec<String> = Vec::new();
        let mut j: usize = 0;
        while j < words.len()
            invariant
                self.dictionary.wf(),
                0 <= j <= words@.len(),
                texts(invalid@) == rejected_words(self.dictionary, texts(words@).take(j as int)),
            decreases words@.len() - j,
        {
            assert(texts(words@).take(j + 1).drop_last() =~= texts(words@).take(j as int));
            if !self.dictionary.is_valid_word(words[j].as_str()) {
                invalid.push(words[j].clone());
                assert(texts(invalid@) =~= rejected_words(self.dictionary, texts(words@).take(j + 1)));
            } else {
                assert(texts(invalid@) =~= rejected_words(self.dictionary, texts(words@).take(j + 1)));
            }
            j = j + 1;
        }
        assert(texts(words@).take(words@.len() as int) =~= texts(words@));
        invalid
    }

    /// Tries a move without making it: `None` when it would leave the
    /// machine integers (`play_in_range` fails), `Some(None)` when it would be
    /// refused, `Some(Some(score))` when it would be played for `score` points.
    pub fn try_move(&self, placements: &[(usize, usize, String)]) -> (res: Option<Option<u32>>)
        requires
            self.wf(),
        ensures
            res is Some <==> play_in_range(*self, placements@),
            res matches Some(r) ==> (r is Some <==> play_succeeds(*self, placements@)),
            res matches Some(Some(score)) ==> score as int == play_score(*self, placements@),
    {
        let ghost ps = placements@;
        if self.phase != GamePhase::Playing || placements.len() == 0 {
            return Some(None);
        }
        let direction = match self.move_direction_of(placements) {
            Some(d) => d,
            None => {
                return Some(None);
            },
        };
        if !self.placement_fits(placements, direction) {
            return None;
        }
        if self.validate_placement(placements, direction).is_err() {
            return Some(None);
        }
        if self.players.len() == 0 {
            return None;
        }
        let idx = self.current_player_index();
        let letters = lowered_letters_of(placements);
        let mut rack = clone_tiles(&self.players[idx].rack);
        if take_letters_for_move(&mut rack, &letters).is_err() {
            return Some(None);
        }
        let mut board = self.board.clone();
        let owner = #[verifier::truncate] (idx as u8);
        if board.place_all(placements, owner).is_err() {
            return Some(None);
        }
        proof { lemma_placing_ok(self.board.model(), ps, owner, ps.len() as int); }
        match board.calculate_score(placements, direction) {
            None => None,
            Some((words, score)) => {
                let invalid = self.rejected_of(&words);
                if invalid.len() > 0 {
                    return Some(None);
                }
                let bonus: u64 = if placements.len() == 7 { 50 } else { 0 };
                if (self.players[idx].score as u64) + (score as u64) + bonus <= u32::MAX as u64 {
                    Some(Some(score))
                } else {
                    None
                }
            },
        }
    }

    /// Whether a move stays within machine integers, so that `place_tiles` may be called with it.
    pub fn move_in_range(&self, placements: &[(usize, usize, String)]) -> (res: bool)
        requires
            self.wf(),
        ensures
            res == play_in_range(*self, placements@),
    {
        self.try_move(placements).is_some()
    }

    /// Plays a move when it stays within machine integers (`move_in_range`);
    /// `None`, with the game unchanged, when it does not.
    pub fn place_tiles_checked(&mut self, placements: &[(usize, usize, String)]) -> (res: Option<Result<(Vec<String>, u32), String>>)
        requires
            old(self).wf(),
        ensures
            final(self).wf(),
            res is None <==> !play_in_range(*old(self), placements@),
            res is None ==> *final(self) == *old(self),
            res matches Some(r) ==> play_outcome(*old(self), placements@, *final(self), result_view(r)),
    {
        if self.move_in_range(placements) {
            Some(self.place_tiles(placements))
        } else {
            None
        }
    }
}

proof fn lemma_placing_stops(b: BoardModel, ps: Seq<(usize, usize, String)>, owner: u8, k: int)
    requires
        0 < k <= ps.len(),
        board_after_placing(b, ps, owner, k).1 is Some,
    ensures
        board_after_placing(b, ps, owner, ps.len() as int) == board_after_placing(b, ps, owner, k),
    decreases ps.len() - k,
{
    if k < ps.len() {
        lemma_placing_stops(b, ps, owner, k + 1);
    }
}

/// The words of `words` are all accepted when none is rejected.
proof fn lemma_none_rejected(d: Dictionary, words: Seq<Seq<char>>)
    requires
        rejected_words(d, words).len() == 0,
    ensures
        forall|i: int| 0 <= i < words.len() ==> d.accepts(#[trigger] words[i]),
    decreases words.len(),
{
    if words.len() > 0 {
        lemma_none_rejected(d, words.drop_last());
        assert forall|i: int| 0 <= i < words.len() implies d.accepts(#[trigger] words[i]) by {
            if i < words.len() - 1 {
                assert(words[i] == words.drop_last()[i]);
            }
        }
    }
}

/// Words played are dictionary words: every word that a played move
/// reports forming is accepted by the game's dictionary.
pub proof fn lemma_played_words_accepted(g: Game, ps: Seq<(usize, usize, String)>, new: Game, words: Seq<Seq<char>>, score: u32)
    requires
        play_outcome(g, ps, new, Ok((words, score))),
    ensures
        forall|i: int| 0 <= i < words.len() ==> g.dictionary.accepts(#[trigger] words[i]),
{
    let dir = move_direction(ps).unwrap();
    let idx = g.turn_index();
    let pl = board_after_placing(g.board.model(), ps, idx as u8, ps.len() as int);
    let ms = move_score(pl.0, ps, dir);
    lemma_none_rejected(g.dictionary, ms.0);
}

/// The first move covers the centre: a move played on an empty board has a
/// tile on square (7, 7).
pub proof fn lemma_opening_covers_centre(g: Game, ps: Seq<(usize, usize, String)>, new: Game, words: Seq<Seq<char>>, score: u32)
    requires
        play_outcome(g, ps, new, Ok((words, score))),
        !g.board.has_tiles(),
    ensures
        covers_center(ps),
{
}

/// The bingo bonus: a move played with all seven tiles scores 50 points
/// more than the words it forms, and any other move scores just those.
pub proof fn lemma_bingo_bonus(g: Game, ps: Seq<(usize, usize, String)>, new: Game, words: Seq<Seq<char>>, score: u32)
    requires
        g.players@.len() > 0,
        play_outcome(g, ps, new, Ok((words, score))),
    ensures
        new.players@[g.turn_index()].score == g.players@[g.turn_index()].score + score + (if ps.len() == 7 { 50int } else { 0 }),
{
    let idx = g.turn_index();
    let dir = move_direction(ps).unwrap();
    let pl = board_after_placing(g.board.model(), ps, idx as u8, ps.len() as int);
    crate::scoring::lemma_move_score_nonnegative(pl.0, ps, dir);
}

/// Whether every square of the board without a tile has no owner either.
pub open spec fn owners_match_tiles(b: BoardModel) -> bool {
    forall|r: int, c: int| b.on_board(r, c) && (#[trigger] b.cell(r, c)).tile is None ==> b.cell(r, c).owner is None
}

/// Whether the board has `size` rows of `size` squares each.
pub open spec fn rectangular(b: BoardModel) -> bool {
    &&& b.cells.len() == b.size
    &&& forall|r: int| 0 <= r < b.size ==> (#[trigger] b.cells[r]).len() == b.size
}

/// Whether one of the first `k` placements is on square (r, c).
pub open spec fn placed_before(ps: Seq<(usize, usize, String)>, k: int, r: int, c: int) -> bool {
    exists|i: int| 0 <= i < k && (#[trigger] ps[i]).0 == r && ps[i].1 == c
}

proof fn lemma_placing_shape(b: BoardModel, ps: Seq<(usize, usize, String)>, owner: u8, k: int)
    requires
        rectangular(b),
        0 <= k <= ps.len(),
        board_after_placing(b, ps, owner, k).1 is None,
    ensures
        ({
            let nb = board_after_placing(b, ps, owner, k).0;
            &&& nb.size == b.size
            &&& rectangular(nb)
            &&& forall|i: int| 0 <= i < k ==> b.on_board((#[trigger] ps[i]).0 as int, ps[i].1 as int)
            &&& forall|r: int, c: int| b.on_board(r, c) ==> {
                &&& (#[trigger] nb.cell(r, c)).row == b.cell(r, c).row
                &&& nb.cell(r, c).col == b.cell(r, c).col
                &&& nb.cell(r, c).premium == b.cell(r, c).premium
                &&& (placed_before(ps, k, r, c) ==> nb.cell(r, c).tile is Some && b.cell(r, c).tile is None)
                &&& (!placed_before(ps, k, r, c) ==> nb.cell(r, c) == b.cell(r, c))
            }
        }),
    decreases k,
{
    if k > 0 {
        lemma_placing_shape(b, ps, owner, k - 1);
        let prev = board_after_placing(b, ps, owner, k - 1);
        let p = ps[k - 1];
        let pb = prev.0;
        assert(prev.1 is None);
        assert(pb.on_board(p.0 as int, p.1 as int));
        assert(pb.cell(p.0 as int, p.1 as int).tile is None);
        let nb = board_after_placing(b, ps, owner, k).0;
        assert(nb == pb.with_tile(p.0 as int, p.1 as int, p.2@, owner));
        assert forall|i: int| 0 <= i < k implies b.on_board((#[trigger] ps[i]).0 as int, ps[i].1 as int) by {
            if i < k - 1 {
            }
        }
        assert forall|r: int| 0 <= r < nb.size implies (#[trigger] nb.cells[r]).len() == nb.size by {
            if r == p.0 as int {
            } else {
                assert(nb.cells[r] == pb.cells[r]);
            }
        }
        assert forall|r: int, c: int| b.on_board(r, c) implies {
            &&& (#[trigger] nb.cell(r, c)).row == b.cell(r, c).row
            &&& nb.cell(r, c).col == b.cell(r, c).col
            &&& nb.cell(r, c).premium == b.cell(r, c).premium
            &&& (placed_before(ps, k, r, c) ==> nb.cell(r, c).tile is Some && b.cell(r, c).tile is None)
            &&& (!placed_before(ps, k, r, c) ==> nb.cell(r, c) == b.cell(r, c))
        } by {
            if r == p.0 as int && c == p.1 as int {
                assert(placed_before(ps, k, r, c));
                if placed_before(ps, k - 1, r, c) {
                    let i = choose|i: int| 0 <= i < k - 1 && (#[trigger] ps[i]).0 == r && ps[i].1 == c;
                    assert(pb.cell(r, c).tile is Some);
                }
            } else {
                assert(nb.cell(r, c) == pb.cell(r, c));
                if placed_before(ps, k, r, c) {
                    let i = choose|i: int| 0 <= i < k && (#[trigger] ps[i]).0 == r && ps[i].1 == c;
                    assert(i != k - 1);
                    assert(placed_before(ps, k - 1, r, c));
                }
                if placed_before(ps, k - 1, r, c) {
                    let i = choose|i: int| 0 <= i < k - 1 && (#[trigger] ps[i]).0 == r && ps[i].1 == c;
                    assert(placed_before(ps, k, r, c));
                }
            }
        }
    }
}

proof fn lemma_placing_letters(b: BoardModel, ps: Seq<(usize, usize, String)>, owner: u8, k: int)
    requires
        rectangular(b),
        0 <= k <= ps.len(),
        board_after_placing(b, ps, owner, k).1 is None,
    ensures
        forall|i: int| 0 <= i < k ==> {
            let sq = #[trigger] board_after_placing(b, ps, owner, k).0.cell(ps[i].0 as int, ps[i].1 as int);
            sq.tile == Some(ps[i].2@) && sq.owner == Some(owner)
        },
    decreases k,
{
    if k > 0 {
        lemma_placing_letters(b, ps, owner, k - 1);
        lemma_placing_shape(b, ps, owner, k - 1);
        let prev = board_after_placing(b, ps, owner, k - 1);
        let p = ps[k - 1];
        let pb = prev.0;
        assert(prev.1 is None);
        let nb = board_after_placing(b, ps, owner, k).0;
        assert(nb == pb.with_tile(p.0 as int, p.1 as int, p.2@, owner));
        assert forall|i: int| 0 <= i < k implies {
            let sq = #[trigger] board_after_placing(b, ps, owner, k).0.cell(ps[i].0 as int, ps[i].1 as int);
            sq.tile == Some(ps[i].2@) && sq.owner == Some(owner)
        } by {
            if i < k - 1 {
                assert(pb.cell(ps[i].0 as int, ps[i].1 as int).tile == Some(ps[i].2@));
                if ps[i].0 == p.0 && ps[i].1 == p.1 {
                    assert(false);
                } else {
                    assert(nb.cell(ps[i].0 as int, ps[i].1 as int) == pb.cell(ps[i].0 as int, ps[i].1 as int));
                }
            }
        }
    }
}

/// A played move puts each of its letters, as played, on its square, owned
/// by the player whose turn it was, and leaves every other square as it was.
pub proof fn lemma_played_squares(g: Game, ps: Seq<(usize, usize, String)>, new: Game, words: Seq<Seq<char>>, score: u32)
    requires
        g.board.wf(),
        play_outcome(g, ps, new, Ok((words, score))),
    ensures
        forall|i: int| 0 <= i < ps.len() ==> {
            let sq = #[trigger] new.board.model().cell(ps[i].0 as int, ps[i].1 as int);
            sq.tile == Some(ps[i].2@) && sq.owner == Some(g.turn_index() as u8)
        },
        forall|r: int, c: int| g.board.model().on_board(r, c) && !placed_before(ps, ps.len() as int, r, c)
            ==> #[trigger] new.board.model().cell(r, c) == g.board.model().cell(r, c),
{
    let b = g.board.model();
    let idx = g.turn_index();
    let n = ps.len() as int;
    assert(rectangular(b));
    lemma_placing_letters(b, ps, idx as u8, n);
    lemma_placing_shape(b, ps, idx as u8, n);
}

proof fn lemma_undo_shape(nb: BoardModel, ps: Seq<(usize, usize, String)>, j: int)
    requires
        rectangular(nb),
        0 <= j <= ps.len(),
        forall|i: int| 0 <= i < ps.len() ==> nb.on_board((#[trigger] ps[i]).0 as int, ps[i].1 as int),
    ensures
        ({
            let ub = board_after_undo(nb, ps, j);
            &&& ub.size == nb.size
            &&& rectangular(ub)
            &&& forall|r: int, c: int| nb.on_board(r, c) ==> {
                &&& (placed_before(ps, j, r, c) ==> #[trigger] ub.cell(r, c) == SquareView { tile: None, owner: None, ..nb.cell(r, c) })
                &&& (!placed_before(ps, j, r, c) ==> ub.cell(r, c) == nb.cell(r, c))
            }
        }),
    decreases j,
{
    if j > 0 {
        lemma_undo_shape(nb, ps, j - 1);
        let pb = board_after_undo(nb, ps, j - 1);
        let p = ps[j - 1];
        let ub = board_after_undo(nb, ps, j);
        assert(nb.on_board(p.0 as int, p.1 as int));
        assert(ub == pb.without_tile(p.0 as int, p.1 as int));
        assert forall|r: int| 0 <= r < ub.size implies (#[trigger] ub.cells[r]).len() == ub.size by {
            if r != p.0 as int {
                assert(ub.cells[r] == pb.cells[r]);
            }
        }
        assert forall|r: int, c: int| nb.on_board(r, c) implies {
            &&& (placed_before(ps, j, r, c) ==> #[trigger] ub.cell(r, c) == SquareView { tile: None, owner: None, ..nb.cell(r, c) })
            &&& (!placed_before(ps, j, r, c) ==> ub.cell(r, c) == nb.cell(r, c))
        } by {
            if r == p.0 as int && c == p.1 as int {
                assert(placed_before(ps, j, r, c));
                if placed_before(ps, j - 1, r, c) {
                } else {
                    assert(pb.cell(r, c) == nb.cell(r, c));
                }
            } else {
                assert(ub.cell(r, c) == pb.cell(r, c));
                if placed_before(ps, j, r, c) {
                    let i = choose|i: int| 0 <= i < j && (#[trigger] ps[i]).0 == r && ps[i].1 == c;
                    assert(i != j - 1);
                    assert(placed_before(ps, j - 1, r, c));
                }
                if placed_before(ps, j - 1, r, c) {
                    let i = choose|i: int| 0 <= i < j - 1 && (#[trigger] ps[i]).0 == r && ps[i].1 == c;
                    assert(placed_before(ps, j, r, c));
                }
            }
        }
    }
}

/// Whether the move's tiles would fail to go down on the board after its
/// checks and the rack let it through (one square named twice, say).
pub open spec fn placing_fails(g: Game, ps: Seq<(usize, usize, String)>) -> bool {
    &&& move_refusal(g, ps) is None
    &&& rack_after_move(g.players@[g.turn_index()].rack@, lowered_letters(ps)).1 is None
    &&& board_after_placing(g.board.model(), ps, g.turn_index() as u8, ps.len() as int).1 is Some
}

/// A refused move leaves the board as it was: whether it is refused before
/// its tiles go down or for the words it forms, the tiles it put down are
/// taken back and the squares are as before.
pub proof fn lemma_refused_move_keeps_board(g: Game, ps: Seq<(usize, usize, String)>, new: Game, m: Seq<char>)
    requires
        g.board.wf(),
        owners_match_tiles(g.board.model()),
        play_outcome(g, ps, new, Err(m)),
        !placing_fails(g, ps),
    ensures
        new.board.model() == g.board.model(),
{
    let b = g.board.model();
    if move_refusal(g, ps) is None {
        let idx = g.turn_index();
        let rm = rack_after_move(g.players@[idx].rack@, lowered_letters(ps));
        let pl = board_after_placing(b, ps, idx as u8, ps.len() as int);
        if rm.1 is None && pl.1 is None {
            let n = ps.len() as int;
            assert(rectangular(b));
            lemma_placing_shape(b, ps, idx as u8, n);
            let nb = pl.0;
            assert forall|i: int| 0 <= i < ps.len() implies nb.on_board((#[trigger] ps[i]).0 as int, ps[i].1 as int) by {
                assert(b.on_board(ps[i].0 as int, ps[i].1 as int));
            }
            lemma_undo_shape(nb, ps, n);
            let ub = board_after_undo(nb, ps, n);
            assert forall|r: int| 0 <= r < b.size implies (#[trigger] ub.cells[r]) =~= b.cells[r] by {
                assert forall|c: int| 0 <= c < b.size implies ub.cells[r][c] == b.cells[r][c] by {
                    assert(b.on_board(r, c));
                    assert(ub.cell(r, c) == ub.cells[r][c]);
                    assert(b.cell(r, c) == b.cells[r][c]);
                    if placed_before(ps, n, r, c) {
                        assert(b.cell(r, c).tile is None);
                        assert(b.cell(r, c).owner is None);
                    }
                }
            }
            assert(ub.cells =~= b.cells);
        }
    }
}

proof fn lemma_placing_keeps_owners(b: BoardModel, ps: Seq<(usize, usize, String)>, owner: u8, k: int)
    requires
        rectangular(b),
        owners_match_tiles(b),
        0 <= k <= ps.len(),
    ensures
        board_after_placing(b, ps, owner, k).0.size == b.size,
        rectangular(board_after_placing(b, ps, owner, k).0),
        owners_match_tiles(board_after_placing(b, ps, owner, k).0),
    decreases k,
{
    if k > 0 {
        lemma_placing_keeps_owners(b, ps, owner, k - 1);
        let prev = board_after_placing(b, ps, owner, k - 1);
        let p = ps[k - 1];
        let pb = prev.0;
        if prev.1 is None && pb.on_board(p.0 as int, p.1 as int) && pb.cell(p.0 as int, p.1 as int).tile is None {
            let nb = pb.with_tile(p.0 as int, p.1 as int, p.2@, owner);
            assert forall|r: int| 0 <= r < nb.size implies (#[trigger] nb.cells[r]).len() == nb.size by {
                if r != p.0 as int {
                    assert(nb.cells[r] == pb.cells[r]);
                }
            }
            assert forall|r: int, c: int| nb.on_board(r, c) && (#[trigger] nb.cell(r, c)).tile is None implies nb.cell(r, c).owner is None by {
                if r == p.0 as int && c == p.1 as int {
                } else {
                    assert(nb.cell(r, c) == pb.cell(r, c));
                }
            }
        }
    }
}

proof fn lemma_undo_keeps_owners(nb: BoardModel, ps: Seq<(usize, usize, String)>, j: int)
    requires
        rectangular(nb),
        owners_match_tiles(nb),
        0 <= j <= ps.len(),
        forall|i: int| 0 <= i < ps.len() ==> nb.on_board((#[trigger] ps[i]).0 as int, ps[i].1 as int),
    ensures
        board_after_undo(nb, ps, j).size == nb.size,
        rectangular(board_after_undo(nb, ps, j)),
        owners_match_tiles(board_after_undo(nb, ps, j)),
    decreases j,
{
    if j > 0 {
        lemma_undo_keeps_owners(nb, ps, j - 1);
        let pb = board_after_undo(nb, ps, j - 1);
        let p = ps[j - 1];
        let ub = pb.without_tile(p.0 as int, p.1 as int);
        assert(nb.on_board(p.0 as int, p.1 as int));
        assert forall|r: int| 0 <= r < ub.size implies (#[trigger] ub.cells[r]).len() == ub.size by {
            if r != p.0 as int {
                assert(ub.cells[r] == pb.cells[r]);
            }
        }
        assert forall|r: int, c: int| ub.on_board(r, c) && (#[trigger] ub.cell(r, c)).tile is None implies ub.cell(r, c).owner is None by {
            if r == p.0 as int && c == p.1 as int {
            } else {
                assert(ub.cell(r, c) == pb.cell(r, c));
            }
        }
    }
}

/// Moves keep the board tidy: when every square without a tile has no
/// owner, it is still so after a move, whatever became of it.
pub proof fn lemma_moves_keep_owners(g: Game, ps: Seq<(usize, usize, String)>, new: Game, res: Result<(Seq<Seq<char>>, u32), Seq<char>>)
    requires
        g.board.wf(),
        owners_match_tiles(g.board.model()),
        play_outcome(g, ps, new, res),
    ensures
        owners_match_tiles(new.board.model()),
{
    let b = g.board.model();
    assert(rectangular(b));
    if move_refusal(g, ps) is None {
        let idx = g.turn_index();
        let rm = rack_after_move(g.players@[idx].rack@, lowered_letters(ps));
        let n = ps.len() as int;
        let pl = board_after_placing(b, ps, idx as u8, n);
        lemma_placing_keeps_owners(b, ps, idx as u8, n);
        if rm.1 is None && pl.1 is None {
            lemma_placing_shape(b, ps, idx as u8, n);
            assert forall|i: int| 0 <= i < ps.len() implies pl.0.on_board((#[trigger] ps[i]).0 as int, ps[i].1 as int) by {
                assert(b.on_board(ps[i].0 as int, ps[i].1 as int));
            }
            lemma_undo_keeps_owners(pl.0, ps, n);
        }
    }
}

} // verus!
