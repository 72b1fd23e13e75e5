//! Game persistence: the stored snapshot of a game, and the conversions
//! between a game and its snapshot.

use vstd::prelude::*;
use vstd::string::*;
use crate::board::{Board, Premium, Square, SquareView, clone_opt_string, opt_text};
use crate::dictionary::Dictionary;
use crate::game::{Game, GamePhase, Player, clone_tiles};
use crate::tiles::{Tile, tiles_view};
use crate::text::same_text;

verus! {

/// A serializable snapshot of the full game state.
pub struct GameSnapshot {
    /// The room ID (used as the document key).
    pub room_id: String,
    /// Serialized board state.
    pub board: Vec<Vec<SquareSnapshot>>,
    /// All players with their racks.
    pub players: Vec<PlayerSnapshot>,
    /// Remaining tiles in the bag.
    pub tile_bag: Vec<TileSnapshot>,
    /// Index into players[] of whose turn it is.
    pub current_turn: usize,
    /// Current game phase.
    pub phase: String,
    /// Number of consecutive passes.
    pub consecutive_passes: u32,
    /// Winner player ID if game is finished.
    pub winner: Option<String>,
    /// Timestamp of last update (Unix seconds, for TTL).
    pub updated_at: i64,
}

pub struct SquareSnapshot {
    pub row: usize,
    pub col: usize,
    pub premium: String,
    pub tile: Option<String>,
    pub owner: Option<u8>,
}

pub struct PlayerSnapshot {
    pub id: String,
    pub name: String,
    pub score: u32,
    pub rack: Vec<TileSnapshot>,
    pub ready: bool,
    pub is_bot: bool,
    pub bot_level: Option<String>,
}

pub struct TileSnapshot {
    pub letter: String,
    pub value: u8,
}

/// A player seen as plain values.
pub struct PlayerView {
    pub id: Seq<char>,
    pub name: Seq<char>,
    pub score: u32,
    pub rack: Seq<(Seq<char>, u8)>,
    pub ready: bool,
    pub is_bot: bool,
    pub bot_level: Option<Seq<char>>,
}

/// The name under which a premium is stored (its `Debug` form).
pub open spec fn premium_name(p: Premium) -> Seq<char> {
    match p {
        Premium::DL => "DL"@,
        Premium::TL => "TL"@,
        Premium::DW => "DW"@,
        Premium::TW => "TW"@,
        Premium::Normal => "Normal"@,
    }
}

/// The premium a stored name stands for; any unknown name is a normal square.
pub open spec fn premium_of_name(s: Seq<char>) -> Premium {
    if s == "DL"@ {
        Premium::DL
    } else if s == "TL"@ {
        Premium::TL
    } else if s == "DW"@ {
        Premium::DW
    } else if s == "TW"@ {
        Premium::TW
    } else {
        Premium::Normal
    }
}

/// The name under which a phase is stored.
pub open spec fn phase_name(p: GamePhase) -> Seq<char> {
    match p {
        GamePhase::Lobby => "Lobby"@,
        GamePhase::Playing => "Playing"@,
        GamePhase::Finished => "Finished"@,
    }
}

/// The phase a stored name stands for; any unknown name is the lobby.
pub open spec fn phase_of_name(s: Seq<char>) -> GamePhase {
    if s == "Playing"@ {
        GamePhase::Playing
    } else if s == "Finished"@ {
        GamePhase::Finished
    } else {
        GamePhase::Lobby
    }
}

/// A stored square seen as a square of the board.
pub open spec fn square_snapshot_view(s: SquareSnapshot) -> SquareView {
    SquareView { row: s.row, col: s.col, premium: premium_of_name(s.premium@), tile: opt_text(s.tile), owner: s.owner }
}

/// The stored tiles as (letter, value) pairs.
pub open spec fn tile_snapshots_view(s: Seq<TileSnapshot>) -> Seq<(Seq<char>, u8)> {
    s.map_values(|t: TileSnapshot| (t.letter@, t.value))
}

/// A player seen as plain values.
pub open spec fn player_view(p: Player) -> PlayerView {
    PlayerView {
        id: p.id@,
        name: p.name@,
        score: p.score,
        rack: tiles_view(p.rack@),
        ready: p.ready,
        is_bot: p.is_bot,
        bot_level: opt_text(p.bot_level),
    }
}

/// A stored player seen as plain values.
pub open spec fn player_snapshot_view(p: PlayerSnapshot) -> PlayerView {
    PlayerView {
        id: p.id@,
        name: p.name@,
        score: p.score,
        rack: tile_snapshots_view(p.rack@),
        ready: p.ready,
        is_bot: p.is_bot,
        bot_level: opt_text(p.bot_level),
    }
}

impl GameSnapshot {
    /// The stored squares, row by row, seen as squares of the board.
    pub open spec fn cells(&self) -> Seq<Seq<SquareView>> {
        self.board@.map_values(|row: Vec<SquareSnapshot>| row@.map_values(|s: SquareSnapshot| square_snapshot_view(s)))
    }

    /// The stored players seen as plain values.
    pub open spec fn player_views(&self) -> Seq<PlayerView> {
        self.players@.map_values(|p: PlayerSnapshot| player_snapshot_view(p))
    }
}

/// The state of a game, as plain values: what a snapshot keeps of it.
pub struct GameModel {
    pub cells: Seq<Seq<SquareView>>,
    pub size: int,
    pub players: Seq<PlayerView>,
    pub tile_bag: Seq<(Seq<char>, u8)>,
    pub current_turn: usize,
    pub phase: GamePhase,
    pub consecutive_passes: u32,
    pub winner: Option<Seq<char>>,
}

impl Game {
    /// What a snapshot keeps of the game.
    pub open spec fn stored_state(&self) -> GameModel {
        GameModel {
            cells: self.board.cells(),
            size: self.board.size as int,
            players: self.players@.map_values(|p: Player| player_view(p)),
            tile_bag: tiles_view(self.tile_bag@),
            current_turn: self.current_turn,
            phase: self.phase,
            consecutive_passes: self.consecutive_passes,
            winner: opt_text(self.winner),
        }
    }
}

/// Whether `snap` stores `game`: its squares, players, bag, turn, phase
/// (by name), passes and winner.
pub open spec fn stores(snap: GameSnapshot, game: Game) -> bool {
    &&& snap.cells() == game.board.cells()
    &&& snap.player_views() == game.stored_state().players
    &&& tile_snapshots_view(snap.tile_bag@) == tiles_view(game.tile_bag@)
    &&& snap.current_turn == game.current_turn
    &&& snap.phase@ == phase_name(game.phase)
    &&& snap.consecutive_passes == game.consecutive_passes
    &&& snap.winner == game.winner
}

/// Whether `game` is restored from `snap`: a board of as many rows as were
/// stored, with the stored squares, and the stored players, bag, turn,
/// phase (unknown names read as the lobby), passes and winner.
pub open spec fn restored_from(game: Game, snap: GameSnapshot) -> bool {
    &&& game.board.size == snap.board@.len()
    &&& game.board.cells() == snap.cells()
    &&& game.stored_state().players == snap.player_views()
    &&& tiles_view(game.tile_bag@) == tile_snapshots_view(snap.tile_bag@)
    &&& game.current_turn == snap.current_turn
    &&& game.phase == phase_of_name(snap.phase@)
    &&& game.consecutive_passes == snap.consecutive_passes
    &&& game.winner == snap.winner
}

/// A reading of the system clock.
#[verifier::external_type_specification]
#[verifier::external_body]
pub struct ExSystemTime(std::time::SystemTime);

/// The current time of the system clock (`std::time::SystemTime::now`).
/// Nothing is claimed of it.
#[verifier::external_body]
fn clock_now() -> std::time::SystemTime {
    std::time::SystemTime::now()
}

/// The time elapsed from the Unix epoch to `t`
/// (`std::time::SystemTime::duration_since` with `UNIX_EPOCH`); `None` when
/// `t` lies before the epoch. Nothing more is claimed.
#[verifier::external_body]
fn since_unix_epoch(t: &std::time::SystemTime) -> Option<core::time::Duration> {
    t.duration_since(std::time::UNIX_EPOCH).ok()
}

/// The whole seconds of a duration (`std::time::Duration::as_secs`).
/// Nothing is claimed of the value.
#[verifier::external_body]
fn whole_seconds(d: &core::time::Duration) -> u64 {
    d.as_secs()
}

/// The Unix time in seconds, 0 for a clock set before the epoch.
fn unix_time_secs() -> i64 {
    let now = clock_now();
    match since_unix_epoch(&now) {
        Some(d) => #[verifier::truncate] (whole_seconds(&d) as i64),
        None => 0,
    }
}

pub(crate) fn premium_text(p: Premium) -> (s: String)
    ensures
        s@ == premium_name(p),
{
    match p {
        Premium::DL => "DL".to_owned(),
        Premium::TL => "TL".to_owned(),
        Premium::DW => "DW".to_owned(),
        Premium::TW => "TW".to_owned(),
        Premium::Normal => "Normal".to_owned(),
    }
}

/// Parses a stored premium name.
fn parse_premium(s: &str) -> (p: Premium)
    ensures
        p == premium_of_name(s@),
{
    if same_text(s, "DL") {
        Premium::DL
    } else if same_text(s, "TL") {
        Premium::TL
    } else if same_text(s, "DW") {
        Premium::DW
    } else if same_text(s, "TW") {
        Premium::TW
    } else {
        Premium::Normal
    }
}

proof fn lemma_premium_round_trip(p: Premium)
    ensures
        premium_of_name(premium_name(p)) == p,
{
    reveal_strlit("DL");
    reveal_strlit("TL");
    reveal_strlit("DW");
    reveal_strlit("TW");
    reveal_strlit("Normal");
    match p {
        Premium::DL => {},
        Premium::TL => { assert("TL"@ != "DL"@) by { assert("TL"@[0] != "DL"@[0]); } },
        Premium::DW => {
            assert("DW"@ != "DL"@) by { assert("DW"@[1] != "DL"@[1]); }
            assert("DW"@ != "TL"@) by { assert("DW"@[0] != "TL"@[0]); }
        },
        Premium::TW => {
            assert("TW"@ != "DL"@) by { assert("TW"@[0] != "DL"@[0]); }
            assert("TW"@ != "TL"@) by { assert("TW"@[1] != "TL"@[1]); }
            assert("TW"@ != "DW"@) by { assert("TW"@[0] != "DW"@[0]); }
        },
        Premium::Normal => {
            assert("Normal"@ != "DL"@) by { assert("Normal"@.len() != "DL"@.len()); }
            assert("Normal"@ != "TL"@) by { assert("Normal"@.len() != "TL"@.len()); }
            assert("Normal"@ != "DW"@) by { assert("Normal"@.len() != "DW"@.len()); }
            assert("Normal"@ != "TW"@) by { assert("Normal"@.len() != "TW"@.len()); }
        },
    }
}

proof fn lemma_phase_round_trip(p: GamePhase)
    ensures
        phase_of_name(phase_name(p)) == p,
{
    reveal_strlit("Lobby");
    reveal_strlit("Playing");
    reveal_strlit("Finished");
    match p {
        GamePhase::Lobby => {
            assert("Lobby"@ != "Playing"@) by { assert("Lobby"@.len() != "Playing"@.len()); }
            assert("Lobby"@ != "Finished"@) by { assert("Lobby"@.len() != "Finished"@.len()); }
        },
        GamePhase::Playing => {},
        GamePhase::Finished => {
            assert("Finished"@ != "Playing"@) by { assert("Finished"@[0] != "Playing"@[0]); }
        },
    }
}

/// A saved game records its phase under the phase's own name: "Lobby",
/// "Playing" or "Finished".
pub proof fn lemma_saved_phase_names(snap: GameSnapshot, game: Game)
    requires
        stores(snap, game),
    ensures
        game.phase == GamePhase::Lobby <==> snap.phase@ == "Lobby"@,
        game.phase == GamePhase::Playing <==> snap.phase@ == "Playing"@,
        game.phase == GamePhase::Finished <==> snap.phase@ == "Finished"@,
{
    reveal_strlit("Lobby");
    reveal_strlit("Playing");
    reveal_strlit("Finished");
    assert("Lobby"@ != "Playing"@) by { assert("Lobby"@.len() != "Playing"@.len()); }
    assert("Lobby"@ != "Finished"@) by { assert("Lobby"@.len() != "Finished"@.len()); }
    assert("Finished"@ != "Playing"@) by { assert("Finished"@[0] != "Playing"@[0]); }
}

/// A restored game takes its phase from the stored name: "Playing" gives a
/// game in play, "Finished" a finished game, and any other name the lobby.
pub proof fn lemma_restored_phase_names(game: Game, snap: GameSnapshot)
    requires
        restored_from(game, snap),
    ensures
        snap.phase@ == "Playing"@ ==> game.phase == GamePhase::Playing,
        snap.phase@ == "Finished"@ ==> game.phase == GamePhase::Finished,
        snap.phase@ != "Playing"@ && snap.phase@ != "Finished"@ ==> game.phase == GamePhase::Lobby,
{
    reveal_strlit("Playing");
    reveal_strlit("Finished");
    assert("Finished"@ != "Playing"@) by { assert("Finished"@[0] != "Playing"@[0]); }
}

fn tiles_to_snapshots(tiles: &Vec<Tile>) -> (res: Vec<TileSnapshot>)
    ensures
        tile_snapshots_view(res@) == tiles_view(tiles@),
{
    let mut res: Vec<TileSnapshot> = Vec::new();
    let mut i: usize = 0;
    while i < tiles.len()
        invariant
            0 <= i <= tiles@.len(),
            tile_snapshots_view(res@) == tiles_view(tiles@).take(i as int),
        decreases tiles@.len() - i,
    {
        let ghost before = res@;
        res.push(TileSnapshot { letter: tiles[i].letter.clone(), value: tiles[i].value });
        assert(res@ == before.push(res@.last()));
        assert(tile_snapshots_view(res@) =~= tile_snapshots_view(before).push((tiles@[i as int].letter@, tiles@[i as int].value)));
        assert(tiles_view(tiles@).take(i + 1) =~= tiles_view(tiles@).take(i as int).push((tiles@[i as int].letter@, tiles@[i as int].value)));
        i = i + 1;
    }
    assert(tiles_view(tiles@).take(tiles@.len() as int) =~= tiles_view(tiles@));
    res
}

fn snapshots_to_tiles(tiles: &Vec<TileSnapshot>) -> (res: Vec<Tile>)
    ensures
        tiles_view(res@) == tile_snapshots_view(tiles@),
{
    let mut res: Vec<Tile> = Vec::new();
    let mut i: usize = 0;
    while i < tiles.len()
        invariant
            0 <= i <= tiles@.len(),
            tiles_view(res@) == tile_snapshots_view(tiles@).take(i as int),
        decreases tiles@.len() - i,
    {
        let ghost before = res@;
        res.push(Tile { letter: tiles[i].letter.clone(), value: tiles[i].value });
        assert(res@ == before.push(res@.last()));
        assert(tiles_view(res@) =~= tiles_view(before).push((tiles@[i as int].letter@, tiles@[i as int].value)));
        assert(tile_snapshots_view(tiles@).take(i + 1) =~= tile_snapshots_view(tiles@).take(i as int).push((tiles@[i as int].letter@, tiles@[i as int].value)));
        i = i + 1;
    }
    assert(tile_snapshots_view(tiles@).take(tiles@.len() as int) =~= tile_snapshots_view(tiles@));
    res
}

/// The snapshot of a game, stamped with the time `updated_at`.
pub fn game_to_snapshot_at(room_id: &str, game: &Game, updated_at: i64) -> (snap: GameSnapshot)
    ensures
        snap.room_id@ == room_id@,
        snap.board@.len() == game.board.squares@.len(),
        forall|r: int| 0 <= r < snap.board@.len() ==> (#[trigger] snap.board@[r])@.len() == game.board.squares@[r]@.len(),
        forall|r: int, c: int| 0 <= r < snap.board@.len() && 0 <= c < snap.board@[r]@.len() ==>
            (#[trigger] snap.board@[r]@[c]).premium@ == premium_name(game.board.squares@[r]@[c].premium),
        stores(snap, *game),
        snap.updated_at == updated_at,
{
    let ghost cells = game.board.cells();
    let mut board: Vec<Vec<SquareSnapshot>> = Vec::new();
    let mut r: usize = 0;
    while r < game.board.squares.len()
        invariant
            cells == game.board.cells(),
            0 <= r <= game.board.squares@.len(),
            board@.len() == r,
            forall|i: int| 0 <= i < r ==> (#[trigger] board@[i])@.len() == game.board.squares@[i]@.len(),
            forall|i: int, c: int| 0 <= i < r && 0 <= c < board@[i]@.len() ==>
                (#[trigger] board@[i]@[c]).premium@ == premium_name(game.board.squares@[i]@[c].premium),
            forall|i: int| 0 <= i < r ==> (#[trigger] board@[i])@.map_values(|s: SquareSnapshot| square_snapshot_view(s)) == cells[i],
        decreases game.board.squares@.len() - r,
    {
        let row = &game.board.squares[r];
        let mut out: Vec<SquareSnapshot> = Vec::new();
        let mut c: usize = 0;
        while c < row.len()
            invariant
                cells == game.board.cells(),
                0 <= r < game.board.squares@.len(),
                *row == game.board.squares@[r as int],
                0 <= c <= row@.len(),
                out@.len() == c,
                forall|k: int| 0 <= k < c ==> (#[trigger] out@[k]).premium@ == premium_name(row@[k].premium),
                forall|k: int| 0 <= k < c ==> square_snapshot_view(#[trigger] out@[k]) == row@[k]@,
            decreases row@.len() - c,
        {
            let sq = &row[c];
            proof { lemma_premium_round_trip(sq.premium); }
            out.push(SquareSnapshot {
                row: sq.row,
                col: sq.col,
                premium: premium_text(sq.premium),
                tile: clone_opt_string(&sq.tile),
                owner: sq.owner,
            });
            c = c + 1;
        }
        assert(out@.map_values(|s: SquareSnapshot| square_snapshot_view(s)) =~= cells[r as int]);
        board.push(out);
        r = r + 1;
    }
    assert(board@.map_values(|row: Vec<SquareSnapshot>| row@.map_values(|s: SquareSnapshot| square_snapshot_view(s))) =~= cells);
    let ghost pviews = game.stored_state().players;
    let mut players: Vec<PlayerSnapshot> = Vec::new();
    let mut i: usize = 0;
    while i < game.players.len()
        invariant
            pviews == game.stored_state().players,
            0 <= i <= game.players@.len(),
            players@.map_values(|p: PlayerSnapshot| player_snapshot_view(p)) == pviews.take(i as int),
        decreases game.players@.len() - i,
    {
        let p = &game.players[i];
        let ghost before = players@;
        players.push(PlayerSnapshot {
            id: p.id.clone(),
            name: p.name.clone(),
            score: p.score,
            rack: tiles_to_snapshots(&p.rack),
            ready: p.ready,
            is_bot: p.is_bot,
            bot_level: clone_opt_string(&p.bot_level),
        });
        assert(players@ == before.push(players@.last()));
        assert(players@.map_values(|p: PlayerSnapshot| player_snapshot_view(p)) =~= before.map_values(|p: PlayerSnapshot| player_snapshot_view(p)).push(pviews[i as int]));
        assert(pviews.take(i + 1) =~= pviews.take(i as int).push(pviews[i as int]));
        i = i + 1;
    }
    assert(pviews.take(game.players@.len() as int) =~= pviews);
    let phase = match game.phase {
        GamePhase::Lobby => "Lobby".to_owned(),
        GamePhase::Playing => "Playing".to_owned(),
        GamePhase::Finished => "Finished".to_owned(),
    };
    GameSnapshot {
        room_id: room_id.to_owned(),
        board,
        players,
        tile_bag: tiles_to_snapshots(&game.tile_bag),
        current_turn: game.current_turn,
        phase,
        consecutive_passes: game.consecutive_passes,
        winner: clone_opt_string(&game.winner),
        updated_at,
    }
}

/// The snapshot of a game, stamped with the current time.
pub fn game_to_snapshot(room_id: &str, game: &Game) -> (snap: GameSnapshot)
    ensures
        snap.room_id@ == room_id@,
        snap.board@.len() == game.board.squares@.len(),
        forall|r: int| 0 <= r < snap.board@.len() ==> (#[trigger] snap.board@[r])@.len() == game.board.squares@[r]@.len(),
        forall|r: int, c: int| 0 <= r < snap.board@.len() && 0 <= c < snap.board@[r]@.len() ==>
            (#[trigger] snap.board@[r]@[c]).premium@ == premium_name(game.board.squares@[r]@[c].premium),
        stores(snap, *game),
{
    let updated_at = unix_time_secs();
    game_to_snapshot_at(room_id, game, updated_at)
}

/// Restores a game from its snapshot, with the given dictionary.
pub fn snapshot_to_game(snapshot: &GameSnapshot, dictionary: Dictionary) -> (game: Game)
    ensures
        restored_from(game, *snapshot),
        game.dictionary == dictionary,
        game.winner == snapshot.winner,
        game.tiles_placed_this_turn@.len() == 0,
{
    let ghost cells = snapshot.cells();
    let mut squares: Vec<Vec<Square>> = Vec::new();
    let mut r: usize = 0;
    while r < snapshot.board.len()
        invariant
            cells == snapshot.cells(),
            0 <= r <= snapshot.board@.len(),
            squares@.len() == r,
            forall|i: int| 0 <= i < r ==> (#[trigger] squares@[i])@.map_values(|s: Square| s@) == cells[i],
        decreases snapshot.board@.len() - r,
    {
        let row = &snapshot.board[r];
        let mut out: Vec<Square> = Vec::new();
        let mut c: usize = 0;
        while c < row.len()
            invariant
                0 <= r < snapshot.board@.len(),
                *row == snapshot.board@[r as int],
                0 <= c <= row@.len(),
                out@.len() == c,
                forall|k: int| 0 <= k < c ==> (#[trigger] out@[k])@ == square_snapshot_view(row@[k]),
            decreases row@.len() - c,
        {
            let sq = &row[c];
            out.push(Square {
                row: sq.row,
                col: sq.col,
                premium: parse_premium(sq.premium.as_str()),
                tile: clone_opt_string(&sq.tile),
                owner: sq.owner,
            });
            c = c + 1;
        }
        assert(out@.map_values(|s: Square| s@) =~= cells[r as int]);
        squares.push(out);
        r = r + 1;
    }
    let size = squares.len();
    let board = Board { squares, size };
    assert(board.cells() =~= cells);
    let ghost pviews = snapshot.player_views();
    let mut players: Vec<Player> = Vec::new();
    let mut i: usize = 0;
    while i < snapshot.players.len()
        invariant
            pviews == snapshot.player_views(),
            0 <= i <= snapshot.players@.len(),
            players@.map_values(|p: Player| player_view(p)) == pviews.take(i as int),
        decreases snapshot.players@.len() - i,
    {
        let p = &snapshot.players[i];
        let ghost before = players@;
        players.push(Player {
            id: p.id.clone(),
            name: p.name.clone(),
            score: p.score,
            rack: snapshots_to_tiles(&p.rack),
            ready: p.ready,
            is_bot: p.is_bot,
            bot_level: clone_opt_string(&p.bot_level),
        });
        assert(players@ == before.push(players@.last()));
        assert(players@.map_values(|p: Player| player_view(p)) =~= before.map_values(|p: Player| player_view(p)).push(pviews[i as int]));
        assert(pviews.take(i + 1) =~= pviews.take(i as int).push(pviews[i as int]));
        i = i + 1;
    }
    assert(pviews.take(snapshot.players@.len() as int) =~= pviews);
    let phase = if same_text(snapshot.phase.as_str(), "Playing") {
        GamePhase::Playing
    } else if same_text(snapshot.phase.as_str(), "Finished") {
        GamePhase::Finished
    } else {
        GamePhase::Lobby
    };
    Game {
        board,
        players,
        tile_bag: snapshots_to_tiles(&snapshot.tile_bag),
        current_turn: snapshot.current_turn,
        phase,
        consecutive_passes: snapshot.consecutive_passes,
        dictionary,
        winner: clone_opt_string(&snapshot.winner),
        tiles_placed_this_turn: Vec::new(),
    }
}

/// Restoring a game from its snapshot gives back the game: the board, the
/// players and their racks, the bag, the turn, the phase, the passes and the
/// winner are those that were saved.
pub proof fn lemma_snapshot_round_trip(game: Game, snap: GameSnapshot, restored: Game)
    requires
        game.board.wf(),
        stores(snap, game),
        restored_from(restored, snap),
    ensures
        restored.stored_state() == game.stored_state(),
{
    lemma_phase_round_trip(game.phase);
    assert(snap.cells().len() == snap.board@.len());
    assert(game.board.cells().len() == game.board.squares@.len());
}

/// Saving a restored game stores what the first snapshot stored, with each
/// premium and phase under its own name: a snapshot whose names are all
/// known comes back unchanged.
pub proof fn lemma_restore_then_save(snap: GameSnapshot, restored: Game, saved: GameSnapshot)
    requires
        restored_from(restored, snap),
        stores(saved, restored),
    ensures
        saved.cells() == snap.cells(),
        saved.player_views() == snap.player_views(),
        tile_snapshots_view(saved.tile_bag@) == tile_snapshots_view(snap.tile_bag@),
        saved.current_turn == snap.current_turn,
        saved.phase@ == phase_name(phase_of_name(snap.phase@)),
        saved.consecutive_passes == snap.consecutive_passes,
        saved.winner == snap.winner,
{
}

} // verus!
