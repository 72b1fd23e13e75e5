use epeletii::board::Premium;
use epeletii::dictionary::Dictionary;
use epeletii::game::{Game, GamePhase};
use epeletii::persistence::{game_to_snapshot, game_to_snapshot_at, snapshot_to_game};

fn played_game() -> Game {
    let dict = Dictionary::from_word_lines(vec!["bad".to_string()]);
    let mut game = Game::new(dict);
    game.add_player("p1".into(), "Alice".into());
    game.add_player("p2".into(), "Bob".into());
    game.start(0).unwrap();
    game.board.place_tile(7, 7, "b", 0).unwrap();
    game.players[1].score = 17;
    game.players[1].is_bot = true;
    game.players[1].bot_level = Some("Ikuba".to_string());
    game.consecutive_passes = 1;
    game
}

#[test]
fn a_saved_game_restores_as_it_was() {
    let game = played_game();
    let snap = game_to_snapshot_at("room-1", &game, 1_700_000_000);
    assert_eq!(snap.room_id, "room-1");
    assert_eq!(snap.updated_at, 1_700_000_000);
    assert_eq!(snap.phase, "Playing");
    assert_eq!(snap.board[7][7].premium, "DW");
    assert_eq!(snap.board[7][7].tile, Some("b".to_string()));
    let restored = snapshot_to_game(&snap, Dictionary::from_word_lines(vec!["bad".to_string()]));
    assert_eq!(restored.phase, GamePhase::Playing);
    assert_eq!(restored.players.len(), 2);
    assert_eq!(restored.players[1].score, 17);
    assert!(restored.players[1].is_bot);
    assert_eq!(restored.players[1].bot_level, Some("Ikuba".to_string()));
    assert_eq!(restored.players[0].rack.len(), game.players[0].rack.len());
    for (a, b) in restored.players[0].rack.iter().zip(game.players[0].rack.iter()) {
        assert_eq!((&a.letter, a.value), (&b.letter, b.value));
    }
    assert_eq!(restored.tile_bag.len(), game.tile_bag.len());
    assert_eq!(restored.board.tile_at(7, 7), Some("b"));
    assert_eq!(restored.board.squares[0][0].premium, Premium::TW);
    assert_eq!(restored.current_turn, game.current_turn);
    assert_eq!(restored.consecutive_passes, 1);
    assert!(restored.dictionary.is_valid_word("bad"));
    let again = game_to_snapshot_at("room-1", &restored, 1_700_000_000);
    assert_eq!(again.board[7][7].tile, snap.board[7][7].tile);
    assert_eq!(again.players[1].score, snap.players[1].score);
}

#[test]
fn snapshots_are_stamped_with_the_clock() {
    let game = played_game();
    let snap = game_to_snapshot("room-2", &game);
    assert!(snap.updated_at > 1_600_000_000);
    assert_eq!(snap.tile_bag.len(), game.tile_bag.len());
}
