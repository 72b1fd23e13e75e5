use epeletii::dictionary::Dictionary;
use epeletii::game::{Game, GamePhase};
use epeletii::tiles::Tile;
use epeletii::turns::{active_room_info, draw_entries, game_flags, has_free_seat, MoveTurn};

fn rack(letters: &[&str]) -> Vec<Tile> {
    letters.iter().map(|l| Tile { letter: l.to_string(), value: 1 }).collect()
}

fn two_player_game(words: &[&str]) -> Game {
    let dict = Dictionary::from_word_lines(words.iter().map(|w| w.to_string()).collect());
    let mut game = Game::new(dict);
    game.add_player("p1".into(), "Alice".into());
    game.add_player("p2".into(), "Bob".into());
    game.start(0).unwrap();
    game
}

fn bad_across() -> Vec<(usize, usize, String)> {
    vec![(7, 6, "b".to_string()), (7, 7, "a".to_string()), (7, 8, "d".to_string())]
}

#[test]
fn only_the_current_player_moves() {
    let mut game = two_player_game(&["bad"]);
    assert!(game.is_turn_of("p1"));
    assert!(!game.is_turn_of("p2"));
    assert!(matches!(game.take_move_turn("p2", &bad_across()), Some(MoveTurn::NotYourTurn)));
    assert_eq!(game.take_pass_turn("p2"), None);
    assert_eq!(game.take_exchange_turn("p2", &[]), None);
    assert_eq!(game.current_player_index(), 0);
}

#[test]
fn a_played_move_passes_the_turn_on() {
    let mut game = two_player_game(&["bad"]);
    game.players[0].rack = rack(&["b", "a", "d", "e"]);
    match game.take_move_turn("p1", &bad_across()) {
        Some(MoveTurn::Played { words, score, bingo_announced, game_over }) => {
            assert_eq!(words, vec!["bad".to_string()]);
            assert_eq!(score, 12);
            assert!(!bingo_announced);
            assert!(!game_over);
        }
        _ => panic!("the move should be played"),
    }
    assert_eq!(game.current_player_index(), 1);
    assert!(game.tiles_placed_this_turn.is_empty());
}

#[test]
fn a_refused_move_forfeits_the_turn() {
    let mut game = two_player_game(&["bad"]);
    game.players[0].rack = rack(&["d", "a", "b"]);
    let dab = vec![(7, 6, "d".to_string()), (7, 7, "a".to_string()), (7, 8, "b".to_string())];
    match game.take_move_turn("p1", &dab) {
        Some(MoveTurn::Forfeited { message }) => assert_eq!(message, "Invalid word(s): dab"),
        _ => panic!("the move should be refused"),
    }
    assert_eq!(game.current_player_index(), 1);
    assert_eq!(game.board.tile_at(7, 7), None);
}

#[test]
fn the_last_tiles_end_the_game() {
    let mut game = two_player_game(&["bad"]);
    game.players[0].rack = rack(&["b", "a", "d"]);
    game.tile_bag.clear();
    match game.take_move_turn("p1", &bad_across()) {
        Some(MoveTurn::Played { game_over, .. }) => assert!(game_over),
        _ => panic!("the move should be played"),
    }
    assert_eq!(game.phase, GamePhase::Finished);
    assert_eq!(game.get_winner(), Some("p1".to_string()));
    assert_eq!(game.current_player_index(), 0);
}

#[test]
fn passes_and_exchanges_move_the_turn() {
    let mut game = two_player_game(&["bad"]);
    assert_eq!(game.take_pass_turn("p1"), Some(false));
    assert!(game.is_turn_of("p2"));
    let letter = game.players[1].rack[0].letter.clone();
    assert_eq!(game.take_exchange_turn("p2", &[letter]), Some(Ok(())));
    assert!(game.is_turn_of("p1"));
    assert_eq!(game.take_exchange_turn("p1", &["zz".to_string()]), Some(Err("Tile 'zz' not in rack".to_string())));
    assert!(game.is_turn_of("p1"));
    // An exchange does not clear the count of passes in a row.
    assert_eq!(game.consecutive_passes, 1);
    assert_eq!(game.take_pass_turn("p1"), Some(true));
    assert_eq!(game.phase, GamePhase::Finished);
}

#[test]
fn players_get_ready_by_id() {
    let mut game = Game::new(Dictionary::from_word_lines(Vec::new()));
    game.add_player("p1".into(), "Alice".into());
    game.add_player("p2".into(), "Bob".into());
    assert!(!game.mark_ready("nobody"));
    assert!(game.mark_ready("p2"));
    assert!(game.players[1].ready);
    assert!(!game.players[0].ready);
    assert!(!game.all_ready());
    assert!(game.mark_ready("p1"));
    assert!(game.all_ready());
}

#[test]
fn draw_entries_carry_names() {
    let mut game = Game::new(Dictionary::from_word_lines(Vec::new()));
    game.add_player("p1".into(), "Alice".into());
    game.add_player("p2".into(), "Bob".into());
    let draws = vec![("p2".to_string(), "k".to_string()), ("ghost".to_string(), "a".to_string())];
    let entries = draw_entries(&game, &draws);
    assert_eq!(entries.len(), 2);
    assert_eq!(entries[0].player_id, "p2");
    assert_eq!(entries[0].player_name, "Bob");
    assert_eq!(entries[0].letter, "k");
    assert_eq!(entries[1].player_name, "");
}

#[test]
fn rooms_list_their_state() {
    let mut game = Game::new(Dictionary::from_word_lines(Vec::new()));
    game.add_player("p1".into(), "Alice".into());
    assert!(has_free_seat(&game, 4));
    assert_eq!(game_flags(&game), (false, false));
    let info = active_room_info("r1", "Alice's Game", &game, 4).unwrap();
    assert_eq!((info.id.as_str(), info.name.as_str(), info.player_count, info.max_players, info.game_started), ("r1", "Alice's Game", 1, 4, false));
    game.add_player("p2".into(), "Bob".into());
    game.start(0).unwrap();
    assert_eq!(game_flags(&game), (true, false));
    assert!(active_room_info("r1", "Alice's Game", &game, 4).unwrap().game_started);
    game.end_game(None, "done".to_string());
    assert_eq!(game_flags(&game), (true, true));
    assert!(active_room_info("r1", "Alice's Game", &game, 2).is_none());
    assert!(!has_free_seat(&game, 2));
}

#[test]
fn a_seven_tile_move_is_announced_as_a_bingo() {
    let mut game = two_player_game(&["abakaka"]);
    game.players[0].rack = rack(&["a", "b", "a", "k", "a", "k", "a"]);
    let moves: Vec<(usize, usize, String)> = "abakaka".chars().enumerate().map(|(i, c)| (7, 1 + i, c.to_string())).collect();
    match game.take_move_turn("p1", &moves) {
        Some(MoveTurn::Played { score, bingo_announced, .. }) => {
            assert!(bingo_announced);
            assert_eq!(game.players[0].score, score + 50);
        }
        _ => panic!("the move should be played"),
    }
}
