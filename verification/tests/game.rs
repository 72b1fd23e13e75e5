use epeletii::dictionary::Dictionary;
use epeletii::draw::first_drawer;
use epeletii::game::{Game, GamePhase};
use epeletii::tiles::Tile;

fn make_game() -> Game {
    let dict = Dictionary::from_word_lines(Vec::new());
    Game::new(dict)
}

fn tile(letter: &str, value: u8) -> Tile {
    Tile { letter: letter.to_string(), value }
}

fn sorted_letters(tiles: &[Tile]) -> Vec<String> {
    let mut v: Vec<String> = tiles.iter().map(|t| t.letter.clone()).collect();
    v.sort();
    v
}

#[test]
fn test_add_players() {
    let mut game = make_game();
    game.add_player("p1".into(), "Alice".into());
    game.add_player("p2".into(), "Bob".into());
    assert_eq!(game.players.len(), 2);
}

#[test]
fn test_draw_tiles() {
    let mut game = make_game();
    let initial_count = game.tile_bag.len();
    let drawn = game.draw_tiles(7);
    assert_eq!(drawn.len(), 7);
    assert_eq!(game.tile_bag.len(), initial_count - 7);
}

#[test]
fn test_deal_tiles() {
    let mut game = make_game();
    game.add_player("p1".into(), "Alice".into());
    game.add_player("p2".into(), "Bob".into());
    game.deal_tiles();
    assert_eq!(game.players[0].rack.len(), 7);
    assert_eq!(game.players[1].rack.len(), 7);
}

#[test]
fn drawing_takes_the_end_of_the_bag() {
    let mut game = make_game();
    game.tile_bag = vec![tile("a", 1), tile("b", 2), tile("d", 3)];
    let drawn = game.draw_tiles(2);
    assert_eq!(sorted_letters(&drawn), vec!["b", "d"]);
    assert_eq!(sorted_letters(&game.tile_bag), vec!["a"]);
    let rest = game.draw_tiles(5);
    assert_eq!(rest.len(), 1);
    assert!(game.tile_bag.is_empty());
    assert!(game.draw_tiles(3).is_empty());
}

#[test]
fn dealing_keeps_every_tile() {
    let mut game = make_game();
    game.add_player("p1".into(), "Alice".into());
    game.add_player("p2".into(), "Bob".into());
    game.add_player("p3".into(), "Ada".into());
    let mut before = sorted_letters(&game.tile_bag);
    game.deal_tiles();
    assert_eq!(game.tile_bag.len(), 170 - 21);
    let mut after: Vec<Tile> = game.tile_bag.clone();
    for p in &game.players {
        assert_eq!(p.rack.len(), 7);
        after.extend(p.rack.iter().cloned());
    }
    before.sort();
    assert_eq!(sorted_letters(&after), before);
}

#[test]
fn start_needs_two_players() {
    let mut game = make_game();
    game.add_player("p1".into(), "Alice".into());
    assert_eq!(game.start(0), Err("Need at least 2 players".to_string()));
    assert_eq!(game.phase, GamePhase::Lobby);
    assert_eq!(game.players[0].rack.len(), 0);
    game.add_player("p2".into(), "Bob".into());
    assert!(!game.all_ready());
    game.players[0].ready = true;
    game.players[1].ready = true;
    assert!(game.all_ready());
    assert_eq!(game.start(1), Ok(()));
    assert_eq!(game.phase, GamePhase::Playing);
    assert_eq!(game.current_player_index(), 1);
    assert_eq!(game.tiles_remaining(), 170 - 14);
}

#[test]
fn turns_go_round() {
    let mut game = make_game();
    game.add_player("p1".into(), "Alice".into());
    game.add_player("p2".into(), "Bob".into());
    game.add_player("p3".into(), "Ada".into());
    game.start(2).unwrap();
    game.next_turn();
    assert_eq!(game.current_player_index(), 0);
    game.next_turn();
    assert_eq!(game.current_player_index(), 1);
}

#[test]
fn everyone_passing_ends_the_game() {
    let mut game = make_game();
    game.add_player("p1".into(), "Alice".into());
    game.add_player("p2".into(), "Bob".into());
    game.add_player("p3".into(), "Ada".into());
    game.start(0).unwrap();
    game.pass_turn();
    game.pass_turn();
    assert_eq!(game.phase, GamePhase::Playing);
    assert_eq!(game.consecutive_passes, 2);
    game.pass_turn();
    assert_eq!(game.phase, GamePhase::Finished);
    assert_eq!(game.get_winner(), None);
}

#[test]
fn exchange_keeps_every_tile() {
    let mut game = make_game();
    game.add_player("p1".into(), "Alice".into());
    game.add_player("p2".into(), "Bob".into());
    game.start(0).unwrap();
    let mut before: Vec<Tile> = game.tile_bag.clone();
    before.extend(game.players[0].rack.iter().cloned());
    let letters: Vec<String> = game.players[0].rack[..3].iter().map(|t| t.letter.clone()).collect();
    assert_eq!(game.exchange_tiles(&letters), Ok(()));
    assert_eq!(game.players[0].rack.len(), 7);
    assert_eq!(game.tile_bag.len(), 170 - 14);
    let mut after: Vec<Tile> = game.tile_bag.clone();
    after.extend(game.players[0].rack.iter().cloned());
    assert_eq!(sorted_letters(&after), sorted_letters(&before));
}

#[test]
fn exchange_draws_new_tiles_before_returning_the_old() {
    let mut game = make_game();
    game.add_player("p1".into(), "Alice".into());
    game.add_player("p2".into(), "Bob".into());
    game.current_turn = 0;
    game.players[0].rack = vec![tile("a", 1)];
    game.tile_bag = vec![tile("z", 6)];
    assert_eq!(game.exchange_tiles(&["a".to_string()]), Ok(()));
    let rack: Vec<(String, u8)> = game.players[0].rack.iter().map(|t| (t.letter.clone(), t.value)).collect();
    let bag: Vec<(String, u8)> = game.tile_bag.iter().map(|t| (t.letter.clone(), t.value)).collect();
    assert_eq!(rack, vec![("z".to_string(), 6)]);
    assert_eq!(bag, vec![("a".to_string(), 1)]);
}

#[test]
fn exchange_counts_repeated_letters() {
    let mut game = make_game();
    game.add_player("p1".into(), "Alice".into());
    game.add_player("p2".into(), "Bob".into());
    game.current_turn = 0;
    game.players[0].rack = vec![tile("a", 1), tile("b", 2)];
    assert_eq!(game.exchange_tiles(&["a".to_string(), "a".to_string()]), Err("Tile 'a' not in rack".to_string()));
    game.players[0].rack = vec![tile("a", 1), tile("a", 1)];
    assert_eq!(game.exchange_tiles(&["a".to_string(), "a".to_string()]), Ok(()));
}

#[test]
fn exchange_refuses_a_missing_letter() {
    let mut game = make_game();
    game.add_player("p1".into(), "Alice".into());
    game.add_player("p2".into(), "Bob".into());
    game.start(0).unwrap();
    game.players[0].rack = vec![tile("a", 1), tile("b", 2)];
    let bag_before = game.tile_bag.len();
    assert_eq!(game.exchange_tiles(&["z".to_string()]), Err("Tile 'z' not in rack".to_string()));
    assert_eq!(game.tile_bag.len(), bag_before);
    assert_eq!(game.players[0].rack.len(), 2);
}

#[test]
fn game_ends_when_the_rack_and_bag_are_empty() {
    let mut game = make_game();
    game.add_player("p1".into(), "Alice".into());
    game.add_player("p2".into(), "Bob".into());
    game.add_player("p3".into(), "Ada".into());
    game.start(0).unwrap();
    assert!(!game.check_game_end());
    game.tile_bag.clear();
    game.players[0].rack.clear();
    game.players[0].score = 12;
    game.players[1].score = 30;
    game.players[2].score = 30;
    assert!(game.check_game_end());
    assert_eq!(game.phase, GamePhase::Finished);
    assert_eq!(game.get_winner(), Some("p3".to_string()));
}

#[test]
fn the_best_draw_goes_first() {
    let draws = vec![
        ("p1".to_string(), "o".to_string()),
        ("p2".to_string(), "b".to_string()),
        ("p3".to_string(), "b".to_string()),
    ];
    assert_eq!(first_drawer(&draws), 1);
    let with_blank = vec![("p1".to_string(), "a".to_string()), ("p2".to_string(), " ".to_string())];
    assert_eq!(first_drawer(&with_blank), 1);
    let mut game = make_game();
    game.add_player("p1".into(), "Alice".into());
    game.add_player("p2".into(), "Bob".into());
    let mut before: Vec<(String, u8)> = game.tile_bag.iter().map(|t| (t.letter.clone(), t.value)).collect();
    before.sort();
    let (first, drawn) = game.draw_for_first();
    let mut after: Vec<(String, u8)> = game.tile_bag.iter().map(|t| (t.letter.clone(), t.value)).collect();
    after.sort();
    assert_eq!(after, before);
    assert_eq!(drawn.len(), 2);
    assert_eq!(drawn[0].0, "p1");
    assert_eq!(drawn[1].0, "p2");
    assert!(first < 2);
    assert_eq!(game.tile_bag.len(), 170);
}
