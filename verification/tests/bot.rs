use epeletii::bot::{get_bot_profiles, make_bot_move, BotMoveAction};
use epeletii::dictionary::Dictionary;
use epeletii::game::{Game, GamePhase};
use epeletii::tiles::Tile;

fn tile(letter: &str) -> Tile {
    Tile { letter: letter.to_string(), value: 1 }
}

fn game_with(words: &[&str]) -> Game {
    let dict = Dictionary::from_word_lines(words.iter().map(|w| w.to_string()).collect());
    let mut game = Game::new(dict);
    game.add_player("player1".to_string(), "Human".to_string());
    game.add_player("bot1".to_string(), "Bot".to_string());
    game.phase = GamePhase::Playing;
    game
}

#[test]
fn test_bot_can_find_first_move() {
    let mut game = game_with(&["bad", "bo", "ode", "xyz", "bead"]);
    game.players[0].rack = vec![
        Tile { letter: "b".to_string(), value: 2 },
        Tile { letter: "o".to_string(), value: 1 },
        Tile { letter: "a".to_string(), value: 1 },
        Tile { letter: "d".to_string(), value: 3 },
        Tile { letter: "e".to_string(), value: 1 },
        Tile { letter: "i".to_string(), value: 1 },
    ];

    let action = make_bot_move(&game, 0, "Curlew (Okolo)");
    match action {
        Some(BotMoveAction::PlaceTiles { placements }) => {
            assert!(!placements.is_empty(), "Bot should place some tiles");
            // The first placement must cover (7,7)
            let covers_center = placements.iter().any(|p| p.row == 7 && p.col == 7);
            assert!(covers_center, "First placement must cover center square (7,7)");
        }
        _ => panic!("Bot should have played a word on an empty board"),
    }
}

#[test]
fn grandmaster_plays_the_best_opening() {
    let mut game = game_with(&["bo", "bad", "ado"]);
    game.players[0].rack = ["b", "a", "d", "o"].iter().map(|l| tile(l)).collect();
    let Some(BotMoveAction::PlaceTiles { placements }) = make_bot_move(&game, 0, "Ikuba") else {
        panic!("the grandmaster should play");
    };
    let tuples: Vec<(usize, usize, String)> = placements.iter().map(|p| (p.row, p.col, p.letter.clone())).collect();
    assert_eq!(game.try_move(&tuples), Some(Some(12)));
    assert!(placements.iter().any(|p| p.row == 7 && p.col == 7));
}

#[test]
fn a_bot_without_words_exchanges() {
    let mut game = game_with(&["xyz"]);
    game.players[1].rack = ["b", "a", "d", "o", "e"].iter().map(|l| tile(l)).collect();
    match make_bot_move(&game, 1, "King Jaja") {
        Some(BotMoveAction::ExchangeTiles { letters }) => {
            assert_eq!(letters.len(), 3);
            for l in &letters {
                assert!(["b", "a", "d", "o", "e"].contains(&l.as_str()));
            }
        }
        _ => panic!("the bot should exchange"),
    }
    game.tile_bag.clear();
    assert!(matches!(make_bot_move(&game, 1, "King Jaja"), Some(BotMoveAction::PassTurn)));
}

#[test]
fn a_long_word_alone_leaves_the_fallback() {
    let mut game = game_with(&["abakakaba"]);
    game.players[0].rack = ["a", "b"].iter().map(|l| tile(l)).collect();
    assert!(matches!(make_bot_move(&game, 0, "Ikuba"), Some(BotMoveAction::ExchangeTiles { .. })));
    assert!(make_bot_move(&game, 0, "Curlew (Okolo)").is_some());
}

#[test]
fn the_bot_builds_on_the_board() {
    let mut game = game_with(&["bad", "ado"]);
    game.players[0].rack = ["b", "a", "d"].iter().map(|l| tile(l)).collect();
    game.place_tiles(&[(7, 6, "b".to_string()), (7, 7, "a".to_string()), (7, 8, "d".to_string())]).unwrap();
    game.next_turn();
    game.players[1].rack = ["d", "o", "e"].iter().map(|l| tile(l)).collect();
    match make_bot_move(&game, 1, "Ikuba") {
        Some(BotMoveAction::PlaceTiles { placements }) => {
            let tuples: Vec<(usize, usize, String)> = placements.iter().map(|p| (p.row, p.col, p.letter.clone())).collect();
            assert!(matches!(game.try_move(&tuples), Some(Some(_))));
            assert!(placements.iter().all(|p| game.board.tile_at(p.row, p.col).is_none()));
        }
        other => panic!("the bot should play, not {:?}", other),
    }
}

#[test]
fn seven_bots_are_listed() {
    let profiles = get_bot_profiles();
    assert_eq!(profiles.len(), 7);
    assert_eq!(profiles[0].name, "Curlew (Okolo)");
    assert_eq!(profiles[0].rating, 600);
    assert_eq!(profiles[6].name, "Ikuba");
    assert_eq!(profiles[6].rating, 2200);
    assert_eq!(profiles[3].role, "First and Only Female Reigning Monarch of Grand Bonny");
    assert_eq!(profiles[5].greetings.len(), 2);
    assert_eq!(profiles[2].low_score_phrases[1], "A minor trade, but strategic.");
}

#[test]
fn a_word_too_long_for_the_opening_is_skipped() {
    let mut game = game_with(&["abakakaba", "bad"]);
    game.players[0].rack = ["b", "a", "d"].iter().map(|l| tile(l)).collect();
    match make_bot_move(&game, 0, "Ikuba") {
        Some(BotMoveAction::PlaceTiles { placements }) => {
            let letters: Vec<String> = placements.iter().map(|p| p.letter.clone()).collect();
            assert_eq!(letters, vec!["b".to_string(), "a".to_string(), "d".to_string()]);
            assert!(placements.iter().any(|p| p.row == 7 && p.col == 7));
        }
        _ => panic!("the bot should play the short word"),
    }
}
