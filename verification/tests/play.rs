use epeletii::dictionary::Dictionary;
use epeletii::game::Game;
use epeletii::tiles::Tile;

fn tile(letter: &str, value: u8) -> Tile {
    Tile { letter: letter.to_string(), value }
}

fn rack(letters: &[&str]) -> Vec<Tile> {
    letters.iter().map(|l| tile(l, 1)).collect()
}

fn started(words: &[&str], first_rack: &[&str]) -> Game {
    let dict = Dictionary::from_word_lines(words.iter().map(|w| w.to_string()).collect());
    let mut game = Game::new(dict);
    game.add_player("p1".into(), "Alice".into());
    game.add_player("p2".into(), "Bob".into());
    game.start(0).unwrap();
    game.players[0].rack = rack(first_rack);
    game
}

fn across(row: usize, col: usize, word: &str) -> Vec<(usize, usize, String)> {
    word.chars().enumerate().map(|(i, c)| (row, col + i, c.to_string())).collect()
}

fn pairs(tiles: &[Tile]) -> Vec<(String, u8)> {
    tiles.iter().map(|t| (t.letter.clone(), t.value)).collect()
}

fn sorted(tiles: &[Tile]) -> Vec<String> {
    let mut v: Vec<String> = tiles.iter().map(|t| t.letter.clone()).collect();
    v.sort();
    v
}

#[test]
fn opening_move_scores_on_the_centre() {
    let mut game = started(&["bad", "ado"], &["b", "a", "d", "o", "e", "i", "u"]);
    let moves = across(7, 6, "bad");
    // b + a + d = 6 points, doubled once by the centre square.
    assert_eq!(game.try_move(&moves), Some(Some(12)));
    let bag = game.tile_bag.len();
    assert_eq!(game.place_tiles(&moves), Ok((vec!["bad".to_string()], 12)));
    assert_eq!(game.players[0].score, 12);
    assert_eq!(game.players[0].rack.len(), 7);
    assert_eq!(game.tile_bag.len(), bag - 3);
    assert_eq!(game.board.tile_at(7, 7), Some("a"));
    assert_eq!(game.board.squares[7][7].owner, Some(0));
    assert_eq!(game.tiles_placed_this_turn, vec![(7, 6), (7, 7), (7, 8)]);
    assert_eq!(game.consecutive_passes, 0);
}

#[test]
fn opening_must_cover_the_centre() {
    let mut game = started(&["bad"], &["b", "a", "d"]);
    assert_eq!(game.place_tiles(&across(3, 3, "bad")), Err("First move must cover the center square (7,7)".to_string()));
    assert_eq!(game.players[0].rack.len(), 3);
    assert_eq!(game.board.tile_at(3, 3), None);
}

#[test]
fn moves_must_be_straight_and_contiguous() {
    let mut game = started(&["bad"], &["b", "a", "d"]);
    let bent = vec![(7, 7, "b".to_string()), (8, 8, "a".to_string())];
    assert_eq!(game.place_tiles(&bent), Err("Tiles must be in a single row or column".to_string()));
    let gappy = vec![(7, 6, "b".to_string()), (7, 8, "a".to_string())];
    assert_eq!(game.place_tiles(&gappy), Err("Tiles must be contiguous (gap at 7,7)".to_string()));
    assert_eq!(game.place_tiles(&[]), Err("No tiles placed".to_string()));
}

#[test]
fn a_missing_letter_is_refused() {
    let mut game = started(&["bad"], &["b", "a", "e"]);
    assert_eq!(game.place_tiles(&across(7, 6, "bad")), Err("Player doesn't have tile 'd'".to_string()));
    assert_eq!(game.board.tile_at(7, 6), None);
}

#[test]
fn a_blank_stands_in_for_a_missing_letter() {
    let mut game = started(&["bad"], &["b", "a", " "]);
    assert_eq!(game.place_tiles(&across(7, 6, "bad")).map(|r| r.0), Ok(vec!["bad".to_string()]));
    assert_eq!(game.board.tile_at(7, 8), Some("d"));
}

#[test]
fn one_blank_covers_one_missing_letter() {
    let mut game = started(&["bad"], &["b", " ", "e"]);
    assert_eq!(game.place_tiles(&across(7, 6, "bad")), Err("Player doesn't have tile 'd'".to_string()));
    let mut game = started(&["bad"], &["b", " ", " "]);
    assert_eq!(game.place_tiles(&across(7, 6, "bad")).map(|r| r.0), Ok(vec!["bad".to_string()]));
}

#[test]
fn a_rejected_word_leaves_the_board_as_it_was() {
    let mut game = started(&["bad"], &["d", "a", "b", "o"]);
    let before = sorted(&game.players[0].rack);
    assert_eq!(game.place_tiles(&across(7, 6, "dab")), Err("Invalid word(s): dab".to_string()));
    for c in 0..15 {
        assert_eq!(game.board.tile_at(7, c), None);
        assert_eq!(game.board.squares[7][c].owner, None);
    }
    assert_eq!(sorted(&game.players[0].rack), before);
    assert_eq!(game.players[0].score, 0);
    let b = game.players[0].rack.iter().find(|t| t.letter == "b").unwrap();
    assert_eq!(b.value, 1);
}

#[test]
fn a_rejected_word_gives_back_the_very_tiles_played() {
    let mut game = started(&["bad"], &["d", "a", " "]);
    game.players[0].rack[0].value = 9;
    let before = pairs(&game.players[0].rack);
    let moves = vec![(7, 6, "D".to_string()), (7, 7, "a".to_string()), (7, 8, "b".to_string())];
    assert_eq!(game.place_tiles(&moves), Err("Invalid word(s): Dab".to_string()));
    assert_eq!(pairs(&game.players[0].rack), before);
    assert_eq!(game.board.tile_at(7, 8), None);
}

#[test]
fn a_move_with_all_seven_tiles_earns_the_bonus() {
    let mut game = started(&["abakaka"], &["a", "b", "a", "k", "a", "k", "a"]);
    let (words, score) = game.place_tiles(&across(7, 1, "abakaka")).unwrap();
    assert_eq!(words, vec!["abakaka".to_string()]);
    assert_eq!(game.players[0].score, score + 50);
    assert_eq!(game.players[0].rack.len(), 7);
}

#[test]
fn emptying_a_short_rack_earns_no_bonus() {
    let mut game = started(&["bad"], &["b", "a", "d"]);
    game.tile_bag.clear();
    assert_eq!(game.place_tiles(&across(7, 6, "bad")), Ok((vec!["bad".to_string()], 12)));
    assert!(game.players[0].rack.is_empty());
    assert_eq!(game.players[0].score, 12);
}

#[test]
fn every_square_between_the_ends_must_be_filled() {
    let mut game = started(&["bad", "ba", "bab"], &["b", "a", "d", "b", "e"]);
    game.board.place_tile(7, 6, "a", 1).unwrap();
    let ends = vec![(7, 5, "b".to_string()), (7, 9, "d".to_string())];
    assert_eq!(game.place_tiles(&ends), Err("Tiles must be contiguous (gap at 7,7)".to_string()));
    assert_eq!(game.players[0].rack.len(), 5);
    assert_eq!(game.board.tile_at(7, 5), None);
    // a square already holding a tile closes the gap
    let around = vec![(7, 5, "b".to_string()), (7, 7, "b".to_string())];
    assert_eq!(game.place_tiles(&around), Ok((vec!["bab".to_string()], 10)));
}

#[test]
fn a_word_scores_from_its_own_squares() {
    let mut game = started(&["ab"], &["b", "e"]);
    game.board.place_tile(6, 7, "a", 1).unwrap();
    let moves = vec![(6, 8, "b".to_string())];
    // a 1 + b 2 doubled on the double letter square
    assert_eq!(game.try_move(&moves), Some(Some(5)));
    // an unrelated word that also begins with a changes nothing
    game.board.place_tile(0, 10, "a", 1).unwrap();
    game.board.place_tile(0, 11, "x", 1).unwrap();
    assert_eq!(game.try_move(&moves), Some(Some(5)));
    assert_eq!(game.place_tiles(&moves), Ok((vec!["ab".to_string()], 5)));
}

#[test]
fn moves_wait_for_the_game_to_start() {
    let dict = Dictionary::from_word_lines(vec!["bad".to_string()]);
    let mut game = Game::new(dict);
    game.add_player("p1".into(), "Alice".into());
    assert_eq!(game.place_tiles(&across(7, 6, "bad")), Err("Game is not in playing phase".to_string()));
    assert_eq!(game.place_tiles_checked(&across(7, 6, "bad")), Some(Err("Game is not in playing phase".to_string())));
}

#[test]
fn a_second_word_must_connect() {
    let mut game = started(&["bad", "bo", "ado"], &["b", "a", "d", "o", "o", "e", "i"]);
    game.place_tiles(&across(7, 6, "bad")).unwrap();
    game.next_turn();
    game.players[1].rack = rack(&["b", "o", "a", "d", "o"]);
    assert_eq!(game.place_tiles(&across(0, 0, "bo")), Err("Tiles must connect to existing tiles on the board".to_string()));
    let single = vec![(8, 6, "o".to_string())];
    assert_eq!(game.place_tiles(&single), Err("Invalid word(s): o".to_string()));
    assert_eq!(game.board.tile_at(8, 6), None);
    let down = vec![(8, 7, "d".to_string()), (9, 7, "o".to_string())];
    assert_eq!(game.place_tiles(&down), Ok((vec!["ado".to_string()], 5)));
    assert_eq!(game.players[1].score, 5);
}
