use epeletii::dictionary::Dictionary;
use epeletii::game::{Game, GamePhase};
use epeletii::session::{player_info_list, registered_results};

fn table(scores: &[(&str, &str, u32)]) -> Game {
    let mut game = Game::new(Dictionary::from_word_lines(Vec::new()));
    for (id, name, score) in scores {
        game.add_player(id.to_string(), name.to_string());
        game.players.last_mut().unwrap().score = *score;
    }
    game.start(0).unwrap();
    game
}

#[test]
fn resigned_points_are_shared_out() {
    let mut game = table(&[("a@x.org", "Ada", 40), ("bob", "Bob", 10), ("c@x.org", "Cy", 25)]);
    let (winner, message) = game.resign("a@x.org").unwrap();
    assert_eq!(game.players[0].score, 0);
    assert_eq!(game.players[1].score, 30);
    assert_eq!(game.players[2].score, 45);
    assert_eq!(winner, Some("c@x.org".to_string()));
    assert_eq!(message, "Ada resigned. Their points were transferred to Cy!");
    assert_eq!(game.phase, GamePhase::Finished);
    assert_eq!(game.get_winner(), Some("c@x.org".to_string()));
}

#[test]
fn a_resignation_loses_only_the_remainder() {
    let mut game = table(&[("p1", "Ann", 7), ("p2", "Ben", 5), ("p3", "Col", 5)]);
    let before: u32 = game.players.iter().map(|p| p.score).sum();
    let (winner, _) = game.resign("p1").unwrap();
    let after: u32 = game.players.iter().map(|p| p.score).sum();
    assert_eq!(after, before - 7 % 2);
    assert_eq!(winner, Some("p3".to_string()));
}

#[test]
fn an_unknown_player_cannot_resign() {
    let mut game = table(&[("p1", "Ann", 7), ("p2", "Ben", 5)]);
    assert!(game.resign("nobody").is_none());
    assert_eq!(game.phase, GamePhase::Playing);
    assert_eq!(game.players[0].score, 7);
}

#[test]
fn results_are_recorded_for_accounts_only() {
    let mut game = table(&[("a@x.org", "Ada", 40), ("bob", "Bob", 10), ("c@x.org", "Cy", 25)]);
    game.resign("bob").unwrap();
    let results = registered_results(&game);
    assert_eq!(results, vec![("a@x.org".to_string(), 45, true), ("c@x.org".to_string(), 30, false)]);
}

#[test]
fn clients_see_scores_and_rack_sizes() {
    let mut game = table(&[("p1", "Ann", 7), ("p2", "Ben", 5)]);
    game.players[1].is_bot = true;
    game.players[1].bot_level = Some("King Jaja".to_string());
    let infos = player_info_list(&game);
    assert_eq!(infos.len(), 2);
    assert_eq!(infos[0].id, "p1");
    assert_eq!(infos[0].name, "Ann");
    assert_eq!(infos[0].score, 7);
    assert_eq!(infos[0].tile_count, 7);
    assert!(!infos[0].is_bot);
    assert!(infos[1].is_bot);
    assert_eq!(infos[1].bot_level, Some("King Jaja".to_string()));
}

#[test]
fn a_resignation_that_would_overflow_is_flagged() {
    let mut game = table(&[("p1", "Ann", 10), ("p2", "Ben", u32::MAX - 4), ("p3", "Col", 1)]);
    assert!(!game.resign_fits_scores("p1"));
    assert!(game.resign_fits_scores("p3"));
    assert!(game.resign_fits_scores("nobody"));
    game.players[1].score = u32::MAX - 5;
    assert!(game.resign_fits_scores("p1"));
}
