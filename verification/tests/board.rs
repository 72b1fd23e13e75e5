use epeletii::board::{Board, Premium};
use epeletii::session::board_squares;

#[test]
fn test_board_creation() {
    let board = Board::new();
    assert_eq!(board.squares.len(), 15);
    assert_eq!(board.squares[0].len(), 15);
}

#[test]
fn test_center_is_dw() {
    let board = Board::new();
    assert_eq!(board.squares[7][7].premium, Premium::DW);
}

#[test]
fn test_corners_are_tw() {
    let board = Board::new();
    assert_eq!(board.squares[0][0].premium, Premium::TW);
    assert_eq!(board.squares[0][14].premium, Premium::TW);
    assert_eq!(board.squares[14][0].premium, Premium::TW);
    assert_eq!(board.squares[14][14].premium, Premium::TW);
}

#[test]
fn test_edge_mid_are_tw() {
    let board = Board::new();
    assert_eq!(board.squares[0][7].premium, Premium::TW, "(0,7) should be TW");
    assert_eq!(board.squares[7][0].premium, Premium::TW, "(7,0) should be TW");
    assert_eq!(board.squares[7][14].premium, Premium::TW, "(7,14) should be TW");
    assert_eq!(board.squares[14][7].premium, Premium::TW, "(14,7) should be TW");
}

#[test]
fn test_place_and_get_tile() {
    let mut board = Board::new();
    assert!(board.place_tile(7, 7, "a", 0).is_ok());
    assert_eq!(board.tile_at(7, 7), Some("a"));
    assert!(board.place_tile(7, 7, "b", 1).is_err()); // occupied
}

#[test]
fn premium_layout_is_symmetric() {
    let board = Board::new();
    for r in 0..15 {
        for c in 0..15 {
            let p = board.squares[r][c].premium;
            assert_eq!(p, board.squares[c][r].premium);
            assert_eq!(p, board.squares[14 - r][c].premium);
            assert_eq!(p, board.squares[r][14 - c].premium);
        }
    }
    assert_eq!(board.squares[1][5].premium, Premium::TL);
    assert_eq!(board.squares[0][3].premium, Premium::DL);
    assert_eq!(board.squares[1][1].premium, Premium::DW);
    assert_eq!(board.squares[7][6].premium, Premium::Normal);
}

#[test]
fn place_tile_reports_position_errors() {
    let mut board = Board::new();
    assert_eq!(board.place_tile(15, 3, "a", 0), Err("Position (15, 3) is out of bounds".to_string()));
    board.place_tile(2, 3, "a", 0).unwrap();
    assert_eq!(board.place_tile(2, 3, "e", 1), Err("Square (2, 3) is already occupied".to_string()));
    assert_eq!(board.squares[2][3].owner, Some(0));
}

#[test]
fn bounds_and_reset() {
    let mut board = Board::new();
    assert!(board.in_bounds(0, 14));
    assert!(!board.in_bounds(-1, 3));
    assert!(!board.in_bounds(3, 15));
    board.place_tile(4, 4, "o", 1).unwrap();
    board.reset();
    assert_eq!(board.tile_at(4, 4), None);
    assert_eq!(board.squares[4][4].owner, None);
}

#[test]
fn board_squares_name_premiums() {
    let mut board = Board::new();
    board.place_tile(7, 7, "b", 1).unwrap();
    let squares = board_squares(&board);
    assert_eq!(squares.len(), 15);
    assert_eq!(squares[7][7].premium, "DW");
    assert_eq!(squares[7][7].tile, Some("b".to_string()));
    assert_eq!(squares[7][7].owner, Some(1));
    assert_eq!(squares[0][0].premium, "TW");
    assert_eq!(squares[0][3].premium, "DL");
    assert_eq!(squares[1][5].premium, "TL");
    assert_eq!(squares[7][6].premium, "Normal");
    assert_eq!((squares[3][9].row, squares[3][9].col), (3, 9));
}
