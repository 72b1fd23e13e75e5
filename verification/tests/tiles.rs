use epeletii::tiles::{letter_points, standard_tile_bag};

#[test]
fn test_tile_bag_size() {
    let bag = standard_tile_bag();
    assert_eq!(bag.len(), 170, "Standard bag should have 170 tiles");
}

#[test]
fn test_letter_points_consistency() {
    let pts = letter_points();
    assert_eq!(*pts.get("a").unwrap(), 1);
    assert_eq!(*pts.get("i").unwrap(), 1);
    assert_eq!(*pts.get("b").unwrap(), 2);
    assert_eq!(*pts.get(" ").unwrap(), 0);
}

#[test]
fn bag_values_match_letter_points() {
    let bag = standard_tile_bag();
    let pts = letter_points();
    for t in &bag {
        assert_eq!(*pts.get(t.letter.as_str()).unwrap(), t.value);
    }
    let count = |l: &str| bag.iter().filter(|t| t.letter == l).count();
    assert_eq!(count("a"), 12);
    assert_eq!(count("i"), 20);
    assert_eq!(count("v"), 1);
    assert_eq!(count(" "), 2);
    assert_eq!(*pts.get("v").unwrap(), 8);
    assert_eq!(*pts.get("j").unwrap(), 6);
    assert!(pts.get("x").is_none());
}
