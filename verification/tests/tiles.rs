use msg_sampling::tile::{dedup_tiles, TilePos};

#[test]
fn dedup_keeps_first_occurrences_in_order() {
    let input = vec![
        TilePos::new(1, 1),
        TilePos::new(0, 0),
        TilePos::new(1, 1),
        TilePos::new(-2, 5),
        TilePos::new(0, 0),
        TilePos::new(5, -2),
    ];
    assert_eq!(
        dedup_tiles(input),
        vec![
            TilePos::new(1, 1),
            TilePos::new(0, 0),
            TilePos::new(-2, 5),
            TilePos::new(5, -2),
        ]
    );
}

#[test]
fn dedup_of_distinct_tiles_is_identity() {
    let input = vec![TilePos::new(3, 4), TilePos::new(4, 3), TilePos::new(-3, -4)];
    assert_eq!(dedup_tiles(input.clone()), input);
}

#[test]
fn dedup_tells_extreme_coordinates_apart() {
    let input = vec![
        TilePos::new(i32::MIN, i32::MAX),
        TilePos::new(i32::MAX, i32::MIN),
        TilePos::new(i32::MIN, i32::MIN),
        TilePos::new(i32::MAX, i32::MAX),
        TilePos::new(i32::MIN, i32::MAX),
        TilePos::new(0, -1),
        TilePos::new(-1, 0),
    ];
    assert_eq!(dedup_tiles(input.clone()).len(), 6);
    assert_eq!(dedup_tiles(input)[5], TilePos::new(-1, 0));
}

#[test]
fn dedup_twice_changes_nothing() {
    let input = vec![TilePos::new(2, 2), TilePos::new(2, 2), TilePos::new(1, 2)];
    let once = dedup_tiles(input);
    assert_eq!(dedup_tiles(once.clone()), once);
}

#[test]
fn dedup_of_empty_is_empty() {
    assert!(dedup_tiles(Vec::new()).is_empty());
}
