use msg_sampling::spawn::SpawnPointSet;
use msg_sampling::tile::TilePos;

#[test]
fn spawn_point_set_points_in_rect() {
    let points = vec![
        TilePos::new(0, 0),
        TilePos::new(5, 5),
        TilePos::new(10, 10),
        TilePos::new(15, 15),
        TilePos::new(-5, -5),
    ];
    let set = SpawnPointSet::new(points);

    let in_rect: Vec<TilePos> = set.points_in_rect(TilePos::new(0, 0), TilePos::new(10, 10));

    assert_eq!(in_rect.len(), 3);
    assert!(in_rect.contains(&TilePos::new(0, 0)));
    assert!(in_rect.contains(&TilePos::new(5, 5)));
    assert!(in_rect.contains(&TilePos::new(10, 10)));
}

#[test]
fn spawn_point_set_exposes_all_points() {
    let points = vec![TilePos::new(1, 2), TilePos::new(-3, 4)];
    let set = SpawnPointSet::new(points.clone());

    assert_eq!(set.points(), points.as_slice());
    let iterated: Vec<TilePos> = set.iter();
    assert_eq!(iterated, points);
}

#[test]
fn points_in_rect_keeps_order_and_borders() {
    let set = SpawnPointSet::new(vec![
        TilePos::new(3, 0),
        TilePos::new(-1, 2),
        TilePos::new(0, 3),
        TilePos::new(3, 4),
        TilePos::new(1, 1),
    ]);
    let got = set.points_in_rect(TilePos::new(0, 0), TilePos::new(3, 3));
    assert_eq!(
        got,
        vec![TilePos::new(3, 0), TilePos::new(0, 3), TilePos::new(1, 1)]
    );
}

#[test]
fn points_in_rect_with_inverted_corners_is_empty() {
    let set = SpawnPointSet::new(vec![TilePos::new(0, 0), TilePos::new(1, 1)]);
    assert!(set
        .points_in_rect(TilePos::new(1, 1), TilePos::new(0, 0))
        .is_empty());
}

#[test]
fn len_and_is_empty_follow_the_points() {
    let empty = SpawnPointSet::default();
    assert_eq!(empty.len(), 0);
    assert!(empty.is_empty());
    assert!(empty.points().is_empty());

    let set = SpawnPointSet::new(vec![TilePos::new(7, -7), TilePos::new(7, -7)]);
    assert_eq!(set.len(), 2);
    assert!(!set.is_empty());
}

#[test]
fn rect_covering_every_point_returns_all_of_them() {
    let points = vec![TilePos::new(i32::MIN, 0), TilePos::new(i32::MAX, -9)];
    let set = SpawnPointSet::new(points.clone());
    let all = set.points_in_rect(TilePos::new(i32::MIN, i32::MIN), TilePos::new(i32::MAX, i32::MAX));
    assert_eq!(all, points);
}
