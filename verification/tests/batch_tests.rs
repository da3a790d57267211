use pixelstratwar::coords::AxialCoords;
use pixelstratwar::game::GameData;
use pixelstratwar::store::MockRedisHandler;

#[test]
fn batch_list_is_a_permutation() {
    let game = GameData::new(10, 2);
    let mut list = game.get_batch_list();
    assert_eq!(list.len(), 4);
    list.sort();
    assert_eq!(list, vec![0, 1, 2, 3]);
}

#[test]
fn compute_batch_rejects_unknown_index() {
    let game = GameData::new(10, 2);
    let store = MockRedisHandler::new();
    assert!(game.compute_batch(&store, 4).is_err());
    assert!(game.compute_batch(&store, 0).is_ok());
}

#[test]
fn compute_batch_projects_stored_tiles() {
    let game = GameData::new(10, 2);
    let mut store = MockRedisHandler::new();

    // two contiguous tiles of one user
    game.handle_click(&mut store, &AxialCoords::new(0, 0), "user_a");
    game.handle_click(&mut store, &AxialCoords::new(0, 1), "user_a");

    // collect the rows of every batch
    let mut rows: Vec<(i32, i32, u8, String)> = Vec::new();
    for b in 0..4 {
        rows.extend(game.compute_batch(&store, b).unwrap());
    }
    rows.sort();
    assert_eq!(rows.len(), 2);
    assert_eq!(rows[0], (0, 0, 2, "user_a".to_string()));
    assert_eq!(rows[1], (0, 1, 2, "user_a".to_string()));
}
