use pixelstratwar::coords::AxialCoords;
use pixelstratwar::game::GameData;
use pixelstratwar::store::MockRedisHandler;
use pixelstratwar::tilemap::TileMap;

#[test]
pub fn contiguous_neighbors_of_tile_empty() {
    let mock_redis = MockRedisHandler::new();

    let game_data = GameData::new(10, 2);
    let coords = AxialCoords::new(0, 0);
    let mut prefetch = TileMap::new();

    let _ = game_data.fetch_within(&mock_redis, &coords, &mut prefetch);
    let (tiles, nb) = game_data.contiguous_neighbors_of_tile(&prefetch, &coords, "toto", 2);

    assert!(
        tiles.len() == 0 && nb == 0,
        "When user didn't click, it should not have any neighbors tile"
    );
}

#[test]
pub fn test_fetch_within() {
    let game_data = GameData::new(10, 2);
    let mut mock_redis = MockRedisHandler::new();

    let center = AxialCoords::center();

    let updated_tiles = game_data.handle_click(&mut mock_redis, &center, "first_user_id");

    let nb_updated = updated_tiles.len();
    // check we have one updated tile
    assert!(
        nb_updated == 1 && pixelstratwar::test_utils::are_coords_in_vec(&updated_tiles, &center).is_some(),
        "Updated tiles should have one element (got {nb_updated}) and contain (0,0)",
    );

    game_data.handle_click(&mut mock_redis, &AxialCoords::new(0, 1), "first_user_id");
    game_data.handle_click(&mut mock_redis, &AxialCoords::new(0, 2), "first_user_id");
    game_data.handle_click(&mut mock_redis, &AxialCoords::new(0, 3), "first_user_id");

    let mut prefetched = TileMap::new();

    game_data.fetch_within(&mock_redis, &center, &mut prefetched);

    let center_t = prefetched
        .get(&center)
        .expect("Fetched tiles hashmap should contain (0,0)");
    assert!(
        center_t.user_id == "first_user_id".to_string() && center_t.damage == 0,
        "Prefetched data should contain center with expected data"
    );

    let zero_one_t = prefetched
        .get(&AxialCoords::new(0, 1))
        .expect("Prefeteched should contain (0,1)");

    assert!(
        zero_one_t.user_id == "first_user_id".to_string() && zero_one_t.damage == 0,
        "(0, 1) should be owned by first user and have 0 damage"
    );

    let zero_two_t = prefetched
        .get(&AxialCoords::new(0, 2))
        .expect("Prefetched should contain (0,2)");
    assert!(
        zero_two_t.user_id == "first_user_id".to_string() && zero_two_t.damage == 0,
        "(0,2) should be owned by first user and have 0 damage"
    );

    assert!(
        prefetched.get(&AxialCoords::new(0, 3)).is_none(),
        "Prefeteched hashmap should not contain (0,3) because not in 2 radius"
    );

    let _ = mock_redis.flushdb();
}

/// Scenario, format: [<[A-Z]:user> - (<[0-9]+:q>,<[0-9]+:r>):coords], each list item
/// is a click on the grid
/// 1. [A, (0, 0)]
/// 2. [A, (0,-1)]
/// 3. [A, (0,-2)] // at this point (0,0) should have 2 contiguous neighbors
/// 4. [A, (0,-3)] // (0,0) should still have 2 contiguous neighbors
/// 5. [B, (0, 1)]
/// 6. [A, (1, 0)] // now (0,0) has 3 contiguous neighbors
#[test]
pub fn contiguous_neighbors_of_tile_with_clicks() {
    let game_data = GameData::new(10, 2);
    let mut mock_redis = MockRedisHandler::new();

    let center = AxialCoords::center();

    let updated_tiles = game_data.handle_click(&mut mock_redis, &center, "first_user_id");

    let nb_updated = updated_tiles.len();

    // check we have one updated tile
    assert!(
        nb_updated == 1 && pixelstratwar::test_utils::are_coords_in_vec(&updated_tiles, &center).is_some(),
        "Updated tiles should have one element (got {nb_updated}) and contain (0,0)",
    );

    game_data.handle_click(&mut mock_redis, &AxialCoords::new(0, -1), "first_user_id");
    game_data.handle_click(&mut mock_redis, &AxialCoords::new(0, -2), "first_user_id");

    let mut prefetched = TileMap::new();
    game_data.fetch_within(&mock_redis, &center, &mut prefetched);

    let (contiguous_tiles, nb) =
        game_data.contiguous_neighbors_of_tile(&prefetched, &center, "first_user_id", 2);

    assert!(
        nb == 2,
        "Contiguous tile should contain 2 elements (got {nb})"
    );

    assert!(
        contiguous_tiles
            .iter()
            .find(|(coords, _)| coords == &center)
            .is_none(),
        "Contiguous tiles should not contain (0,0) tile because it's center of the contiguity check",
    );

    game_data.handle_click(&mut mock_redis, &AxialCoords::new(0, -3), "first_user_id");
    game_data.handle_click(&mut mock_redis, &AxialCoords::new(0, 1), "second_user_id");
    game_data.handle_click(&mut mock_redis, &AxialCoords::new(1, 0), "first_user_id");

    let coords = AxialCoords::center();

    let mut prefetch = TileMap::new();
    game_data.fetch_within(&mock_redis, &coords, &mut prefetch);

    let (tiles, nb) = game_data.contiguous_neighbors_of_tile(&prefetch, &coords, "first_user_id", 2);

    // check proper tiles in vec

    assert!(nb == 3, "In that scenario, we should have 3 contiguous tiles (got {nb}) in a radius of 2 from (0,0) owned by first user");

    assert!(
        tiles
            .iter()
            .find(|(coords, _)| coords == &AxialCoords::new(0, -1))
            .is_some(),
        "Contiguous neighbors vector should contain (0,-1)"
    );

    assert!(
        tiles
            .iter()
            .find(|(coords, _)| coords == &AxialCoords::new(0, -2))
            .is_some(),
        "Contiguous neighbors vector should contain (0,-2)"
    );

    assert!(
        tiles
            .iter()
            .find(|(coords, _)| coords == &AxialCoords::new(0, -3))
            .is_none(),
        "Contiguous neighbors vector should NOT contain (0,-3) because it's outside asked radius"
    );

    assert!(
        tiles
            .iter()
            .find(|(coords, _)| coords == &AxialCoords::new(0, 1))
            .is_none(),
        "Contiguous neighbors vector should NOT contain (0,1) because it's owned by an other user"
    );

    let _ = mock_redis.flushdb();
}

/// core game behavior testing, all actions, format: [<[A-Z]:user> - (<[0-9]+:q>,<[0-9]+:r>):coords]
/// 1. [A, (0, 0)]
/// 2. [A, (1, 0)]
/// 3. [A, (0,-1)]
/// 4. [A, (0,-2)]
/// 5. [A, (0,-3)]
/// 6. [B, (0, 1)]
/// 7. [B, (0, 2)]
/// 8. [A, (0, 1)] => should damage (0,1)
/// 9. [A, (0, 1)] => should take ownership of (0,1)
/// 10. [A, (-2, 0)] => within radius of (0,0) but not contiguous
#[test]
pub fn game_behavior_taking_ownership() {
    // init game data with basic ownership
    let game_data = GameData::new(10, 2);
    let mut mock_redis = MockRedisHandler::new();

    let _ = game_data.handle_click(&mut mock_redis, &AxialCoords::center(), "first_user_id");
    let _ = game_data.handle_click(&mut mock_redis, &AxialCoords::new(1, 0), "first_user_id");
    let _ = game_data.handle_click(&mut mock_redis, &AxialCoords::new(0, -1), "first_user_id");
    let _ = game_data.handle_click(&mut mock_redis, &AxialCoords::new(0, -2), "first_user_id");
    game_data.handle_click(&mut mock_redis, &AxialCoords::new(0, -3), "first_user_id");

    // tile with a single neighbor owned by another user, should require 2 clicks to take ownership
    game_data.handle_click(&mut mock_redis, &AxialCoords::new(0, 1), "second_user_id");
    game_data.handle_click(&mut mock_redis, &AxialCoords::new(0, 2), "second_user_id");

    // check state is OK after all clicks

    // check (0,0)
    let mut tile_to_check = mock_redis
        .get_tile(&AxialCoords::center())
        .expect("Should have tile a (0,0)");

    assert!(
        tile_to_check.damage == 0 && tile_to_check.user_id == String::from("first_user_id"),
        "(0,0) should be owned by first user and have no damage"
    );

    let mut prefetch = TileMap::new();
    // check computed tile of (0,0)
    let mut computed_tile_to_check = game_data
        .computed_tile(&mock_redis, &AxialCoords::center(), &tile_to_check, &mut prefetch)
        .expect("Failed to compute tile to check");

    assert!(
        computed_tile_to_check.strength == 4
            && computed_tile_to_check.user_id == "first_user_id".to_string(),
        "(0,0) has no damage + 3 contiguous neighbors in a radius of 2 => strengh should eq 4"
    );

    // check (1,0)
    tile_to_check = mock_redis
        .get_tile(&AxialCoords::new(1, 0))
        .expect("Should find tile at (1,0)");

    assert!(
        tile_to_check.damage == 0 && tile_to_check.user_id == String::from("first_user_id"),
        "(1,0) should be owned by first user and have no damage"
    );

    // check (0,-1)
    tile_to_check = mock_redis
        .get_tile(&AxialCoords::new(0, -1))
        .expect("Should find tile at (0, -1)");

    assert!(
        tile_to_check.damage == 0 && tile_to_check.user_id == String::from("first_user_id"),
        "(0,-1) should be owned by first user and have no damage"
    );
    // check (0,-2)
    tile_to_check = mock_redis
        .get_tile(&AxialCoords::new(0, -2))
        .expect("Should find tile at (0,-2)");

    assert!(
        tile_to_check.damage == 0 && tile_to_check.user_id == String::from("first_user_id"),
        "(0,-2) should be owned by first user and have no damage"
    );
    // check (0,-3)
    tile_to_check = mock_redis
        .get_tile(&AxialCoords::new(0, -3))
        .expect("Should find tile at (0,-3)");
    assert!(
        tile_to_check.damage == 0 && tile_to_check.user_id == String::from("first_user_id"),
        "(0,-3) should be owned by first user and have no damage"
    );
    // check (0,1)
    tile_to_check = mock_redis
        .get_tile(&AxialCoords::new(0, 1))
        .expect("Should find tile at (0,1)");
    assert!(
        tile_to_check.damage == 0 && tile_to_check.user_id == String::from("second_user_id"),
        "(0,1) should be owned by second user and have no damage"
    );
    // check (0,2)
    tile_to_check = mock_redis
        .get_tile(&AxialCoords::new(0, 2))
        .expect("should find tile at (0,2)");
    assert!(
        tile_to_check.damage == 0 && tile_to_check.user_id == String::from("second_user_id"),
        "(0,2) should be owned by second user and have no damage"
    );

    let mut prefetch = TileMap::new();

    // check computed tile of (0,2)
    computed_tile_to_check = game_data
        .computed_tile(&mock_redis, &AxialCoords::new(0, 2), &tile_to_check, &mut prefetch)
        .unwrap();

    assert!(
        computed_tile_to_check.strength == 2
            && computed_tile_to_check.user_id == "second_user_id".to_string(),
        "(0,2) has no damage + 1 contiguous neighbors in a radius of 2 => strengh should eq 2"
    );

    // click on another user tile having a neighbor but only once => no ownership taken
    let updated_tiles = game_data.handle_click(&mut mock_redis, &AxialCoords::new(0, 1), "first_user_id");

    tile_to_check = mock_redis
        .get_tile(&AxialCoords::new(0, 1))
        .expect("Should find tile at (0,1)");
    assert!(
        tile_to_check.damage == 1 && tile_to_check.user_id == String::from("second_user_id"),
        "(0,1) should still be owned by second user but with 1 damage"
    );

    let (first_updated_tile_coords, first_updated_tile_data) = updated_tiles.get(0).unwrap();
    assert!(
        updated_tiles.len() == 1
            && first_updated_tile_coords == &AxialCoords::new(0, 1)
            && first_updated_tile_data.user_id == "second_user_id"
            && first_updated_tile_data.strength == 1,
        "updated tiles vec should contain only clicked tile with a strenght of one"
    );

    let mut prefetch = TileMap::new();
    // check computed tile of (0,1) to see if damage affects overall strength
    computed_tile_to_check = game_data
        .computed_tile(&mock_redis, &AxialCoords::new(0, 1), &tile_to_check, &mut prefetch)
        .unwrap();
    assert!(
        computed_tile_to_check.strength == 1
            && computed_tile_to_check.user_id == "second_user_id".to_string(),
        "(0,1) has 1 damage + 1 contiguous neighbors in a radius of 2 => strengh should eq 1"
    );

    // click again and check we took ownership
    let updated_tiles = game_data.handle_click(&mut mock_redis, &AxialCoords::new(0, 1), "first_user_id");

    tile_to_check = mock_redis
        .get_tile(&AxialCoords::new(0, 1))
        .expect("Should find tile at (0,1)");
    assert!(
        tile_to_check.damage == 0 && tile_to_check.user_id == String::from("first_user_id"),
        "(0,1) should now be owned by first user and have no damage anymore, got {tile_to_check:?}"
    );

    let len = updated_tiles.len();
    assert!(len == 5, "should have 5 updated tiles, has {len}");

    // check (0,1) in updated tiles and have proper owner
    match updated_tiles
        .iter()
        .cloned()
        .find(|(coords, _)| coords == &AxialCoords::new(0, 1))
    {
        Some((_, tile)) => {
            assert!(
                tile.user_id == "first_user_id".to_string() && tile.strength == 4,
                "(0,1) should have a strength of 4"
            );
        }
        None => {
            assert!(false, "(0,1) should be in updated tiles vector");
        }
    };
    // check (0,2) in updated tiles, still owned by second user with strength of 1
    match updated_tiles
        .iter()
        .cloned()
        .find(|(coords, _)| coords == &AxialCoords::new(0, 2))
    {
        Some((_, tile)) => {
            assert!(
                tile.user_id == "second_user_id".to_string() && tile.strength == 1,
                "(0,2) should still be owned by second user and have a strength of 1"
            );
        }
        None => {
            assert!(false, "(0,2) should be in updated tiles vector");
        }
    };

    // test contiguous behavior properly works by clicking on a tile within center point's radius
    // but not contiguous to first user tiles
    let updated_tiles = game_data.handle_click(&mut mock_redis, &AxialCoords::new(-2, 0), "first_user_id");

    assert!(
        updated_tiles.len() == 1,
        "Updated tiles should contain only one element"
    );

    match updated_tiles
        .iter()
        .cloned()
        .find(|(coords, _)| coords == &AxialCoords::new(-2, 0))
    {
        Some((_, tile)) => {
            assert!(
                tile.strength == 1 && tile.user_id == "first_user_id",
                "(-2,0) should be owned by first user and have a strength of 1"
            );
        }

        None => {
            assert!(false, "(-2,0) should be in updated tiles");
        }
    }

    let mut prefetch = TileMap::new();
    let new_tile = mock_redis
        .get_tile(&AxialCoords::center())
        .expect("Should find tile at (0,0)");

    // check (0,0) unaffacted by previous click
    let computed_tile_to_check = game_data
        .computed_tile(&mock_redis, &AxialCoords::center(), &new_tile, &mut prefetch)
        .unwrap();

    assert!(
        computed_tile_to_check.strength == 5 && computed_tile_to_check.user_id == "first_user_id",
        "(0,0) should be unaffected by previous click on (-2,0) and have a strength of 5"
    );

    let _ = mock_redis.flushdb();
}

/// Clicking one's own undamaged tile is a no-op: the second click on (0,0)
/// emits no updates.
#[test]
fn second_click_on_own_tile_is_noop() {
    let game_data = GameData::new(10, 2);
    let mut mock_redis = MockRedisHandler::new();
    let center = AxialCoords::center();

    let first = game_data.handle_click(&mut mock_redis, &center, "user_a");
    assert_eq!(first.len(), 1);
    assert_eq!(first[0].1.strength, 1);
    assert_eq!(first[0].1.user_id, "user_a");

    let second = game_data.handle_click(&mut mock_redis, &center, "user_a");
    assert!(second.is_empty(), "clicking an owned, undamaged tile must emit nothing");

    let tile = mock_redis.get_tile(&center).unwrap();
    assert_eq!(tile.user_id, "user_a");
    assert_eq!(tile.damage, 0);
}

/// Filling the whole radius-2 spiral around the anchor with one user's tiles
/// gives a contiguity count of `3r(r+1)`: 6 at radius 1 and 18 at radius 2;
/// the count is monotone in the radius.
#[test]
fn full_neighborhood_contiguity_count() {
    let game = GameData::new(10, 2);
    let mut store = MockRedisHandler::new();
    let anchor = AxialCoords::new(1, -1);

    for c in pixelstratwar::coords::cube_spiral(&anchor.as_cube(), 2) {
        store.set_tile(
            &c.as_axial(),
            pixelstratwar::grid::InnerTileData { user_id: "owner".to_string(), damage: 0 },
        );
    }

    let mut prefetch = TileMap::new();
    game.fetch_within(&store, &anchor, &mut prefetch);

    let (_, zero) = game.contiguous_neighbors_of_tile(&prefetch, &anchor, "owner", 0);
    let (_, one) = game.contiguous_neighbors_of_tile(&prefetch, &anchor, "owner", 1);
    let (_, two) = game.contiguous_neighbors_of_tile(&prefetch, &anchor, "owner", 2);
    assert_eq!(zero, 0);
    assert_eq!(one, 6);
    assert_eq!(two, 18);
    assert!(zero <= one && one <= two);
}
