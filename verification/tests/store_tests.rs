use pixelstratwar::coords::AxialCoords;
use pixelstratwar::game::GameData;
use pixelstratwar::grid::InnerTileData;
use pixelstratwar::store::{get_tile_key, get_token_key, get_user_key_from_str, MockRedisHandler};
use pixelstratwar::user::User;

#[test]
fn batch_get_is_a_fold_of_get_tile() {
    let mut store = MockRedisHandler::new();
    let a = AxialCoords::new(0, 0);
    let b = AxialCoords::new(1, -1);
    let c = AxialCoords::new(2, 2);
    store.set_tile(&a, InnerTileData { user_id: "u1".to_string(), damage: 0 });
    store.set_tile(&c, InnerTileData { user_id: "u2".to_string(), damage: 3 });

    // the batch read returns exactly the coordinates with a record, in
    // request order, each matching a single get
    let got = store.batch_get_tiles(vec![a, b, c]);
    assert_eq!(got.len(), 2);
    assert_eq!((got[0].0.q, got[0].0.r), (0, 0));
    assert_eq!(got[0].1.user_id, "u1");
    assert_eq!((got[1].0.q, got[1].0.r), (2, 2));
    assert_eq!(got[1].1.damage, 3);
    assert!(store.get_tile(&b).is_none());
    assert_eq!(store.get_tile(&a).unwrap().user_id, "u1");
}

#[test]
fn count_tiles_by_user_counts_owned_tiles() {
    let mut store = MockRedisHandler::new();
    store.set_tile(&AxialCoords::new(0, 0), InnerTileData { user_id: "a".to_string(), damage: 0 });
    store.set_tile(&AxialCoords::new(0, 1), InnerTileData { user_id: "a".to_string(), damage: 1 });
    store.set_tile(&AxialCoords::new(1, 0), InnerTileData { user_id: "b".to_string(), damage: 0 });
    // overwriting does not double-count
    store.set_tile(&AxialCoords::new(0, 0), InnerTileData { user_id: "a".to_string(), damage: 2 });

    assert_eq!(store.count_tiles_by_user("a"), 2);
    assert_eq!(store.count_tiles_by_user("b"), 1);
    assert_eq!(store.count_tiles_by_user("nobody"), 0);
}

#[test]
fn add_user_and_token_validation() {
    let mut store = MockRedisHandler::new();
    let user = User {
        color: "#010203".to_string(),
        id: "id1".to_string(),
        username: "alice".to_string(),
        token: "tok-1".to_string(),
    };
    store.add_user(user.clone());

    assert!(store.is_valid_token_for_user("tok-1", "id1"));
    assert!(!store.is_valid_token_for_user("tok-2", "id1"));
    assert!(!store.is_valid_token_for_user("tok-1", "missing"));

    // writing the same id again replaces the stored token: the last write wins
    store.add_user(User {
        color: "#010203".to_string(),
        id: "id1".to_string(),
        username: "alice".to_string(),
        token: "tok-2".to_string(),
    });
    assert!(store.is_valid_token_for_user("tok-2", "id1"));
    assert!(!store.is_valid_token_for_user("tok-1", "id1"));
}

#[test]
fn public_users_carry_their_score() {
    let mut store = MockRedisHandler::new();
    store.add_user(User {
        color: "#000000".to_string(),
        id: "ida".to_string(),
        username: "a".to_string(),
        token: "t".to_string(),
    });
    store.add_user(User {
        color: "#FFFFFF".to_string(),
        id: "idb".to_string(),
        username: "b".to_string(),
        token: "t2".to_string(),
    });
    store.set_tile(&AxialCoords::new(0, 0), InnerTileData { user_id: "ida".to_string(), damage: 0 });
    store.set_tile(&AxialCoords::new(0, 1), InnerTileData { user_id: "ida".to_string(), damage: 0 });

    let users = store.get_public_users();
    assert_eq!(users.len(), 2);
    assert_eq!(users[0].id, "ida");
    assert_eq!(users[0].username, "a");
    assert_eq!(users[0].color, "#000000");
    assert_eq!(users[0].score, 2);
    assert_eq!(users[1].id, "idb");
    assert_eq!(users[1].score, 0);
}

#[test]
fn first_click_increments_score() {
    let game = GameData::new(10, 2);
    let mut store = MockRedisHandler::new();
    assert_eq!(store.count_tiles_by_user("actor"), 0);
    game.handle_click(&mut store, &AxialCoords::new(0, 0), "actor");
    assert_eq!(store.count_tiles_by_user("actor"), 1);
}

#[test]
fn flushdb_clears_the_whole_store() {
    let mut store = MockRedisHandler::new();
    store.set_tile(&AxialCoords::new(3, 4), InnerTileData { user_id: "x".to_string(), damage: 0 });
    store.add_user(User {
        color: "#123456".to_string(),
        id: "x".to_string(),
        username: "x".to_string(),
        token: "t".to_string(),
    });
    assert!(store.get_tile(&AxialCoords::new(3, 4)).is_some());
    store.flushdb();
    assert!(store.get_tile(&AxialCoords::new(3, 4)).is_none());
    assert!(store.get_public_users().is_empty());
    assert!(!store.is_valid_token_for_user("t", "x"));
}

#[test]
fn redis_key_rendering() {
    assert_eq!(AxialCoords::new(0, 0).as_redis_key(), "0_0");
    assert_eq!(AxialCoords::new(-2, 5).as_redis_key(), "m2_5");
    assert_eq!(AxialCoords::new(12, -120).as_redis_key(), "12_m120");
    assert_eq!(get_tile_key(&AxialCoords::new(-1, 7)), "tile:m1_7");
    assert_eq!(get_user_key_from_str("abc"), "user:abc");
    assert_eq!(get_token_key("abc"), "token:abc");
}

#[test]
fn new_user_has_id_token_and_color() {
    let u = User::new("some player");
    assert_eq!(u.username, "some player");
    assert!(!u.id.is_empty() && u.id.len() <= 22);
    assert_eq!(u.token.len(), 36);
    assert_eq!(u.color.len(), 7);
    assert!(u.color.starts_with('#'));
    // the color is derived deterministically from the username
    let v = User::new("some player");
    assert_eq!(u.color, v.color);
    // distinct users get distinct random identifiers
    assert_ne!(u.id, v.id);
}

#[test]
fn color_rendering_is_exact() {
    assert_eq!(pixelstratwar::utils::color_to_hex((255, 16, 0)), "#FF1000");
    assert_eq!(pixelstratwar::utils::color_to_hex((0, 0, 0)), "#000000");
    assert_eq!(pixelstratwar::utils::color_to_hex((171, 205, 239)), "#ABCDEF");
    let c1 = pixelstratwar::utils::string_to_color("player");
    let c2 = pixelstratwar::utils::string_to_color("player");
    assert_eq!(c1, c2);
}

#[test]
fn damage_field_parsing() {
    assert_eq!(pixelstratwar::store::parse_damage("0"), Some(0));
    assert_eq!(pixelstratwar::store::parse_damage("255"), Some(255));
    assert_eq!(pixelstratwar::store::parse_damage("007"), Some(7));
    assert_eq!(pixelstratwar::store::parse_damage(""), None);
    assert_eq!(pixelstratwar::store::parse_damage("256"), None);
    assert_eq!(pixelstratwar::store::parse_damage("12a"), None);
    assert_eq!(pixelstratwar::store::parse_damage("-1"), None);

    let t = pixelstratwar::store::tile_from_fields("owner".to_string(), "3").unwrap();
    assert_eq!(t.user_id, "owner");
    assert_eq!(t.damage, 3);
    assert!(pixelstratwar::store::tile_from_fields("owner".to_string(), "999").is_none());
}
