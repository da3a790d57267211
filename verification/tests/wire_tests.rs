use pixelstratwar::coords::AxialCoords;
use pixelstratwar::grid::TileData;
use pixelstratwar::websocket::{
    new_user_message, parse_tile_change_message, score_change_message, tile_change_message,
};

#[test]
fn tile_change_frame_layout() {
    let coords = AxialCoords::new(-1, 2);
    let tile = TileData { user_id: "ab".to_string(), strength: 7 };
    let msg = tile_change_message(&coords, &tile);
    assert_eq!(msg[0], 0x01);
    assert_eq!(&msg[1..5], &(-1i32).to_le_bytes());
    assert_eq!(&msg[5..9], &2i32.to_le_bytes());
    assert_eq!(msg[9], 7);
    assert_eq!(msg[10], 2);
    assert_eq!(&msg[11..], b"ab");
}

#[test]
fn tile_change_frame_round_trips() {
    let coords = AxialCoords::new(-123456, 987);
    let tile = TileData { user_id: "some-user".to_string(), strength: 19 };
    let msg = tile_change_message(&coords, &tile);
    let (q, r, strength, uid) = parse_tile_change_message(&msg).expect("frame should parse");
    assert_eq!(q, -123456);
    assert_eq!(r, 987);
    assert_eq!(strength, 19);
    assert_eq!(uid, b"some-user");
}

#[test]
fn tile_change_parse_rejects_malformed() {
    assert!(parse_tile_change_message(&vec![]).is_none());
    assert!(parse_tile_change_message(&vec![1, 2, 3]).is_none());
    // wrong tag
    let coords = AxialCoords::new(0, 0);
    let tile = TileData { user_id: "u".to_string(), strength: 1 };
    let mut msg = tile_change_message(&coords, &tile);
    msg[0] = 0x02;
    assert!(parse_tile_change_message(&msg).is_none());
    // truncated payload
    let mut msg2 = tile_change_message(&coords, &tile);
    msg2.pop();
    assert!(parse_tile_change_message(&msg2).is_none());
}

#[test]
fn new_user_frame_layout() {
    let msg = new_user_message("id", "name", "#FF0000");
    assert_eq!(msg[0], 0x02);
    assert_eq!(msg[1], 2);
    assert_eq!(&msg[2..4], b"id");
    assert_eq!(msg[4], 4);
    assert_eq!(&msg[5..9], b"name");
    assert_eq!(msg[9], 7);
    assert_eq!(&msg[10..], b"#FF0000");
    assert_eq!(msg.len(), 17);
}

#[test]
fn score_change_frame_layout() {
    let msg = score_change_message("u-1", 70000);
    assert_eq!(msg[0], 0x03);
    assert_eq!(msg[1], 3);
    assert_eq!(&msg[2..5], b"u-1");
    assert_eq!(&msg[5..9], &70000u32.to_le_bytes());
    assert_eq!(msg.len(), 9);
}
