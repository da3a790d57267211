//! The binary notification frames pushed to spectators, with their parsers.
//! All frames are little-endian and start with a one-byte type tag.

use vstd::prelude::*;
use vstd::string::StringSliceAdditionalSpecFns;
use vstd::utf8::encode_utf8;

use crate::coords::AxialCoords;
use crate::grid::TileData;

verus! {

/// A binary frame ready to be sent to one socket.
#[derive(Clone, Debug)]
pub struct MyBinaryMessage(pub Vec<u8>);

/// The four little-endian bytes of a 32-bit value.
pub open spec fn spec_le32(x: u32) -> Seq<u8> {
    seq![
        (x % 256) as u8,
        ((x / 256) % 256) as u8,
        ((x / 65536) % 256) as u8,
        ((x / 16777216) % 256) as u8,
    ]
}

/// The value read back from four little-endian bytes.
pub open spec fn spec_read_le32(b0: u8, b1: u8, b2: u8, b3: u8) -> int {
    b0 + 256 * (b1 as int) + 65536 * (b2 as int) + 16777216 * (b3 as int)
}

/// Reading the little-endian bytes of a value yields the value.
pub proof fn lemma_le32_reconstruct(x: u32)
    ensures
        spec_read_le32(spec_le32(x)[0], spec_le32(x)[1], spec_le32(x)[2], spec_le32(x)[3]) == x
            as int,
{
    let xi = x as int;
    vstd::arithmetic::div_mod::lemma_fundamental_div_mod(xi, 256);
    vstd::arithmetic::div_mod::lemma_fundamental_div_mod(xi / 256, 256);
    vstd::arithmetic::div_mod::lemma_fundamental_div_mod(xi / 65536, 256);
    vstd::arithmetic::div_mod::lemma_div_denominator(xi, 256, 256);
    vstd::arithmetic::div_mod::lemma_div_denominator(xi, 65536, 256);
    assert(xi / 16777216 < 256) by (nonlinear_arith)
        requires
            0 <= xi < 0x100000000,
    ;
    assert(xi / 16777216 >= 0) by (nonlinear_arith)
        requires
            xi >= 0,
    ;
    vstd::arithmetic::div_mod::lemma_small_mod((xi / 16777216) as nat, 256);
}

/// The tile-change frame: tag `0x01`, then `q`, `r`, the strength, and the
/// length-prefixed owner id.
pub open spec fn spec_tile_change_message(q: u32, r: u32, strength: u8, uid: Seq<u8>) -> Seq<u8> {
    seq![1u8] + spec_le32(q) + spec_le32(r) + seq![strength] + seq![uid.len() as u8] + uid
}

/// Parse a tile-change frame; malformed input yields nothing.
pub open spec fn spec_parse_tile_change(msg: Seq<u8>) -> Option<(int, int, u8, Seq<u8>)> {
    if msg.len() >= 11 && msg[0] == 1 && msg.len() == 11 + msg[10] {
        Some(
            (
                spec_read_le32(msg[1], msg[2], msg[3], msg[4]),
                spec_read_le32(msg[5], msg[6], msg[7], msg[8]),
                msg[9],
                msg.skip(11),
            ),
        )
    } else {
        None
    }
}

/// A tile-change frame parses back to exactly what was put in.
pub proof fn lemma_tile_change_round_trip(q: u32, r: u32, strength: u8, uid: Seq<u8>)
    requires
        uid.len() <= 255,
    ensures
        spec_parse_tile_change(spec_tile_change_message(q, r, strength, uid)) == Some(
            (q as int, r as int, strength, uid),
        ),
{
    let msg = spec_tile_change_message(q, r, strength, uid);
    assert(msg.len() == 11 + uid.len());
    assert(msg[0] == 1 && msg[1] == spec_le32(q)[0] && msg[2] == spec_le32(q)[1] && msg[3]
        == spec_le32(q)[2] && msg[4] == spec_le32(q)[3] && msg[5] == spec_le32(r)[0] && msg[6]
        == spec_le32(r)[1] && msg[7] == spec_le32(r)[2] && msg[8] == spec_le32(r)[3] && msg[9]
        == strength && msg[10] == uid.len() as u8);
    lemma_le32_reconstruct(q);
    lemma_le32_reconstruct(r);
    assert(msg.skip(11) =~= uid);
}

/// Push the four little-endian bytes of `x`.
fn push_le32(buffer: &mut Vec<u8>, x: u32)
    ensures
        final(buffer)@ =~= old(buffer)@ + spec_le32(x),
{
    buffer.push((x % 256) as u8);
    buffer.push(((x / 256) % 256) as u8);
    buffer.push(((x / 65536) % 256) as u8);
    buffer.push(((x / 16777216) % 256) as u8);
}

/// Push every byte of a string slice.
fn push_str_bytes(buffer: &mut Vec<u8>, s: &str)
    ensures
        final(buffer)@ =~= old(buffer)@ + s.spec_bytes(),
{
    let bytes = s.as_bytes();
    let n = bytes.len();
    let mut i: usize = 0;
    while i < n
        invariant
            n == bytes@.len(),
            bytes@ == s.spec_bytes(),
            0 <= i as int <= n as int,
            buffer@ =~= old(buffer)@ + s.spec_bytes().take(i as int),
        decreases n as int - i as int,
    {
        buffer.push(bytes[i]);
        proof {
            assert(buffer@ =~= old(buffer)@ + s.spec_bytes().take(i as int + 1));
        }
        i = i + 1;
    }
    proof {
        assert(s.spec_bytes().take(n as int) =~= s.spec_bytes());
    }
}

/// Build the binary tile-change frame for one updated tile.
pub fn tile_change_message(coords: &AxialCoords, tile: &TileData) -> (r: Vec<u8>)
    requires
        encode_utf8(tile.user_id@).len() <= 255,
    ensures
        r@ == spec_tile_change_message(
            coords.q as u32,
            coords.r as u32,
            tile.strength,
            encode_utf8(tile.user_id@),
        ),
{
    let uid = tile.user_id.as_str();
    proof {
        assert(uid.spec_bytes() == encode_utf8(tile.user_id@));
    }
    let uid_len = uid.len();

    let mut buffer: Vec<u8> = Vec::new();
    buffer.push(1u8);
    push_le32(&mut buffer, coords.q as u32);
    push_le32(&mut buffer, coords.r as u32);
    buffer.push(tile.strength);
    buffer.push(uid_len as u8);
    push_str_bytes(&mut buffer, uid);
    proof {
        assert(buffer@ =~= spec_tile_change_message(
            coords.q as u32,
            coords.r as u32,
            tile.strength,
            uid.spec_bytes(),
        ));
    }
    buffer
}

/// Parse a tile-change frame back into `(q, r, strength, owner bytes)`.
pub fn parse_tile_change_message(msg: &Vec<u8>) -> (r: Option<(i32, i32, u8, Vec<u8>)>)
    ensures
        match r {
            Some(parts) => {
                &&& spec_parse_tile_change(msg@) matches Some(sp)
                &&& parts.0 as int == sp.0 as i32 as int
                &&& parts.1 as int == sp.1 as i32 as int
                &&& parts.2 == sp.2
                &&& parts.3@ == sp.3
            },
            None => spec_parse_tile_change(msg@) is None,
        },
{
    if msg.len() < 11 {
        return None;
    }
    if *(&msg[0]) != 1u8 {
        return None;
    }
    let uid_len = msg[10] as usize;
    if msg.len() != 11 + uid_len {
        return None;
    }
    let q = read_le32(msg, 1);
    let r_ = read_le32(msg, 5);
    let strength = msg[9];
    let mut uid: Vec<u8> = Vec::new();
    let mut i: usize = 11;
    let n = msg.len();
    while i < n
        invariant
            n == msg@.len(),
            11 <= i as int <= n as int,
            uid@ =~= msg@.subrange(11, i as int),
        decreases n as int - i as int,
    {
        uid.push(msg[i]);
        proof {
            assert(uid@ =~= msg@.subrange(11, i as int + 1));
        }
        i = i + 1;
    }
    proof {
        assert(msg@.skip(11) =~= msg@.subrange(11, n as int));
    }
    Some((q as i32, r_ as i32, strength, uid))
}

/// Read four little-endian bytes starting at `at`.
fn read_le32(msg: &Vec<u8>, at: usize) -> (x: u32)
    requires
        at + 4 <= msg@.len(),
    ensures
        x as int == spec_read_le32(
            msg@[at as int],
            msg@[at as int + 1],
            msg@[at as int + 2],
            msg@[at as int + 3],
        ),
{
    let n = msg.len();
    proof {
        assert(at + 4 <= n);
    }
    let b0 = msg[at] as u32;
    let b1 = msg[at + 1] as u32;
    let b2 = msg[at + 2] as u32;
    let b3 = msg[at + 3] as u32;
    b0 + 256 * b1 + 65536 * b2 + 16777216 * b3
}

/// The new-user frame: tag `0x02`, then the length-prefixed id, name and
/// color.
pub open spec fn spec_new_user_message(id: Seq<u8>, name: Seq<u8>, color: Seq<u8>) -> Seq<u8> {
    seq![2u8] + seq![id.len() as u8] + id + seq![name.len() as u8] + name + seq![
        color.len() as u8,
    ] + color
}

/// Parse a new-user frame; malformed input yields nothing.
pub open spec fn spec_parse_new_user(msg: Seq<u8>) -> Option<(Seq<u8>, Seq<u8>, Seq<u8>)> {
    if msg.len() >= 2 && msg[0] == 2 {
        let id_len = msg[1] as int;
        if msg.len() >= 3 + id_len {
            let id = msg.subrange(2, 2 + id_len);
            let name_len = msg[2 + id_len] as int;
            if msg.len() >= 4 + id_len + name_len {
                let name = msg.subrange(3 + id_len, 3 + id_len + name_len);
                let color_len = msg[3 + id_len + name_len] as int;
                if msg.len() == 4 + id_len + name_len + color_len {
                    let color = msg.subrange(4 + id_len + name_len, msg.len() as int);
                    Some((id, name, color))
                } else {
                    None
                }
            } else {
                None
            }
        } else {
            None
        }
    } else {
        None
    }
}

/// A new-user frame parses back to exactly what was put in.
pub proof fn lemma_new_user_round_trip(id: Seq<u8>, name: Seq<u8>, color: Seq<u8>)
    requires
        id.len() <= 255,
        name.len() <= 255,
        color.len() <= 255,
    ensures
        spec_parse_new_user(spec_new_user_message(id, name, color)) == Some((id, name, color)),
{
    let msg = spec_new_user_message(id, name, color);
    assert(msg.len() == 4 + id.len() + name.len() + color.len());
    assert(msg[0] == 2 && msg[1] == id.len() as u8);
    assert(msg.subrange(2, 2 + id.len() as int) =~= id);
    assert(msg[2 + id.len() as int] == name.len() as u8);
    assert(msg.subrange(3 + id.len() as int, 3 + id.len() as int + name.len() as int) =~= name);
    assert(msg[3 + id.len() as int + name.len() as int] == color.len() as u8);
    assert(msg.subrange(4 + id.len() as int + name.len() as int, msg.len() as int) =~= color);
}

/// Build the binary new-user frame.
pub fn new_user_message(user_id: &str, user_name: &str, user_color: &str) -> (r: Vec<u8>)
    requires
        user_id.spec_bytes().len() <= 255,
        user_name.spec_bytes().len() <= 255,
        user_color.spec_bytes().len() <= 255,
    ensures
        r@ == spec_new_user_message(
            user_id.spec_bytes(),
            user_name.spec_bytes(),
            user_color.spec_bytes(),
        ),
{
    let mut buffer: Vec<u8> = Vec::new();
    buffer.push(2u8);
    buffer.push(user_id.len() as u8);
    push_str_bytes(&mut buffer, user_id);
    buffer.push(user_name.len() as u8);
    push_str_bytes(&mut buffer, user_name);
    buffer.push(user_color.len() as u8);
    push_str_bytes(&mut buffer, user_color);
    proof {
        assert(buffer@ =~= spec_new_user_message(
            user_id.spec_bytes(),
            user_name.spec_bytes(),
            user_color.spec_bytes(),
        ));
    }
    buffer
}

/// The score-change frame: tag `0x03`, the length-prefixed user id, then the
/// new score.
pub open spec fn spec_score_change_message(id: Seq<u8>, score: u32) -> Seq<u8> {
    seq![3u8] + seq![id.len() as u8] + id + spec_le32(score)
}

/// Parse a score-change frame; malformed input yields nothing.
pub open spec fn spec_parse_score_change(msg: Seq<u8>) -> Option<(Seq<u8>, int)> {
    if msg.len() >= 2 && msg[0] == 3 {
        let id_len = msg[1] as int;
        if msg.len() == 6 + id_len {
            let id = msg.subrange(2, 2 + id_len);
            Some(
                (
                    id,
                    spec_read_le32(
                        msg[2 + id_len],
                        msg[3 + id_len],
                        msg[4 + id_len],
                        msg[5 + id_len],
                    ),
                ),
            )
        } else {
            None
        }
    } else {
        None
    }
}

/// A score-change frame parses back to exactly what was put in.
pub proof fn lemma_score_change_round_trip(id: Seq<u8>, score: u32)
    requires
        id.len() <= 255,
    ensures
        spec_parse_score_change(spec_score_change_message(id, score)) == Some(
            (id, score as int),
        ),
{
    let msg = spec_score_change_message(id, score);
    assert(msg.len() == 6 + id.len());
    assert(msg[0] == 3 && msg[1] == id.len() as u8);
    assert(msg.subrange(2, 2 + id.len() as int) =~= id);
    assert(msg[2 + id.len() as int] == spec_le32(score)[0] && msg[3 + id.len() as int]
        == spec_le32(score)[1] && msg[4 + id.len() as int] == spec_le32(score)[2] && msg[5
        + id.len() as int] == spec_le32(score)[3]);
    lemma_le32_reconstruct(score);
}

/// Build the binary score-change frame.
pub fn score_change_message(user_id: &str, score: u32) -> (r: Vec<u8>)
    requires
        user_id.spec_bytes().len() <= 255,
    ensures
        r@ == spec_score_change_message(user_id.spec_bytes(), score),
{
    let mut buffer: Vec<u8> = Vec::new();
    buffer.push(3u8);
    buffer.push(user_id.len() as u8);
    push_str_bytes(&mut buffer, user_id);
    push_le32(&mut buffer, score);
    proof {
        assert(buffer@ =~= spec_score_change_message(user_id.spec_bytes(), score));
    }
    buffer
}

} // verus!
