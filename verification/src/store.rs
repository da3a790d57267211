//! The in-memory tile store: the durable mapping from coordinates to tile
//! records, plus the user records and their tokens.

use vstd::prelude::*;

use crate::coords::AxialCoords;
use crate::grid::{InnerTileData, SpecTile};
use crate::tilemap::{owned_count, TileMap};
use crate::trusted::str_eq;
use crate::user::{PublicUser, SpecUser, User};
use crate::utils::spec_hex_char;
use vstd::string::{StrSliceExecFns, StringExecFns};

verus! {

/// The views of a sequence of user records.
pub open spec fn user_views(s: Seq<User>) -> Seq<SpecUser> {
    Seq::new(s.len(), |i: int| s[i]@)
}

/// The index of the most recently added user with the given id, if any; the
/// last write to an id wins, as it does in the production key-value store.
pub open spec fn find_user(users: Seq<SpecUser>, id: Seq<char>) -> int
    decreases users.len(),
{
    if users.len() == 0 {
        -1
    } else if users.last().id == id {
        users.len() - 1
    } else {
        find_user(users.drop_last(), id)
    }
}

/// The match index is `-1` or a valid position holding the id.
proof fn lemma_find_user_bound(users: Seq<SpecUser>, id: Seq<char>)
    ensures
        -1 <= find_user(users, id) < users.len(),
        find_user(users, id) >= 0 ==> users[find_user(users, id)].id == id,
    decreases users.len(),
{
    if users.len() > 0 && users.last().id != id {
        lemma_find_user_bound(users.drop_last(), id);
    }
}

/// Whether the stored token of the user with the given id equals `token`.
pub open spec fn spec_valid_token(users: Seq<SpecUser>, id: Seq<char>, token: Seq<char>) -> bool {
    let i = find_user(users, id);
    i >= 0 && users[i].token == token
}

/// The tiles of the given coordinates that have a record, in request order.
pub open spec fn spec_batch_get(m: Map<(int, int), SpecTile>, cs: Seq<(int, int)>) -> Seq<
    ((int, int), SpecTile),
>
    decreases cs.len(),
{
    if cs.len() == 0 {
        Seq::empty()
    } else {
        let pre = spec_batch_get(m, cs.drop_last());
        if m.contains_key(cs.last()) {
            pre.push((cs.last(), m[cs.last()]))
        } else {
            pre
        }
    }
}

/// The in-memory store: tiles keyed by coordinate, users in insertion order.
/// The production deployment keeps the same data in a remote key-value store;
/// tests and the engine's contracts use this one.
#[derive(Debug)]
pub struct MockRedisHandler {
    pub mock_grid: TileMap,
    pub mock_users: Vec<User>,
}

impl MockRedisHandler {
    pub open spec fn wf(&self) -> bool {
        self.mock_grid.wf()
    }

    /// The tile mapping.
    pub open spec fn tiles(&self) -> Map<(int, int), SpecTile> {
        self.mock_grid@
    }

    /// The registered users, in insertion order.
    pub open spec fn users(&self) -> Seq<SpecUser> {
        user_views(self.mock_users@)
    }

    pub fn new() -> (s: MockRedisHandler)
        ensures
            s.wf(),
            s.tiles() =~= Map::<(int, int), SpecTile>::empty(),
            s.users() =~= Seq::<SpecUser>::empty(),
    {
        MockRedisHandler { mock_grid: TileMap::new(), mock_users: Vec::new() }
    }

    /// Remove every record: tiles, users and their tokens alike.
    pub fn flushdb(&mut self) -> (r: bool)
        ensures
            final(self).wf(),
            final(self).tiles() =~= Map::<(int, int), SpecTile>::empty(),
            final(self).users() =~= Seq::<SpecUser>::empty(),
            r == true,
    {
        self.mock_grid.clear();
        self.mock_users = Vec::new();
        true
    }

    /// The record at `coords`; a missing key yields no tile.
    pub fn get_tile(&self, coords: &AxialCoords) -> (r: Option<InnerTileData>)
        requires
            self.wf(),
        ensures
            match r {
                Some(t) => self.tiles().contains_key(coords@) && t@ == self.tiles()[coords@],
                None => !self.tiles().contains_key(coords@),
            },
    {
        match self.mock_grid.get(coords) {
            Some(t) => Some(t.clone()),
            None => None,
        }
    }

    /// Unconditionally overwrite the record at `coords`.
    pub fn set_tile(&mut self, coords: &AxialCoords, tile: InnerTileData) -> (r: bool)
        requires
            old(self).wf(),
        ensures
            final(self).wf(),
            final(self).tiles() =~= old(self).tiles().insert(coords@, tile@),
            final(self).users() == old(self).users(),
            r == true,
    {
        self.mock_grid.insert(*coords, tile);
        true
    }

    /// The stored tiles among `coords`, in request order; coordinates without
    /// a record are left out.
    pub fn batch_get_tiles(&self, coords: Vec<AxialCoords>) -> (r: Vec<(AxialCoords, InnerTileData)>)
        requires
            self.wf(),
        ensures
            ({
                let spec = spec_batch_get(self.tiles(), crate::game::coord_views(coords@));
                &&& r@.len() == spec.len()
                &&& forall|i: int|
                    0 <= i < spec.len() ==> ((#[trigger] r@[i]).0@, r@[i].1@) == spec[i]
            }),
    {
        let ghost cvs = crate::game::coord_views(coords@);
        let mut results: Vec<(AxialCoords, InnerTileData)> = Vec::new();
        let n = coords.len();
        let mut i: usize = 0;
        while i < n
            invariant
                self.wf(),
                n == coords@.len(),
                cvs == crate::game::coord_views(coords@),
                0 <= i as int <= n as int,
                ({
                    let spec = spec_batch_get(self.tiles(), cvs.take(i as int));
                    &&& results@.len() == spec.len()
                    &&& forall|j: int|
                        0 <= j < spec.len() ==> ((#[trigger] results@[j]).0@, results@[j].1@)
                            == spec[j]
                }),
            decreases n as int - i as int,
        {
            proof {
                assert(cvs.take(i as int + 1).drop_last() =~= cvs.take(i as int));
                assert(cvs.take(i as int + 1).last() == coords@[i as int]@);
            }
            let c = coords[i];
            match self.mock_grid.get(&c) {
                Some(t) => {
                    let t = t.clone();
                    results.push((c, t));
                },
                None => {},
            }
            i = i + 1;
        }
        proof {
            assert(cvs.take(n as int) =~= cvs);
        }
        results
    }

    /// How many tiles the given user currently owns.
    pub fn count_tiles_by_user(&self, user_id: &str) -> (n: usize)
        requires
            self.wf(),
        ensures
            n == owned_count(self.tiles(), user_id@),
    {
        self.mock_grid.count_owner(user_id)
    }

    /// Store a user record; its id is appended to the ordered user list.
    pub fn add_user(&mut self, user: User) -> (r: bool)
        requires
            old(self).wf(),
        ensures
            final(self).wf(),
            final(self).tiles() == old(self).tiles(),
            final(self).users() =~= old(self).users().push(user@),
            r == true,
    {
        self.mock_users.push(user);
        proof {
            assert(final(self).users() =~= old(self).users().push(
                final(self).mock_users@.last()@,
            ));
        }
        true
    }

    /// Every user joined with its current score, in insertion order.
    pub fn get_public_users(&self) -> (r: Vec<PublicUser>)
        requires
            self.wf(),
            forall|i: int|
                0 <= i < self.users().len() ==> owned_count(
                    self.tiles(),
                    (#[trigger] self.users()[i]).id,
                ) <= u32::MAX,
        ensures
            r@.len() == self.users().len(),
            forall|i: int|
                0 <= i < r@.len() ==> {
                    let u = self.users()[i];
                    let p = (#[trigger] r@[i])@;
                    p.id == u.id && p.username == u.username && p.color == u.color && p.score
                        == owned_count(self.tiles(), u.id)
                },
    {
        let mut res: Vec<PublicUser> = Vec::new();
        let n = self.mock_users.len();
        let mut i: usize = 0;
        while i < n
            invariant
                self.wf(),
                n == self.mock_users@.len(),
                forall|j: int|
                    0 <= j < self.users().len() ==> owned_count(
                        self.tiles(),
                        (#[trigger] self.users()[j]).id,
                    ) <= u32::MAX,
                0 <= i as int <= n as int,
                res@.len() == i as int,
                forall|j: int|
                    0 <= j < i as int ==> {
                        let u = self.users()[j];
                        let p = (#[trigger] res@[j])@;
                        p.id == u.id && p.username == u.username && p.color == u.color && p.score
                            == owned_count(self.tiles(), u.id)
                    },
            decreases n as int - i as int,
        {
            let user = &self.mock_users[i];
            proof {
                assert(self.users()[i as int] == self.mock_users@[i as int]@);
            }
            let user_tiles = self.mock_grid.count_owner(user.id.as_str());
            res.push(
                PublicUser {
                    color: user.color.clone(),
                    id: user.id.clone(),
                    username: user.username.clone(),
                    score: user_tiles as u32,
                },
            );
            i = i + 1;
        }
        res
    }

    /// Whether `token` matches the stored token of the user with `user_id`.
    pub fn is_valid_token_for_user(&self, token: &str, user_id: &str) -> (r: bool)
        requires
            self.wf(),
        ensures
            r == spec_valid_token(self.users(), user_id@, token@),
    {
        let n = self.mock_users.len();
        let mut i: usize = n;
        proof {
            assert(self.users().take(n as int) =~= self.users());
            lemma_find_user_bound(self.users(), user_id@);
        }
        while i > 0
            invariant
                self.wf(),
                n == self.mock_users@.len(),
                0 <= i as int <= n as int,
                find_user(self.users(), user_id@) == find_user(
                    self.users().take(i as int),
                    user_id@,
                ),
            decreases i,
        {
            let idx = i - 1;
            proof {
                assert(self.users().take(i as int).last() == self.users()[idx as int]);
                assert(self.users().take(i as int).drop_last() =~= self.users().take(idx as int));
                lemma_find_user_bound(self.users().take(i as int), user_id@);
            }
            if str_eq(self.mock_users[idx].id.as_str(), user_id) {
                proof {
                    assert(find_user(self.users().take(i as int), user_id@) == idx as int);
                    assert(find_user(self.users(), user_id@) == idx as int);
                }
                return str_eq(self.mock_users[idx].token.as_str(), token);
            }
            i = idx;
        }
        proof {
            assert(self.users().take(0) =~= Seq::<SpecUser>::empty());
            assert(find_user(self.users(), user_id@) < 0);
        }
        false
    }
}

/// The decimal digits of a non-negative number, most significant first.
pub open spec fn spec_digits(n: int) -> Seq<char>
    decreases n,
{
    if n < 10 {
        seq![spec_hex_char(n)]
    } else {
        spec_digits(n / 10).push(spec_hex_char(n % 10))
    }
}

/// One coordinate component as key text: its digits, with an `m` prefix when
/// negative.
pub open spec fn spec_coord_part(v: int) -> Seq<char> {
    if v < 0 {
        seq!['m'] + spec_digits(-v)
    } else {
        spec_digits(v)
    }
}

/// The stable key rendering of an axial pair: both parts joined by `_`.
pub open spec fn spec_redis_key(a: (int, int)) -> Seq<char> {
    spec_coord_part(a.0) + seq!['_'] + spec_coord_part(a.1)
}

/// The decimal digits of `n`, as a string.
fn decimal_str(n: u32) -> (r: String)
    ensures
        r@ == spec_digits(n as int),
    decreases n,
{
    if n < 10 {
        let d = crate::utils::hex_char_str(n as u8);
        <String as StringExecFns>::from_str(d)
    } else {
        let mut s = decimal_str(n / 10);
        s.append(crate::utils::hex_char_str((n % 10) as u8));
        s
    }
}

/// One coordinate component as key text.
fn coord_part_str(v: i32) -> (r: String)
    requires
        v != i32::MIN,
    ensures
        r@ == spec_coord_part(v as int),
{
    if v < 0 {
        proof {
            reveal_strlit("m");
        }
        let mut s = <String as StringExecFns>::from_str("m");
        s.append(decimal_str((-v) as u32).as_str());
        proof {
            assert(s@ =~= spec_coord_part(v as int));
        }
        s
    } else {
        decimal_str(v as u32)
    }
}

impl AxialCoords {
    /// The stable string rendering used in store keys.
    pub fn as_redis_key(&self) -> (r: String)
        requires
            self.q != i32::MIN,
            self.r != i32::MIN,
        ensures
            r@ == spec_redis_key(self@),
    {
        let mut s = coord_part_str(self.q);
        proof {
            reveal_strlit("_");
        }
        s.append("_");
        s.append(coord_part_str(self.r).as_str());
        proof {
            assert(s@ =~= spec_redis_key(self@));
        }
        s
    }
}

/// The store key of a tile record.
pub fn get_tile_key(coords: &AxialCoords) -> (r: String)
    requires
        coords.q != i32::MIN,
        coords.r != i32::MIN,
    ensures
        r@ == seq!['t', 'i', 'l', 'e', ':'] + spec_redis_key(coords@),
{
    proof {
        reveal_strlit("tile:");
    }
    let mut s = <String as StringExecFns>::from_str("tile:");
    s.append(coords.as_redis_key().as_str());
    proof {
        assert(s@ =~= seq!['t', 'i', 'l', 'e', ':'] + spec_redis_key(coords@));
    }
    s
}

/// The store key of a user record.
pub fn get_user_key(user: &User) -> (r: String)
    ensures
        r@ == seq!['u', 's', 'e', 'r', ':'] + user.id@,
{
    get_user_key_from_str(user.id.as_str())
}

/// The store key of the user record with the given id.
pub fn get_user_key_from_str(user_id: &str) -> (r: String)
    ensures
        r@ == seq!['u', 's', 'e', 'r', ':'] + user_id@,
{
    proof {
        reveal_strlit("user:");
    }
    let mut s = <String as StringExecFns>::from_str("user:");
    s.append(user_id);
    proof {
        assert(s@ =~= seq!['u', 's', 'e', 'r', ':'] + user_id@);
    }
    s
}

/// The store key of a user's token.
pub fn get_token_key(user_id: &str) -> (r: String)
    ensures
        r@ == seq!['t', 'o', 'k', 'e', 'n', ':'] + user_id@,
{
    proof {
        reveal_strlit("token:");
    }
    let mut s = <String as StringExecFns>::from_str("token:");
    s.append(user_id);
    proof {
        assert(s@ =~= seq!['t', 'o', 'k', 'e', 'n', ':'] + user_id@);
    }
    s
}

/// Every character is a decimal digit.
pub open spec fn all_dec_digits(s: Seq<char>) -> bool {
    forall|i: int| 0 <= i < s.len() ==> 48 <= (#[trigger] s[i]) as int <= 57
}

/// The number a digit string denotes, most significant digit first.
pub open spec fn spec_dec_value(s: Seq<char>) -> int
    decreases s.len(),
{
    if s.len() == 0 {
        0
    } else {
        spec_dec_value(s.drop_last()) * 10 + (s.last() as int - 48)
    }
}

/// A digit string denotes a non-negative number, and no prefix denotes more
/// than the whole.
proof fn lemma_dec_value_prefix(s: Seq<char>, k: int)
    requires
        all_dec_digits(s),
        0 <= k <= s.len(),
    ensures
        spec_dec_value(s.take(k)) >= 0,
        spec_dec_value(s.take(k)) <= spec_dec_value(s),
    decreases s.len() - k,
{
    if k == s.len() {
        assert(s.take(k) =~= s);
        lemma_dec_value_nonneg(s);
    } else {
        lemma_dec_value_prefix(s, k + 1);
        lemma_dec_value_nonneg(s.take(k));
        assert(s.take(k + 1).drop_last() =~= s.take(k));
        assert(s.take(k + 1).last() == s[k]);
        assert(spec_dec_value(s.take(k + 1)) == spec_dec_value(s.take(k)) * 10 + (s[k] as int
            - 48));
    }
}

proof fn lemma_dec_value_nonneg(s: Seq<char>)
    requires
        all_dec_digits(s),
    ensures
        spec_dec_value(s) >= 0,
    decreases s.len(),
{
    if s.len() > 0 {
        assert(all_dec_digits(s.drop_last())) by {
            assert(forall|i: int| 0 <= i < s.len() - 1 ==> s.drop_last()[i] == s[i]);
        }
        lemma_dec_value_nonneg(s.drop_last());
    }
}

/// Parse a stored damage field: a non-empty decimal digit string denoting at
/// most 255; anything else is rejected.
pub fn parse_damage(s: &str) -> (r: Option<u8>)
    ensures
        match r {
            Some(v) => s@.len() >= 1 && all_dec_digits(s@) && v as int == spec_dec_value(s@),
            None => s@.len() == 0 || !all_dec_digits(s@) || spec_dec_value(s@) > 255,
        },
{
    let n = s.unicode_len();
    if n == 0 {
        return None;
    }
    let mut acc: u32 = 0;
    let mut i: usize = 0;
    proof {
        assert(s@.take(0) =~= Seq::<char>::empty());
    }
    while i < n
        invariant
            n == s@.len(),
            0 <= i as int <= n as int,
            all_dec_digits(s@.take(i as int)),
            acc as int == spec_dec_value(s@.take(i as int)),
            acc <= 255,
        decreases n as int - i as int,
    {
        let c = s.get_char(i);
        let v = c as u32;
        if v < 48 || v > 57 {
            proof {
                assert(s@[i as int] == c);
                assert(!(48 <= s@[i as int] as int <= 57));
            }
            return None;
        }
        proof {
            assert(s@.take(i as int + 1).drop_last() =~= s@.take(i as int));
            assert(s@.take(i as int + 1).last() == s@[i as int]);
        }
        acc = acc * 10 + (v - 48);
        if acc > 255 {
            proof {
                assert(all_dec_digits(s@.take(i as int + 1)));
                // if the rest is digits too, the whole number only grows
                if all_dec_digits(s@) {
                    lemma_dec_value_prefix(s@, i as int + 1);
                }
            }
            return None;
        }
        i = i + 1;
    }
    proof {
        assert(s@.take(n as int) =~= s@);
    }
    Some(acc as u8)
}

/// Build a tile record from its two stored fields; the damage text must be a
/// plain decimal number of at most 255.
pub fn tile_from_fields(user_id: String, damage_text: &str) -> (r: Option<InnerTileData>)
    ensures
        match r {
            Some(t) => t@.owner == user_id@ && damage_text@.len() >= 1 && all_dec_digits(
                damage_text@,
            ) && t@.damage == spec_dec_value(damage_text@),
            None => damage_text@.len() == 0 || !all_dec_digits(damage_text@) || spec_dec_value(
                damage_text@,
            ) > 255,
        },
{
    match parse_damage(damage_text) {
        Some(damage) => Some(InnerTileData { user_id, damage }),
        None => None,
    }
}

} // verus!
