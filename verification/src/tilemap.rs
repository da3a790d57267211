//! A small coordinate-keyed map of tile records, used both as the working map
//! of one click and as the in-memory tile store.

use vstd::prelude::*;

use crate::coords::AxialCoords;
use crate::grid::{InnerTileData, SpecTile};

verus! {

/// A mapping from axial coordinates to stored tiles, with no duplicate keys.
#[derive(Debug)]
pub struct TileMap {
    entries: Vec<(AxialCoords, InnerTileData)>,
}

/// The map denoted by an entry sequence; later entries win.
pub open spec fn tile_entries_map(s: Seq<(AxialCoords, InnerTileData)>) -> Map<
    (int, int),
    SpecTile,
>
    decreases s.len(),
{
    if s.len() == 0 {
        Map::empty()
    } else {
        tile_entries_map(s.drop_last()).insert(s.last().0@, s.last().1@)
    }
}

/// No coordinate occurs twice in the entry sequence.
pub open spec fn tile_entries_distinct(s: Seq<(AxialCoords, InnerTileData)>) -> bool {
    forall|i: int, j: int| 0 <= i < j < s.len() ==> (#[trigger] s[i]).0@ != (#[trigger] s[j]).0@
}

/// With distinct keys, the entry-sequence map contains exactly the listed
/// keys, each bound to its listed tile.
proof fn lemma_tile_entries_map(s: Seq<(AxialCoords, InnerTileData)>)
    requires
        tile_entries_distinct(s),
    ensures
        forall|k: (int, int)|
            #[trigger] tile_entries_map(s).contains_key(k) <==> exists|i: int|
                0 <= i < s.len() && (#[trigger] s[i]).0@ == k,
        forall|i: int|
            0 <= i < s.len() ==> tile_entries_map(s)[(#[trigger] s[i]).0@] == s[i].1@,
        tile_entries_map(s).dom().finite(),
        tile_entries_map(s).dom().len() == s.len(),
    decreases s.len(),
{
    if s.len() > 0 {
        let pre = s.drop_last();
        lemma_tile_entries_map(pre);
        assert(forall|i: int| 0 <= i < pre.len() ==> pre[i] == s[i]);
        assert(!tile_entries_map(pre).contains_key(s.last().0@));
        assert forall|i: int| 0 <= i < s.len() implies tile_entries_map(s)[(#[trigger] s[i]).0@]
            == s[i].1@ by {
            if i < s.len() - 1 {
                assert(s[i].0@ != s.last().0@);
                assert(tile_entries_map(pre)[s[i].0@] == s[i].1@);
            }
        }
        assert(tile_entries_map(s).dom() =~= tile_entries_map(pre).dom().insert(s.last().0@));
    }
}

impl View for TileMap {
    type V = Map<(int, int), SpecTile>;

    closed spec fn view(&self) -> Map<(int, int), SpecTile> {
        tile_entries_map(self.entries@)
    }
}

impl TileMap {
    /// The internal entry list has no duplicate coordinates.
    pub closed spec fn wf(&self) -> bool {
        tile_entries_distinct(self.entries@)
    }

    pub fn new() -> (m: TileMap)
        ensures
            m.wf(),
            m@ =~= Map::<(int, int), SpecTile>::empty(),
    {
        TileMap { entries: Vec::new() }
    }

    /// How many coordinates have a record.
    pub fn len(&self) -> (n: usize)
        requires
            self.wf(),
        ensures
            n == self@.dom().len(),
            self@.dom().finite(),
    {
        proof {
            lemma_tile_entries_map(self.entries@);
        }
        self.entries.len()
    }

    /// The record at `coords`, if some user owns that tile.
    pub fn get(&self, coords: &AxialCoords) -> (r: Option<&InnerTileData>)
        requires
            self.wf(),
        ensures
            match r {
                Some(t) => self@.contains_key(coords@) && t@ == self@[coords@],
                None => !self@.contains_key(coords@),
            },
    {
        proof {
            lemma_tile_entries_map(self.entries@);
        }
        let n = self.entries.len();
        let mut i: usize = 0;
        while i < n
            invariant
                self.wf(),
                n == self.entries@.len(),
                0 <= i as int <= n as int,
                forall|j: int| 0 <= j < i as int ==> (#[trigger] self.entries@[j]).0@ != coords@,
            decreases n as int - i as int,
        {
            if self.entries[i].0 == *coords {
                proof {
                    lemma_tile_entries_map(self.entries@);
                }
                return Some(&self.entries[i].1);
            }
            i = i + 1;
        }
        proof {
            lemma_tile_entries_map(self.entries@);
        }
        None
    }

    /// Record `tile` at `coords`, replacing any previous record.
    pub fn insert(&mut self, coords: AxialCoords, tile: InnerTileData)
        requires
            old(self).wf(),
        ensures
            final(self).wf(),
            final(self)@ =~= old(self)@.insert(coords@, tile@),
            final(self)@.dom().finite(),
    {
        proof {
            lemma_tile_entries_map(self.entries@);
        }
        let n = self.entries.len();
        let mut i: usize = 0;
        while i < n
            invariant
                self.wf(),
                self.entries@ == old(self).entries@,
                n == self.entries@.len(),
                0 <= i as int <= n as int,
                forall|j: int| 0 <= j < i as int ==> (#[trigger] self.entries@[j]).0@ != coords@,
            decreases n as int - i as int,
        {
            if self.entries[i].0 == coords {
                let ghost old_entries = self.entries@;
                self.entries.set(i, (coords, tile));
                proof {
                    assert(self.entries@ =~= old_entries.update(i as int, (coords, tile)));
                    lemma_tile_entries_update(old_entries, i as int, coords, tile);
                    lemma_tile_entries_map(self.entries@);
                }
                return ;
            }
            i = i + 1;
        }
        let ghost old_entries = self.entries@;
        self.entries.push((coords, tile));
        proof {
            assert(self.entries@ == old_entries.push((coords, tile)));
            assert(self.entries@.drop_last() =~= old_entries);
            lemma_tile_entries_map(old_entries);
            lemma_tile_entries_map(self.entries@);
        }
    }

    /// How many tiles the given user owns.
    pub fn count_owner(&self, user_id: &str) -> (n: usize)
        requires
            self.wf(),
        ensures
            n == owned_count(self@, user_id@),
    {
        proof {
            lemma_tile_entries_map(self.entries@);
        }
        let ghost owner = user_id@;
        let len = self.entries.len();
        let mut count: usize = 0;
        let mut i: usize = 0;
        proof {
            assert(self.entries@.take(0) =~= Seq::<(AxialCoords, InnerTileData)>::empty());
            assert(owned_set(tile_entries_map(self.entries@.take(0)), owner) =~= Set::<
                (int, int),
            >::empty());
        }
        while i < len
            invariant
                self.wf(),
                len == self.entries@.len(),
                0 <= i as int <= len as int,
                count as int <= i as int,
                count as nat == owned_count(tile_entries_map(self.entries@.take(i as int)), owner),
                owned_set(tile_entries_map(self.entries@.take(i as int)), owner).finite(),
                owner == user_id@,
            decreases len as int - i as int,
        {
            let ghost pre = self.entries@.take(i as int);
            let ghost cur = self.entries@.take(i as int + 1);
            proof {
                assert(cur.drop_last() =~= pre);
                assert(cur.last() == self.entries@[i as int]);
                assert(tile_entries_distinct(pre)) by {
                    assert(forall|a: int, b: int|
                        0 <= a < b < pre.len() ==> pre[a] == self.entries@[a] && pre[b]
                            == self.entries@[b]);
                }
                lemma_tile_entries_map(pre);
                assert(!tile_entries_map(pre).contains_key(self.entries@[i as int].0@)) by {
                    assert(forall|a: int| 0 <= a < pre.len() ==> pre[a] == self.entries@[a]);
                }
                lemma_owned_insert(
                    tile_entries_map(pre),
                    owner,
                    self.entries@[i as int].0@,
                    self.entries@[i as int].1@,
                );
            }
            let matches_owner = crate::trusted::str_eq(self.entries[i].1.user_id.as_str(), user_id);
            if matches_owner {
                count = count + 1;
            }
            proof {
                assert(tile_entries_map(cur) == tile_entries_map(pre).insert(
                    self.entries@[i as int].0@,
                    self.entries@[i as int].1@,
                ));
            }
            i = i + 1;
        }
        proof {
            assert(self.entries@.take(len as int) =~= self.entries@);
        }
        count
    }

    /// Remove every record.
    pub fn clear(&mut self)
        ensures
            final(self).wf(),
            final(self)@ =~= Map::<(int, int), SpecTile>::empty(),
    {
        self.entries = Vec::new();
    }
}

/// The coordinates whose tile the given user owns.
pub open spec fn owned_set(m: Map<(int, int), SpecTile>, owner: Seq<char>) -> Set<(int, int)> {
    m.dom().filter(|k: (int, int)| m[k].owner == owner)
}

/// How many tiles the given user owns.
pub open spec fn owned_count(m: Map<(int, int), SpecTile>, owner: Seq<char>) -> nat {
    owned_set(m, owner).len()
}

/// Recording a fresh tile adds its coordinate to the owner's set exactly when
/// the owner matches.
proof fn lemma_owned_insert(m: Map<(int, int), SpecTile>, owner: Seq<char>, k: (int, int), t: SpecTile)
    requires
        !m.contains_key(k),
        m.dom().finite(),
    ensures
        t.owner == owner ==> owned_set(m.insert(k, t), owner) =~= owned_set(m, owner).insert(k),
        t.owner != owner ==> owned_set(m.insert(k, t), owner) =~= owned_set(m, owner),
        owned_set(m, owner).finite(),
        t.owner == owner ==> owned_count(m.insert(k, t), owner) == owned_count(m, owner) + 1,
        t.owner != owner ==> owned_count(m.insert(k, t), owner) == owned_count(m, owner),
{
    vstd::set_lib::lemma_len_subset(owned_set(m, owner), m.dom());
    if t.owner == owner {
        assert(owned_set(m.insert(k, t), owner) =~= owned_set(m, owner).insert(k));
        assert(!owned_set(m, owner).contains(k));
    } else {
        assert(owned_set(m.insert(k, t), owner) =~= owned_set(m, owner));
    }
}

/// Updating the entry at a key's position denotes the map with that key
/// rebound.
proof fn lemma_tile_entries_update(
    s: Seq<(AxialCoords, InnerTileData)>,
    i: int,
    coords: AxialCoords,
    tile: InnerTileData,
)
    requires
        tile_entries_distinct(s),
        0 <= i < s.len(),
        s[i].0@ == coords@,
    ensures
        tile_entries_distinct(s.update(i, (coords, tile))),
        tile_entries_map(s.update(i, (coords, tile))) =~= tile_entries_map(s).insert(
            coords@,
            tile@,
        ),
{
    let s2 = s.update(i, (coords, tile));
    assert(forall|j: int| 0 <= j < s.len() && j != i ==> s2[j] == s[j]);
    assert(s2[i].0@ == coords@);
    lemma_tile_entries_map(s);
    lemma_tile_entries_map(s2);
    assert forall|k: (int, int)| #[trigger] tile_entries_map(s2).contains_key(k) implies
        tile_entries_map(s).insert(coords@, tile@).contains_key(k) by {
        let j = choose|j: int| 0 <= j < s2.len() && (#[trigger] s2[j]).0@ == k;
        assert(s[j].0@ == k);
    }
    assert forall|k: (int, int)| #[trigger] tile_entries_map(s).insert(
        coords@,
        tile@,
    ).contains_key(k) implies tile_entries_map(s2).contains_key(k) by {
        if k == coords@ {
            assert(s2[i].0@ == k);
        } else {
            let j = choose|j: int| 0 <= j < s.len() && (#[trigger] s[j]).0@ == k;
            assert(s2[j].0@ == k);
        }
    }
    assert forall|k: (int, int)| #[trigger] tile_entries_map(s2).contains_key(k) implies
        tile_entries_map(s2)[k] == tile_entries_map(s).insert(coords@, tile@)[k] by {
        let j = choose|j: int| 0 <= j < s2.len() && (#[trigger] s2[j]).0@ == k;
        assert(tile_entries_map(s2)[s2[j].0@] == s2[j].1@);
        if k == coords@ {
            assert(j == i);
        } else {
            assert(j != i);
            assert(tile_entries_map(s)[s[j].0@] == s[j].1@);
        }
    }
}

} // verus!
