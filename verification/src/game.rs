//! The game state and the click-resolution engine over the hex grid.

use vstd::prelude::*;

use crate::coords::{
    axial_cube, batch_mem, batch_cell_len, create_parallelogram_coords_batches, compute_neighboors,
    cube_spiral, in_spiral, is_within_grid, neighbor_slots, spec_in_grid, AxialCoords,
    PrecomputedNeighbors, COORD_BOUND,
};
use crate::grid::{GridSettings, InnerTileData, SpecComputed, SpecTile, TileData};
use crate::store::{spec_batch_get, MockRedisHandler};
use crate::tilemap::TileMap;
use crate::trusted::{shuffle_ids, str_eq};

verus! {

/// A neighbor index covering exactly the grid of the given radius, each entry
/// holding the six-slot neighbor array of its coordinate.
pub open spec fn index_ok(
    index: Map<(int, int), Seq<Option<(int, int)>>>,
    radius: int,
) -> bool {
    &&& forall|a: (int, int)|
        #[trigger] index.contains_key(a) <==> in_spiral(axial_cube(a), (0, 0, 0), radius)
    &&& forall|a: (int, int)| #[trigger] index.contains_key(a) ==> index[a] == neighbor_slots(
        a,
        radius,
    )
}

/// The immutable per-process game state: neighbor index, batch partition and
/// grid settings.
#[derive(Clone, Debug)]
pub struct GameData {
    pub precomputed_neighbors: PrecomputedNeighbors,
    pub precomputed_batches: Vec<Vec<AxialCoords>>,
    pub settings: GridSettings,
}

/// One step of the breadth-first search: consider one neighbor slot, and
/// discover its coordinate when it is a fresh, same-owner tile other than the
/// anchor.
pub open spec fn bfs_take(
    m: Map<(int, int), SpecTile>,
    anchor: (int, int),
    owner: Seq<char>,
    disc: Seq<(int, int)>,
    x: Option<(int, int)>,
) -> Seq<(int, int)> {
    match x {
        Some(nb) => {
            if nb != anchor && !disc.contains(nb) && m.contains_key(nb) && m[nb].owner == owner {
                disc.push(nb)
            } else {
                disc
            }
        },
        None => disc,
    }
}

/// Scan the first `j` neighbor slots of `c`.
pub open spec fn bfs_scan_slots(
    index: Map<(int, int), Seq<Option<(int, int)>>>,
    m: Map<(int, int), SpecTile>,
    anchor: (int, int),
    owner: Seq<char>,
    disc: Seq<(int, int)>,
    c: (int, int),
    j: int,
) -> Seq<(int, int)>
    decreases j,
{
    if j <= 0 {
        disc
    } else {
        bfs_take(m, anchor, owner, bfs_scan_slots(index, m, anchor, owner, disc, c, j - 1), index[c][j - 1])
    }
}

/// Scan all six neighbor slots of `c`, if `c` is on the grid at all.
pub open spec fn bfs_scan_coord(
    index: Map<(int, int), Seq<Option<(int, int)>>>,
    m: Map<(int, int), SpecTile>,
    anchor: (int, int),
    owner: Seq<char>,
    disc: Seq<(int, int)>,
    c: (int, int),
) -> Seq<(int, int)> {
    if index.contains_key(c) {
        bfs_scan_slots(index, m, anchor, owner, disc, c, 6)
    } else {
        disc
    }
}

/// Scan the first `i` coordinates of the current frontier.
pub open spec fn bfs_scan_frontier(
    index: Map<(int, int), Seq<Option<(int, int)>>>,
    m: Map<(int, int), SpecTile>,
    anchor: (int, int),
    owner: Seq<char>,
    disc: Seq<(int, int)>,
    frontier: Seq<(int, int)>,
    i: int,
) -> Seq<(int, int)>
    decreases i,
{
    if i <= 0 {
        disc
    } else {
        bfs_scan_coord(
            index,
            m,
            anchor,
            owner,
            bfs_scan_frontier(index, m, anchor, owner, disc, frontier, i - 1),
            frontier[i - 1],
        )
    }
}

/// The search state after the given number of rounds: all coordinates
/// discovered so far, and the frontier the next round will expand.
pub open spec fn bfs_state(
    index: Map<(int, int), Seq<Option<(int, int)>>>,
    m: Map<(int, int), SpecTile>,
    anchor: (int, int),
    owner: Seq<char>,
    rounds: int,
) -> (Seq<(int, int)>, Seq<(int, int)>)
    decreases rounds,
{
    if rounds <= 0 {
        (Seq::empty(), seq![anchor])
    } else {
        let prev = bfs_state(index, m, anchor, owner, rounds - 1);
        let disc = bfs_scan_frontier(index, m, anchor, owner, prev.0, prev.1, prev.1.len() as int);
        (disc, disc.skip(prev.0.len() as int))
    }
}

/// The contiguous same-owner region around `anchor`, in discovery order:
/// every tile of `owner` reachable from `anchor` in at most `radius`
/// neighbor hops, the anchor itself excluded.
pub open spec fn bfs_discovered(
    index: Map<(int, int), Seq<Option<(int, int)>>>,
    m: Map<(int, int), SpecTile>,
    anchor: (int, int),
    owner: Seq<char>,
    radius: int,
) -> Seq<(int, int)> {
    bfs_state(index, m, anchor, owner, radius).0
}

/// A slot scan only appends to what was already discovered.
pub proof fn lemma_bfs_scan_slots_prefix(
    index: Map<(int, int), Seq<Option<(int, int)>>>,
    m: Map<(int, int), SpecTile>,
    anchor: (int, int),
    owner: Seq<char>,
    disc: Seq<(int, int)>,
    c: (int, int),
    j: int,
)
    ensures
        disc.is_prefix_of(bfs_scan_slots(index, m, anchor, owner, disc, c, j)),
        bfs_scan_slots(index, m, anchor, owner, disc, c, j).len() <= disc.len() + if j >= 0 {
            j
        } else {
            0
        },
    decreases j,
{
    if j > 0 {
        lemma_bfs_scan_slots_prefix(index, m, anchor, owner, disc, c, j - 1);
    }
}

/// A frontier scan only appends to what was already discovered, and adds at
/// most six coordinates per frontier element.
pub proof fn lemma_bfs_scan_frontier_prefix(
    index: Map<(int, int), Seq<Option<(int, int)>>>,
    m: Map<(int, int), SpecTile>,
    anchor: (int, int),
    owner: Seq<char>,
    disc: Seq<(int, int)>,
    frontier: Seq<(int, int)>,
    i: int,
)
    ensures
        disc.is_prefix_of(bfs_scan_frontier(index, m, anchor, owner, disc, frontier, i)),
        bfs_scan_frontier(index, m, anchor, owner, disc, frontier, i).len() <= disc.len() + 6 * (
        if i >= 0 {
            i
        } else {
            0
        }),
    decreases i,
{
    if i > 0 {
        lemma_bfs_scan_frontier_prefix(index, m, anchor, owner, disc, frontier, i - 1);
        let mid = bfs_scan_frontier(index, m, anchor, owner, disc, frontier, i - 1);
        lemma_bfs_scan_slots_prefix(index, m, anchor, owner, mid, frontier[i - 1], 6);
    }
}

/// Length bounds of the search for the radii the game uses: at most 6
/// discoveries in one round, at most 42 in two.
pub proof fn lemma_bfs_len_bound(
    index: Map<(int, int), Seq<Option<(int, int)>>>,
    m: Map<(int, int), SpecTile>,
    anchor: (int, int),
    owner: Seq<char>,
    radius: int,
)
    requires
        0 <= radius <= 2,
    ensures
        bfs_discovered(index, m, anchor, owner, radius).len() <= 42,
        radius <= 1 ==> bfs_state(index, m, anchor, owner, radius).0.len() + 6 * bfs_state(
            index,
            m,
            anchor,
            owner,
            radius,
        ).1.len() <= 42,
{
    let st0 = bfs_state(index, m, anchor, owner, 0);
    assert(st0.0.len() == 0 && st0.1.len() == 1);
    if radius >= 1 {
        let st1 = bfs_state(index, m, anchor, owner, 1);
        lemma_bfs_scan_frontier_prefix(index, m, anchor, owner, st0.0, st0.1, 1);
        assert(st1.0.len() <= 6);
        assert(st1.1.len() <= st1.0.len());
        if radius >= 2 {
            let st2 = bfs_state(index, m, anchor, owner, 2);
            lemma_bfs_scan_frontier_prefix(
                index,
                m,
                anchor,
                owner,
                st1.0,
                st1.1,
                st1.1.len() as int,
            );
            assert(st2.0.len() <= st1.0.len() + 6 * st1.1.len());
            assert(st2.1.len() <= st2.0.len());
        }
    }
}

/// Skipping a fixed prefix commutes with appending one element.
proof fn lemma_skip_push<A>(s: Seq<A>, k: int, x: A)
    requires
        0 <= k <= s.len(),
    ensures
        s.push(x).skip(k) =~= s.skip(k).push(x),
{
    assert forall|i: int| 0 <= i < s.push(x).skip(k).len() implies s.push(x).skip(k)[i] == s.skip(
        k,
    ).push(x)[i] by {
        if i < s.len() - k {
            assert(s.push(x).skip(k)[i] == s[k + i]);
        }
    }
}

/// The views of a sequence of coordinates.
pub open spec fn coord_views(s: Seq<AxialCoords>) -> Seq<(int, int)> {
    Seq::new(s.len(), |i: int| s[i]@)
}

/// Whether `v` holds a coordinate with the view of `x`.
fn coords_vec_contains(v: &Vec<AxialCoords>, x: &AxialCoords) -> (r: bool)
    ensures
        r == coord_views(v@).contains(x@),
{
    let n = v.len();
    let mut i: usize = 0;
    while i < n
        invariant
            n == v@.len(),
            0 <= i as int <= n as int,
            forall|j: int| 0 <= j < i as int ==> (#[trigger] v@[j])@ != x@,
        decreases n as int - i as int,
    {
        if v[i] == *x {
            proof {
                assert(coord_views(v@)[i as int] == x@);
            }
            return true;
        }
        i = i + 1;
    }
    proof {
        assert forall|j: int| 0 <= j < coord_views(v@).len() implies coord_views(v@)[j] != x@ by {
            assert(coord_views(v@)[j] == v@[j]@);
        }
    }
    false
}

impl GameData {
    /// The batch partition, for contracts.
    pub open spec fn batches(&self) -> Seq<Vec<AxialCoords>> {
        self.precomputed_batches@
    }

    /// The state is built for its settings: the neighbor index covers the
    /// grid and each batch holds only in-grid coordinates.
    pub open spec fn wf(&self) -> bool {
        &&& self.precomputed_neighbors.wf()
        &&& index_ok(self.precomputed_neighbors@, self.settings.radius as int)
        &&& self.settings.radius as int <= COORD_BOUND as int / 2
        &&& forall|b: int, t: int|
            0 <= b < self.batches().len() && 0 <= t < self.batches()[b]@.len() ==> spec_in_grid(
                (#[trigger] self.batches()[b]@[t])@,
                self.settings.radius as int,
            )
    }

    /// Build the immutable game state for a grid radius and a batch division.
    pub fn new(radius: u32, batch_rows_and_cols: u8) -> (g: GameData)
        requires
            radius as int <= COORD_BOUND as int / 2,
            batch_rows_and_cols >= 1,
        ensures
            g.wf(),
            g.settings.radius == radius,
            g.batches().len() == batch_rows_and_cols as int * batch_rows_and_cols as int,
            forall|row: int, col: int, t: int|
                0 <= row < batch_rows_and_cols as int && 0 <= col < batch_rows_and_cols as int && 0
                    <= t < g.batches()[row * batch_rows_and_cols as int + col]@.len()
                    ==> batch_mem(
                    radius as int,
                    batch_cell_len(radius as int, batch_rows_and_cols as int),
                    batch_cell_len(radius as int, batch_rows_and_cols as int),
                    row,
                    col,
                    (#[trigger] g.batches()[row * batch_rows_and_cols as int + col]@[t])@,
                ),
            forall|row: int, col: int, x: (int, int)|
                0 <= row < batch_rows_and_cols as int && 0 <= col < batch_rows_and_cols as int
                    && #[trigger] batch_mem(
                    radius as int,
                    batch_cell_len(radius as int, batch_rows_and_cols as int),
                    batch_cell_len(radius as int, batch_rows_and_cols as int),
                    row,
                    col,
                    x,
                ) ==> exists|t: int|
                    0 <= t < g.batches()[row * batch_rows_and_cols as int + col]@.len() && (
                    #[trigger] g.batches()[row * batch_rows_and_cols as int + col]@[t])@ == x,
            forall|row: int, col: int, t1: int, t2: int|
                0 <= row < batch_rows_and_cols as int && 0 <= col < batch_rows_and_cols as int && 0
                    <= t1 < t2 < g.batches()[row * batch_rows_and_cols as int + col]@.len() ==> (
                #[trigger] g.batches()[row * batch_rows_and_cols as int + col]@[t1])@ != (
                #[trigger] g.batches()[row * batch_rows_and_cols as int + col]@[t2])@,
    {
        let precomputed_neighbors = compute_neighboors(radius);
        let precomputed_batches = create_parallelogram_coords_batches(
            batch_rows_and_cols,
            batch_rows_and_cols,
            radius,
        );
        let g = GameData {
            precomputed_neighbors,
            precomputed_batches,
            settings: GridSettings { radius },
        };
        proof {
            assert forall|b: int, t: int|
                0 <= b < g.batches().len() && 0 <= t < g.batches()[b]@.len() implies spec_in_grid(
                (#[trigger] g.batches()[b]@[t])@,
                g.settings.radius as int,
            ) by {
                let cols = batch_rows_and_cols as int;
                let row = b / cols;
                let col = b % cols;
                vstd::arithmetic::div_mod::lemma_fundamental_div_mod(b, cols);
                vstd::arithmetic::div_mod::lemma_mod_bound(b, cols);
                assert(0 <= row < cols) by (nonlinear_arith)
                    requires
                        b == cols * row + col && 0 <= col < cols && 0 <= b < cols * cols,
                ;
                assert(b == row * cols + col);
            }
        }
        g
    }

    /// Every coordinate of the grid, in spiral order.
    pub fn all_grid_coords(&self) -> (r: Vec<AxialCoords>)
        requires
            self.wf(),
        ensures
            forall|i: int|
                0 <= i < r@.len() ==> self.precomputed_neighbors@.contains_key(
                    (#[trigger] r@[i])@,
                ),
            forall|k: (int, int)|
                #[trigger] self.precomputed_neighbors@.contains_key(k) ==> exists|i: int|
                    0 <= i < r@.len() && (#[trigger] r@[i])@ == k,
            forall|i: int, j: int|
                0 <= i < j < r@.len() ==> (#[trigger] r@[i])@ != (#[trigger] r@[j])@,
            r@.len() == self.precomputed_neighbors@.dom().len(),
    {
        self.precomputed_neighbors.keys()
    }

    /// All tiles contiguous to `tile_coords` owned by `user_id`: the
    /// same-owner tiles reachable in at most `radius` neighbor hops, walked
    /// breadth first in neighbor order, the anchor itself excluded. Returns
    /// the tiles with their coordinates, and their number.
    pub fn contiguous_neighbors_of_tile(
        &self,
        prefetched: &TileMap,
        tile_coords: &AxialCoords,
        user_id: &str,
        radius: u8,
    ) -> (r: (Vec<(AxialCoords, InnerTileData)>, u8))
        requires
            self.wf(),
            prefetched.wf(),
            radius <= 2,
        ensures
            ({
                let disc = bfs_discovered(
                    self.precomputed_neighbors@,
                    prefetched@,
                    tile_coords@,
                    user_id@,
                    radius as int,
                );
                &&& r.0@.len() == disc.len()
                &&& forall|i: int|
                    0 <= i < disc.len() ==> (#[trigger] r.0@[i]).0@ == disc[i] && r.0@[i].1@
                        == prefetched@[disc[i]]
                &&& r.1 as int == disc.len()
                &&& disc.len() <= 42
            }),
    {
        let ghost index = self.precomputed_neighbors@;
        let ghost m = prefetched@;
        let ghost anchor = tile_coords@;
        let ghost owner = user_id@;

        let mut count: u8 = 0;
        let mut processed: Vec<AxialCoords> = Vec::new();
        let mut results: Vec<(AxialCoords, InnerTileData)> = Vec::new();
        let mut to_check: Vec<AxialCoords> = Vec::new();
        to_check.push(*tile_coords);

        proof {
            assert(coord_views(to_check@) =~= seq![anchor]);
            assert(coord_views(processed@) =~= Seq::<(int, int)>::empty());
        }

        let mut round: u8 = 0;
        while round < radius
            invariant
                self.wf(),
                prefetched.wf(),
                radius <= 2,
                index == self.precomputed_neighbors@,
                m == prefetched@,
                anchor == tile_coords@,
                owner == user_id@,
                0 <= round <= radius,
                coord_views(processed@) == bfs_state(index, m, anchor, owner, round as int).0,
                coord_views(to_check@) == bfs_state(index, m, anchor, owner, round as int).1,
                results@.len() == processed@.len(),
                forall|i: int|
                    0 <= i < results@.len() ==> (#[trigger] results@[i]).0@ == coord_views(
                        processed@,
                    )[i] && results@[i].1@ == m[coord_views(processed@)[i]],
                count as int == results@.len(),
                count <= 42,
            decreases radius as int - round as int,
        {
            let ghost st = bfs_state(index, m, anchor, owner, round as int);
            let mut next_to_check: Vec<AxialCoords> = Vec::new();

            proof {
                lemma_bfs_len_bound(index, m, anchor, owner, round as int);
            }

            let n = to_check.len();
            let mut i: usize = 0;
            while i < n
                invariant
                    self.wf(),
                    prefetched.wf(),
                    index == self.precomputed_neighbors@,
                    m == prefetched@,
                    anchor == tile_coords@,
                    owner == user_id@,
                    st == bfs_state(index, m, anchor, owner, round as int),
                    st.0.len() + 6 * st.1.len() <= 42,
                    n == to_check@.len(),
                    coord_views(to_check@) == st.1,
                    0 <= i as int <= n as int,
                    coord_views(processed@) == bfs_scan_frontier(
                        index,
                        m,
                        anchor,
                        owner,
                        st.0,
                        st.1,
                        i as int,
                    ),
                    coord_views(next_to_check@) == coord_views(processed@).skip(st.0.len() as int),
                    results@.len() == processed@.len(),
                    forall|j: int|
                        0 <= j < results@.len() ==> (#[trigger] results@[j]).0@ == coord_views(
                            processed@,
                        )[j] && results@[j].1@ == m[coord_views(processed@)[j]],
                    count as int == results@.len(),
                    count <= 42,
                decreases n as int - i as int,
            {
                let c = to_check[i];
                let ghost disc_before = coord_views(processed@);
                proof {
                    assert(c@ == st.1[i as int]);
                    lemma_bfs_scan_frontier_prefix(index, m, anchor, owner, st.0, st.1, i as int);
                    lemma_bfs_scan_frontier_prefix(
                        index,
                        m,
                        anchor,
                        owner,
                        st.0,
                        st.1,
                        i as int + 1,
                    );
                }
                if let Some(slots) = self.precomputed_neighbors.get(&c) {
                    let ghost slot_seq = index[c@];
                    let mut d: usize = 0;
                    while d < 6
                        invariant
                            self.wf(),
                            prefetched.wf(),
                            index == self.precomputed_neighbors@,
                            m == prefetched@,
                            anchor == tile_coords@,
                            owner == user_id@,
                            index.contains_key(c@),
                            slot_seq == index[c@],
                            slots@.map_values(|o: Option<AxialCoords>| crate::coords::slot_view(o))
                                == slot_seq,
                            0 <= d as int <= 6,
                            coord_views(processed@) == bfs_scan_slots(
                                index,
                                m,
                                anchor,
                                owner,
                                disc_before,
                                c@,
                                d as int,
                            ),
                            disc_before.len() + 6 <= 42 + 6,
                            coord_views(processed@).len() <= disc_before.len() + d as int,
                            st.0.len() <= coord_views(processed@).len(),
                            disc_before.len() <= 42,
                            coord_views(next_to_check@) == coord_views(processed@).skip(
                                st.0.len() as int,
                            ),
                            st.0.is_prefix_of(disc_before),
                            results@.len() == processed@.len(),
                            forall|j: int|
                                0 <= j < results@.len() ==> (#[trigger] results@[j]).0@
                                    == coord_views(processed@)[j] && results@[j].1@
                                    == m[coord_views(processed@)[j]],
                            count as int == results@.len(),
                        decreases 6 - d as int,
                    {
                        let ghost disc_d = coord_views(processed@);
                        let slot = slots[d];
                        proof {
                            assert(crate::coords::slot_view(slot) == slot_seq[d as int]);
                        }
                        if let Some(nb) = slot {
                            if !(nb == *tile_coords) && !coords_vec_contains(&processed, &nb) {
                                if let Some(nb_tile) = prefetched.get(&nb) {
                                    if str_eq(nb_tile.user_id.as_str(), user_id) {
                                        let nb_tile = nb_tile.clone();
                                        proof {
                                            assert(nb_tile@ == m[nb@]);
                                        }
                                        processed.push(nb);
                                        results.push((nb, nb_tile));
                                        count = count + 1;
                                        next_to_check.push(nb);
                                        proof {
                                            assert(coord_views(processed@) =~= disc_d.push(nb@));
                                            lemma_skip_push(disc_d, st.0.len() as int, nb@);
                                            assert(coord_views(next_to_check@) =~= disc_d.skip(
                                                st.0.len() as int,
                                            ).push(nb@));
                                            assert(coord_views(next_to_check@) =~= coord_views(
                                                processed@,
                                            ).skip(st.0.len() as int));
                                        }
                                    }
                                }
                            }
                        }
                        proof {
                            assert(coord_views(processed@) == bfs_take(
                                m,
                                anchor,
                                owner,
                                disc_d,
                                slot_seq[d as int],
                            ));
                        }
                        d = d + 1;
                    }
                    proof {
                        assert(coord_views(processed@) == bfs_scan_coord(
                            index,
                            m,
                            anchor,
                            owner,
                            disc_before,
                            c@,
                        ));
                    }
                } else {
                    proof {
                        assert(coord_views(processed@) == bfs_scan_coord(
                            index,
                            m,
                            anchor,
                            owner,
                            disc_before,
                            c@,
                        ));
                    }
                }
                proof {
                    assert(coord_views(processed@) == bfs_scan_frontier(
                        index,
                        m,
                        anchor,
                        owner,
                        st.0,
                        st.1,
                        i as int + 1,
                    ));
                    lemma_bfs_scan_frontier_prefix(
                        index,
                        m,
                        anchor,
                        owner,
                        st.0,
                        st.1,
                        i as int + 1,
                    );
                }
                i = i + 1;
            }
            proof {
                assert(coord_views(processed@) == bfs_state(
                    index,
                    m,
                    anchor,
                    owner,
                    round as int + 1,
                ).0);
                assert(coord_views(next_to_check@) =~= bfs_state(
                    index,
                    m,
                    anchor,
                    owner,
                    round as int + 1,
                ).1);
                lemma_bfs_len_bound(index, m, anchor, owner, round as int + 1);
            }
            to_check = next_to_check;
            round = round + 1;
        }
        proof {
            lemma_bfs_len_bound(index, m, anchor, owner, radius as int);
        }
        (results, count)
    }
}

/// A coordinate small enough for every prefetch computation.
pub open spec fn coord_ok(a: (int, int)) -> bool {
    -(COORD_BOUND as int) / 2 <= a.0 <= COORD_BOUND as int / 2 && -(COORD_BOUND as int) / 2 <= a.1
        <= COORD_BOUND as int / 2
}

/// A coordinate lies in the prefetch window of `center`: within two hops and
/// on the grid.
pub open spec fn fetch_target(center: (int, int), radius: int, k: (int, int)) -> bool {
    in_spiral(axial_cube(k), axial_cube(center), 2) && spec_in_grid(k, radius)
}

/// The working map after prefetching the window of `center` from the store:
/// existing entries stay, missing window keys are filled from the store.
pub open spec fn fetched_map(
    m: Map<(int, int), SpecTile>,
    store: Map<(int, int), SpecTile>,
    center: (int, int),
    radius: int,
) -> Map<(int, int), SpecTile> {
    Map::new(
        |k: (int, int)| m.contains_key(k) || (fetch_target(center, radius, k) && store.contains_key(k)),
        |k: (int, int)| if m.contains_key(k) { m[k] } else { store[k] },
    )
}

/// What one click does: the store tiles after it, the working map it left
/// behind, and the coordinates whose computed view must be re-emitted.
pub ghost struct ClickOutcome {
    pub tiles: Map<(int, int), SpecTile>,
    pub working: Map<(int, int), SpecTile>,
    pub updated: Seq<(int, int)>,
}

/// Resolution of one click on `click` by `actor` against the given store
/// tiles: first-ever click creates the tile; a click on one's own tile heals
/// it unless undamaged; a click on an enemy tile raises damage, or captures
/// the tile when the damage reaches its strength.
pub open spec fn spec_resolve_click(
    index: Map<(int, int), Seq<Option<(int, int)>>>,
    store: Map<(int, int), SpecTile>,
    click: (int, int),
    actor: Seq<char>,
    radius: int,
) -> ClickOutcome {
    let m = fetched_map(Map::empty(), store, click, radius);
    if m.contains_key(click) {
        let cur = m[click];
        if cur.owner != actor {
            let n = bfs_discovered(index, m, click, cur.owner, 2).len();
            if 1 + n - (cur.damage + 1) <= 0 {
                let newt = SpecTile { owner: actor, damage: 0 };
                let m2 = m.insert(click, newt);
                let prev_c = bfs_discovered(index, m2, click, cur.owner, 2);
                let actor_c = bfs_discovered(index, m2, click, actor, 2);
                ClickOutcome {
                    tiles: store.insert(click, newt),
                    working: m2,
                    updated: prev_c + actor_c + seq![click],
                }
            } else {
                let newt = SpecTile { owner: cur.owner, damage: cur.damage + 1 };
                ClickOutcome {
                    tiles: store.insert(click, newt),
                    working: m.insert(click, newt),
                    updated: seq![click],
                }
            }
        } else {
            if cur.damage > 0 {
                let newt = SpecTile { owner: cur.owner, damage: (cur.damage - 1) as nat };
                ClickOutcome {
                    tiles: store.insert(click, newt),
                    working: m.insert(click, newt),
                    updated: seq![click],
                }
            } else {
                ClickOutcome { tiles: store, working: m, updated: Seq::empty() }
            }
        }
    } else {
        let newt = SpecTile { owner: actor, damage: 0 };
        let m2 = m.insert(click, newt);
        let actor_c = bfs_discovered(index, m2, click, actor, 2);
        ClickOutcome {
            tiles: store.insert(click, newt),
            working: m2,
            updated: seq![click] + actor_c,
        }
    }
}

/// Projection of the first `i` updated coordinates: each is prefetched into
/// the evolving working map and projected to its computed view; one whose
/// stored damage exceeds its strength is skipped.
pub open spec fn spec_project(
    index: Map<(int, int), Seq<Option<(int, int)>>>,
    working: Map<(int, int), SpecTile>,
    store: Map<(int, int), SpecTile>,
    radius: int,
    updated: Seq<(int, int)>,
    m: Map<(int, int), SpecTile>,
    i: int,
) -> (Seq<((int, int), SpecComputed)>, Map<(int, int), SpecTile>)
    decreases i,
{
    if i <= 0 {
        (Seq::empty(), m)
    } else {
        let prev = spec_project(index, working, store, radius, updated, m, i - 1);
        let c = updated[i - 1];
        let t = working[c];
        let m2 = fetched_map(prev.1, store, c, radius);
        let n = bfs_discovered(index, m2, c, t.owner, 2).len();
        if t.damage <= 1 + n {
            (
                prev.0.push(
                    (c, SpecComputed { owner: t.owner, strength: (1 + n - t.damage) as nat }),
                ),
                m2,
            )
        } else {
            (prev.0, m2)
        }
    }
}

/// Every discovered coordinate is a tile of the owner in the map, and never
/// the anchor.
pub proof fn lemma_bfs_elements(
    index: Map<(int, int), Seq<Option<(int, int)>>>,
    m: Map<(int, int), SpecTile>,
    anchor: (int, int),
    owner: Seq<char>,
    radius: int,
)
    ensures
        forall|i: int|
            0 <= i < bfs_discovered(index, m, anchor, owner, radius).len() ==> {
                let e = #[trigger] bfs_discovered(index, m, anchor, owner, radius)[i];
                e != anchor && m.contains_key(e) && m[e].owner == owner
            },
    decreases radius,
{
    lemma_bfs_state_elements(index, m, anchor, owner, radius);
}

/// As `lemma_bfs_elements`, for the full search state.
proof fn lemma_bfs_state_elements(
    index: Map<(int, int), Seq<Option<(int, int)>>>,
    m: Map<(int, int), SpecTile>,
    anchor: (int, int),
    owner: Seq<char>,
    rounds: int,
)
    ensures
        forall|i: int|
            0 <= i < bfs_state(index, m, anchor, owner, rounds).0.len() ==> {
                let e = #[trigger] bfs_state(index, m, anchor, owner, rounds).0[i];
                e != anchor && m.contains_key(e) && m[e].owner == owner
            },
    decreases rounds,
{
    if rounds > 0 {
        lemma_bfs_state_elements(index, m, anchor, owner, rounds - 1);
        let prev = bfs_state(index, m, anchor, owner, rounds - 1);
        lemma_bfs_scan_frontier_elements(index, m, anchor, owner, prev.0, prev.1, prev.1.len() as int);
    }
}

/// As `lemma_bfs_elements`, for one frontier scan.
proof fn lemma_bfs_scan_frontier_elements(
    index: Map<(int, int), Seq<Option<(int, int)>>>,
    m: Map<(int, int), SpecTile>,
    anchor: (int, int),
    owner: Seq<char>,
    disc: Seq<(int, int)>,
    frontier: Seq<(int, int)>,
    i: int,
)
    requires
        forall|j: int|
            0 <= j < disc.len() ==> ((#[trigger] disc[j]) != anchor && m.contains_key(disc[j])
                && m[disc[j]].owner == owner),
    ensures
        forall|j: int|
            0 <= j < bfs_scan_frontier(index, m, anchor, owner, disc, frontier, i).len() ==> {
                let e = #[trigger] bfs_scan_frontier(index, m, anchor, owner, disc, frontier, i)[j];
                e != anchor && m.contains_key(e) && m[e].owner == owner
            },
    decreases i,
{
    if i > 0 {
        lemma_bfs_scan_frontier_elements(index, m, anchor, owner, disc, frontier, i - 1);
        let mid = bfs_scan_frontier(index, m, anchor, owner, disc, frontier, i - 1);
        lemma_bfs_scan_slots_elements(index, m, anchor, owner, mid, frontier[i - 1], 6);
    }
}

/// As `lemma_bfs_elements`, for one slot scan.
proof fn lemma_bfs_scan_slots_elements(
    index: Map<(int, int), Seq<Option<(int, int)>>>,
    m: Map<(int, int), SpecTile>,
    anchor: (int, int),
    owner: Seq<char>,
    disc: Seq<(int, int)>,
    c: (int, int),
    j: int,
)
    requires
        forall|t: int|
            0 <= t < disc.len() ==> ((#[trigger] disc[t]) != anchor && m.contains_key(disc[t])
                && m[disc[t]].owner == owner),
    ensures
        forall|t: int|
            0 <= t < bfs_scan_slots(index, m, anchor, owner, disc, c, j).len() ==> {
                let e = #[trigger] bfs_scan_slots(index, m, anchor, owner, disc, c, j)[t];
                e != anchor && m.contains_key(e) && m[e].owner == owner
            },
    decreases j,
{
    if j > 0 {
        lemma_bfs_scan_slots_elements(index, m, anchor, owner, disc, c, j - 1);
        let mid = bfs_scan_slots(index, m, anchor, owner, disc, c, j - 1);
        let fin = bfs_scan_slots(index, m, anchor, owner, disc, c, j);
        assert forall|t: int| 0 <= t < fin.len() implies {
            let e = #[trigger] fin[t];
            e != anchor && m.contains_key(e) && m[e].owner == owner
        } by {
            if t < mid.len() {
                assert(fin[t] == mid[t]);
            }
        }
    }
}

impl GameData {
    /// Prefetch every stored tile within two hops of `coords` that is not
    /// already in the working map; returns whether anything was done, which
    /// is always the case.
    pub fn fetch_within(
        &self,
        store: &MockRedisHandler,
        coords: &AxialCoords,
        previously_fetched: &mut TileMap,
    ) -> (r: bool)
        requires
            self.wf(),
            store.wf(),
            old(previously_fetched).wf(),
            coord_ok(coords@),
        ensures
            final(previously_fetched).wf(),
            final(previously_fetched)@ =~= fetched_map(
                old(previously_fetched)@,
                store.tiles(),
                coords@,
                self.settings.radius as int,
            ),
            r == true,
    {
        let ghost m0 = previously_fetched@;
        let ghost rad = self.settings.radius as int;
        let ghost storem = store.tiles();

        let center_cube = coords.as_cube();
        let spiral = cube_spiral(&center_cube, 2);
        let n = spiral.len();
        let ghost cc = center_cube@;
        proof {
            assert(cc == axial_cube(coords@));
        }

        let mut idx: usize = 0;
        while idx < n
            invariant
                self.wf(),
                store.wf(),
                previously_fetched.wf(),
                rad == self.settings.radius as int,
                storem == store.tiles(),
                cc == axial_cube(coords@),
                coord_ok(coords@),
                n == spiral@.len(),
                0 <= idx as int <= n as int,
                spiral@.len() == crate::coords::spiral_offset(3),
                forall|t: int|
                    0 <= t < spiral@.len() ==> in_spiral((#[trigger] spiral@[t])@, cc, 2),
                forall|t: int|
                    0 <= t < spiral@.len() ==> (#[trigger] spiral@[t])@.0 + spiral@[t]@.1
                        + spiral@[t]@.2 == cc.0 + cc.1 + cc.2,
                spiral@[0]@ == cc,
                forall|kk: int, t: int|
                    1 <= kk <= 2 && 0 <= t < 6 * kk ==> #[trigger] spiral@[crate::coords::spiral_offset(
                        kk,
                    ) + t]@ == crate::coords::ring_elem(cc, kk, t),
                forall|k: (int, int)|
                    #[trigger] previously_fetched@.contains_key(k) <==> (m0.contains_key(k) || (
                    exists|t: int|
                        0 <= t < idx as int && (#[trigger] spiral@[t])@ == axial_cube(k)
                            && spec_in_grid(k, rad) && storem.contains_key(k))),
                forall|k: (int, int)|
                    #[trigger] previously_fetched@.contains_key(k) ==> previously_fetched@[k] == (
                    if m0.contains_key(k) {
                        m0[k]
                    } else {
                        storem[k]
                    }),
            decreases n as int - idx as int,
        {
            let cube_item = spiral[idx];
            let ac = cube_item.as_axial();
            proof {
                assert(spiral@[idx as int]@.2 == -spiral@[idx as int]@.0 - spiral@[idx as int]@.1);
                assert(axial_cube(ac@) == spiral@[idx as int]@);
            }
            if is_within_grid(ac, self.settings.radius) {
                if previously_fetched.get(&ac).is_none() {
                    match store.get_tile(&ac) {
                        Some(t) => {
                            previously_fetched.insert(ac, t);
                        },
                        None => {},
                    }
                }
            }
            idx = idx + 1;
        }
        proof {
            assert forall|k: (int, int)|
                #[trigger] previously_fetched@.contains_key(k) <==> fetched_map(
                m0,
                storem,
                coords@,
                rad,
            ).contains_key(k) by {
                if previously_fetched@.contains_key(k) && !m0.contains_key(k) {
                    let t = choose|t: int|
                        0 <= t < n as int && (#[trigger] spiral@[t])@ == axial_cube(k);
                    assert(in_spiral(axial_cube(k), cc, 2));
                }
                if !m0.contains_key(k) && fetch_target(coords@, rad, k) && storem.contains_key(k) {
                    let p = axial_cube(k);
                    if p == cc {
                        assert(spiral@[0]@ == p);
                    } else {
                        let (kk, t) = choose|kk: int, t: int|
                            1 <= kk <= 2 && 0 <= t < 6 * kk && p == crate::coords::ring_elem(
                                cc,
                                kk,
                                t,
                            );
                        crate::coords::lemma_spiral_offset_in_range(kk, t, 2);
                        assert(spiral@[crate::coords::spiral_offset(kk) + t]@ == p);
                    }
                }
            }
            assert(previously_fetched@ =~= fetched_map(m0, storem, coords@, rad));
        }
        true
    }

    /// The public view of a stored tile: its owner, and a strength of one
    /// plus its contiguous same-owner tiles minus its damage. A record whose
    /// damage exceeds that sum has no valid view.
    pub fn computed_tile(
        &self,
        store: &MockRedisHandler,
        coords: &AxialCoords,
        tile: &InnerTileData,
        prefetched: &mut TileMap,
    ) -> (r: Option<TileData>)
        requires
            self.wf(),
            store.wf(),
            old(prefetched).wf(),
            coord_ok(coords@),
        ensures
            final(prefetched).wf(),
            final(prefetched)@ =~= fetched_map(
                old(prefetched)@,
                store.tiles(),
                coords@,
                self.settings.radius as int,
            ),
            ({
                let m2 = fetched_map(
                    old(prefetched)@,
                    store.tiles(),
                    coords@,
                    self.settings.radius as int,
                );
                let n = bfs_discovered(self.precomputed_neighbors@, m2, coords@, tile@.owner, 2).len();
                match r {
                    Some(td) => tile@.damage <= 1 + n && td@.owner == tile@.owner && td@.strength
                        == 1 + n - tile@.damage,
                    None => tile@.damage > 1 + n,
                }
            }),
    {
        let _ = self.fetch_within(store, coords, prefetched);

        let (_, nb_neighboors) = self.contiguous_neighbors_of_tile(
            prefetched,
            coords,
            tile.user_id.as_str(),
            2,
        );

        if tile.damage as u16 > 1 + nb_neighboors as u16 {
            return None;
        }
        let strength_wide: u16 = 1 + nb_neighboors as u16 - tile.damage as u16;
        let strength: u8 = strength_wide as u8;

        Some(TileData { strength, user_id: tile.user_id.clone() })
    }
}

impl GameData {
    /// Resolve one click: mutate at most one tile in the store and return the
    /// computed views of every tile whose public view changed. The result and
    /// the new store state are exactly `spec_resolve_click` followed by
    /// `spec_project` of its updated set.
    pub fn handle_click(
        &self,
        store: &mut MockRedisHandler,
        click_coords: &AxialCoords,
        click_user_id: &str,
    ) -> (r: Vec<(AxialCoords, TileData)>)
        requires
            self.wf(),
            old(store).wf(),
            coord_ok(click_coords@),
        ensures
            final(store).wf(),
            ({
                let outcome = spec_resolve_click(
                    self.precomputed_neighbors@,
                    old(store).tiles(),
                    click_coords@,
                    click_user_id@,
                    self.settings.radius as int,
                );
                &&& final(store).tiles() =~= outcome.tiles
                &&& final(store).users() == old(store).users()
                &&& ({
                    let proj = spec_project(
                        self.precomputed_neighbors@,
                        outcome.working,
                        outcome.tiles,
                        self.settings.radius as int,
                        outcome.updated,
                        outcome.working,
                        outcome.updated.len() as int,
                    ).0;
                    &&& r@.len() == proj.len()
                    &&& forall|i: int|
                        0 <= i < proj.len() ==> ((#[trigger] r@[i]).0@, r@[i].1@) == proj[i]
                })
            }),
    {
        let ghost index = self.precomputed_neighbors@;
        let ghost rad = self.settings.radius as int;
        let ghost storem0 = store.tiles();
        let ghost actor = click_user_id@;
        let ghost click = click_coords@;
        let ghost outcome = spec_resolve_click(index, storem0, click, actor, rad);

        let mut updated_tiles: Vec<(AxialCoords, InnerTileData)> = Vec::new();

        let mut tmp_hash = TileMap::new();

        let _ = self.fetch_within(store, click_coords, &mut tmp_hash);
        let ghost m = tmp_hash@;
        proof {
            assert(m =~= fetched_map(Map::empty(), storem0, click, rad));
        }

        let current_tile: Option<InnerTileData> = match tmp_hash.get(click_coords) {
            Some(t) => Some(t.clone()),
            None => None,
        };

        if let Some(current_tile) = current_tile {
            proof {
                assert(m.contains_key(click) && current_tile@ == m[click]);
            }
            let current_owner = current_tile.user_id.clone();

            let (_, nb_neighboors) = self.contiguous_neighbors_of_tile(
                &tmp_hash,
                click_coords,
                current_owner.as_str(),
                2,
            );
            let ghost n = bfs_discovered(index, m, click, m[click].owner, 2).len();
            proof {
                assert(nb_neighboors as int == n);
            }

            if !str_eq(current_tile.user_id.as_str(), click_user_id) {
                let damage_new: i32 = current_tile.damage as i32 + 1;
                let remaining_strength: i32 = {
                    let x = 1 + nb_neighboors as i32 - damage_new;
                    if x < 0 {
                        0
                    } else {
                        x
                    }
                };

                if remaining_strength == 0 {
                    // capture: the actor takes the tile with no damage
                    let updated_tile = InnerTileData {
                        user_id: click_user_id.to_owned(),
                        damage: 0,
                    };
                    tmp_hash.insert(*click_coords, updated_tile.clone());
                    let _ = store.set_tile(click_coords, updated_tile.clone());
                    proof {
                        assert(tmp_hash@ =~= outcome.working);
                        assert(store.tiles() =~= outcome.tiles);
                    }

                    let (mut tiles_prev, _) = self.contiguous_neighbors_of_tile(
                        &tmp_hash,
                        click_coords,
                        current_owner.as_str(),
                        2,
                    );
                    updated_tiles.append(&mut tiles_prev);

                    let (mut tiles_actor, _) = self.contiguous_neighbors_of_tile(
                        &tmp_hash,
                        click_coords,
                        click_user_id,
                        2,
                    );
                    updated_tiles.append(&mut tiles_actor);

                    updated_tiles.push((*click_coords, updated_tile));
                    proof {
                        assert(updated_tiles@.len() == outcome.updated.len());
                        assert forall|i: int| 0 <= i < outcome.updated.len() implies (
                        #[trigger] updated_tiles@[i]).0@ == outcome.updated[i]
                            && updated_tiles@[i].1@ == outcome.working[outcome.updated[i]] by {}
                    }
                } else {
                    // attack that does not break the tile: raise the damage
                    proof {
                        assert(m[click].damage + 1 <= 255);
                    }
                    let updated_tile = InnerTileData {
                        user_id: current_owner.clone(),
                        damage: current_tile.damage + 1,
                    };
                    tmp_hash.insert(*click_coords, updated_tile.clone());
                    let _ = store.set_tile(click_coords, updated_tile.clone());
                    updated_tiles.push((*click_coords, updated_tile));
                    proof {
                        assert(tmp_hash@ =~= outcome.working);
                        assert(store.tiles() =~= outcome.tiles);
                        assert(updated_tiles@.len() == outcome.updated.len());
                        assert(updated_tiles@[0].0@ == outcome.updated[0] && updated_tiles@[0].1@
                            == outcome.working[outcome.updated[0]]);
                    }
                }
            } else {
                if current_tile.damage > 0 {
                    // heal one's own damaged tile
                    let updated_tile = InnerTileData {
                        user_id: current_owner.clone(),
                        damage: current_tile.damage - 1,
                    };
                    tmp_hash.insert(*click_coords, updated_tile.clone());
                    let _ = store.set_tile(click_coords, updated_tile.clone());
                    updated_tiles.push((*click_coords, updated_tile));
                    proof {
                        assert(tmp_hash@ =~= outcome.working);
                        assert(store.tiles() =~= outcome.tiles);
                        assert(updated_tiles@.len() == outcome.updated.len());
                        assert(updated_tiles@[0].0@ == outcome.updated[0] && updated_tiles@[0].1@
                            == outcome.working[outcome.updated[0]]);
                    }
                } else {
                    // clicking one's own undamaged tile changes nothing
                    proof {
                        assert(tmp_hash@ =~= outcome.working);
                        assert(store.tiles() =~= outcome.tiles);
                        assert(updated_tiles@.len() == outcome.updated.len());
                    }
                }
            }
        } else {
            // first-ever click: create the tile for the actor
            let new_tile = InnerTileData { user_id: click_user_id.to_owned(), damage: 0 };
            tmp_hash.insert(*click_coords, new_tile.clone());
            let _ = store.set_tile(click_coords, new_tile.clone());
            proof {
                assert(tmp_hash@ =~= outcome.working);
                assert(store.tiles() =~= outcome.tiles);
            }

            updated_tiles.push((*click_coords, new_tile));

            let (mut tiles, _) = self.contiguous_neighbors_of_tile(
                &tmp_hash,
                click_coords,
                click_user_id,
                2,
            );
            updated_tiles.append(&mut tiles);
            proof {
                assert(updated_tiles@.len() == outcome.updated.len());
                assert forall|i: int| 0 <= i < outcome.updated.len() implies (
                #[trigger] updated_tiles@[i]).0@ == outcome.updated[i] && updated_tiles@[i].1@
                    == outcome.working[outcome.updated[i]] by {}
            }
        }

        proof {
            assert(tmp_hash@ =~= outcome.working);
            assert(store.tiles() =~= outcome.tiles);
            lemma_bfs_elements(index, outcome.working, click, m[click].owner, 2);
            lemma_bfs_elements(index, outcome.working, click, actor, 2);
            assert forall|i: int| 0 <= i < outcome.updated.len() implies coord_ok(
                #[trigger] outcome.updated[i],
            ) by {
                let e = outcome.updated[i];
                if e != click {
                    assert(outcome.working.contains_key(e));
                    assert(spec_in_grid(e, rad) || m.contains_key(e));
                }
            }
        }

        let mut res: Vec<(AxialCoords, TileData)> = Vec::new();
        let total = updated_tiles.len();
        let mut i: usize = 0;
        while i < total
            invariant
                self.wf(),
                store.wf(),
                tmp_hash.wf(),
                index == self.precomputed_neighbors@,
                rad == self.settings.radius as int,
                store.tiles() =~= outcome.tiles,
                store.users() == old(store).users(),
                total == updated_tiles@.len(),
                updated_tiles@.len() == outcome.updated.len(),
                forall|j: int|
                    0 <= j < outcome.updated.len() ==> ((#[trigger] updated_tiles@[j]).0@
                        == outcome.updated[j] && updated_tiles@[j].1@
                        == outcome.working[outcome.updated[j]]),
                forall|j: int| 0 <= j < outcome.updated.len() ==> coord_ok(
                    #[trigger] outcome.updated[j],
                ),
                0 <= i as int <= total as int,
                tmp_hash@ =~= spec_project(
                    index,
                    outcome.working,
                    outcome.tiles,
                    rad,
                    outcome.updated,
                    outcome.working,
                    i as int,
                ).1,
                ({
                    let proj = spec_project(
                        index,
                        outcome.working,
                        outcome.tiles,
                        rad,
                        outcome.updated,
                        outcome.working,
                        i as int,
                    ).0;
                    &&& res@.len() == proj.len()
                    &&& forall|j: int|
                        0 <= j < proj.len() ==> ((#[trigger] res@[j]).0@, res@[j].1@) == proj[j]
                }),
            decreases total as int - i as int,
        {
            let coords_i = updated_tiles[i].0;
            let tile_i = updated_tiles[i].1.clone();
            proof {
                assert(coords_i@ == outcome.updated[i as int]);
                assert(tile_i@ == outcome.working[outcome.updated[i as int]]);
            }
            let computed = self.computed_tile(store, &coords_i, &tile_i, &mut tmp_hash);
            match computed {
                Some(c) => {
                    res.push((coords_i, c));
                },
                None => {},
            }
            i = i + 1;
        }
        res
    }

    /// The batch indexes `0..batches`, in a freshly randomized order.
    pub fn get_batch_list(&self) -> (r: Vec<usize>)
        ensures
            r@.len() == self.batches().len(),
            r@.to_multiset() == Seq::<usize>::new(
                self.batches().len(),
                |i: int| i as usize,
            ).to_multiset(),
    {
        let batches_len = self.precomputed_batches.len();
        let mut list: Vec<usize> = Vec::new();
        let mut i: usize = 0;
        while i < batches_len
            invariant
                0 <= i as int <= batches_len as int,
                list@.len() == i as int,
                forall|j: int| 0 <= j < i as int ==> (#[trigger] list@[j]) == j as usize,
            decreases batches_len as int - i as int,
        {
            list.push(i);
            i = i + 1;
        }
        proof {
            assert(list@ =~= Seq::<usize>::new(self.batches().len(), |j: int| j as usize));
        }
        shuffle_ids(&mut list);
        list
    }

    /// The computed views of every stored tile of one batch, as
    /// `(q, r, strength, owner)` rows; an unknown batch index is an error.
    pub fn compute_batch(&self, store: &MockRedisHandler, batch: usize) -> (r: Result<
        Vec<(i32, i32, u8, String)>,
        String,
    >)
        requires
            self.wf(),
            store.wf(),
        ensures
            (batch as int) >= self.batches().len() <==> r is Err,
            ({
                (batch as int) < self.batches().len() ==> {
                    let pairs = spec_batch_get(
                        store.tiles(),
                        coord_views(self.batches()[batch as int]@),
                    );
                    let updated = Seq::new(pairs.len(), |i: int| pairs[i].0);
                    let proj = spec_project(
                        self.precomputed_neighbors@,
                        store.tiles(),
                        store.tiles(),
                        self.settings.radius as int,
                        updated,
                        Map::empty(),
                        updated.len() as int,
                    ).0;
                    match r {
                        Ok(rows) => rows@.len() == proj.len() && forall|i: int|
                            0 <= i < proj.len() ==> {
                                let row = #[trigger] rows@[i];
                                row.0 as int == proj[i].0.0 && row.1 as int == proj[i].0.1
                                    && row.2 as nat == proj[i].1.strength && row.3@
                                    == proj[i].1.owner
                            },
                        Err(_) => false,
                    }
                }
            }),
    {
        let ghost index = self.precomputed_neighbors@;
        let ghost rad = self.settings.radius as int;

        if batch >= self.precomputed_batches.len() {
            let msg = <String as vstd::string::StringExecFns>::from_str("batch does not exist");
            return Err(msg);
        }

        // copy the batch coordinates
        let batch_ref = &self.precomputed_batches[batch];
        let bn = batch_ref.len();
        let mut batch_coords: Vec<AxialCoords> = Vec::new();
        let mut bi: usize = 0;
        while bi < bn
            invariant
                (batch as int) < self.precomputed_batches@.len(),
                batch_ref == &self.precomputed_batches[batch as int],
                bn == batch_ref@.len(),
                0 <= bi as int <= bn as int,
                batch_coords@.len() == bi as int,
                forall|j: int| 0 <= j < bi as int ==> (#[trigger] batch_coords@[j]) == batch_ref@[j],
            decreases bn as int - bi as int,
        {
            batch_coords.push(batch_ref[bi]);
            bi = bi + 1;
        }
        proof {
            assert(batch_coords@ =~= self.batches()[batch as int]@);
        }

        let tiles = store.batch_get_tiles(batch_coords);
        let ghost pairs = spec_batch_get(store.tiles(), coord_views(self.batches()[batch as int]@));
        let ghost updated = Seq::new(pairs.len(), |i: int| pairs[i].0);

        proof {
            lemma_spec_batch_get_props(store.tiles(), coord_views(self.batches()[batch as int]@));
            assert forall|i: int| 0 <= i < updated.len() implies coord_ok(
                #[trigger] updated[i],
            ) by {
                let cvs = coord_views(self.batches()[batch as int]@);
                assert(exists|j: int| 0 <= j < cvs.len() && #[trigger] cvs[j] == updated[i]);
                let j = choose|j: int| 0 <= j < cvs.len() && #[trigger] cvs[j] == updated[i];
                assert(spec_in_grid(self.batches()[batch as int]@[j]@, rad));
            }
        }

        let mut results: Vec<(i32, i32, u8, String)> = Vec::new();
        let mut temp_fetched_map = TileMap::new();
        proof {
            assert(temp_fetched_map@ =~= spec_project(
                index,
                store.tiles(),
                store.tiles(),
                rad,
                updated,
                Map::empty(),
                0,
            ).1);
        }

        let n = tiles.len();
        let mut i: usize = 0;
        while i < n
            invariant
                self.wf(),
                store.wf(),
                temp_fetched_map.wf(),
                index == self.precomputed_neighbors@,
                rad == self.settings.radius as int,
                n == tiles@.len(),
                pairs == spec_batch_get(
                    store.tiles(),
                    coord_views(self.batches()[batch as int]@),
                ),
                updated == Seq::new(pairs.len(), |j: int| pairs[j].0),
                tiles@.len() == pairs.len(),
                forall|j: int|
                    0 <= j < pairs.len() ==> ((#[trigger] tiles@[j]).0@, tiles@[j].1@) == pairs[j],
                forall|j: int| 0 <= j < updated.len() ==> coord_ok(#[trigger] updated[j]),
                forall|j: int|
                    0 <= j < pairs.len() ==> store.tiles().contains_key((#[trigger] pairs[j]).0)
                        && store.tiles()[pairs[j].0] == pairs[j].1,
                0 <= i as int <= n as int,
                temp_fetched_map@ =~= spec_project(
                    index,
                    store.tiles(),
                    store.tiles(),
                    rad,
                    updated,
                    Map::empty(),
                    i as int,
                ).1,
                ({
                    let proj = spec_project(
                        index,
                        store.tiles(),
                        store.tiles(),
                        rad,
                        updated,
                        Map::empty(),
                        i as int,
                    ).0;
                    &&& results@.len() == proj.len()
                    &&& forall|j: int|
                        0 <= j < proj.len() ==> {
                            let row = #[trigger] results@[j];
                            row.0 as int == proj[j].0.0 && row.1 as int == proj[j].0.1 && row.2
                                as nat == proj[j].1.strength && row.3@ == proj[j].1.owner
                        }
                }),
            decreases n as int - i as int,
        {
            let coords_i = tiles[i].0;
            let tile_i = tiles[i].1.clone();
            proof {
                assert((coords_i@, tile_i@) == pairs[i as int]);
                assert(updated[i as int] == coords_i@);
                assert(store.tiles()[coords_i@] == tile_i@);
            }
            let computed = self.computed_tile(store, &coords_i, &tile_i, &mut temp_fetched_map);
            match computed {
                Some(c) => {
                    let strength = c.strength;
                    let user_id = c.user_id;
                    results.push((coords_i.q, coords_i.r, strength, user_id));
                },
                None => {},
            }
            i = i + 1;
        }

        Ok(results)
    }
}

/// Every pair a batch read returns is a stored tile of a requested
/// coordinate.
proof fn lemma_spec_batch_get_props(m: Map<(int, int), SpecTile>, cs: Seq<(int, int)>)
    ensures
        forall|i: int|
            0 <= i < spec_batch_get(m, cs).len() ==> {
                let p = #[trigger] spec_batch_get(m, cs)[i];
                m.contains_key(p.0) && m[p.0] == p.1 && exists|j: int|
                    0 <= j < cs.len() && #[trigger] cs[j] == p.0
            },
    decreases cs.len(),
{
    if cs.len() > 0 {
        lemma_spec_batch_get_props(m, cs.drop_last());
        let pre = spec_batch_get(m, cs.drop_last());
        let fin = spec_batch_get(m, cs);
        assert forall|i: int| 0 <= i < fin.len() implies {
            let p = #[trigger] fin[i];
            m.contains_key(p.0) && m[p.0] == p.1 && exists|j: int|
                0 <= j < cs.len() && #[trigger] cs[j] == p.0
        } by {
            if i < pre.len() {
                assert(fin[i] == pre[i]);
                let j = choose|j: int| 0 <= j < cs.drop_last().len() && #[trigger] cs.drop_last()[j]
                    == pre[i].0;
                assert(cs[j] == fin[i].0);
            } else {
                assert(fin[i].0 == cs.last());
                assert(cs[cs.len() - 1] == fin[i].0);
            }
        }
    }
}

} // verus!
