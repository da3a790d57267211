//! The engine's stated laws: properties of the contiguity search and of the
//! click algebra, proved from the specifications the engine's functions
//! carry.

use vstd::prelude::*;

use crate::coords::{
    abs_i, axial_cube, batch_cell_len, batch_mem, grid_neighbors, grid_neighbors_upto, hex_dist,
    in_spiral, lemma_batch_index_pub, lemma_ring_index, neighbor_list, neighbor_slots,
    ring_corner, ring_elem, AxialCoords,
    ring_side_elem, spec_cube_scale, spec_direction, spec_in_grid,
};
use crate::game::{
    bfs_discovered, bfs_scan_coord, bfs_scan_frontier, bfs_scan_slots, bfs_state, bfs_take,
    fetch_target, fetched_map, index_ok, lemma_bfs_elements, lemma_bfs_scan_frontier_prefix,
    spec_resolve_click,
};
use crate::game::coord_views;
use crate::grid::SpecTile;

verus! {

/// The contiguity count is monotone in the search radius: a deeper search
/// extends a shallower one.
pub proof fn lemma_contiguous_monotone(
    index: Map<(int, int), Seq<Option<(int, int)>>>,
    m: Map<(int, int), SpecTile>,
    anchor: (int, int),
    owner: Seq<char>,
    r1: int,
    r2: int,
)
    requires
        0 <= r1 <= r2,
    ensures
        bfs_discovered(index, m, anchor, owner, r1).is_prefix_of(
            bfs_discovered(index, m, anchor, owner, r2),
        ),
        bfs_discovered(index, m, anchor, owner, r1).len() <= bfs_discovered(
            index,
            m,
            anchor,
            owner,
            r2,
        ).len(),
    decreases r2,
{
    if r2 > r1 {
        lemma_contiguous_monotone(index, m, anchor, owner, r1, r2 - 1);
        let prev = bfs_state(index, m, anchor, owner, r2 - 1);
        lemma_bfs_scan_frontier_prefix(
            index,
            m,
            anchor,
            owner,
            prev.0,
            prev.1,
            prev.1.len() as int,
        );
    }
}

/// The contiguity search never returns its own anchor.
pub proof fn lemma_contiguous_excludes_anchor(
    index: Map<(int, int), Seq<Option<(int, int)>>>,
    m: Map<(int, int), SpecTile>,
    anchor: (int, int),
    owner: Seq<char>,
    radius: int,
)
    ensures
        forall|i: int|
            0 <= i < bfs_discovered(index, m, anchor, owner, radius).len() ==> #[trigger] bfs_discovered(
                index,
                m,
                anchor,
                owner,
                radius,
            )[i] != anchor,
{
    lemma_bfs_elements(index, m, anchor, owner, radius);
}

/// A first click on an empty coordinate stores the tile `{actor, 0}`, and the
/// clicked coordinate is in the updated set.
pub proof fn lemma_first_click(
    index: Map<(int, int), Seq<Option<(int, int)>>>,
    store: Map<(int, int), SpecTile>,
    click: (int, int),
    actor: Seq<char>,
    radius: int,
)
    requires
        !store.contains_key(click),
    ensures
        ({
            let o = spec_resolve_click(index, store, click, actor, radius);
            &&& o.tiles == store.insert(click, SpecTile { owner: actor, damage: 0 })
            &&& o.tiles.contains_key(click) && o.tiles[click] == SpecTile {
                owner: actor,
                damage: 0,
            }
            &&& o.updated.len() >= 1 && o.updated[0] == click
        }),
{
    let m = fetched_map(Map::empty(), store, click, radius);
    assert(!m.contains_key(click));
}

/// Clicking one's own undamaged tile changes nothing: no write, no updates.
pub proof fn lemma_self_click_undamaged_noop(
    index: Map<(int, int), Seq<Option<(int, int)>>>,
    store: Map<(int, int), SpecTile>,
    click: (int, int),
    actor: Seq<char>,
    radius: int,
)
    requires
        spec_in_grid(click, radius),
        store.contains_key(click),
        store[click].owner == actor,
        store[click].damage == 0,
    ensures
        ({
            let o = spec_resolve_click(index, store, click, actor, radius);
            &&& o.tiles == store
            &&& o.updated.len() == 0
        }),
{
    let m = fetched_map(Map::empty(), store, click, radius);
    assert(fetch_target(click, radius, click));
    assert(m.contains_key(click) && m[click] == store[click]);
}

/// Clicking an enemy tile with contiguity count `n` and damage `d` raises the
/// damage to `d + 1` while `d + 1 <= n`, and captures the tile for the actor
/// when `d + 1 == n + 1`.
pub proof fn lemma_damage_accumulation(
    index: Map<(int, int), Seq<Option<(int, int)>>>,
    store: Map<(int, int), SpecTile>,
    click: (int, int),
    actor: Seq<char>,
    radius: int,
)
    requires
        spec_in_grid(click, radius),
        store.contains_key(click),
        store[click].owner != actor,
    ensures
        ({
            let o = spec_resolve_click(index, store, click, actor, radius);
            let m = fetched_map(Map::empty(), store, click, radius);
            let cur = store[click];
            let n = bfs_discovered(index, m, click, cur.owner, 2).len();
            &&& (cur.damage + 1 <= n ==> o.tiles == store.insert(
                click,
                SpecTile { owner: cur.owner, damage: (cur.damage + 1) as nat },
            ))
            &&& (cur.damage + 1 > n ==> o.tiles == store.insert(
                click,
                SpecTile { owner: actor, damage: 0 },
            ))
        }),
{
    let m = fetched_map(Map::empty(), store, click, radius);
    assert(fetch_target(click, radius, click));
    assert(m.contains_key(click) && m[click] == store[click]);
}

/// Immediately after a capture, the clicked tile belongs to the actor with no
/// damage, so its computed strength is one plus the actor's contiguity count.
pub proof fn lemma_capture_consistency(
    index: Map<(int, int), Seq<Option<(int, int)>>>,
    store: Map<(int, int), SpecTile>,
    click: (int, int),
    actor: Seq<char>,
    radius: int,
)
    requires
        spec_in_grid(click, radius),
        store.contains_key(click),
        store[click].owner != actor,
        ({
            let m = fetched_map(Map::empty(), store, click, radius);
            store[click].damage + 1 > bfs_discovered(index, m, click, store[click].owner, 2).len()
        }),
    ensures
        ({
            let o = spec_resolve_click(index, store, click, actor, radius);
            &&& o.tiles[click] == SpecTile { owner: actor, damage: 0 }
            &&& o.working[click] == SpecTile { owner: actor, damage: 0 }
            &&& 1 + bfs_discovered(index, o.working, click, actor, 2).len()
                - o.working[click].damage == 1 + bfs_discovered(
                index,
                o.working,
                click,
                actor,
                2,
            ).len()
            &&& o.updated.contains(click)
        }),
{
    let m = fetched_map(Map::empty(), store, click, radius);
    assert(fetch_target(click, radius, click));
    assert(m.contains_key(click) && m[click] == store[click]);
    let o = spec_resolve_click(index, store, click, actor, radius);
    assert(o.updated[o.updated.len() - 1] == click);
}

/// The parallelogram batches partition the grid: every in-grid coordinate
/// belongs to exactly one batch cell, and every batch member is on the grid.
pub proof fn lemma_batches_partition(radius: int, rows: int, cols: int)
    requires
        radius >= 0,
        1 <= rows <= 255,
        1 <= cols <= 255,
    ensures
        ({
            let pw = batch_cell_len(radius, cols);
            let ph = batch_cell_len(radius, rows);
            &&& forall|x: (int, int)|
                spec_in_grid(x, radius) ==> exists|row: int, col: int|
                    0 <= row < rows && 0 <= col < cols && #[trigger] batch_mem(
                        radius,
                        pw,
                        ph,
                        row,
                        col,
                        x,
                    )
            &&& forall|r1: int, c1: int, r2: int, c2: int, x: (int, int)|
                #[trigger] batch_mem(radius, pw, ph, r1, c1, x) && #[trigger] batch_mem(
                    radius,
                    pw,
                    ph,
                    r2,
                    c2,
                    x,
                ) ==> r1 == r2 && c1 == c2
            &&& forall|row: int, col: int, x: (int, int)|
                #[trigger] batch_mem(radius, pw, ph, row, col, x) ==> spec_in_grid(x, radius)
        }),
{
    let pw = batch_cell_len(radius, cols);
    let ph = batch_cell_len(radius, rows);
    crate::coords::lemma_ceil_div_bounds_pub(radius, cols);
    crate::coords::lemma_ceil_div_bounds_pub(radius, rows);

    assert forall|x: (int, int)| spec_in_grid(x, radius) implies exists|row: int, col: int|
        0 <= row < rows && 0 <= col < cols && #[trigger] batch_mem(
            radius,
            pw,
            ph,
            row,
            col,
            x,
        ) by {
        let yy = x.1 + radius;
        let xx = x.0 + yy;
        assert(abs_i(x.0) <= radius && abs_i(x.1) <= radius && abs_i(x.0 + x.1) <= radius);
        assert(0 <= yy <= 2 * radius);
        assert(0 <= xx <= 2 * radius);

        let col = xx / pw;
        let mx = xx % pw;
        vstd::arithmetic::div_mod::lemma_fundamental_div_mod(xx, pw);
        vstd::arithmetic::div_mod::lemma_mod_bound(xx, pw);
        assert(0 <= col < cols) by (nonlinear_arith)
            requires
                xx == pw * col + mx && 0 <= mx < pw && 0 <= xx && xx < pw * cols,
        ;

        let row = yy / ph;
        let my = yy % ph;
        vstd::arithmetic::div_mod::lemma_fundamental_div_mod(yy, ph);
        vstd::arithmetic::div_mod::lemma_mod_bound(yy, ph);
        assert(0 <= row < rows) by (nonlinear_arith)
            requires
                yy == ph * row + my && 0 <= my < ph && 0 <= yy && yy < ph * rows,
        ;

        assert(batch_mem(radius, pw, ph, row, col, x));
    }

    assert forall|r1: int, c1: int, r2: int, c2: int, x: (int, int)|
        #[trigger] batch_mem(radius, pw, ph, r1, c1, x) && #[trigger] batch_mem(
            radius,
            pw,
            ph,
            r2,
            c2,
            x,
        ) implies r1 == r2 && c1 == c2 by {
        let yy = x.1 + radius;
        let xx = x.0 + yy;
        assert(c1 == c2) by (nonlinear_arith)
            requires
                pw * c1 <= xx < pw * c1 + pw && pw * c2 <= xx < pw * c2 + pw && pw >= 1,
        ;
        assert(r1 == r2) by (nonlinear_arith)
            requires
                ph * r1 <= yy < ph * r1 + ph && ph * r2 <= yy < ph * r2 + ph && ph >= 1,
        ;
    }
}

/// Every position at hex distance exactly `k` from `c` lies on the radius-`k`
/// ring around `c`.
pub proof fn lemma_ring_covers(c: (int, int, int), p: (int, int, int), k: int)
    requires
        k >= 1,
        c.0 + c.1 + c.2 == 0,
        p.0 + p.1 + p.2 == 0,
        hex_dist((c.0, c.1), (p.0, p.1)) == k,
    ensures
        exists|t: int| 0 <= t < 6 * k && p == #[trigger] ring_elem(c, k, t),
{
    let dq = p.0 - c.0;
    let dr = p.1 - c.1;
    assert(abs_i(dq) <= k && abs_i(dr) <= k && abs_i(dq + dr) <= k);
    assert(abs_i(dq) == k || abs_i(dr) == k || abs_i(dq + dr) == k);
    if dr == k && dq < 0 {
        let j = dq + k;
        assert(0 <= j < k);
        assert(spec_cube_scale(spec_direction(0), j) == (j, 0int, -j));
        assert(ring_side_elem(c, k, 0, j) == p);
        lemma_ring_index(c, k, 0, j);
        assert(p == ring_elem(c, k, 0 * k + j));
    } else if dq + dr == k && 0 <= dq < k {
        let j = dq;
        assert(spec_cube_scale(spec_direction(1), j) == (j, -j, 0int));
        assert(ring_side_elem(c, k, 1, j) == p);
        lemma_ring_index(c, k, 1, j);
        assert(p == ring_elem(c, k, 1 * k + j));
    } else if dq == k && dr > -k {
        let j = -dr;
        assert(0 <= j < k);
        assert(spec_cube_scale(spec_direction(2), j) == (0int, -j, j));
        assert(ring_side_elem(c, k, 2, j) == p);
        lemma_ring_index(c, k, 2, j);
        assert(p == ring_elem(c, k, 2 * k + j));
    } else if dr == -k && dq > 0 {
        let j = k - dq;
        assert(0 <= j < k);
        assert(spec_cube_scale(spec_direction(3), j) == (-j, 0int, j));
        assert(ring_side_elem(c, k, 3, j) == p);
        lemma_ring_index(c, k, 3, j);
        assert(p == ring_elem(c, k, 3 * k + j));
    } else if dq + dr == -k && dq > -k {
        let j = -dq;
        assert(0 <= j < k);
        assert(spec_cube_scale(spec_direction(4), j) == (-j, j, 0int));
        assert(ring_side_elem(c, k, 4, j) == p);
        lemma_ring_index(c, k, 4, j);
        assert(p == ring_elem(c, k, 4 * k + j));
    } else {
        let j = dr;
        assert(dq == -k && 0 <= j < k);
        assert(spec_cube_scale(spec_direction(5), j) == (0int, j, -j));
        assert(ring_side_elem(c, k, 5, j) == p);
        lemma_ring_index(c, k, 5, j);
        assert(p == ring_elem(c, k, 5 * k + j));
    }
}

/// Every in-grid coordinate lies on the spiral that covers the grid.
pub proof fn lemma_grid_in_spiral(a: (int, int), radius: int)
    requires
        radius >= 0,
        spec_in_grid(a, radius),
    ensures
        in_spiral(axial_cube(a), (0, 0, 0), radius),
{
    let d = hex_dist((0, 0), a);
    if d == 0 {
        assert(a == (0int, 0int));
        assert(axial_cube(a) == (0int, 0int, 0int));
    } else {
        lemma_ring_covers((0, 0, 0), axial_cube(a), d);
        let t = choose|t: int| 0 <= t < 6 * d && axial_cube(a) == #[trigger] ring_elem(
            (0, 0, 0),
            d,
            t,
        );
        assert(1 <= d <= radius && 0 <= t < 6 * d && axial_cube(a) == ring_elem((0, 0, 0), d, t));
    }
}

/// Elements of the in-grid neighbor prefix are exactly the in-grid entries of
/// the neighbor list prefix, and pairwise distinct.
proof fn lemma_grid_neighbors_upto_mem(a: (int, int), radius: int, n: int)
    requires
        0 <= n <= 6,
        forall|t1: int, t2: int|
            0 <= t1 < t2 < 6 ==> #[trigger] neighbor_list(a)[t1] != #[trigger] neighbor_list(
                a,
            )[t2],
    ensures
        forall|j: int|
            0 <= j < grid_neighbors_upto(a, radius, n).len() ==> exists|t: int|
                0 <= t < n && #[trigger] neighbor_list(a)[t] == #[trigger] grid_neighbors_upto(
                    a,
                    radius,
                    n,
                )[j] && spec_in_grid(neighbor_list(a)[t], radius),
        forall|t: int|
            0 <= t < n && spec_in_grid(#[trigger] neighbor_list(a)[t], radius) ==> exists|j: int|
                0 <= j < grid_neighbors_upto(a, radius, n).len() && grid_neighbors_upto(
                    a,
                    radius,
                    n,
                )[j] == neighbor_list(a)[t],
        forall|j1: int, j2: int|
            0 <= j1 < j2 < grid_neighbors_upto(a, radius, n).len() ==> #[trigger] grid_neighbors_upto(
                a,
                radius,
                n,
            )[j1] != #[trigger] grid_neighbors_upto(a, radius, n)[j2],
    decreases n,
{
    if n > 0 {
        lemma_grid_neighbors_upto_mem(a, radius, n - 1);
        let pre = grid_neighbors_upto(a, radius, n - 1);
        let fin = grid_neighbors_upto(a, radius, n);
        let x = neighbor_list(a)[n - 1];
        let x_in = spec_in_grid(x, radius);
        if x_in {
            assert(fin == pre.push(x));
        } else {
            assert(fin == pre);
        }
        assert forall|j: int| 0 <= j < fin.len() implies exists|t: int|
            0 <= t < n && #[trigger] neighbor_list(a)[t] == #[trigger] fin[j] && spec_in_grid(
                neighbor_list(a)[t],
                radius,
            ) by {
            if x_in && j == fin.len() - 1 {
                assert(neighbor_list(a)[n - 1] == fin[j]);
            } else {
                assert(fin[j] == pre[j]);
                let t = choose|t: int|
                    0 <= t < n - 1 && #[trigger] neighbor_list(a)[t] == #[trigger] pre[j]
                        && spec_in_grid(neighbor_list(a)[t], radius);
                assert(neighbor_list(a)[t] == fin[j]);
            }
        }
        assert forall|t: int|
            0 <= t < n && spec_in_grid(#[trigger] neighbor_list(a)[t], radius) implies exists|
            j: int,
        |
            0 <= j < fin.len() && #[trigger] fin[j] == neighbor_list(a)[t] by {
            if t == n - 1 {
                assert(fin[fin.len() - 1] == neighbor_list(a)[t]);
            } else {
                let j = choose|j: int|
                    0 <= j < pre.len() && #[trigger] pre[j] == neighbor_list(a)[t];
                assert(fin[j] == neighbor_list(a)[t]);
            }
        }
        assert forall|j1: int, j2: int|
            0 <= j1 < j2 < fin.len() implies #[trigger] fin[j1] != #[trigger] fin[j2] by {
            if x_in && j2 == fin.len() - 1 {
                assert(fin[j2] == x);
                assert(fin[j1] == pre[j1]);
                let t = choose|t: int|
                    0 <= t < n - 1 && #[trigger] neighbor_list(a)[t] == #[trigger] pre[j1]
                        && spec_in_grid(neighbor_list(a)[t], radius);
                assert(neighbor_list(a)[t] != neighbor_list(a)[n - 1]);
            } else {
                assert(fin[j1] == pre[j1] && fin[j2] == pre[j2]);
            }
        }
    }
}

/// The six direct neighbors of a coordinate are pairwise distinct.
proof fn lemma_neighbor_list_distinct(a: (int, int))
    ensures
        forall|t1: int, t2: int|
            0 <= t1 < t2 < 6 ==> #[trigger] neighbor_list(a)[t1] != #[trigger] neighbor_list(
                a,
            )[t2],
{
    assert forall|t1: int, t2: int|
        0 <= t1 < t2 < 6 implies #[trigger] neighbor_list(a)[t1] != #[trigger] neighbor_list(
        a,
    )[t2] by {
        let c = axial_cube(a);
        assert(neighbor_list(a)[t1] == (ring_corner(c, 1, t1).0, ring_corner(c, 1, t1).1));
        assert(neighbor_list(a)[t2] == (ring_corner(c, 1, t2).0, ring_corner(c, 1, t2).1));
    }
}

/// Every in-grid direct neighbor of an in-grid coordinate stands in exactly
/// one slot of that coordinate's neighbor-index entry; the slots hold no
/// duplicates.
pub proof fn lemma_neighbor_index_entries(
    index: Map<(int, int), Seq<Option<(int, int)>>>,
    radius: int,
    c: (int, int),
)
    requires
        radius >= 0,
        index_ok(index, radius),
        spec_in_grid(c, radius),
    ensures
        index.contains_key(c),
        forall|t: int|
            0 <= t < 6 && spec_in_grid(#[trigger] neighbor_list(c)[t], radius) ==> exists|j: int|
                0 <= j < 6 && index[c][j] == Some(neighbor_list(c)[t]),
        forall|j1: int, j2: int|
            0 <= j1 < j2 < 6 && (#[trigger] index[c][j1]) is Some ==> index[c][j1] != (
            #[trigger] index[c][j2]),
        forall|t: int|
            0 <= t < 6 ==> (
            #[trigger] ring_elem(axial_cube(c), 1, t).0,
            ring_elem(axial_cube(c), 1, t).1,
            ) == neighbor_list(c)[t],
{
    lemma_grid_in_spiral(c, radius);
    assert(index.contains_key(c));
    assert(index[c] == neighbor_slots(c, radius));
    lemma_neighbor_list_distinct(c);
    lemma_grid_neighbors_upto_mem(c, radius, 6);
    crate::coords::lemma_grid_neighbors_upto_len(c, radius, 6);
    let gn = grid_neighbors(c, radius);

    assert forall|t: int|
        0 <= t < 6 && spec_in_grid(#[trigger] neighbor_list(c)[t], radius) implies exists|j: int|
        0 <= j < 6 && index[c][j] == Some(neighbor_list(c)[t]) by {
        let j = choose|j: int|
            0 <= j < gn.len() && #[trigger] gn[j] == neighbor_list(c)[t];
        assert(neighbor_slots(c, radius)[j] == Some(gn[j]));
    }

    assert forall|j1: int, j2: int|
        0 <= j1 < j2 < 6 && (#[trigger] index[c][j1]) is Some implies index[c][j1] != (
    #[trigger] index[c][j2]) by {
        if j1 < gn.len() {
            assert(neighbor_slots(c, radius)[j1] == Some(gn[j1]));
            if j2 < gn.len() {
                assert(neighbor_slots(c, radius)[j2] == Some(gn[j2]));
                assert(gn[j1] != gn[j2]);
            } else {
                assert(neighbor_slots(c, radius)[j2] is None);
            }
        } else {
            assert(neighbor_slots(c, radius)[j1] is None);
        }
    }

    assert forall|t: int| 0 <= t < 6 implies (
    #[trigger] ring_elem(axial_cube(c), 1, t).0,
    ring_elem(axial_cube(c), 1, t).1,
    ) == neighbor_list(c)[t] by {
        lemma_ring_index(axial_cube(c), 1, t, 0);
        assert(t * 1 + 0 == t);
        assert(ring_elem(axial_cube(c), 1, t) == ring_side_elem(axial_cube(c), 1, t, 0));
        assert(spec_cube_scale(spec_direction(t), 0) == (0int, 0int, 0int));
        assert(ring_side_elem(axial_cube(c), 1, t, 0) == ring_corner(axial_cube(c), 1, t));
    }
}


/// A point within two hops of a base point lies on the base point's spiral of
/// radius two.
proof fn lemma_in_spiral_of_dist(base: (int, int), x: (int, int))
    requires
        hex_dist(base, x) <= 2,
    ensures
        in_spiral(axial_cube(x), axial_cube(base), 2),
{
    let d = hex_dist(base, x);
    if d == 0 {
        assert(x == base);
    } else {
        lemma_ring_covers(axial_cube(base), axial_cube(x), d);
    }
}

/// When all six direct neighbors are on the grid, the slots hold all of them
/// in walk order.
proof fn lemma_grid_neighbors_full(a: (int, int), radius: int)
    requires
        forall|t: int| 0 <= t < 6 ==> spec_in_grid(#[trigger] neighbor_list(a)[t], radius),
    ensures
        grid_neighbors(a, radius).len() == 6,
        forall|t: int|
            0 <= t < 6 ==> #[trigger] neighbor_slots(a, radius)[t] == Some(neighbor_list(a)[t]),
{
    assert(grid_neighbors_upto(a, radius, 0) =~= Seq::<(int, int)>::empty());
    assert(grid_neighbors_upto(a, radius, 1) =~= seq![neighbor_list(a)[0]]);
    assert(grid_neighbors_upto(a, radius, 2) =~= seq![neighbor_list(a)[0], neighbor_list(a)[1]]);
    assert(grid_neighbors_upto(a, radius, 3) =~= seq![
        neighbor_list(a)[0],
        neighbor_list(a)[1],
        neighbor_list(a)[2],
    ]);
    assert(grid_neighbors_upto(a, radius, 4) =~= seq![
        neighbor_list(a)[0],
        neighbor_list(a)[1],
        neighbor_list(a)[2],
        neighbor_list(a)[3],
    ]);
    assert(grid_neighbors_upto(a, radius, 5) =~= seq![
        neighbor_list(a)[0],
        neighbor_list(a)[1],
        neighbor_list(a)[2],
        neighbor_list(a)[3],
        neighbor_list(a)[4],
    ]);
    assert(grid_neighbors_upto(a, radius, 6) =~= seq![
        neighbor_list(a)[0],
        neighbor_list(a)[1],
        neighbor_list(a)[2],
        neighbor_list(a)[3],
        neighbor_list(a)[4],
        neighbor_list(a)[5],
    ]);
}


/// After one search round over a fully owned neighborhood, exactly the
/// six direct neighbors are discovered, in walk order.
#[verifier::rlimit(100)]
#[verifier::spinoff_prover]
proof fn lemma_full_region_round_one(
    index: Map<(int, int), Seq<Option<(int, int)>>>,
    m: Map<(int, int), SpecTile>,
    anchor: (int, int),
    owner: Seq<char>,
    gridr: int,
)
    requires
        gridr >= 0,
        index_ok(index, gridr),
        forall|p: (int, int, int)|
            #[trigger] in_spiral(p, axial_cube(anchor), 2) ==> (spec_in_grid(
                (p.0, p.1),
                gridr,
            ) && m.contains_key((p.0, p.1)) && m[(p.0, p.1)].owner == owner),

    ensures
        bfs_state(index, m, anchor, owner, 1).0 =~= ring1_points(anchor),
        bfs_state(index, m, anchor, owner, 1).1 =~= ring1_points(anchor),
{
    let f0 = (anchor.0 - 1, anchor.1 + 1);
    let f1 = (anchor.0, anchor.1 + 1);
    let f2 = (anchor.0 + 1, anchor.1);
    let f3 = (anchor.0 + 1, anchor.1 - 1);
    let f4 = (anchor.0, anchor.1 - 1);
    let f5 = (anchor.0 - 1, anchor.1);
    let g0 = (anchor.0 - 2, anchor.1 + 2);
    let g1 = (anchor.0 - 1, anchor.1 + 2);
    let g2 = (anchor.0 - 2, anchor.1 + 1);
    let g3 = (anchor.0, anchor.1 + 2);
    let g4 = (anchor.0 + 1, anchor.1 + 1);
    let g5 = (anchor.0 + 2, anchor.1);
    let g6 = (anchor.0 + 2, anchor.1 - 1);
    let g7 = (anchor.0 + 2, anchor.1 - 2);
    let g8 = (anchor.0 + 1, anchor.1 - 2);
    let g9 = (anchor.0, anchor.1 - 2);
    let g10 = (anchor.0 - 1, anchor.1 - 1);
    let g11 = (anchor.0 - 2, anchor.1);
    lemma_in_spiral_of_dist(anchor, (anchor.0 - 1, anchor.1 + 1));
    lemma_in_spiral_of_dist(anchor, (anchor.0, anchor.1 + 1));
    lemma_in_spiral_of_dist(anchor, (anchor.0 + 1, anchor.1));
    lemma_in_spiral_of_dist(anchor, (anchor.0 + 1, anchor.1 - 1));
    lemma_in_spiral_of_dist(anchor, (anchor.0, anchor.1 - 1));
    lemma_in_spiral_of_dist(anchor, (anchor.0 - 1, anchor.1));
    lemma_in_spiral_of_dist(anchor, anchor);
    lemma_grid_neighbors_full(anchor, gridr);
    lemma_grid_in_spiral(anchor, gridr);
    assert(index.contains_key(anchor));
    assert(index[anchor] == neighbor_slots(anchor, gridr));
    let d0 = Seq::<(int, int)>::empty();
    assert(neighbor_list(anchor)[0] == f0);
    assert(bfs_scan_slots(index, m, anchor, owner, d0, anchor, 1) == bfs_take(
        m, anchor, owner, bfs_scan_slots(index, m, anchor, owner, d0, anchor, 0), index[anchor][0],
    ));
    let a1 = bfs_scan_slots(index, m, anchor, owner, d0, anchor, 1);
    assert(a1 =~= seq![f0]);
    assert(neighbor_list(anchor)[1] == f1);
    assert(bfs_scan_slots(index, m, anchor, owner, d0, anchor, 2) == bfs_take(
        m, anchor, owner, bfs_scan_slots(index, m, anchor, owner, d0, anchor, 1), index[anchor][1],
    ));
    let a2 = bfs_scan_slots(index, m, anchor, owner, d0, anchor, 2);
    assert(a2 =~= seq![f0, f1]);
    assert(neighbor_list(anchor)[2] == f2);
    assert(bfs_scan_slots(index, m, anchor, owner, d0, anchor, 3) == bfs_take(
        m, anchor, owner, bfs_scan_slots(index, m, anchor, owner, d0, anchor, 2), index[anchor][2],
    ));
    let a3 = bfs_scan_slots(index, m, anchor, owner, d0, anchor, 3);
    assert(a3 =~= seq![f0, f1, f2]);
    assert(neighbor_list(anchor)[3] == f3);
    assert(bfs_scan_slots(index, m, anchor, owner, d0, anchor, 4) == bfs_take(
        m, anchor, owner, bfs_scan_slots(index, m, anchor, owner, d0, anchor, 3), index[anchor][3],
    ));
    let a4 = bfs_scan_slots(index, m, anchor, owner, d0, anchor, 4);
    assert(a4 =~= seq![f0, f1, f2, f3]);
    assert(neighbor_list(anchor)[4] == f4);
    assert(bfs_scan_slots(index, m, anchor, owner, d0, anchor, 5) == bfs_take(
        m, anchor, owner, bfs_scan_slots(index, m, anchor, owner, d0, anchor, 4), index[anchor][4],
    ));
    let a5 = bfs_scan_slots(index, m, anchor, owner, d0, anchor, 5);
    assert(a5 =~= seq![f0, f1, f2, f3, f4]);
    assert(neighbor_list(anchor)[5] == f5);
    assert(bfs_scan_slots(index, m, anchor, owner, d0, anchor, 6) == bfs_take(
        m, anchor, owner, bfs_scan_slots(index, m, anchor, owner, d0, anchor, 5), index[anchor][5],
    ));
    let a6 = bfs_scan_slots(index, m, anchor, owner, d0, anchor, 6);
    assert(a6 =~= seq![f0, f1, f2, f3, f4, f5]);
    assert(bfs_scan_coord(index, m, anchor, owner, d0, anchor) == a6);
    let st0 = bfs_state(index, m, anchor, owner, 0);
    assert(st0.0 =~= Seq::<(int, int)>::empty() && st0.1 =~= seq![anchor]);
    assert(bfs_scan_frontier(index, m, anchor, owner, st0.0, st0.1, 0) == st0.0);
    assert(st0.0 =~= d0);
    assert(bfs_scan_frontier(index, m, anchor, owner, st0.0, st0.1, 1) == bfs_scan_coord(
        index, m, anchor, owner, bfs_scan_frontier(index, m, anchor, owner, st0.0, st0.1, 0), anchor,
    ));
    let st1 = bfs_state(index, m, anchor, owner, 1);
    assert(st1.0 == a6);
    assert(st1.1 =~= a6);
    assert(a6 =~= ring1_points(anchor));
}

/// The six ring-one points around a point, in walk order.
pub open spec fn ring1_points(anchor: (int, int)) -> Seq<(int, int)> {
    seq![
        (anchor.0 - 1, anchor.1 + 1),
        (anchor.0, anchor.1 + 1),
        (anchor.0 + 1, anchor.1),
        (anchor.0 + 1, anchor.1 - 1),
        (anchor.0, anchor.1 - 1),
        (anchor.0 - 1, anchor.1),
    ]
}

/// The discovered list after expanding 0 ring-one tiles of a fully
/// owned neighborhood.
pub open spec fn full_region_found_0(anchor: (int, int)) -> Seq<(int, int)> {
    seq![
        (anchor.0 - 1, anchor.1 + 1),
        (anchor.0, anchor.1 + 1),
        (anchor.0 + 1, anchor.1),
        (anchor.0 + 1, anchor.1 - 1),
        (anchor.0, anchor.1 - 1),
        (anchor.0 - 1, anchor.1),
    ]
}

/// The discovered list after expanding 2 ring-one tiles of a fully
/// owned neighborhood.
pub open spec fn full_region_found_2(anchor: (int, int)) -> Seq<(int, int)> {
    seq![
        (anchor.0 - 1, anchor.1 + 1),
        (anchor.0, anchor.1 + 1),
        (anchor.0 + 1, anchor.1),
        (anchor.0 + 1, anchor.1 - 1),
        (anchor.0, anchor.1 - 1),
        (anchor.0 - 1, anchor.1),
        (anchor.0 - 2, anchor.1 + 2),
        (anchor.0 - 1, anchor.1 + 2),
        (anchor.0 - 2, anchor.1 + 1),
        (anchor.0, anchor.1 + 2),
        (anchor.0 + 1, anchor.1 + 1),
    ]
}

/// The discovered list after expanding 4 ring-one tiles of a fully
/// owned neighborhood.
pub open spec fn full_region_found_4(anchor: (int, int)) -> Seq<(int, int)> {
    seq![
        (anchor.0 - 1, anchor.1 + 1),
        (anchor.0, anchor.1 + 1),
        (anchor.0 + 1, anchor.1),
        (anchor.0 + 1, anchor.1 - 1),
        (anchor.0, anchor.1 - 1),
        (anchor.0 - 1, anchor.1),
        (anchor.0 - 2, anchor.1 + 2),
        (anchor.0 - 1, anchor.1 + 2),
        (anchor.0 - 2, anchor.1 + 1),
        (anchor.0, anchor.1 + 2),
        (anchor.0 + 1, anchor.1 + 1),
        (anchor.0 + 2, anchor.1),
        (anchor.0 + 2, anchor.1 - 1),
        (anchor.0 + 2, anchor.1 - 2),
        (anchor.0 + 1, anchor.1 - 2),
    ]
}

/// The discovered list after expanding 6 ring-one tiles of a fully
/// owned neighborhood.
pub open spec fn full_region_found_6(anchor: (int, int)) -> Seq<(int, int)> {
    seq![
        (anchor.0 - 1, anchor.1 + 1),
        (anchor.0, anchor.1 + 1),
        (anchor.0 + 1, anchor.1),
        (anchor.0 + 1, anchor.1 - 1),
        (anchor.0, anchor.1 - 1),
        (anchor.0 - 1, anchor.1),
        (anchor.0 - 2, anchor.1 + 2),
        (anchor.0 - 1, anchor.1 + 2),
        (anchor.0 - 2, anchor.1 + 1),
        (anchor.0, anchor.1 + 2),
        (anchor.0 + 1, anchor.1 + 1),
        (anchor.0 + 2, anchor.1),
        (anchor.0 + 2, anchor.1 - 1),
        (anchor.0 + 2, anchor.1 - 2),
        (anchor.0 + 1, anchor.1 - 2),
        (anchor.0, anchor.1 - 2),
        (anchor.0 - 1, anchor.1 - 1),
        (anchor.0 - 2, anchor.1),
    ]
}

/// Expanding the next two ring-one tiles of a fully owned neighborhood
/// discovers exactly their fresh ring-two neighbors.
#[verifier::rlimit(100)]
#[verifier::spinoff_prover]
proof fn lemma_full_region_expand_first(
    index: Map<(int, int), Seq<Option<(int, int)>>>,
    m: Map<(int, int), SpecTile>,
    anchor: (int, int),
    owner: Seq<char>,
    gridr: int,
)
    requires
        gridr >= 0,
        index_ok(index, gridr),
        forall|p: (int, int, int)|
            #[trigger] in_spiral(p, axial_cube(anchor), 2) ==> (spec_in_grid(
                (p.0, p.1),
                gridr,
            ) && m.contains_key((p.0, p.1)) && m[(p.0, p.1)].owner == owner),

        bfs_state(index, m, anchor, owner, 1).1 =~= ring1_points(anchor),
        bfs_scan_frontier(index, m, anchor, owner, bfs_state(index, m, anchor, owner, 1).0, bfs_state(index, m, anchor, owner, 1).1, 0) =~= full_region_found_0(anchor),
    ensures
        bfs_scan_frontier(index, m, anchor, owner, bfs_state(index, m, anchor, owner, 1).0, bfs_state(index, m, anchor, owner, 1).1, 2) =~= full_region_found_2(anchor),
{
    let f0 = (anchor.0 - 1, anchor.1 + 1);
    let f1 = (anchor.0, anchor.1 + 1);
    let f2 = (anchor.0 + 1, anchor.1);
    let f3 = (anchor.0 + 1, anchor.1 - 1);
    let f4 = (anchor.0, anchor.1 - 1);
    let f5 = (anchor.0 - 1, anchor.1);
    let g0 = (anchor.0 - 2, anchor.1 + 2);
    let g1 = (anchor.0 - 1, anchor.1 + 2);
    let g2 = (anchor.0 - 2, anchor.1 + 1);
    let g3 = (anchor.0, anchor.1 + 2);
    let g4 = (anchor.0 + 1, anchor.1 + 1);
    let g5 = (anchor.0 + 2, anchor.1);
    let g6 = (anchor.0 + 2, anchor.1 - 1);
    let g7 = (anchor.0 + 2, anchor.1 - 2);
    let g8 = (anchor.0 + 1, anchor.1 - 2);
    let g9 = (anchor.0, anchor.1 - 2);
    let g10 = (anchor.0 - 1, anchor.1 - 1);
    let g11 = (anchor.0 - 2, anchor.1);
    lemma_in_spiral_of_dist(anchor, (anchor.0 - 1, anchor.1 + 1));
    lemma_in_spiral_of_dist(anchor, (anchor.0, anchor.1 + 1));
    lemma_in_spiral_of_dist(anchor, (anchor.0 + 1, anchor.1));
    lemma_in_spiral_of_dist(anchor, (anchor.0 + 1, anchor.1 - 1));
    lemma_in_spiral_of_dist(anchor, (anchor.0, anchor.1 - 1));
    lemma_in_spiral_of_dist(anchor, (anchor.0 - 1, anchor.1));
    lemma_in_spiral_of_dist(anchor, (anchor.0 - 2, anchor.1 + 2));
    lemma_in_spiral_of_dist(anchor, (anchor.0 - 1, anchor.1 + 2));
    lemma_in_spiral_of_dist(anchor, (anchor.0 - 2, anchor.1 + 1));
    lemma_in_spiral_of_dist(anchor, (anchor.0, anchor.1 + 2));
    lemma_in_spiral_of_dist(anchor, (anchor.0 + 1, anchor.1 + 1));
    lemma_in_spiral_of_dist(anchor, (anchor.0 + 2, anchor.1));
    lemma_in_spiral_of_dist(anchor, (anchor.0 + 2, anchor.1 - 1));
    lemma_in_spiral_of_dist(anchor, (anchor.0 + 2, anchor.1 - 2));
    lemma_in_spiral_of_dist(anchor, (anchor.0 + 1, anchor.1 - 2));
    lemma_in_spiral_of_dist(anchor, (anchor.0, anchor.1 - 2));
    lemma_in_spiral_of_dist(anchor, (anchor.0 - 1, anchor.1 - 1));
    lemma_in_spiral_of_dist(anchor, (anchor.0 - 2, anchor.1));
    lemma_in_spiral_of_dist(anchor, f0);
    lemma_grid_neighbors_full(f0, gridr);
    lemma_grid_in_spiral(f0, gridr);
    assert(index.contains_key(f0));
    assert(index[f0] == neighbor_slots(f0, gridr));
    lemma_in_spiral_of_dist(anchor, f1);
    lemma_grid_neighbors_full(f1, gridr);
    lemma_grid_in_spiral(f1, gridr);
    assert(index.contains_key(f1));
    assert(index[f1] == neighbor_slots(f1, gridr));
    let st1 = bfs_state(index, m, anchor, owner, 1);
    let start = bfs_scan_frontier(index, m, anchor, owner, st1.0, st1.1, 0);
    assert(start =~= seq![f0, f1, f2, f3, f4, f5]);
    assert(neighbor_list(f0)[0] == g0);
    assert(bfs_scan_slots(index, m, anchor, owner, start, f0, 1) == bfs_take(
        m, anchor, owner, bfs_scan_slots(index, m, anchor, owner, start, f0, 0), index[f0][0],
    ));
    let e0_1 = bfs_scan_slots(index, m, anchor, owner, start, f0, 1);
    assert(e0_1 =~= seq![f0, f1, f2, f3, f4, f5, g0]);
    assert(neighbor_list(f0)[1] == g1);
    assert(bfs_scan_slots(index, m, anchor, owner, start, f0, 2) == bfs_take(
        m, anchor, owner, bfs_scan_slots(index, m, anchor, owner, start, f0, 1), index[f0][1],
    ));
    let e0_2 = bfs_scan_slots(index, m, anchor, owner, start, f0, 2);
    assert(e0_2 =~= seq![f0, f1, f2, f3, f4, f5, g0, g1]);
    assert(neighbor_list(f0)[2] == f1);
    assert(bfs_scan_slots(index, m, anchor, owner, start, f0, 3) == bfs_take(
        m, anchor, owner, bfs_scan_slots(index, m, anchor, owner, start, f0, 2), index[f0][2],
    ));
    assert(bfs_scan_slots(index, m, anchor, owner, start, f0, 2)[1] == f1);
    let e0_3 = bfs_scan_slots(index, m, anchor, owner, start, f0, 3);
    assert(e0_3 =~= seq![f0, f1, f2, f3, f4, f5, g0, g1]);
    assert(neighbor_list(f0)[3] == anchor);
    assert(bfs_scan_slots(index, m, anchor, owner, start, f0, 4) == bfs_take(
        m, anchor, owner, bfs_scan_slots(index, m, anchor, owner, start, f0, 3), index[f0][3],
    ));
    let e0_4 = bfs_scan_slots(index, m, anchor, owner, start, f0, 4);
    assert(e0_4 =~= seq![f0, f1, f2, f3, f4, f5, g0, g1]);
    assert(neighbor_list(f0)[4] == f5);
    assert(bfs_scan_slots(index, m, anchor, owner, start, f0, 5) == bfs_take(
        m, anchor, owner, bfs_scan_slots(index, m, anchor, owner, start, f0, 4), index[f0][4],
    ));
    assert(bfs_scan_slots(index, m, anchor, owner, start, f0, 4)[5] == f5);
    let e0_5 = bfs_scan_slots(index, m, anchor, owner, start, f0, 5);
    assert(e0_5 =~= seq![f0, f1, f2, f3, f4, f5, g0, g1]);
    assert(neighbor_list(f0)[5] == g2);
    assert(bfs_scan_slots(index, m, anchor, owner, start, f0, 6) == bfs_take(
        m, anchor, owner, bfs_scan_slots(index, m, anchor, owner, start, f0, 5), index[f0][5],
    ));
    let e0_6 = bfs_scan_slots(index, m, anchor, owner, start, f0, 6);
    assert(e0_6 =~= seq![f0, f1, f2, f3, f4, f5, g0, g1, g2]);
    assert(bfs_scan_coord(index, m, anchor, owner, start, f0) == e0_6);
    assert(st1.1[0] == f0);
    assert(bfs_scan_frontier(index, m, anchor, owner, st1.0, st1.1, 1) == bfs_scan_coord(
        index, m, anchor, owner, bfs_scan_frontier(index, m, anchor, owner, st1.0, st1.1, 0), f0,
    ));
    let q1 = bfs_scan_frontier(index, m, anchor, owner, st1.0, st1.1, 1);
    assert(q1 == e0_6);
    assert(neighbor_list(f1)[0] == g1);
    assert(bfs_scan_slots(index, m, anchor, owner, q1, f1, 1) == bfs_take(
        m, anchor, owner, bfs_scan_slots(index, m, anchor, owner, q1, f1, 0), index[f1][0],
    ));
    assert(bfs_scan_slots(index, m, anchor, owner, q1, f1, 0)[7] == g1);
    let e1_1 = bfs_scan_slots(index, m, anchor, owner, q1, f1, 1);
    assert(e1_1 =~= seq![f0, f1, f2, f3, f4, f5, g0, g1, g2]);
    assert(neighbor_list(f1)[1] == g3);
    assert(bfs_scan_slots(index, m, anchor, owner, q1, f1, 2) == bfs_take(
        m, anchor, owner, bfs_scan_slots(index, m, anchor, owner, q1, f1, 1), index[f1][1],
    ));
    let e1_2 = bfs_scan_slots(index, m, anchor, owner, q1, f1, 2);
    assert(e1_2 =~= seq![f0, f1, f2, f3, f4, f5, g0, g1, g2, g3]);
    assert(neighbor_list(f1)[2] == g4);
    assert(bfs_scan_slots(index, m, anchor, owner, q1, f1, 3) == bfs_take(
        m, anchor, owner, bfs_scan_slots(index, m, anchor, owner, q1, f1, 2), index[f1][2],
    ));
    let e1_3 = bfs_scan_slots(index, m, anchor, owner, q1, f1, 3);
    assert(e1_3 =~= seq![f0, f1, f2, f3, f4, f5, g0, g1, g2, g3, g4]);
    assert(neighbor_list(f1)[3] == f2);
    assert(bfs_scan_slots(index, m, anchor, owner, q1, f1, 4) == bfs_take(
        m, anchor, owner, bfs_scan_slots(index, m, anchor, owner, q1, f1, 3), index[f1][3],
    ));
    assert(bfs_scan_slots(index, m, anchor, owner, q1, f1, 3)[2] == f2);
    let e1_4 = bfs_scan_slots(index, m, anchor, owner, q1, f1, 4);
    assert(e1_4 =~= seq![f0, f1, f2, f3, f4, f5, g0, g1, g2, g3, g4]);
    assert(neighbor_list(f1)[4] == anchor);
    assert(bfs_scan_slots(index, m, anchor, owner, q1, f1, 5) == bfs_take(
        m, anchor, owner, bfs_scan_slots(index, m, anchor, owner, q1, f1, 4), index[f1][4],
    ));
    let e1_5 = bfs_scan_slots(index, m, anchor, owner, q1, f1, 5);
    assert(e1_5 =~= seq![f0, f1, f2, f3, f4, f5, g0, g1, g2, g3, g4]);
    assert(neighbor_list(f1)[5] == f0);
    assert(bfs_scan_slots(index, m, anchor, owner, q1, f1, 6) == bfs_take(
        m, anchor, owner, bfs_scan_slots(index, m, anchor, owner, q1, f1, 5), index[f1][5],
    ));
    assert(bfs_scan_slots(index, m, anchor, owner, q1, f1, 5)[0] == f0);
    let e1_6 = bfs_scan_slots(index, m, anchor, owner, q1, f1, 6);
    assert(e1_6 =~= seq![f0, f1, f2, f3, f4, f5, g0, g1, g2, g3, g4]);
    assert(bfs_scan_coord(index, m, anchor, owner, q1, f1) == e1_6);
    assert(st1.1[1] == f1);
    assert(bfs_scan_frontier(index, m, anchor, owner, st1.0, st1.1, 2) == bfs_scan_coord(
        index, m, anchor, owner, bfs_scan_frontier(index, m, anchor, owner, st1.0, st1.1, 1), f1,
    ));
    let q2 = bfs_scan_frontier(index, m, anchor, owner, st1.0, st1.1, 2);
    assert(q2 == e1_6);
    assert(q2 =~= full_region_found_2(anchor));
}

/// Expanding the next two ring-one tiles of a fully owned neighborhood
/// discovers exactly their fresh ring-two neighbors.
#[verifier::rlimit(100)]
#[verifier::spinoff_prover]
proof fn lemma_full_region_expand_middle(
    index: Map<(int, int), Seq<Option<(int, int)>>>,
    m: Map<(int, int), SpecTile>,
    anchor: (int, int),
    owner: Seq<char>,
    gridr: int,
)
    requires
        gridr >= 0,
        index_ok(index, gridr),
        forall|p: (int, int, int)|
            #[trigger] in_spiral(p, axial_cube(anchor), 2) ==> (spec_in_grid(
                (p.0, p.1),
                gridr,
            ) && m.contains_key((p.0, p.1)) && m[(p.0, p.1)].owner == owner),

        bfs_state(index, m, anchor, owner, 1).1 =~= ring1_points(anchor),
        bfs_scan_frontier(index, m, anchor, owner, bfs_state(index, m, anchor, owner, 1).0, bfs_state(index, m, anchor, owner, 1).1, 2) =~= full_region_found_2(anchor),
    ensures
        bfs_scan_frontier(index, m, anchor, owner, bfs_state(index, m, anchor, owner, 1).0, bfs_state(index, m, anchor, owner, 1).1, 4) =~= full_region_found_4(anchor),
{
    let f0 = (anchor.0 - 1, anchor.1 + 1);
    let f1 = (anchor.0, anchor.1 + 1);
    let f2 = (anchor.0 + 1, anchor.1);
    let f3 = (anchor.0 + 1, anchor.1 - 1);
    let f4 = (anchor.0, anchor.1 - 1);
    let f5 = (anchor.0 - 1, anchor.1);
    let g0 = (anchor.0 - 2, anchor.1 + 2);
    let g1 = (anchor.0 - 1, anchor.1 + 2);
    let g2 = (anchor.0 - 2, anchor.1 + 1);
    let g3 = (anchor.0, anchor.1 + 2);
    let g4 = (anchor.0 + 1, anchor.1 + 1);
    let g5 = (anchor.0 + 2, anchor.1);
    let g6 = (anchor.0 + 2, anchor.1 - 1);
    let g7 = (anchor.0 + 2, anchor.1 - 2);
    let g8 = (anchor.0 + 1, anchor.1 - 2);
    let g9 = (anchor.0, anchor.1 - 2);
    let g10 = (anchor.0 - 1, anchor.1 - 1);
    let g11 = (anchor.0 - 2, anchor.1);
    lemma_in_spiral_of_dist(anchor, (anchor.0 - 1, anchor.1 + 1));
    lemma_in_spiral_of_dist(anchor, (anchor.0, anchor.1 + 1));
    lemma_in_spiral_of_dist(anchor, (anchor.0 + 1, anchor.1));
    lemma_in_spiral_of_dist(anchor, (anchor.0 + 1, anchor.1 - 1));
    lemma_in_spiral_of_dist(anchor, (anchor.0, anchor.1 - 1));
    lemma_in_spiral_of_dist(anchor, (anchor.0 - 1, anchor.1));
    lemma_in_spiral_of_dist(anchor, (anchor.0 - 2, anchor.1 + 2));
    lemma_in_spiral_of_dist(anchor, (anchor.0 - 1, anchor.1 + 2));
    lemma_in_spiral_of_dist(anchor, (anchor.0 - 2, anchor.1 + 1));
    lemma_in_spiral_of_dist(anchor, (anchor.0, anchor.1 + 2));
    lemma_in_spiral_of_dist(anchor, (anchor.0 + 1, anchor.1 + 1));
    lemma_in_spiral_of_dist(anchor, (anchor.0 + 2, anchor.1));
    lemma_in_spiral_of_dist(anchor, (anchor.0 + 2, anchor.1 - 1));
    lemma_in_spiral_of_dist(anchor, (anchor.0 + 2, anchor.1 - 2));
    lemma_in_spiral_of_dist(anchor, (anchor.0 + 1, anchor.1 - 2));
    lemma_in_spiral_of_dist(anchor, (anchor.0, anchor.1 - 2));
    lemma_in_spiral_of_dist(anchor, (anchor.0 - 1, anchor.1 - 1));
    lemma_in_spiral_of_dist(anchor, (anchor.0 - 2, anchor.1));
    lemma_in_spiral_of_dist(anchor, f2);
    lemma_grid_neighbors_full(f2, gridr);
    lemma_grid_in_spiral(f2, gridr);
    assert(index.contains_key(f2));
    assert(index[f2] == neighbor_slots(f2, gridr));
    lemma_in_spiral_of_dist(anchor, f3);
    lemma_grid_neighbors_full(f3, gridr);
    lemma_grid_in_spiral(f3, gridr);
    assert(index.contains_key(f3));
    assert(index[f3] == neighbor_slots(f3, gridr));
    let st1 = bfs_state(index, m, anchor, owner, 1);
    let start = bfs_scan_frontier(index, m, anchor, owner, st1.0, st1.1, 2);
    assert(start =~= seq![f0, f1, f2, f3, f4, f5, g0, g1, g2, g3, g4]);
    assert(neighbor_list(f2)[0] == f1);
    assert(bfs_scan_slots(index, m, anchor, owner, start, f2, 1) == bfs_take(
        m, anchor, owner, bfs_scan_slots(index, m, anchor, owner, start, f2, 0), index[f2][0],
    ));
    assert(bfs_scan_slots(index, m, anchor, owner, start, f2, 0)[1] == f1);
    let e2_1 = bfs_scan_slots(index, m, anchor, owner, start, f2, 1);
    assert(e2_1 =~= seq![f0, f1, f2, f3, f4, f5, g0, g1, g2, g3, g4]);
    assert(neighbor_list(f2)[1] == g4);
    assert(bfs_scan_slots(index, m, anchor, owner, start, f2, 2) == bfs_take(
        m, anchor, owner, bfs_scan_slots(index, m, anchor, owner, start, f2, 1), index[f2][1],
    ));
    assert(bfs_scan_slots(index, m, anchor, owner, start, f2, 1)[10] == g4);
    let e2_2 = bfs_scan_slots(index, m, anchor, owner, start, f2, 2);
    assert(e2_2 =~= seq![f0, f1, f2, f3, f4, f5, g0, g1, g2, g3, g4]);
    assert(neighbor_list(f2)[2] == g5);
    assert(bfs_scan_slots(index, m, anchor, owner, start, f2, 3) == bfs_take(
        m, anchor, owner, bfs_scan_slots(index, m, anchor, owner, start, f2, 2), index[f2][2],
    ));
    let e2_3 = bfs_scan_slots(index, m, anchor, owner, start, f2, 3);
    assert(e2_3 =~= seq![f0, f1, f2, f3, f4, f5, g0, g1, g2, g3, g4, g5]);
    assert(neighbor_list(f2)[3] == g6);
    assert(bfs_scan_slots(index, m, anchor, owner, start, f2, 4) == bfs_take(
        m, anchor, owner, bfs_scan_slots(index, m, anchor, owner, start, f2, 3), index[f2][3],
    ));
    let e2_4 = bfs_scan_slots(index, m, anchor, owner, start, f2, 4);
    assert(e2_4 =~= seq![f0, f1, f2, f3, f4, f5, g0, g1, g2, g3, g4, g5, g6]);
    assert(neighbor_list(f2)[4] == f3);
    assert(bfs_scan_slots(index, m, anchor, owner, start, f2, 5) == bfs_take(
        m, anchor, owner, bfs_scan_slots(index, m, anchor, owner, start, f2, 4), index[f2][4],
    ));
    assert(bfs_scan_slots(index, m, anchor, owner, start, f2, 4)[3] == f3);
    let e2_5 = bfs_scan_slots(index, m, anchor, owner, start, f2, 5);
    assert(e2_5 =~= seq![f0, f1, f2, f3, f4, f5, g0, g1, g2, g3, g4, g5, g6]);
    assert(neighbor_list(f2)[5] == anchor);
    assert(bfs_scan_slots(index, m, anchor, owner, start, f2, 6) == bfs_take(
        m, anchor, owner, bfs_scan_slots(index, m, anchor, owner, start, f2, 5), index[f2][5],
    ));
    let e2_6 = bfs_scan_slots(index, m, anchor, owner, start, f2, 6);
    assert(e2_6 =~= seq![f0, f1, f2, f3, f4, f5, g0, g1, g2, g3, g4, g5, g6]);
    assert(bfs_scan_coord(index, m, anchor, owner, start, f2) == e2_6);
    assert(st1.1[2] == f2);
    assert(bfs_scan_frontier(index, m, anchor, owner, st1.0, st1.1, 3) == bfs_scan_coord(
        index, m, anchor, owner, bfs_scan_frontier(index, m, anchor, owner, st1.0, st1.1, 2), f2,
    ));
    let q3 = bfs_scan_frontier(index, m, anchor, owner, st1.0, st1.1, 3);
    assert(q3 == e2_6);
    assert(neighbor_list(f3)[0] == anchor);
    assert(bfs_scan_slots(index, m, anchor, owner, q3, f3, 1) == bfs_take(
        m, anchor, owner, bfs_scan_slots(index, m, anchor, owner, q3, f3, 0), index[f3][0],
    ));
    let e3_1 = bfs_scan_slots(index, m, anchor, owner, q3, f3, 1);
    assert(e3_1 =~= seq![f0, f1, f2, f3, f4, f5, g0, g1, g2, g3, g4, g5, g6]);
    assert(neighbor_list(f3)[1] == f2);
    assert(bfs_scan_slots(index, m, anchor, owner, q3, f3, 2) == bfs_take(
        m, anchor, owner, bfs_scan_slots(index, m, anchor, owner, q3, f3, 1), index[f3][1],
    ));
    assert(bfs_scan_slots(index, m, anchor, owner, q3, f3, 1)[2] == f2);
    let e3_2 = bfs_scan_slots(index, m, anchor, owner, q3, f3, 2);
    assert(e3_2 =~= seq![f0, f1, f2, f3, f4, f5, g0, g1, g2, g3, g4, g5, g6]);
    assert(neighbor_list(f3)[2] == g6);
    assert(bfs_scan_slots(index, m, anchor, owner, q3, f3, 3) == bfs_take(
        m, anchor, owner, bfs_scan_slots(index, m, anchor, owner, q3, f3, 2), index[f3][2],
    ));
    assert(bfs_scan_slots(index, m, anchor, owner, q3, f3, 2)[12] == g6);
    let e3_3 = bfs_scan_slots(index, m, anchor, owner, q3, f3, 3);
    assert(e3_3 =~= seq![f0, f1, f2, f3, f4, f5, g0, g1, g2, g3, g4, g5, g6]);
    assert(neighbor_list(f3)[3] == g7);
    assert(bfs_scan_slots(index, m, anchor, owner, q3, f3, 4) == bfs_take(
        m, anchor, owner, bfs_scan_slots(index, m, anchor, owner, q3, f3, 3), index[f3][3],
    ));
    let e3_4 = bfs_scan_slots(index, m, anchor, owner, q3, f3, 4);
    assert(e3_4 =~= seq![f0, f1, f2, f3, f4, f5, g0, g1, g2, g3, g4, g5, g6, g7]);
    assert(neighbor_list(f3)[4] == g8);
    assert(bfs_scan_slots(index, m, anchor, owner, q3, f3, 5) == bfs_take(
        m, anchor, owner, bfs_scan_slots(index, m, anchor, owner, q3, f3, 4), index[f3][4],
    ));
    let e3_5 = bfs_scan_slots(index, m, anchor, owner, q3, f3, 5);
    assert(e3_5 =~= seq![f0, f1, f2, f3, f4, f5, g0, g1, g2, g3, g4, g5, g6, g7, g8]);
    assert(neighbor_list(f3)[5] == f4);
    assert(bfs_scan_slots(index, m, anchor, owner, q3, f3, 6) == bfs_take(
        m, anchor, owner, bfs_scan_slots(index, m, anchor, owner, q3, f3, 5), index[f3][5],
    ));
    assert(bfs_scan_slots(index, m, anchor, owner, q3, f3, 5)[4] == f4);
    let e3_6 = bfs_scan_slots(index, m, anchor, owner, q3, f3, 6);
    assert(e3_6 =~= seq![f0, f1, f2, f3, f4, f5, g0, g1, g2, g3, g4, g5, g6, g7, g8]);
    assert(bfs_scan_coord(index, m, anchor, owner, q3, f3) == e3_6);
    assert(st1.1[3] == f3);
    assert(bfs_scan_frontier(index, m, anchor, owner, st1.0, st1.1, 4) == bfs_scan_coord(
        index, m, anchor, owner, bfs_scan_frontier(index, m, anchor, owner, st1.0, st1.1, 3), f3,
    ));
    let q4 = bfs_scan_frontier(index, m, anchor, owner, st1.0, st1.1, 4);
    assert(q4 == e3_6);
    assert(q4 =~= full_region_found_4(anchor));
}

/// Expanding the next two ring-one tiles of a fully owned neighborhood
/// discovers exactly their fresh ring-two neighbors.
#[verifier::rlimit(100)]
#[verifier::spinoff_prover]
proof fn lemma_full_region_expand_last(
    index: Map<(int, int), Seq<Option<(int, int)>>>,
    m: Map<(int, int), SpecTile>,
    anchor: (int, int),
    owner: Seq<char>,
    gridr: int,
)
    requires
        gridr >= 0,
        index_ok(index, gridr),
        forall|p: (int, int, int)|
            #[trigger] in_spiral(p, axial_cube(anchor), 2) ==> (spec_in_grid(
                (p.0, p.1),
                gridr,
            ) && m.contains_key((p.0, p.1)) && m[(p.0, p.1)].owner == owner),

        bfs_state(index, m, anchor, owner, 1).1 =~= ring1_points(anchor),
        bfs_scan_frontier(index, m, anchor, owner, bfs_state(index, m, anchor, owner, 1).0, bfs_state(index, m, anchor, owner, 1).1, 4) =~= full_region_found_4(anchor),
    ensures
        bfs_scan_frontier(index, m, anchor, owner, bfs_state(index, m, anchor, owner, 1).0, bfs_state(index, m, anchor, owner, 1).1, 6) =~= full_region_found_6(anchor),
{
    let f0 = (anchor.0 - 1, anchor.1 + 1);
    let f1 = (anchor.0, anchor.1 + 1);
    let f2 = (anchor.0 + 1, anchor.1);
    let f3 = (anchor.0 + 1, anchor.1 - 1);
    let f4 = (anchor.0, anchor.1 - 1);
    let f5 = (anchor.0 - 1, anchor.1);
    let g0 = (anchor.0 - 2, anchor.1 + 2);
    let g1 = (anchor.0 - 1, anchor.1 + 2);
    let g2 = (anchor.0 - 2, anchor.1 + 1);
    let g3 = (anchor.0, anchor.1 + 2);
    let g4 = (anchor.0 + 1, anchor.1 + 1);
    let g5 = (anchor.0 + 2, anchor.1);
    let g6 = (anchor.0 + 2, anchor.1 - 1);
    let g7 = (anchor.0 + 2, anchor.1 - 2);
    let g8 = (anchor.0 + 1, anchor.1 - 2);
    let g9 = (anchor.0, anchor.1 - 2);
    let g10 = (anchor.0 - 1, anchor.1 - 1);
    let g11 = (anchor.0 - 2, anchor.1);
    lemma_in_spiral_of_dist(anchor, (anchor.0 - 1, anchor.1 + 1));
    lemma_in_spiral_of_dist(anchor, (anchor.0, anchor.1 + 1));
    lemma_in_spiral_of_dist(anchor, (anchor.0 + 1, anchor.1));
    lemma_in_spiral_of_dist(anchor, (anchor.0 + 1, anchor.1 - 1));
    lemma_in_spiral_of_dist(anchor, (anchor.0, anchor.1 - 1));
    lemma_in_spiral_of_dist(anchor, (anchor.0 - 1, anchor.1));
    lemma_in_spiral_of_dist(anchor, (anchor.0 - 2, anchor.1 + 2));
    lemma_in_spiral_of_dist(anchor, (anchor.0 - 1, anchor.1 + 2));
    lemma_in_spiral_of_dist(anchor, (anchor.0 - 2, anchor.1 + 1));
    lemma_in_spiral_of_dist(anchor, (anchor.0, anchor.1 + 2));
    lemma_in_spiral_of_dist(anchor, (anchor.0 + 1, anchor.1 + 1));
    lemma_in_spiral_of_dist(anchor, (anchor.0 + 2, anchor.1));
    lemma_in_spiral_of_dist(anchor, (anchor.0 + 2, anchor.1 - 1));
    lemma_in_spiral_of_dist(anchor, (anchor.0 + 2, anchor.1 - 2));
    lemma_in_spiral_of_dist(anchor, (anchor.0 + 1, anchor.1 - 2));
    lemma_in_spiral_of_dist(anchor, (anchor.0, anchor.1 - 2));
    lemma_in_spiral_of_dist(anchor, (anchor.0 - 1, anchor.1 - 1));
    lemma_in_spiral_of_dist(anchor, (anchor.0 - 2, anchor.1));
    lemma_in_spiral_of_dist(anchor, f4);
    lemma_grid_neighbors_full(f4, gridr);
    lemma_grid_in_spiral(f4, gridr);
    assert(index.contains_key(f4));
    assert(index[f4] == neighbor_slots(f4, gridr));
    lemma_in_spiral_of_dist(anchor, f5);
    lemma_grid_neighbors_full(f5, gridr);
    lemma_grid_in_spiral(f5, gridr);
    assert(index.contains_key(f5));
    assert(index[f5] == neighbor_slots(f5, gridr));
    let st1 = bfs_state(index, m, anchor, owner, 1);
    let start = bfs_scan_frontier(index, m, anchor, owner, st1.0, st1.1, 4);
    assert(start =~= seq![f0, f1, f2, f3, f4, f5, g0, g1, g2, g3, g4, g5, g6, g7, g8]);
    assert(neighbor_list(f4)[0] == f5);
    assert(bfs_scan_slots(index, m, anchor, owner, start, f4, 1) == bfs_take(
        m, anchor, owner, bfs_scan_slots(index, m, anchor, owner, start, f4, 0), index[f4][0],
    ));
    assert(bfs_scan_slots(index, m, anchor, owner, start, f4, 0)[5] == f5);
    let e4_1 = bfs_scan_slots(index, m, anchor, owner, start, f4, 1);
    assert(e4_1 =~= seq![f0, f1, f2, f3, f4, f5, g0, g1, g2, g3, g4, g5, g6, g7, g8]);
    assert(neighbor_list(f4)[1] == anchor);
    assert(bfs_scan_slots(index, m, anchor, owner, start, f4, 2) == bfs_take(
        m, anchor, owner, bfs_scan_slots(index, m, anchor, owner, start, f4, 1), index[f4][1],
    ));
    let e4_2 = bfs_scan_slots(index, m, anchor, owner, start, f4, 2);
    assert(e4_2 =~= seq![f0, f1, f2, f3, f4, f5, g0, g1, g2, g3, g4, g5, g6, g7, g8]);
    assert(neighbor_list(f4)[2] == f3);
    assert(bfs_scan_slots(index, m, anchor, owner, start, f4, 3) == bfs_take(
        m, anchor, owner, bfs_scan_slots(index, m, anchor, owner, start, f4, 2), index[f4][2],
    ));
    assert(bfs_scan_slots(index, m, anchor, owner, start, f4, 2)[3] == f3);
    let e4_3 = bfs_scan_slots(index, m, anchor, owner, start, f4, 3);
    assert(e4_3 =~= seq![f0, f1, f2, f3, f4, f5, g0, g1, g2, g3, g4, g5, g6, g7, g8]);
    assert(neighbor_list(f4)[3] == g8);
    assert(bfs_scan_slots(index, m, anchor, owner, start, f4, 4) == bfs_take(
        m, anchor, owner, bfs_scan_slots(index, m, anchor, owner, start, f4, 3), index[f4][3],
    ));
    assert(bfs_scan_slots(index, m, anchor, owner, start, f4, 3)[14] == g8);
    let e4_4 = bfs_scan_slots(index, m, anchor, owner, start, f4, 4);
    assert(e4_4 =~= seq![f0, f1, f2, f3, f4, f5, g0, g1, g2, g3, g4, g5, g6, g7, g8]);
    assert(neighbor_list(f4)[4] == g9);
    assert(bfs_scan_slots(index, m, anchor, owner, start, f4, 5) == bfs_take(
        m, anchor, owner, bfs_scan_slots(index, m, anchor, owner, start, f4, 4), index[f4][4],
    ));
    let e4_5 = bfs_scan_slots(index, m, anchor, owner, start, f4, 5);
    assert(e4_5 =~= seq![f0, f1, f2, f3, f4, f5, g0, g1, g2, g3, g4, g5, g6, g7, g8, g9]);
    assert(neighbor_list(f4)[5] == g10);
    assert(bfs_scan_slots(index, m, anchor, owner, start, f4, 6) == bfs_take(
        m, anchor, owner, bfs_scan_slots(index, m, anchor, owner, start, f4, 5), index[f4][5],
    ));
    let e4_6 = bfs_scan_slots(index, m, anchor, owner, start, f4, 6);
    assert(e4_6 =~= seq![f0, f1, f2, f3, f4, f5, g0, g1, g2, g3, g4, g5, g6, g7, g8, g9, g10]);
    assert(bfs_scan_coord(index, m, anchor, owner, start, f4) == e4_6);
    assert(st1.1[4] == f4);
    assert(bfs_scan_frontier(index, m, anchor, owner, st1.0, st1.1, 5) == bfs_scan_coord(
        index, m, anchor, owner, bfs_scan_frontier(index, m, anchor, owner, st1.0, st1.1, 4), f4,
    ));
    let q5 = bfs_scan_frontier(index, m, anchor, owner, st1.0, st1.1, 5);
    assert(q5 == e4_6);
    assert(neighbor_list(f5)[0] == g2);
    assert(bfs_scan_slots(index, m, anchor, owner, q5, f5, 1) == bfs_take(
        m, anchor, owner, bfs_scan_slots(index, m, anchor, owner, q5, f5, 0), index[f5][0],
    ));
    assert(bfs_scan_slots(index, m, anchor, owner, q5, f5, 0)[8] == g2);
    let e5_1 = bfs_scan_slots(index, m, anchor, owner, q5, f5, 1);
    assert(e5_1 =~= seq![f0, f1, f2, f3, f4, f5, g0, g1, g2, g3, g4, g5, g6, g7, g8, g9, g10]);
    assert(neighbor_list(f5)[1] == f0);
    assert(bfs_scan_slots(index, m, anchor, owner, q5, f5, 2) == bfs_take(
        m, anchor, owner, bfs_scan_slots(index, m, anchor, owner, q5, f5, 1), index[f5][1],
    ));
    assert(bfs_scan_slots(index, m, anchor, owner, q5, f5, 1)[0] == f0);
    let e5_2 = bfs_scan_slots(index, m, anchor, owner, q5, f5, 2);
    assert(e5_2 =~= seq![f0, f1, f2, f3, f4, f5, g0, g1, g2, g3, g4, g5, g6, g7, g8, g9, g10]);
    assert(neighbor_list(f5)[2] == anchor);
    assert(bfs_scan_slots(index, m, anchor, owner, q5, f5, 3) == bfs_take(
        m, anchor, owner, bfs_scan_slots(index, m, anchor, owner, q5, f5, 2), index[f5][2],
    ));
    let e5_3 = bfs_scan_slots(index, m, anchor, owner, q5, f5, 3);
    assert(e5_3 =~= seq![f0, f1, f2, f3, f4, f5, g0, g1, g2, g3, g4, g5, g6, g7, g8, g9, g10]);
    assert(neighbor_list(f5)[3] == f4);
    assert(bfs_scan_slots(index, m, anchor, owner, q5, f5, 4) == bfs_take(
        m, anchor, owner, bfs_scan_slots(index, m, anchor, owner, q5, f5, 3), index[f5][3],
    ));
    assert(bfs_scan_slots(index, m, anchor, owner, q5, f5, 3)[4] == f4);
    let e5_4 = bfs_scan_slots(index, m, anchor, owner, q5, f5, 4);
    assert(e5_4 =~= seq![f0, f1, f2, f3, f4, f5, g0, g1, g2, g3, g4, g5, g6, g7, g8, g9, g10]);
    assert(neighbor_list(f5)[4] == g10);
    assert(bfs_scan_slots(index, m, anchor, owner, q5, f5, 5) == bfs_take(
        m, anchor, owner, bfs_scan_slots(index, m, anchor, owner, q5, f5, 4), index[f5][4],
    ));
    assert(bfs_scan_slots(index, m, anchor, owner, q5, f5, 4)[16] == g10);
    let e5_5 = bfs_scan_slots(index, m, anchor, owner, q5, f5, 5);
    assert(e5_5 =~= seq![f0, f1, f2, f3, f4, f5, g0, g1, g2, g3, g4, g5, g6, g7, g8, g9, g10]);
    assert(neighbor_list(f5)[5] == g11);
    assert(bfs_scan_slots(index, m, anchor, owner, q5, f5, 6) == bfs_take(
        m, anchor, owner, bfs_scan_slots(index, m, anchor, owner, q5, f5, 5), index[f5][5],
    ));
    let e5_6 = bfs_scan_slots(index, m, anchor, owner, q5, f5, 6);
    assert(e5_6 =~= seq![f0, f1, f2, f3, f4, f5, g0, g1, g2, g3, g4, g5, g6, g7, g8, g9, g10, g11]);
    assert(bfs_scan_coord(index, m, anchor, owner, q5, f5) == e5_6);
    assert(st1.1[5] == f5);
    assert(bfs_scan_frontier(index, m, anchor, owner, st1.0, st1.1, 6) == bfs_scan_coord(
        index, m, anchor, owner, bfs_scan_frontier(index, m, anchor, owner, st1.0, st1.1, 5), f5,
    ));
    let q6 = bfs_scan_frontier(index, m, anchor, owner, st1.0, st1.1, 6);
    assert(q6 == e5_6);
    assert(q6 =~= full_region_found_6(anchor));
}

/// If the actor owns every tile of the spiral of radius two around the
/// anchor, the contiguity search finds exactly `3r(r+1)` tiles for the
/// radii the game rules use: six after one round, eighteen after two.
pub proof fn lemma_full_region_count(
    index: Map<(int, int), Seq<Option<(int, int)>>>,
    m: Map<(int, int), SpecTile>,
    anchor: (int, int),
    owner: Seq<char>,
    gridr: int,
)
    requires
        gridr >= 0,
        index_ok(index, gridr),
        forall|p: (int, int, int)|
            #[trigger] in_spiral(p, axial_cube(anchor), 2) ==> (spec_in_grid(
                (p.0, p.1),
                gridr,
            ) && m.contains_key((p.0, p.1)) && m[(p.0, p.1)].owner == owner),

    ensures
        bfs_discovered(index, m, anchor, owner, 1).len() == 6,
        bfs_discovered(index, m, anchor, owner, 2).len() == 18,
{
    lemma_full_region_round_one(index, m, anchor, owner, gridr);
    let st1 = bfs_state(index, m, anchor, owner, 1);
    assert(bfs_scan_frontier(index, m, anchor, owner, st1.0, st1.1, 0) == st1.0);
    assert(st1.0 =~= full_region_found_0(anchor));
    lemma_full_region_expand_first(index, m, anchor, owner, gridr);
    lemma_full_region_expand_middle(index, m, anchor, owner, gridr);
    lemma_full_region_expand_last(index, m, anchor, owner, gridr);
    let st2 = bfs_state(index, m, anchor, owner, 2);
    assert(st1.1.len() == 6);
    assert(st2.0 == bfs_scan_frontier(index, m, anchor, owner, st1.0, st1.1, 6));
    assert(st2.0.len() == full_region_found_6(anchor).len());
}

/// The sector a ring position occupies: which side of the hexagon, read off
/// from its offset to the center.
pub open spec fn in_ring_sector(c: (int, int, int), k: int, side: int, p: (int, int, int)) -> bool {
    let dq = p.0 - c.0;
    let dr = p.1 - c.1;
    if side == 0 {
        dr == k && -k <= dq < 0
    } else if side == 1 {
        dq + dr == k && 0 <= dq < k
    } else if side == 2 {
        dq == k && -k < dr <= 0
    } else if side == 3 {
        dr == -k && 0 < dq <= k
    } else if side == 4 {
        dq + dr == -k && -k < dq <= 0
    } else {
        dq == -k && 0 <= dr < k
    }
}

/// The step within its side that a ring position occupies.
pub open spec fn ring_sector_step(c: (int, int, int), k: int, side: int, p: (int, int, int)) -> int {
    let dq = p.0 - c.0;
    let dr = p.1 - c.1;
    if side == 0 {
        dq + k
    } else if side == 1 {
        dq
    } else if side == 2 {
        -dr
    } else if side == 3 {
        k - dq
    } else if side == 4 {
        -dq
    } else {
        dr
    }
}

/// Split a flat ring index into its side and step, and read both back off the
/// ring position itself.
proof fn ring_decompose(c: (int, int, int), k: int, t: int) -> (r: (int, int))
    requires
        k >= 1,
        0 <= t < 6 * k,
    ensures
        0 <= r.0 < 6,
        0 <= r.1 < k,
        t == k * r.0 + r.1,
        ring_elem(c, k, t) == ring_side_elem(c, k, r.0, r.1),
        in_ring_sector(c, k, r.0, ring_elem(c, k, t)),
        ring_sector_step(c, k, r.0, ring_elem(c, k, t)) == r.1,
{
    let s = t / k;
    let j = t % k;
    vstd::arithmetic::div_mod::lemma_fundamental_div_mod(t, k);
    vstd::arithmetic::div_mod::lemma_mod_bound(t, k);
    assert(0 <= s < 6) by (nonlinear_arith)
        requires
            t == k * s + j && 0 <= j < k && 0 <= t < 6 * k,
    ;
    let e = ring_side_elem(c, k, s, j);
    if s == 0 {
        assert(spec_direction(0) == (1int, 0int, -1int));
        assert(spec_cube_scale((1int, 0int, -1int), j) == (1int * j, 0int * j, -1int * j));
        assert(e == (c.0 - k + j, c.1 + k, c.2 - j));
    } else if s == 1 {
        assert(spec_direction(1) == (1int, -1int, 0int));
        assert(spec_cube_scale((1int, -1int, 0int), j) == (1int * j, -1int * j, 0int * j));
        assert(e == (c.0 + j, c.1 + k - j, c.2 - k));
    } else if s == 2 {
        assert(spec_direction(2) == (0int, -1int, 1int));
        assert(spec_cube_scale((0int, -1int, 1int), j) == (0int * j, -1int * j, 1int * j));
        assert(e == (c.0 + k, c.1 - j, c.2 - k + j));
    } else if s == 3 {
        assert(spec_direction(3) == (-1int, 0int, 1int));
        assert(spec_cube_scale((-1int, 0int, 1int), j) == (-1int * j, 0int * j, 1int * j));
        assert(e == (c.0 + k - j, c.1 - k, c.2 + j));
    } else if s == 4 {
        assert(spec_direction(4) == (-1int, 1int, 0int));
        assert(spec_cube_scale((-1int, 1int, 0int), j) == (-1int * j, 1int * j, 0int * j));
        assert(e == (c.0 - j, c.1 - k + j, c.2 + k));
    } else {
        assert(spec_direction(5) == (0int, 1int, -1int));
        assert(spec_cube_scale((0int, 1int, -1int), j) == (0int * j, 1int * j, -1int * j));
        assert(e == (c.0 - k, c.1 + j, c.2 + k - j));
    }
    (s, j)
}

/// Distinct flat indices of one ring give distinct positions.
pub proof fn lemma_ring_elem_injective(c: (int, int, int), k: int, t1: int, t2: int)
    requires
        k >= 1,
        0 <= t1 < 6 * k,
        0 <= t2 < 6 * k,
        ring_elem(c, k, t1) == ring_elem(c, k, t2),
    ensures
        t1 == t2,
{
    let d1 = ring_decompose(c, k, t1);
    let d2 = ring_decompose(c, k, t2);
    assert(d1.0 == d2.0);
    assert(d1.1 == d2.1);
}

/// The ring of radius `k` around the origin, as axial points in walk order.
pub open spec fn ring_axials(k: int) -> Seq<(int, int)> {
    Seq::new((6 * k) as nat, |t: int| (ring_elem((0, 0, 0), k, t).0, ring_elem((0, 0, 0), k, t).1))
}

/// A ring's axial points are pairwise distinct, each at hex distance exactly
/// the ring's radius from the origin; so they form a set of `6k` points.
pub proof fn lemma_ring_axials_set(k: int)
    requires
        k >= 1,
    ensures
        ring_axials(k).no_duplicates(),
        ring_axials(k).to_set().finite(),
        ring_axials(k).to_set().len() == 6 * k,
        forall|a: (int, int)|
            #[trigger] ring_axials(k).to_set().contains(a) ==> hex_dist((0, 0), a) == k,
{
    assert forall|t1: int, t2: int|
        0 <= t1 < ring_axials(k).len() && 0 <= t2 < ring_axials(k).len() && t1 != t2 implies
        ring_axials(k)[t1] != ring_axials(k)[t2] by {
        crate::coords::lemma_ring_elem_props((0, 0, 0), k, t1);
        crate::coords::lemma_ring_elem_props((0, 0, 0), k, t2);
        if ring_axials(k)[t1] == ring_axials(k)[t2] {
            // equal axials of zero-sum positions are equal positions
            assert(ring_elem((0, 0, 0), k, t1) == ring_elem((0, 0, 0), k, t2));
            lemma_ring_elem_injective((0, 0, 0), k, t1, t2);
        }
    }
    ring_axials(k).unique_seq_to_set();
    assert forall|a: (int, int)| #[trigger] ring_axials(k).to_set().contains(a) implies hex_dist(
        (0, 0),
        a,
    ) == k by {
        let t = choose|t: int| 0 <= t < ring_axials(k).len() && ring_axials(k)[t] == a;
        crate::coords::lemma_ring_elem_props((0, 0, 0), k, t);
    }
}

/// A union of disjoint finite sets has the sum of their sizes.
proof fn lemma_disjoint_union_len<A>(s1: Set<A>, s2: Set<A>)
    requires
        s1.finite(),
        s2.finite(),
        s1.disjoint(s2),
    ensures
        s1.union(s2).finite(),
        s1.union(s2).len() == s1.len() + s2.len(),
    decreases s2.len(),
{
    if s2.len() == 0 {
        assert(s2 =~= Set::<A>::empty());
        assert(s1.union(s2) =~= s1);
    } else {
        let y = s2.choose();
        assert(s2.contains(y));
        assert(s1.union(s2.remove(y)) =~= s1.union(s2).remove(y));
        lemma_disjoint_union_len(s1, s2.remove(y));
        assert(s1.union(s2) =~= s1.union(s2).remove(y).insert(y));
    }
}

/// The axial points within the given hex distance of the origin.
pub open spec fn disk_points(radius: int) -> Set<(int, int)>
    decreases radius,
{
    if radius <= 0 {
        set![(0int, 0int)]
    } else {
        disk_points(radius - 1).union(ring_axials(radius).to_set())
    }
}

/// The disk of the given radius holds the grid coordinates exactly, and has
/// `1 + 3R(R + 1)` points.
pub proof fn lemma_disk_points(radius: int)
    requires
        radius >= 0,
    ensures
        disk_points(radius).finite(),
        disk_points(radius).len() == 1 + 3 * radius * (radius + 1),
        forall|a: (int, int)| #[trigger] disk_points(radius).contains(a) <==> in_spiral(
            axial_cube(a),
            (0, 0, 0),
            radius,
        ),
        forall|a: (int, int)| #[trigger] disk_points(radius).contains(a) ==> hex_dist((0, 0), a)
            <= radius,
    decreases radius,
{
    if radius == 0 {
        assert(disk_points(0) =~= set![(0int, 0int)]);
        assert(disk_points(0).contains((0int, 0int)));
        assert(set![(0int, 0int)].len() == 1);
        assert forall|a: (int, int)| #[trigger] disk_points(0).contains(a) <==> in_spiral(
            axial_cube(a),
            (0, 0, 0),
            0,
        ) by {
            if in_spiral(axial_cube(a), (0, 0, 0), 0) {
                assert(axial_cube(a) == (0int, 0int, 0int));
                assert(a == (0int, 0int));
            }
        }
    } else {
        lemma_disk_points(radius - 1);
        lemma_ring_axials_set(radius);
        let inner = disk_points(radius - 1);
        let ring = ring_axials(radius).to_set();
        assert(inner.disjoint(ring)) by {
            assert forall|a: (int, int)| inner.contains(a) implies !ring.contains(a) by {
                assert(hex_dist((0, 0), a) <= radius - 1);
            }
        }
        lemma_disjoint_union_len(inner, ring);
        assert((1 + 3 * (radius - 1) * radius) + 6 * radius == 1 + 3 * radius * (radius + 1))
            by (nonlinear_arith);

        assert forall|a: (int, int)| #[trigger] disk_points(radius).contains(a) implies in_spiral(
            axial_cube(a),
            (0, 0, 0),
            radius,
        ) && hex_dist((0, 0), a) <= radius by {
            if inner.contains(a) {
                assert(in_spiral(axial_cube(a), (0, 0, 0), radius - 1));
            } else {
                assert(ring.contains(a));
                let t = choose|t: int|
                    0 <= t < ring_axials(radius).len() && ring_axials(radius)[t] == a;
                crate::coords::lemma_ring_elem_props((0, 0, 0), radius, t);
                assert(axial_cube(a) == ring_elem((0, 0, 0), radius, t));
                assert(in_spiral(axial_cube(a), (0, 0, 0), radius));
            }
        }
        assert forall|a: (int, int)| in_spiral(axial_cube(a), (0, 0, 0), radius) implies
            #[trigger] disk_points(radius).contains(a) by {
            let p = axial_cube(a);
            if p == (0int, 0int, 0int) {
                assert(in_spiral(p, (0, 0, 0), radius - 1));
            } else {
                let (kk, t) = choose|kk: int, t: int|
                    1 <= kk <= radius && 0 <= t < 6 * kk && p == ring_elem((0, 0, 0), kk, t);
                if kk < radius {
                    assert(in_spiral(p, (0, 0, 0), radius - 1));
                } else {
                    assert(ring_axials(radius)[t] == a);
                    assert(ring.contains(a));
                }
            }
        }
    }
}

/// The neighbor index of a grid of radius `R` has exactly `1 + 3R(R + 1)`
/// entries: one per grid coordinate.
pub proof fn lemma_grid_count(
    index: Map<(int, int), Seq<Option<(int, int)>>>,
    radius: int,
)
    requires
        radius >= 0,
        index_ok(index, radius),
    ensures
        index.dom().finite(),
        index.dom().len() == 1 + 3 * radius * (radius + 1),
{
    lemma_disk_points(radius);
    assert(index.dom() =~= disk_points(radius));
}

/// The total length of the first `i` batches.
pub open spec fn batch_len_sum(batches: Seq<Vec<AxialCoords>>, i: int) -> int
    decreases i,
{
    if i <= 0 {
        0
    } else {
        batch_len_sum(batches, i - 1) + batches[i - 1]@.len()
    }
}

/// The coordinates of the first `i` batches, as a set.
pub open spec fn batch_prefix_set(batches: Seq<Vec<AxialCoords>>, i: int) -> Set<(int, int)>
    decreases i,
{
    if i <= 0 {
        Set::empty()
    } else {
        batch_prefix_set(batches, i - 1).union(coord_views(batches[i - 1]@).to_set())
    }
}

/// The facts `create_parallelogram_coords_batches` ensures of its result.
pub open spec fn batches_shape(
    radius: int,
    rows: int,
    cols: int,
    batches: Seq<Vec<AxialCoords>>,
) -> bool {
    let pw = batch_cell_len(radius, cols);
    let ph = batch_cell_len(radius, rows);
    &&& batches.len() == rows * cols
    &&& forall|row: int, col: int, t: int|
        0 <= row < rows && 0 <= col < cols && 0 <= t < batches[row * cols + col]@.len()
            ==> batch_mem(radius, pw, ph, row, col, (#[trigger] batches[row * cols + col]@[t])@)
    &&& forall|row: int, col: int, x: (int, int)|
        0 <= row < rows && 0 <= col < cols && #[trigger] batch_mem(radius, pw, ph, row, col, x)
            ==> exists|t: int|
            0 <= t < batches[row * cols + col]@.len() && (#[trigger] batches[row * cols
                + col]@[t])@ == x
    &&& forall|row: int, col: int, t1: int, t2: int|
        0 <= row < rows && 0 <= col < cols && 0 <= t1 < t2 < batches[row * cols + col]@.len()
            ==> (#[trigger] batches[row * cols + col]@[t1])@ != (#[trigger] batches[row * cols
            + col]@[t2])@
}

/// Every coordinate of a prefix of the batches lies in some already-counted
/// batch cell; the prefix's size is the sum of the batch lengths.
proof fn lemma_batch_prefix(
    radius: int,
    rows: int,
    cols: int,
    batches: Seq<Vec<AxialCoords>>,
    i: int,
)
    requires
        0 <= radius,
        1 <= rows <= 255,
        1 <= cols <= 255,
        batches_shape(radius, rows, cols, batches),
        0 <= i <= rows * cols,
    ensures
        batch_prefix_set(batches, i).finite(),
        batch_prefix_set(batches, i).len() == batch_len_sum(batches, i),
        forall|x: (int, int)|
            #[trigger] batch_prefix_set(batches, i).contains(x) <==> exists|b: int|
                0 <= b < i && #[trigger] batch_mem(
                    radius,
                    batch_cell_len(radius, cols),
                    batch_cell_len(radius, rows),
                    b / cols,
                    b % cols,
                    x,
                ),
    decreases i,
{
    let pw = batch_cell_len(radius, cols);
    let ph = batch_cell_len(radius, rows);
    lemma_batches_partition(radius, rows, cols);
    if i > 0 {
        lemma_batch_prefix(radius, rows, cols, batches, i - 1);
        let b = i - 1;
        let row = b / cols;
        let col = b % cols;
        vstd::arithmetic::div_mod::lemma_fundamental_div_mod(b, cols);
        vstd::arithmetic::div_mod::lemma_mod_bound(b, cols);
        assert(0 <= row < rows) by (nonlinear_arith)
            requires
                b == cols * row + col && 0 <= col < cols && 0 <= b < rows * cols,
        ;
        assert(b == row * cols + col);

        let cur = coord_views(batches[b]@);
        assert(cur.no_duplicates()) by {
            assert forall|t1: int, t2: int|
                0 <= t1 < cur.len() && 0 <= t2 < cur.len() && t1 != t2 implies cur[t1]
                != cur[t2] by {
                assert(cur[t1] == batches[b]@[t1]@ && cur[t2] == batches[b]@[t2]@);
            }
        }
        cur.unique_seq_to_set();
        assert(cur.to_set().len() == batches[b]@.len());

        // the new batch is disjoint from everything counted before it
        assert(batch_prefix_set(batches, i - 1).disjoint(cur.to_set())) by {
            assert forall|x: (int, int)|
                batch_prefix_set(batches, i - 1).contains(x) implies !cur.to_set().contains(
                x,
            ) by {
                if cur.to_set().contains(x) {
                    let t = choose|t: int| 0 <= t < cur.len() && cur[t] == x;
                    assert(batches[row * cols + col]@[t]@ == x);
                    assert(batch_mem(radius, pw, ph, row, col, x));
                    let bb = choose|bb: int|
                        0 <= bb < i - 1 && #[trigger] batch_mem(
                            radius,
                            pw,
                            ph,
                            bb / cols,
                            bb % cols,
                            x,
                        );
                    vstd::arithmetic::div_mod::lemma_fundamental_div_mod(bb, cols);
                    vstd::arithmetic::div_mod::lemma_mod_bound(bb, cols);
                    assert(0 <= bb / cols < rows) by (nonlinear_arith)
                        requires
                            bb == cols * (bb / cols) + bb % cols && 0 <= bb % cols < cols && 0 <= bb
                                < rows * cols,
                    ;
                    assert(bb / cols == row && bb % cols == col);
                    assert(bb == cols * row + col);
                }
            }
        }
        lemma_disjoint_union_len(batch_prefix_set(batches, i - 1), cur.to_set());

        assert forall|x: (int, int)|
            #[trigger] batch_prefix_set(batches, i).contains(x) <==> exists|bb: int|
                0 <= bb < i && #[trigger] batch_mem(radius, pw, ph, bb / cols, bb % cols, x) by {
            if batch_prefix_set(batches, i).contains(x) {
                if cur.to_set().contains(x) {
                    let t = choose|t: int| 0 <= t < cur.len() && cur[t] == x;
                    assert(batches[row * cols + col]@[t]@ == x);
                    assert(batch_mem(radius, pw, ph, b / cols, b % cols, x));
                }
            }
            if exists|bb: int|
                0 <= bb < i && #[trigger] batch_mem(radius, pw, ph, bb / cols, bb % cols, x) {
                let bb = choose|bb: int|
                    0 <= bb < i && #[trigger] batch_mem(radius, pw, ph, bb / cols, bb % cols, x);
                if bb == b {
                    let t = choose|t: int|
                        0 <= t < batches[row * cols + col]@.len() && (#[trigger] batches[row * cols
                            + col]@[t])@ == x;
                    assert(cur[t] == x);
                    assert(cur.to_set().contains(x));
                }
            }
        }
    }
}

/// The batches of a partition hold one entry per grid coordinate in all:
/// their lengths sum to exactly `1 + 3R(R + 1)`.
pub proof fn lemma_batch_total(
    radius: int,
    rows: int,
    cols: int,
    batches: Seq<Vec<AxialCoords>>,
)
    requires
        0 <= radius,
        1 <= rows <= 255,
        1 <= cols <= 255,
        batches_shape(radius, rows, cols, batches),
    ensures
        batch_len_sum(batches, rows * cols) == 1 + 3 * radius * (radius + 1),
{
    let pw = batch_cell_len(radius, cols);
    let ph = batch_cell_len(radius, rows);
    let total = rows * cols;
    assert(rows * cols >= 1) by (nonlinear_arith)
        requires
            rows >= 1 && cols >= 1,
    ;
    lemma_batch_prefix(radius, rows, cols, batches, total);
    lemma_batches_partition(radius, rows, cols);
    lemma_disk_points(radius);
    assert(batch_prefix_set(batches, total) =~= disk_points(radius)) by {
        assert forall|x: (int, int)|
            #[trigger] batch_prefix_set(batches, total).contains(x) implies disk_points(
            radius,
        ).contains(x) by {
            let bb = choose|bb: int|
                0 <= bb < total && #[trigger] batch_mem(radius, pw, ph, bb / cols, bb % cols, x);
            assert(spec_in_grid(x, radius));
            lemma_grid_in_spiral(x, radius);
        }
        assert forall|x: (int, int)| #[trigger] disk_points(radius).contains(x) implies
            batch_prefix_set(batches, total).contains(x) by {
            assert(hex_dist((0, 0), x) <= radius);
            assert(spec_in_grid(x, radius));
            let (row, col) = choose|row: int, col: int|
                0 <= row < rows && 0 <= col < cols && #[trigger] batch_mem(
                    radius,
                    pw,
                    ph,
                    row,
                    col,
                    x,
                );
            let bb = row * cols + col;
            lemma_batch_index_pub(row, col, rows, cols);
            vstd::arithmetic::div_mod::lemma_fundamental_div_mod_converse(bb, cols, row, col);
            assert(bb / cols == row && bb % cols == col);
        }
    }
}

} // verus!
