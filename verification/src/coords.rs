//! Axial and cube coordinates on a hexagonal grid, with the ring, spiral and
//! parallelogram constructions used by the tile engine.

use vstd::prelude::*;

verus! {

/// Bound on coordinate components accepted by the geometry functions; keeps
/// every intermediate `i32` computation far from overflow.
pub const COORD_BOUND: i32 = 0x80000;

/// A cube coordinate `(q, r, s)`; valid positions satisfy `q + r + s == 0`.
#[derive(Clone, Copy, PartialEq, Eq, Structural, Debug, Hash)]
pub struct CubeCoords {
    pub q: i32,
    pub r: i32,
    pub s: i32,
}

/// An axial coordinate `(q, r)` with implied `s = -q - r`.
#[derive(Clone, Copy, PartialEq, Eq, Structural, Debug, Hash)]
pub struct AxialCoords {
    pub q: i32,
    pub r: i32,
}

impl View for CubeCoords {
    type V = (int, int, int);

    open spec fn view(&self) -> (int, int, int) {
        (self.q as int, self.r as int, self.s as int)
    }
}

impl View for AxialCoords {
    type V = (int, int);

    open spec fn view(&self) -> (int, int) {
        (self.q as int, self.r as int)
    }
}

/// The six canonical unit direction vectors, in the order the walk uses them.
pub open spec fn spec_direction(dir: int) -> (int, int, int) {
    if dir == 0 {
        (1, 0, -1)
    } else if dir == 1 {
        (1, -1, 0)
    } else if dir == 2 {
        (0, -1, 1)
    } else if dir == 3 {
        (-1, 0, 1)
    } else if dir == 4 {
        (-1, 1, 0)
    } else {
        (0, 1, -1)
    }
}

pub open spec fn spec_cube_add(a: (int, int, int), b: (int, int, int)) -> (int, int, int) {
    (a.0 + b.0, a.1 + b.1, a.2 + b.2)
}

pub open spec fn spec_cube_scale(a: (int, int, int), factor: int) -> (int, int, int) {
    (a.0 * factor, a.1 * factor, a.2 * factor)
}

/// All three components lie within `m` of zero.
pub open spec fn cube_within(c: (int, int, int), m: int) -> bool {
    -m <= c.0 <= m && -m <= c.1 <= m && -m <= c.2 <= m
}

impl CubeCoords {
    pub fn new(q: i32, r: i32, s: i32) -> (c: Self)
        ensures
            c@ == (q as int, r as int, s as int),
    {
        Self { q, r, s }
    }

    pub fn center() -> (c: Self)
        ensures
            c@ == (0int, 0int, 0int),
    {
        Self::new(0, 0, 0)
    }

    pub fn as_axial(&self) -> (a: AxialCoords)
        ensures
            a@ == (self@.0, self@.1),
    {
        AxialCoords::new(self.q, self.r)
    }
}

impl AxialCoords {
    pub fn new(q: i32, r: i32) -> (a: Self)
        ensures
            a@ == (q as int, r as int),
    {
        Self { q, r }
    }

    pub fn center() -> (a: Self)
        ensures
            a@ == (0int, 0int),
    {
        Self::new(0, 0)
    }

    pub fn as_cube(&self) -> (c: CubeCoords)
        requires
            -COORD_BOUND <= self@.0 <= COORD_BOUND,
            -COORD_BOUND <= self@.1 <= COORD_BOUND,
        ensures
            c@ == (self@.0, self@.1, -self@.0 - self@.1),
    {
        CubeCoords::new(self.q, self.r, -self.q - self.r)
    }
}

pub fn cube_substract(a: &CubeCoords, b: &CubeCoords) -> (c: CubeCoords)
    requires
        i32::MIN <= a@.0 - b@.0 <= i32::MAX,
        i32::MIN <= a@.1 - b@.1 <= i32::MAX,
        i32::MIN <= a@.2 - b@.2 <= i32::MAX,
    ensures
        c@ == (a@.0 - b@.0, a@.1 - b@.1, a@.2 - b@.2),
{
    CubeCoords::new(a.q - b.q, a.r - b.r, a.s - b.s)
}

pub fn cube_add(a: &CubeCoords, b: &CubeCoords) -> (c: CubeCoords)
    requires
        i32::MIN <= a@.0 + b@.0 <= i32::MAX,
        i32::MIN <= a@.1 + b@.1 <= i32::MAX,
        i32::MIN <= a@.2 + b@.2 <= i32::MAX,
    ensures
        c@ == spec_cube_add(a@, b@),
{
    CubeCoords::new(a.q + b.q, a.r + b.r, a.s + b.s)
}

pub fn cube_scale(a: &CubeCoords, factor: i32) -> (c: CubeCoords)
    requires
        i32::MIN <= a@.0 * factor <= i32::MAX,
        i32::MIN <= a@.1 * factor <= i32::MAX,
        i32::MIN <= a@.2 * factor <= i32::MAX,
    ensures
        c@ == spec_cube_scale(a@, factor as int),
{
    CubeCoords::new(a.q * factor, a.r * factor, a.s * factor)
}

pub fn cube_direction(dir: usize) -> (c: CubeCoords)
    requires
        dir < 6,
    ensures
        c@ == spec_direction(dir as int),
{
    if dir == 0 {
        CubeCoords::new(1, 0, -1)
    } else if dir == 1 {
        CubeCoords::new(1, -1, 0)
    } else if dir == 2 {
        CubeCoords::new(0, -1, 1)
    } else if dir == 3 {
        CubeCoords::new(-1, 0, 1)
    } else if dir == 4 {
        CubeCoords::new(-1, 1, 0)
    } else {
        CubeCoords::new(0, 1, -1)
    }
}

pub fn cube_neighbor(coords: &CubeCoords, dir: usize) -> (c: CubeCoords)
    requires
        dir < 6,
        cube_within(coords@, COORD_BOUND as int * 4),
    ensures
        c@ == spec_cube_add(coords@, spec_direction(dir as int)),
{
    cube_add(coords, &cube_direction(dir))
}

/// Corner where side `side` of the radius-`k` ring around `c` begins.
pub open spec fn ring_corner(c: (int, int, int), k: int, side: int) -> (int, int, int) {
    if side == 0 {
        (c.0 - k, c.1 + k, c.2)
    } else if side == 1 {
        (c.0, c.1 + k, c.2 - k)
    } else if side == 2 {
        (c.0 + k, c.1, c.2 - k)
    } else if side == 3 {
        (c.0 + k, c.1 - k, c.2)
    } else if side == 4 {
        (c.0, c.1 - k, c.2 + k)
    } else {
        (c.0 - k, c.1, c.2 + k)
    }
}

/// `step`-th position on side `side` of the radius-`k` ring around `c`.
pub open spec fn ring_side_elem(c: (int, int, int), k: int, side: int, step: int) -> (
    int,
    int,
    int,
) {
    spec_cube_add(ring_corner(c, k, side), spec_cube_scale(spec_direction(side), step))
}

/// Element `t` of the radius-`k` ring around `c`, for `0 <= t < 6 * k`.
pub open spec fn ring_elem(c: (int, int, int), k: int, t: int) -> (int, int, int) {
    ring_side_elem(c, k, t / k, t % k)
}

/// Walking one full side lands on the next corner.
proof fn lemma_corner_step(c: (int, int, int), k: int, side: int)
    requires
        0 <= side < 6,
    ensures
        spec_cube_add(ring_corner(c, k, side), spec_cube_scale(spec_direction(side), k))
            == if side == 5 {
                ring_corner(c, k, 0)
            } else {
                ring_corner(c, k, side + 1)
            },
{
    if side == 0 {
        assert(spec_direction(0) == (1int, 0int, -1int));
        assert(spec_cube_scale((1int, 0int, -1int), k) == (1int * k, 0int * k, -1int * k));
        assert(spec_cube_add(ring_corner(c, k, 0), spec_cube_scale(spec_direction(0), k))
            == ring_corner(c, k, 1));
    } else if side == 1 {
        assert(spec_cube_add(ring_corner(c, k, 1), spec_cube_scale(spec_direction(1), k))
            == ring_corner(c, k, 2));
    } else if side == 2 {
        assert(spec_cube_add(ring_corner(c, k, 2), spec_cube_scale(spec_direction(2), k))
            == ring_corner(c, k, 3));
    } else if side == 3 {
        assert(spec_cube_add(ring_corner(c, k, 3), spec_cube_scale(spec_direction(3), k))
            == ring_corner(c, k, 4));
    } else if side == 4 {
        assert(spec_cube_add(ring_corner(c, k, 4), spec_cube_scale(spec_direction(4), k))
            == ring_corner(c, k, 5));
    } else {
        assert(spec_cube_add(ring_corner(c, k, 5), spec_cube_scale(spec_direction(5), k))
            == ring_corner(c, k, 0));
    }
}

/// Relates the flat ring index to its side/step decomposition.
pub proof fn lemma_ring_index(c: (int, int, int), k: int, side: int, step: int)
    requires
        k >= 1,
        0 <= side < 6,
        0 <= step < k,
    ensures
        ring_elem(c, k, side * k + step) == ring_side_elem(c, k, side, step),
        0 <= side * k + step < 6 * k,
{
    let t = side * k + step;
    vstd::arithmetic::div_mod::lemma_fundamental_div_mod_converse(t, k, side, step);
    assert(t / k == side && t % k == step);
    assert(0 * k <= side * k <= 5 * k) by (nonlinear_arith)
        requires
            k >= 1 && 0 <= side <= 5,
    ;
}

/// The `6 * k` positions at hex distance exactly `k` from `center`, walked
/// from `center + k * direction(4)` through directions `0..5`; empty for
/// `k == 0`.
pub fn cube_ring(center: &CubeCoords, radius: u32) -> (r: Vec<CubeCoords>)
    requires
        radius as int <= COORD_BOUND as int,
        cube_within(center@, COORD_BOUND as int),
    ensures
        r@.len() == 6 * radius,
        forall|t: int|
            0 <= t < r@.len() ==> (#[trigger] r@[t])@ == ring_elem(center@, radius as int, t),
{
    let mut results: Vec<CubeCoords> = Vec::new();

    let radius_i: i32 = radius as i32;
    assert(radius_i as int == radius as int);
    let dir4 = cube_direction(4);
    assert(dir4@ == (-1int, 1int, 0int));
    let scaled = cube_scale(&dir4, radius_i);
    let mut coords = cube_add(center, &scaled);

    let ghost k = radius as int;
    let ghost c = center@;

    assert(coords@ == ring_corner(c, k, 0));

    for i in 0..6usize
        invariant
            radius as int <= COORD_BOUND as int,
            cube_within(c, COORD_BOUND as int),
            k == radius as int,
            c == center@,
            results@.len() == i * (radius as int),
            coords@ == if i < 6 { ring_corner(c, k, i as int) } else { ring_corner(c, k, 0) },
            forall|s: int, j: int|
                0 <= s < i && 0 <= j < k ==> (#[trigger] results@[s * k + j])@ == ring_side_elem(
                    c,
                    k,
                    s,
                    j,
                ),
    {
        let ghost side = i as int;
        proof {
            assert(spec_cube_scale(spec_direction(side), 0) == (0int, 0int, 0int));
            assert(coords@ == ring_side_elem(c, k, side, 0));
        }
        for j in 0..radius
            invariant
                radius as int <= COORD_BOUND as int,
                cube_within(c, COORD_BOUND as int),
                k == radius as int,
                c == center@,
                i < 6,
                side == i as int,
                results@.len() == side * k + j as int,
                coords@ == ring_side_elem(c, k, side, j as int),
                forall|s: int, jj: int|
                    0 <= s < side && 0 <= jj < k ==> (#[trigger] results@[s * k + jj])@
                        == ring_side_elem(c, k, s, jj),
                forall|jj: int|
                    0 <= jj < j as int ==> (#[trigger] results@[side * k + jj])@ == ring_side_elem(
                        c,
                        k,
                        side,
                        jj,
                    ),
        {
            results.push(coords.clone());
            proof {
                assert forall|s: int, jj: int| 0 <= s < side && 0 <= jj < k implies (
                #[trigger] results@[s * k + jj])@ == ring_side_elem(c, k, s, jj) by {
                    assert(0 <= s * k + jj < side * k) by (nonlinear_arith)
                        requires
                            0 <= s < side && 0 <= jj < k,
                    ;
                }
            }
            assert(cube_within(coords@, COORD_BOUND as int * 4));
            coords = cube_neighbor(&coords, i);
            assert(coords@ == ring_side_elem(c, k, side, j as int + 1));
        }
        proof {
            lemma_corner_step(c, k, side);
            assert(results@.len() == (side + 1) * k) by (nonlinear_arith)
                requires
                    results@.len() == side * k + k,
            ;
            assert forall|s: int, jj: int| 0 <= s < side + 1 && 0 <= jj < k implies (
            #[trigger] results@[s * k + jj])@ == ring_side_elem(c, k, s, jj) by {
                assert(0 <= s * k + jj < results@.len()) by (nonlinear_arith)
                    requires
                        0 <= s < side + 1 && 0 <= jj < k && results@.len() == side * k + k,
                ;
            }
        }
    }
    proof {
        assert forall|t: int| 0 <= t < results@.len() implies (#[trigger] results@[t])@
            == ring_elem(c, k, t) by {
            let s = t / k;
            let j = t % k;
            vstd::arithmetic::div_mod::lemma_fundamental_div_mod(t, k);
            vstd::arithmetic::div_mod::lemma_mod_bound(t, k);
            assert(0 <= s < 6) by (nonlinear_arith)
                requires
                    t == s * k + j && 0 <= j < k && 0 <= t < 6 * k,
            ;
            assert(results@[s * k + j]@ == ring_side_elem(c, k, s, j));
        }
    }
    results
}

/// Absolute value, as the grid predicate uses it.
pub open spec fn abs_i(x: int) -> int {
    if x < 0 {
        -x
    } else {
        x
    }
}

/// Hex distance between two axial coordinates: the largest componentwise
/// cube-coordinate difference.
pub open spec fn hex_dist(a: (int, int), b: (int, int)) -> int {
    let dq = abs_i(b.0 - a.0);
    let dr = abs_i(b.1 - a.1);
    let ds = abs_i((b.0 + b.1) - (a.0 + a.1));
    if dq >= dr && dq >= ds {
        dq
    } else if dr >= ds {
        dr
    } else {
        ds
    }
}

/// An axial coordinate lies on the grid of the given radius.
pub open spec fn spec_in_grid(a: (int, int), radius: int) -> bool {
    hex_dist((0, 0), a) <= radius
}

pub fn is_within_grid(coords: AxialCoords, radius: u32) -> (b: bool)
    requires
        radius as int <= 0x1FFFFFFF,
        -0x1FFFFFFF <= coords@.0 <= 0x1FFFFFFF,
        -0x1FFFFFFF <= coords@.1 <= 0x1FFFFFFF,
    ensures
        b == spec_in_grid(coords@, radius as int),
{
    let radius_i32 = radius as i32;
    let q = coords.q;
    let r = coords.r;

    let abs_q = if q < 0 { -q } else { q };
    let abs_r = if r < 0 { -r } else { r };
    let s = -q - r;
    let abs_s = if s < 0 { -s } else { s };

    let b = (abs_q + abs_r + abs_s) / 2 <= radius_i32;
    proof {
        // the three cube components sum to zero, so the sum of their absolute
        // values is twice the largest
        assert(b == (hex_dist((0, 0), coords@) <= radius as int));
    }
    b
}

/// Index of the first element of ring `kk` within a spiral.
pub open spec fn spiral_offset(kk: int) -> int {
    1 + 3 * (kk - 1) * kk
}

/// Membership in the spiral of radius `k` around `c`.
pub open spec fn in_spiral(p: (int, int, int), c: (int, int, int), k: int) -> bool {
    p == c || exists|kk: int, t: int|
        1 <= kk <= k && 0 <= t < 6 * kk && p == ring_elem(c, kk, t)
}

/// The center followed by rings `1..=radius`, so `1 + 3k(k+1)` positions.
pub fn cube_spiral(center: &CubeCoords, radius: u32) -> (r: Vec<CubeCoords>)
    requires
        radius as int <= COORD_BOUND as int,
        cube_within(center@, COORD_BOUND as int),
    ensures
        r@.len() == spiral_offset(radius as int + 1),
        r@.len() >= 1,
        r@[0]@ == center@,
        forall|kk: int, t: int|
            1 <= kk <= radius as int && 0 <= t < 6 * kk ==> #[trigger] r@[spiral_offset(kk) + t]@
                == ring_elem(center@, kk, t),
        forall|idx: int|
            0 <= idx < r@.len() ==> in_spiral((#[trigger] r@[idx])@, center@, radius as int),
        forall|idx: int|
            0 <= idx < r@.len() ==> (#[trigger] r@[idx])@.0 + r@[idx]@.1 + r@[idx]@.2 == center@.0
                + center@.1 + center@.2,
{
    let mut results: Vec<CubeCoords> = Vec::new();
    results.push(center.clone());

    let ghost c = center@;
    let max = radius + 1;

    for k in 1..max
        invariant
            radius as int <= COORD_BOUND as int,
            cube_within(c, COORD_BOUND as int),
            c == center@,
            max == radius + 1,
            1 <= k as int && k as int <= radius as int + 1,
            results@.len() == spiral_offset(k as int),
            results@.len() >= 1,
            results@[0]@ == c,
            forall|kk: int, t: int|
                1 <= kk < k as int && 0 <= t < 6 * kk ==> #[trigger] results@[spiral_offset(kk)
                    + t]@ == ring_elem(c, kk, t),
            forall|idx: int|
                0 <= idx < results@.len() ==> in_spiral(
                    (#[trigger] results@[idx])@,
                    c,
                    radius as int,
                ),
            forall|idx: int|
                0 <= idx < results@.len() ==> (#[trigger] results@[idx])@.0 + results@[idx]@.1
                    + results@[idx]@.2 == c.0 + c.1 + c.2,
    {
        let ghost old_results = results@;
        let mut ring = cube_ring(center, k);
        let ghost ring_snap = ring@;
        results.append(&mut ring);
        proof {
            assert(results@ == old_results + ring_snap);
            assert(spiral_offset(k as int) + 6 * (k as int) == spiral_offset(k as int + 1))
                by (nonlinear_arith);
            assert forall|kk: int, t: int| 1 <= kk < k as int + 1 && 0 <= t < 6 * kk implies
                #[trigger] results@[spiral_offset(kk) + t]@ == ring_elem(c, kk, t) by {
                assert(spiral_offset(kk) >= 1) by (nonlinear_arith)
                    requires
                        kk >= 1,
                ;
                if kk < k as int {
                    assert(spiral_offset(kk) + 6 * kk <= spiral_offset(k as int)) by (nonlinear_arith)
                        requires
                            1 <= kk < k as int,
                    ;
                    assert(results@[spiral_offset(kk) + t] == old_results[spiral_offset(kk) + t]);
                } else {
                    assert(results@[spiral_offset(kk) + t] == ring_snap[t]);
                }
            }
            assert forall|idx: int| 0 <= idx < results@.len() implies in_spiral(
                (#[trigger] results@[idx])@,
                c,
                radius as int,
            ) && results@[idx]@.0 + results@[idx]@.1 + results@[idx]@.2 == c.0 + c.1 + c.2 by {
                if idx < old_results.len() {
                    assert(results@[idx] == old_results[idx]);
                } else {
                    let t = idx - spiral_offset(k as int);
                    assert(results@[idx]@ == ring_snap[t]@);
                    assert(ring_snap[t]@ == ring_elem(c, k as int, t));
                    lemma_ring_elem_props(c, k as int, t);
                    assert(in_spiral(ring_elem(c, k as int, t), c, radius as int));
                }
            }
        }
    }
    results
}

/// Every ring element keeps the component sum of its center and sits at hex
/// distance exactly the ring radius.
pub proof fn lemma_ring_elem_props(c: (int, int, int), k: int, t: int)
    requires
        k >= 1,
        0 <= t < 6 * k,
    ensures
        ring_elem(c, k, t).0 + ring_elem(c, k, t).1 + ring_elem(c, k, t).2 == c.0 + c.1 + c.2,
        hex_dist((c.0, c.1), (ring_elem(c, k, t).0, ring_elem(c, k, t).1)) == k,
{
    let s = t / k;
    let j = t % k;
    vstd::arithmetic::div_mod::lemma_fundamental_div_mod(t, k);
    vstd::arithmetic::div_mod::lemma_mod_bound(t, k);
    assert(t == k * s + j);
    assert(0 <= j < k);
    assert(0 <= s < 6) by (nonlinear_arith)
        requires
            t == k * s + j && 0 <= j < k && 0 <= t < 6 * k,
    ;
    let e = ring_side_elem(c, k, s, j);
    assert(ring_elem(c, k, t) == e);
    if s == 0 {
        assert(spec_direction(s) == (1int, 0int, -1int));
        assert(ring_corner(c, k, s) == (c.0 - k, c.1 + k, c.2));
        assert(spec_cube_scale((1int, 0int, -1int), j) == (j, 0int, -j));
        assert(e == (c.0 - k + j, c.1 + k, c.2 - j));
    } else if s == 1 {
        assert(spec_direction(s) == (1int, -1int, 0int));
        assert(ring_corner(c, k, s) == (c.0, c.1 + k, c.2 - k));
        assert(spec_cube_scale((1int, -1int, 0int), j) == (j, -j, 0int));
        assert(e == (c.0 + j, c.1 + k - j, c.2 - k));
    } else if s == 2 {
        assert(spec_direction(s) == (0int, -1int, 1int));
        assert(ring_corner(c, k, s) == (c.0 + k, c.1, c.2 - k));
        assert(spec_cube_scale((0int, -1int, 1int), j) == (0int, -j, j));
        assert(e == (c.0 + k, c.1 - j, c.2 - k + j));
    } else if s == 3 {
        assert(spec_direction(s) == (-1int, 0int, 1int));
        assert(ring_corner(c, k, s) == (c.0 + k, c.1 - k, c.2));
        assert(spec_cube_scale((-1int, 0int, 1int), j) == (-j, 0int, j));
        assert(e == (c.0 + k - j, c.1 - k, c.2 + j));
    } else if s == 4 {
        assert(spec_direction(s) == (-1int, 1int, 0int));
        assert(ring_corner(c, k, s) == (c.0, c.1 - k, c.2 + k));
        assert(spec_cube_scale((-1int, 1int, 0int), j) == (-j, j, 0int));
        assert(e == (c.0 - j, c.1 - k + j, c.2 + k));
    } else {
        assert(spec_direction(s) == (0int, 1int, -1int));
        assert(ring_corner(c, k, s) == (c.0 - k, c.1, c.2 + k));
        assert(spec_cube_scale((0int, 1int, -1int), j) == (0int, j, -j));
        assert(e == (c.0 - k, c.1 + j, c.2 + k - j));
    }
}

/// Position `(i, j)` of a parallelogram anchored at `start`, as an axial
/// coordinate.
pub open spec fn para_pos(start: (int, int, int), i: int, j: int) -> (int, int) {
    (start.0 + i - j, start.1 + j)
}

/// Membership of an axial coordinate in the in-grid part of a `w x h`
/// parallelogram anchored at `st`; the cell indices are recovered from the
/// coordinate itself.
pub open spec fn para_cell_at(st: (int, int, int), w: int, h: int, radius: int, x: (
    int,
    int,
)) -> bool {
    let j = x.1 - st.1;
    let i = x.0 - st.0 + j;
    0 <= i < w && 0 <= j < h && spec_in_grid(x, radius)
}

/// The cell of `x` was already walked: its row lies above `rows_done`, or it
/// is in that row before column `cols_done`.
pub open spec fn para_walked(st: (int, int, int), x: (int, int), rows_done: int, cols_done: int) -> bool {
    let j = x.1 - st.1;
    let i = x.0 - st.0 + j;
    j < rows_done || (j == rows_done && i < cols_done)
}

pub struct ParallelogramConfig {
    pub start: CubeCoords,
    pub height: u32,
    pub width: u32,
    pub constraint_to: u32,
}

/// The in-grid positions of a `width x height` parallelogram anchored at
/// `config.start`, walked row-major.
pub fn cube_parallelogram_tiles(config: ParallelogramConfig) -> (res: Vec<AxialCoords>)
    requires
        cube_within(config.start@, 512 * COORD_BOUND as int),
        config.height as int <= 4 * COORD_BOUND as int,
        config.width as int <= 4 * COORD_BOUND as int,
        config.constraint_to as int <= 4 * COORD_BOUND as int,
    ensures
        forall|t: int|
            0 <= t < res@.len() ==> para_cell_at(
                config.start@,
                config.width as int,
                config.height as int,
                config.constraint_to as int,
                (#[trigger] res@[t])@,
            ),
        forall|x: (int, int)|
            #[trigger] para_cell_at(
                config.start@,
                config.width as int,
                config.height as int,
                config.constraint_to as int,
                x,
            ) ==> exists|t: int| 0 <= t < res@.len() && (#[trigger] res@[t])@ == x,
        forall|t1: int, t2: int|
            0 <= t1 < t2 < res@.len() ==> (#[trigger] res@[t1])@ != (#[trigger] res@[t2])@,
{
    let mut tiles: Vec<AxialCoords> = Vec::new();
    let start = config.start;
    let ghost st = start@;
    let ghost w = config.width as int;
    let ghost h = config.height as int;
    let ghost cons = config.constraint_to as int;

    let height_i = config.height as i32;
    let width_i = config.width as i32;

    let mut r: i32 = 0;
    while r < height_i
        invariant
            cube_within(st, 512 * COORD_BOUND as int),
            0 <= h <= 4 * COORD_BOUND as int,
            0 <= w <= 4 * COORD_BOUND as int,
            0 <= cons <= 4 * COORD_BOUND as int,
            st == start@,
            st == config.start@,
            w == config.width as int,
            h == config.height as int,
            cons == config.constraint_to as int,
            height_i as int == h,
            width_i as int == w,
            0 <= r && r <= height_i,
            forall|t: int|
                0 <= t < tiles@.len() ==> para_cell_at(st, w, h, cons, (#[trigger] tiles@[t])@),
            forall|x: (int, int)|
                #[trigger] para_cell_at(st, w, r as int, cons, x) ==> exists|t: int|
                    0 <= t < tiles@.len() && (#[trigger] tiles@[t])@ == x,
            forall|t: int|
                0 <= t < tiles@.len() ==> para_walked(st, (#[trigger] tiles@[t])@, r as int, 0),
            forall|t1: int, t2: int|
                0 <= t1 < t2 < tiles@.len() ==> (#[trigger] tiles@[t1])@ != (
                #[trigger] tiles@[t2])@,
        decreases h - r as int,
    {
        let mut q: i32 = 0;
        while q < width_i
            invariant
                cube_within(st, 512 * COORD_BOUND as int),
                0 <= h <= 4 * COORD_BOUND as int,
                0 <= w <= 4 * COORD_BOUND as int,
                0 <= cons <= 4 * COORD_BOUND as int,
                st == start@,
                st == config.start@,
                w == config.width as int,
                h == config.height as int,
                cons == config.constraint_to as int,
                height_i as int == h,
                width_i as int == w,
                0 <= r && r < height_i,
                0 <= q && q <= width_i,
                forall|t: int|
                    0 <= t < tiles@.len() ==> para_cell_at(st, w, h, cons, (#[trigger] tiles@[t])@),
                forall|x: (int, int)|
                    #[trigger] para_cell_at(st, w, r as int, cons, x) ==> exists|t: int|
                        0 <= t < tiles@.len() && (#[trigger] tiles@[t])@ == x,
                forall|x: (int, int)|
                    #[trigger] para_cell_at(st, q as int, r as int + 1, cons, x) && x.1 - st.1
                        == r as int ==> exists|t: int|
                        0 <= t < tiles@.len() && (#[trigger] tiles@[t])@ == x,
                forall|t: int|
                    0 <= t < tiles@.len() ==> para_walked(
                        st,
                        (#[trigger] tiles@[t])@,
                        r as int,
                        q as int,
                    ),
                forall|t1: int, t2: int|
                    0 <= t1 < t2 < tiles@.len() ==> (#[trigger] tiles@[t1])@ != (
                    #[trigger] tiles@[t2])@,
            decreases w - q as int,
        {
            let h_offset = cube_scale(&CubeCoords::new(1, 0, -1), q);
            let v_offset = cube_scale(&CubeCoords::new(-1, 1, 0), r);

            let coords = cube_add(&start, &cube_add(&v_offset, &h_offset));
            let axial_coords = coords.as_axial();
            proof {
                assert(axial_coords@ == para_pos(st, q as int, r as int));
            }

            let ghost prev_tiles = tiles@;
            let in_grid = is_within_grid(axial_coords, config.constraint_to);
            if in_grid {
                tiles.push(axial_coords);
            }
            proof {
                let qq = q as int;
                let rr = r as int;
                let xnew = axial_coords@;
                if in_grid {
                    assert(tiles@ == prev_tiles.push(axial_coords));
                    assert((tiles@[prev_tiles.len() as int])@ == xnew);
                    assert(para_cell_at(st, w, h, cons, xnew));
                    assert forall|t: int| 0 <= t < tiles@.len() implies para_cell_at(
                        st,
                        w,
                        h,
                        cons,
                        (#[trigger] tiles@[t])@,
                    ) by {
                        if t < prev_tiles.len() {
                            assert(tiles@[t] == prev_tiles[t]);
                        }
                    }
                    // the fresh cell was not walked before, so it differs from
                    // every earlier element
                    assert(!para_walked(st, xnew, rr, qq));
                    assert forall|t1: int, t2: int| 0 <= t1 < t2 < tiles@.len() implies (
                    #[trigger] tiles@[t1])@ != (#[trigger] tiles@[t2])@ by {
                        if t2 == tiles@.len() - 1 {
                            assert(tiles@[t1] == prev_tiles[t1]);
                            assert(para_walked(st, tiles@[t1]@, rr, qq));
                        } else {
                            assert(tiles@[t1] == prev_tiles[t1] && tiles@[t2] == prev_tiles[t2]);
                        }
                    }
                }
                assert forall|t: int| 0 <= t < tiles@.len() implies para_walked(
                    st,
                    (#[trigger] tiles@[t])@,
                    rr,
                    qq + 1,
                ) by {
                    if t < prev_tiles.len() {
                        assert(tiles@[t] == prev_tiles[t]);
                        assert(para_walked(st, prev_tiles[t]@, rr, qq));
                    }
                }
                assert forall|x: (int, int)|
                    #[trigger] para_cell_at(st, qq + 1, rr + 1, cons, x) && x.1 - st.1 == rr
                    implies exists|t: int|
                    0 <= t < tiles@.len() && (#[trigger] tiles@[t])@ == x by {
                    // such an x lies in row `rr` with column index at most `qq`
                    let j = x.1 - st.1;
                    let i = x.0 - st.0 + j;
                    assert(j == rr && 0 <= i <= qq && spec_in_grid(x, cons));
                    if i == qq {
                        assert(x == xnew);
                        assert(in_grid);
                        assert((tiles@[prev_tiles.len() as int])@ == x);
                    } else {
                        assert(para_cell_at(st, qq, rr + 1, cons, x));
                        let t = choose|t: int|
                            0 <= t < prev_tiles.len() && (#[trigger] prev_tiles[t])@ == x;
                        assert((tiles@[t])@ == x);
                    }
                }
                assert forall|x: (int, int)| #[trigger] para_cell_at(st, w, rr, cons, x) implies
                    exists|t: int| 0 <= t < tiles@.len() && (#[trigger] tiles@[t])@ == x by {
                    let t = choose|t: int|
                        0 <= t < prev_tiles.len() && (#[trigger] prev_tiles[t])@ == x;
                    assert((tiles@[t])@ == x);
                }
            }
            q = q + 1;
        }
        proof {
            // a full row `r` is now covered: membership for height `r + 1`
            assert forall|x: (int, int)| #[trigger] para_cell_at(st, w, r as int + 1, cons, x)
                implies exists|t: int| 0 <= t < tiles@.len() && (#[trigger] tiles@[t])@ == x by {
                let j = x.1 - st.1;
                let i = x.0 - st.0 + j;
                if j < r as int {
                    assert(para_cell_at(st, w, r as int, cons, x));
                } else {
                    assert(j == r as int);
                    assert(para_cell_at(st, q as int, r as int + 1, cons, x));
                }
            }
            assert forall|t: int| 0 <= t < tiles@.len() implies para_walked(
                st,
                (#[trigger] tiles@[t])@,
                r as int + 1,
                0,
            ) by {
                assert(para_walked(st, tiles@[t]@, r as int, q as int));
            }
        }
        r = r + 1;
    }

    tiles
}

/// Width of one parallelogram cell: the enclosing rhombus side `2R + 1`
/// divided by the batch count, rounded up.
pub open spec fn batch_cell_len(radius: int, div: int) -> int {
    (2 * radius + div) / div
}

/// Membership of an axial coordinate in the batch at `(row, col)`: writing
/// `yy = r + radius` and `xx = q + yy`, the point lies in the cell's band and
/// on the grid.
pub open spec fn batch_mem(
    radius: int,
    pw: int,
    ph: int,
    row: int,
    col: int,
    x: (int, int),
) -> bool {
    let yy = x.1 + radius;
    let xx = x.0 + yy;
    pw * col <= xx < pw * col + pw && ph * row <= yy < ph * row + ph && spec_in_grid(x, radius)
}

/// Divide the hexagonal grid into `rows * cols` batches of coordinates, each
/// batch a parallelogram intersected with the disk.
pub fn create_parallelogram_coords_batches(rows: u8, cols: u8, grid_radius: u32) -> (r: Vec<
    Vec<AxialCoords>,
>)
    requires
        rows >= 1,
        cols >= 1,
        grid_radius as int <= COORD_BOUND as int,
    ensures
        r@.len() == rows as int * cols as int,
        forall|row: int, col: int, t: int|
            0 <= row < rows as int && 0 <= col < cols as int && 0 <= t < r@[row * cols as int
                + col]@.len() ==> batch_mem(
                grid_radius as int,
                batch_cell_len(grid_radius as int, cols as int),
                batch_cell_len(grid_radius as int, rows as int),
                row,
                col,
                (#[trigger] r@[row * cols as int + col]@[t])@,
            ),
        forall|row: int, col: int, x: (int, int)|
            0 <= row < rows as int && 0 <= col < cols as int && #[trigger] batch_mem(
                grid_radius as int,
                batch_cell_len(grid_radius as int, cols as int),
                batch_cell_len(grid_radius as int, rows as int),
                row,
                col,
                x,
            ) ==> exists|t: int|
                0 <= t < r@[row * cols as int + col]@.len() && (#[trigger] r@[row * cols as int
                    + col]@[t])@ == x,
        forall|row: int, col: int, t1: int, t2: int|
            0 <= row < rows as int && 0 <= col < cols as int && 0 <= t1 < t2 < r@[row
                * cols as int + col]@.len() ==> (#[trigger] r@[row * cols as int + col]@[t1])@
                != (#[trigger] r@[row * cols as int + col]@[t2])@,
{
    let mut results: Vec<Vec<AxialCoords>> = Vec::new();

    let radius = grid_radius as i32;

    let d = 2 * grid_radius + 1;
    let p_width = (d + cols as u32 - 1) / (cols as u32);
    let p_height = (d + rows as u32 - 1) / (rows as u32);

    let ghost rad = grid_radius as int;
    let ghost pw = batch_cell_len(rad, cols as int);
    let ghost ph = batch_cell_len(rad, rows as int);
    proof {
        lemma_ceil_div_bounds(rad, cols as int);
        lemma_ceil_div_bounds(rad, rows as int);
        assert(p_width as int == pw);
        assert(p_height as int == ph);
        assert(1 <= pw <= 2 * rad + 1);
        assert(1 <= ph <= 2 * rad + 1);
    }

    let start = CubeCoords::new(0, -radius, radius);

    let mut row: u8 = 0;
    while row < rows
        invariant
            rows >= 1,
            cols >= 1,
            rad == grid_radius as int,
            0 <= rad <= COORD_BOUND as int,
            radius as int == rad,
            pw == batch_cell_len(rad, cols as int),
            ph == batch_cell_len(rad, rows as int),
            p_width as int == pw,
            p_height as int == ph,
            1 <= pw <= 2 * rad + 1,
            1 <= ph <= 2 * rad + 1,
            start@ == (0int, -rad, rad),
            0 <= row as int && (row as int) <= rows as int,
            results@.len() == row as int * cols as int,
            forall|rr: int, cc: int, t: int|
                0 <= rr < rows as int && 0 <= cc < cols as int && rr * cols as int + cc
                    < results@.len() && 0 <= t < r_batch_len(results@, rr, cc, cols as int)
                    ==> batch_mem(
                    rad,
                    pw,
                    ph,
                    rr,
                    cc,
                    (#[trigger] results@[rr * cols as int + cc]@[t])@,
                ),
            forall|rr: int, cc: int, x: (int, int)|
                0 <= rr < rows as int && 0 <= cc < cols as int && rr * cols as int + cc
                    < results@.len() && #[trigger] batch_mem(rad, pw, ph, rr, cc, x) ==> exists|
                    t: int,
                |
                    0 <= t < r_batch_len(results@, rr, cc, cols as int) && (
                    #[trigger] results@[rr * cols as int + cc]@[t])@ == x,
            forall|rr: int, cc: int, t1: int, t2: int|
                0 <= rr < rows as int && 0 <= cc < cols as int && rr * cols as int + cc
                    < results@.len() && 0 <= t1 < t2 < r_batch_len(results@, rr, cc, cols as int)
                    ==> (#[trigger] results@[rr * cols as int + cc]@[t1])@ != (
                    #[trigger] results@[rr * cols as int + cc]@[t2])@,
        decreases rows as int - row as int,
    {
        let mut col: u8 = 0;
        while col < cols
            invariant
                rows >= 1,
                cols >= 1,
                rad == grid_radius as int,
                0 <= rad <= COORD_BOUND as int,
                radius as int == rad,
                pw == batch_cell_len(rad, cols as int),
                ph == batch_cell_len(rad, rows as int),
                p_width as int == pw,
                p_height as int == ph,
                1 <= pw <= 2 * rad + 1,
                1 <= ph <= 2 * rad + 1,
                start@ == (0int, -rad, rad),
                0 <= row as int && (row as int) < rows as int,
                0 <= col as int && (col as int) <= cols as int,
                results@.len() == row as int * cols as int + col as int,
                forall|rr: int, cc: int, t: int|
                    0 <= rr < rows as int && 0 <= cc < cols as int && rr * cols as int + cc
                        < results@.len() && 0 <= t < r_batch_len(results@, rr, cc, cols as int)
                        ==> batch_mem(
                        rad,
                        pw,
                        ph,
                        rr,
                        cc,
                        (#[trigger] results@[rr * cols as int + cc]@[t])@,
                    ),
                forall|rr: int, cc: int, x: (int, int)|
                    0 <= rr < rows as int && 0 <= cc < cols as int && rr * cols as int + cc
                        < results@.len() && #[trigger] batch_mem(rad, pw, ph, rr, cc, x) ==> exists|
                        t: int,
                    |
                        0 <= t < r_batch_len(results@, rr, cc, cols as int) && (
                        #[trigger] results@[rr * cols as int + cc]@[t])@ == x,
                forall|rr: int, cc: int, t1: int, t2: int|
                    0 <= rr < rows as int && 0 <= cc < cols as int && rr * cols as int + cc
                        < results@.len() && 0 <= t1 < t2 < r_batch_len(
                        results@,
                        rr,
                        cc,
                        cols as int,
                    ) ==> (#[trigger] results@[rr * cols as int + cc]@[t1])@ != (
                    #[trigger] results@[rr * cols as int + cc]@[t2])@,
            decreases cols as int - col as int,
        {
            proof {
                assert((2 * rad + 1) * 255 < 512 * COORD_BOUND as int) by (nonlinear_arith)
                    requires
                        0 <= rad <= 0x80000,
                ;
                assert(0 <= pw * col as int <= pw * (cols as int - 1)) by (nonlinear_arith)
                    requires
                        0 <= col as int <= cols as int - 1 && pw >= 1,
                ;
                assert(0 <= ph * row as int <= ph * (rows as int - 1)) by (nonlinear_arith)
                    requires
                        0 <= row as int <= rows as int - 1 && ph >= 1,
                ;
                assert(pw * (cols as int - 1) <= (2 * rad + 1) * 255) by (nonlinear_arith)
                    requires
                        1 <= pw <= 2 * rad + 1 && cols as int <= 255 && rad >= 0,
                ;
                assert(ph * (rows as int - 1) <= (2 * rad + 1) * 255) by (nonlinear_arith)
                    requires
                        1 <= ph <= 2 * rad + 1 && rows as int <= 255 && rad >= 0,
                ;
            }
            let hstep = cube_scale(&CubeCoords::new(1, 0, -1), p_width as i32);
            proof {
                assert(hstep@.0 == pw && hstep@.1 == 0 && hstep@.2 == -pw);
                assert(hstep@.0 * col as int == pw * col as int && hstep@.1 * col as int == 0
                    && hstep@.2 * col as int == -(pw * col as int)) by (nonlinear_arith)
                    requires
                        hstep@.0 == pw && hstep@.1 == 0 && hstep@.2 == -pw,
                ;
            }
            let h_offset = cube_scale(&hstep, col as i32);
            let vstep = cube_scale(&CubeCoords::new(-1, 1, 0), p_height as i32);
            proof {
                assert(vstep@.0 == -ph && vstep@.1 == ph && vstep@.2 == 0);
                assert(vstep@.0 * row as int == -(ph * row as int) && vstep@.1 * row as int == ph
                    * row as int && vstep@.2 * row as int == 0) by (nonlinear_arith)
                    requires
                        vstep@.0 == -ph && vstep@.1 == ph && vstep@.2 == 0,
                ;
            }
            let v_offset = cube_scale(&vstep, row as i32);

            let parallelogram_start = cube_add(&start, &cube_add(&h_offset, &v_offset));

            let ghost bstart = parallelogram_start@;
            proof {
                assert(bstart == (pw * col as int - ph * row as int, ph * row as int - rad, rad - pw
                    * col as int));
            }

            let tiles = cube_parallelogram_tiles(
                ParallelogramConfig {
                    start: parallelogram_start,
                    height: p_height,
                    width: p_width,
                    constraint_to: grid_radius,
                },
            );

            proof {
                // a point lies in this parallelogram exactly when it lies in
                // this batch cell
                assert forall|x: (int, int)| #[trigger] para_cell_at(bstart, pw, ph, rad, x)
                    == #[trigger] batch_mem(rad, pw, ph, row as int, col as int, x) by {}
            }

            let ghost old_results = results@;
            results.push(tiles);
            proof {
                let b = row as int * cols as int + col as int;
                lemma_batch_index(row as int, col as int, rows as int, cols as int);
                assert(results@.len() == b + 1);
                assert(results@[b]@ == tiles@);
                assert forall|rr: int, cc: int, t: int|
                    0 <= rr < rows as int && 0 <= cc < cols as int && rr * cols as int + cc
                        < results@.len() && 0 <= t < r_batch_len(results@, rr, cc, cols as int)
                        implies batch_mem(
                        rad,
                        pw,
                        ph,
                        rr,
                        cc,
                        (#[trigger] results@[rr * cols as int + cc]@[t])@,
                    ) by {
                    let bb = rr * cols as int + cc;
                    lemma_batch_index(rr, cc, rows as int, cols as int);
                    if bb == b {
                        assert(rr == row as int && cc == col as int);
                        assert(results@[bb]@[t]@ == tiles@[t]@);
                        assert(para_cell_at(bstart, pw, ph, rad, tiles@[t]@));
                    } else {
                        assert(results@[bb] == old_results[bb]);
                    }
                }
                assert forall|rr: int, cc: int, x: (int, int)|
                    0 <= rr < rows as int && 0 <= cc < cols as int && rr * cols as int + cc
                        < results@.len() && #[trigger] batch_mem(rad, pw, ph, rr, cc, x) implies
                    exists|t: int|
                        0 <= t < r_batch_len(results@, rr, cc, cols as int) && (
                        #[trigger] results@[rr * cols as int + cc]@[t])@ == x by {
                    let bb = rr * cols as int + cc;
                    lemma_batch_index(rr, cc, rows as int, cols as int);
                    if bb == b {
                        assert(rr == row as int && cc == col as int);
                        assert(para_cell_at(bstart, pw, ph, rad, x));
                        let t = choose|t: int|
                            0 <= t < tiles@.len() && (#[trigger] tiles@[t])@ == x;
                        assert(results@[bb]@[t]@ == x);
                    } else {
                        assert(results@[bb] == old_results[bb]);
                        let t = choose|t: int|
                            0 <= t < r_batch_len(old_results, rr, cc, cols as int) && (
                            #[trigger] old_results[rr * cols as int + cc]@[t])@ == x;
                        assert(results@[bb]@[t]@ == x);
                    }
                }
                assert forall|rr: int, cc: int, t1: int, t2: int|
                    0 <= rr < rows as int && 0 <= cc < cols as int && rr * cols as int + cc
                        < results@.len() && 0 <= t1 < t2 < r_batch_len(
                        results@,
                        rr,
                        cc,
                        cols as int,
                    ) implies (#[trigger] results@[rr * cols as int + cc]@[t1])@ != (
                    #[trigger] results@[rr * cols as int + cc]@[t2])@ by {
                    let bb = rr * cols as int + cc;
                    lemma_batch_index(rr, cc, rows as int, cols as int);
                    if bb == b {
                        assert(rr == row as int && cc == col as int);
                        assert(results@[bb]@[t1]@ == tiles@[t1]@ && results@[bb]@[t2]@
                            == tiles@[t2]@);
                    } else {
                        assert(results@[bb] == old_results[bb]);
                    }
                }
            }
            col = col + 1;
        }
        proof {
            assert(row as int * cols as int + cols as int == (row as int + 1) * cols as int)
                by (nonlinear_arith);
        }
        row = row + 1;
    }

    proof {
        assert forall|row2: int, col2: int|
            0 <= row2 < rows as int && 0 <= col2 < cols as int implies 0 <= #[trigger] (row2
            * cols as int + col2) < results@.len() by {
            lemma_batch_index(row2, col2, rows as int, cols as int);
        }
    }

    results
}

/// Bounds of the rounded-up cell length `(2R + d) / d`.
pub proof fn lemma_ceil_div_bounds_pub(radius: int, div: int)
    requires
        radius >= 0,
        div >= 1,
    ensures
        1 <= batch_cell_len(radius, div) <= 2 * radius + 1,
        batch_cell_len(radius, div) * div >= 2 * radius + 1,
        batch_cell_len(radius, div) * div > 2 * radius,
{
    lemma_ceil_div_bounds(radius, div);
}

/// Bounds of the rounded-up cell length `(2R + d) / d`.
proof fn lemma_ceil_div_bounds(radius: int, div: int)
    requires
        radius >= 0,
        div >= 1,
    ensures
        1 <= batch_cell_len(radius, div) <= 2 * radius + 1,
        batch_cell_len(radius, div) * div >= 2 * radius + 1,
{
    let n = 2 * radius + div;
    let q = n / div;
    let m = n % div;
    vstd::arithmetic::div_mod::lemma_fundamental_div_mod(n, div);
    vstd::arithmetic::div_mod::lemma_mod_bound(n, div);
    assert(1 <= q && q <= 2 * radius + 1 && q * div >= 2 * radius + 1) by (nonlinear_arith)
        requires
            div >= 1 && radius >= 0 && n == 2 * radius + div && n == div * q + m && 0 <= m < div,
    ;
}


/// Length of batch `(rr, cc)` in a flat batch sequence.
pub open spec fn r_batch_len(s: Seq<Vec<AxialCoords>>, rr: int, cc: int, cols: int) -> int {
    s[rr * cols + cc]@.len() as int
}



/// Distinct `(row, col)` cells receive distinct flat indices.
pub proof fn lemma_batch_index_pub(row: int, col: int, rows: int, cols: int)
    requires
        0 <= row < rows,
        0 <= col < cols,
    ensures
        0 <= row * cols + col < rows * cols,
{
    lemma_batch_index(row, col, rows, cols);
}

/// Distinct `(row, col)` cells receive distinct flat indices.
proof fn lemma_batch_index(row: int, col: int, rows: int, cols: int)
    requires
        0 <= row < rows,
        0 <= col < cols,
    ensures
        forall|rr: int, cc: int|
            0 <= rr < rows && 0 <= cc < cols && #[trigger] (rr * cols + cc) == row * cols + col
                ==> rr == row && cc == col,
        0 <= row * cols + col < rows * cols,
{
    assert forall|rr: int, cc: int|
        0 <= rr < rows && 0 <= cc < cols && #[trigger] (rr * cols + cc) == row * cols + col
        implies rr == row && cc == col by {
        assert(rr == row && cc == col) by (nonlinear_arith)
            requires
                0 <= rr < rows && 0 <= cc < cols && 0 <= row < rows && 0 <= col < cols && rr * cols
                    + cc == row * cols + col,
        ;
    }
    assert(0 <= row * cols + col < rows * cols) by (nonlinear_arith)
        requires
            0 <= row < rows && 0 <= col < cols,
    ;
}

/// The six direct neighbors of `center`, in ring-walk order.
pub fn direct_neighbors(center: &CubeCoords) -> (r: [CubeCoords; 6])
    requires
        cube_within(center@, 2 * COORD_BOUND as int),
    ensures
        forall|i: int| 0 <= i < 6 ==> #[trigger] r@[i]@ == ring_corner(center@, 1, i),
{
    let ghost c = center@;
    let n0 = cube_add(center, &cube_direction(4));
    let n1 = cube_neighbor(&n0, 0);
    let n2 = cube_neighbor(&n1, 1);
    let n3 = cube_neighbor(&n2, 2);
    let n4 = cube_neighbor(&n3, 3);
    let n5 = cube_neighbor(&n4, 4);
    let r = [n0, n1, n2, n3, n4, n5];
    proof {
        assert(r@[0]@ == ring_corner(c, 1, 0));
        assert(r@[1]@ == ring_corner(c, 1, 1));
        assert(r@[2]@ == ring_corner(c, 1, 2));
        assert(r@[3]@ == ring_corner(c, 1, 3));
        assert(r@[4]@ == ring_corner(c, 1, 4));
        assert(r@[5]@ == ring_corner(c, 1, 5));
    }
    r
}

/// The cube coordinate with the same axial projection.
pub open spec fn axial_cube(a: (int, int)) -> (int, int, int) {
    (a.0, a.1, -a.0 - a.1)
}

/// The view of one neighbor slot.
pub open spec fn slot_view(o: Option<AxialCoords>) -> Option<(int, int)> {
    match o {
        Some(a) => Some(a@),
        None => None,
    }
}

/// The six direct neighbors of an axial coordinate, in ring-walk order.
pub open spec fn neighbor_list(a: (int, int)) -> Seq<(int, int)> {
    Seq::new(
        6,
        |i: int|
            (ring_corner(axial_cube(a), 1, i).0, ring_corner(axial_cube(a), 1, i).1),
    )
}

/// The first `n` direct neighbors of `a` that lie on the grid, kept in walk
/// order.
pub open spec fn grid_neighbors_upto(a: (int, int), radius: int, n: int) -> Seq<(int, int)>
    decreases n,
{
    if n <= 0 {
        Seq::empty()
    } else {
        let pre = grid_neighbors_upto(a, radius, n - 1);
        let x = neighbor_list(a)[n - 1];
        if spec_in_grid(x, radius) {
            pre.push(x)
        } else {
            pre
        }
    }
}

/// The in-grid direct neighbors of `a`, in walk order.
pub open spec fn grid_neighbors(a: (int, int), radius: int) -> Seq<(int, int)> {
    grid_neighbors_upto(a, radius, 6)
}

/// The six-slot array recorded for `a`: its in-grid neighbors first, the
/// remaining slots empty.
pub open spec fn neighbor_slots(a: (int, int), radius: int) -> Seq<Option<(int, int)>> {
    Seq::new(
        6,
        |i: int|
            if i < grid_neighbors(a, radius).len() {
                Some(grid_neighbors(a, radius)[i])
            } else {
                None
            },
    )
}

/// At most `n` of the first `n` neighbors pass the grid test.
pub proof fn lemma_grid_neighbors_upto_len(a: (int, int), radius: int, n: int)
    requires
        n >= 0,
    ensures
        grid_neighbors_upto(a, radius, n).len() <= n,
    decreases n,
{
    if n > 0 {
        lemma_grid_neighbors_upto_len(a, radius, n - 1);
    }
}

/// The precomputed mapping from every grid coordinate to its up-to-six
/// in-grid neighbors; immutable once built.
#[derive(Clone, Debug)]
pub struct PrecomputedNeighbors {
    entries: Vec<(AxialCoords, [Option<AxialCoords>; 6])>,
}

/// The map denoted by a neighbor entry sequence.
pub open spec fn nb_entries_map(s: Seq<(AxialCoords, [Option<AxialCoords>; 6])>) -> Map<
    (int, int),
    Seq<Option<(int, int)>>,
>
    decreases s.len(),
{
    if s.len() == 0 {
        Map::empty()
    } else {
        nb_entries_map(s.drop_last()).insert(
            s.last().0@,
            s.last().1@.map_values(|o: Option<AxialCoords>| slot_view(o)),
        )
    }
}

/// No coordinate occurs twice in the entry sequence.
pub open spec fn nb_entries_distinct(s: Seq<(AxialCoords, [Option<AxialCoords>; 6])>) -> bool {
    forall|i: int, j: int| 0 <= i < j < s.len() ==> (#[trigger] s[i]).0@ != (#[trigger] s[j]).0@
}

proof fn lemma_nb_entries_map(s: Seq<(AxialCoords, [Option<AxialCoords>; 6])>)
    requires
        nb_entries_distinct(s),
    ensures
        forall|k: (int, int)|
            #[trigger] nb_entries_map(s).contains_key(k) <==> exists|i: int|
                0 <= i < s.len() && (#[trigger] s[i]).0@ == k,
        forall|i: int|
            0 <= i < s.len() ==> nb_entries_map(s)[(#[trigger] s[i]).0@] == s[i].1@.map_values(
                |o: Option<AxialCoords>| slot_view(o),
            ),
        nb_entries_map(s).dom().finite(),
        nb_entries_map(s).dom().len() == s.len(),
    decreases s.len(),
{
    if s.len() > 0 {
        let pre = s.drop_last();
        lemma_nb_entries_map(pre);
        assert(forall|i: int| 0 <= i < pre.len() ==> pre[i] == s[i]);
        assert(!nb_entries_map(pre).contains_key(s.last().0@));
        assert(nb_entries_map(s).dom() =~= nb_entries_map(pre).dom().insert(s.last().0@));
        assert forall|i: int| 0 <= i < s.len() implies nb_entries_map(s)[(#[trigger] s[i]).0@]
            == s[i].1@.map_values(|o: Option<AxialCoords>| slot_view(o)) by {
            if i < s.len() - 1 {
                assert(s[i].0@ != s.last().0@);
                assert(nb_entries_map(pre)[s[i].0@] == s[i].1@.map_values(
                    |o: Option<AxialCoords>| slot_view(o),
                ));
            }
        }
    }
}

impl View for PrecomputedNeighbors {
    type V = Map<(int, int), Seq<Option<(int, int)>>>;

    closed spec fn view(&self) -> Map<(int, int), Seq<Option<(int, int)>>> {
        nb_entries_map(self.entries@)
    }
}

impl PrecomputedNeighbors {
    pub closed spec fn wf(&self) -> bool {
        nb_entries_distinct(self.entries@)
    }

    pub fn new() -> (m: PrecomputedNeighbors)
        ensures
            m.wf(),
            m@ =~= Map::<(int, int), Seq<Option<(int, int)>>>::empty(),
    {
        PrecomputedNeighbors { entries: Vec::new() }
    }

    /// The six-slot neighbor array of `coords`, if `coords` is on the grid.
    pub fn get(&self, coords: &AxialCoords) -> (r: Option<&[Option<AxialCoords>; 6]>)
        requires
            self.wf(),
        ensures
            match r {
                Some(slots) => self@.contains_key(coords@) && slots@.map_values(
                    |o: Option<AxialCoords>| slot_view(o),
                ) == self@[coords@],
                None => !self@.contains_key(coords@),
            },
    {
        proof {
            lemma_nb_entries_map(self.entries@);
        }
        let n = self.entries.len();
        let mut i: usize = 0;
        while i < n
            invariant
                self.wf(),
                n == self.entries@.len(),
                0 <= i as int <= n as int,
                forall|j: int| 0 <= j < i as int ==> (#[trigger] self.entries@[j]).0@ != coords@,
            decreases n as int - i as int,
        {
            if self.entries[i].0 == *coords {
                proof {
                    lemma_nb_entries_map(self.entries@);
                }
                return Some(&self.entries[i].1);
            }
            i = i + 1;
        }
        proof {
            lemma_nb_entries_map(self.entries@);
        }
        None
    }

    /// Record the neighbor slots of a coordinate not yet present.
    fn insert(&mut self, coords: AxialCoords, slots: [Option<AxialCoords>; 6])
        requires
            old(self).wf(),
            !old(self)@.contains_key(coords@),
        ensures
            final(self).wf(),
            final(self)@ =~= old(self)@.insert(
                coords@,
                slots@.map_values(|o: Option<AxialCoords>| slot_view(o)),
            ),
    {
        proof {
            lemma_nb_entries_map(self.entries@);
        }
        let ghost old_entries = self.entries@;
        self.entries.push((coords, slots));
        proof {
            assert(self.entries@.drop_last() =~= old_entries);
            assert forall|i: int, j: int| 0 <= i < j < self.entries@.len() implies (
            #[trigger] self.entries@[i]).0@ != (#[trigger] self.entries@[j]).0@ by {
                if j == self.entries@.len() - 1 {
                    assert(old_entries[i].0@ != coords@);
                }
            }
        }
    }

    /// Every grid coordinate that has an entry, in insertion order.
    pub fn keys(&self) -> (r: Vec<AxialCoords>)
        requires
            self.wf(),
        ensures
            forall|i: int| 0 <= i < r@.len() ==> self@.contains_key((#[trigger] r@[i])@),
            forall|k: (int, int)|
                #[trigger] self@.contains_key(k) ==> exists|i: int|
                    0 <= i < r@.len() && (#[trigger] r@[i])@ == k,
            forall|i: int, j: int|
                0 <= i < j < r@.len() ==> (#[trigger] r@[i])@ != (#[trigger] r@[j])@,
            r@.len() == self@.dom().len(),
    {
        proof {
            lemma_nb_entries_map(self.entries@);
        }
        let n = self.entries.len();
        let mut r: Vec<AxialCoords> = Vec::new();
        let mut i: usize = 0;
        while i < n
            invariant
                self.wf(),
                n == self.entries@.len(),
                0 <= i as int <= n as int,
                r@.len() == i as int,
                forall|j: int| 0 <= j < i as int ==> (#[trigger] r@[j])@ == self.entries@[j].0@,
            decreases n as int - i as int,
        {
            r.push(self.entries[i].0);
            i = i + 1;
        }
        proof {
            lemma_nb_entries_map(self.entries@);
            assert forall|k: (int, int)| #[trigger] self@.contains_key(k) implies exists|i: int|
                0 <= i < r@.len() && (#[trigger] r@[i])@ == k by {
                let j = choose|j: int| 0 <= j < self.entries@.len() && (#[trigger] self.entries@[j]).0@ == k;
                assert(r@[j]@ == k);
            }
        }
        r
    }
}

/// Build the neighbor index of the whole grid: each coordinate of the spiral
/// of the given radius, mapped to its in-grid neighbors in walk order.
pub fn compute_neighboors(radius: u32) -> (r: PrecomputedNeighbors)
    requires
        radius as int <= COORD_BOUND as int,
    ensures
        r.wf(),
        forall|a: (int, int)|
            #[trigger] r@.contains_key(a) <==> in_spiral(axial_cube(a), (0, 0, 0), radius as int),
        forall|a: (int, int)|
            #[trigger] r@.contains_key(a) ==> r@[a] == neighbor_slots(a, radius as int),
{
    let center = CubeCoords::center();
    let spiral = cube_spiral(&center, radius);
    let n = spiral.len();

    let mut index = PrecomputedNeighbors::new();

    let mut idx: usize = 0;
    while idx < n
        invariant
            radius as int <= COORD_BOUND as int,
            n == spiral@.len(),
            0 <= idx as int <= n as int,
            index.wf(),
            forall|t: int|
                0 <= t < spiral@.len() ==> in_spiral((#[trigger] spiral@[t])@, (0, 0, 0), radius as int),
            forall|t: int|
                0 <= t < spiral@.len() ==> (#[trigger] spiral@[t])@.0 + spiral@[t]@.1
                    + spiral@[t]@.2 == 0,
            forall|a: (int, int)|
                #[trigger] index@.contains_key(a) <==> exists|t: int|
                    0 <= t < idx as int && (#[trigger] spiral@[t])@ == axial_cube(a),
            forall|a: (int, int)|
                #[trigger] index@.contains_key(a) ==> index@[a] == neighbor_slots(a, radius as int),
        decreases n as int - idx as int,
    {
        let cc = spiral[idx];
        let ac = cc.as_axial();
        proof {
            assert(spiral@[idx as int]@.2 == -spiral@[idx as int]@.0 - spiral@[idx as int]@.1);
            assert(axial_cube(ac@) == cc@);
        }
        if index.get(&ac).is_none() {
            let slots = neighbor_slots_of(&cc, radius);
            index.insert(ac, slots);
            proof {
                assert forall|a: (int, int)| #[trigger] index@.contains_key(a) implies exists|
                    t: int,
                |
                    0 <= t < idx as int + 1 && (#[trigger] spiral@[t])@ == axial_cube(a) by {
                    if a == ac@ {
                        assert(spiral@[idx as int]@ == axial_cube(a));
                    }
                }
            }
        }
        idx = idx + 1;
    }
    proof {
        assert forall|a: (int, int)| #[trigger] index@.contains_key(a) <==> in_spiral(
            axial_cube(a),
            (0, 0, 0),
            radius as int,
        ) by {
            if index@.contains_key(a) {
                let t = choose|t: int|
                    0 <= t < n as int && (#[trigger] spiral@[t])@ == axial_cube(a);
                assert(in_spiral(spiral@[t]@, (0, 0, 0), radius as int));
            }
            if in_spiral(axial_cube(a), (0, 0, 0), radius as int) {
                let p = axial_cube(a);
                if p == (0int, 0int, 0int) {
                    assert(spiral@[0]@ == p);
                } else {
                    let (kk, t) = choose|kk: int, t: int|
                        1 <= kk <= radius as int && 0 <= t < 6 * kk && p == ring_elem(
                            (0, 0, 0),
                            kk,
                            t,
                        );
                    lemma_spiral_offset_in_range(kk, t, radius as int);
                    assert(spiral@[spiral_offset(kk) + t]@ == p);
                }
            }
        }
    }
    index
}

/// A ring index of an inner ring stays inside the spiral.
pub proof fn lemma_spiral_offset_in_range(kk: int, t: int, radius: int)
    requires
        1 <= kk <= radius,
        0 <= t < 6 * kk,
    ensures
        1 <= spiral_offset(kk) + t < spiral_offset(radius + 1),
{
    assert(1 <= spiral_offset(kk) + t && spiral_offset(kk) + 6 * kk <= spiral_offset(radius + 1))
        by (nonlinear_arith)
        requires
            1 <= kk <= radius && 0 <= t < 6 * kk,
    ;
}

/// The six-slot neighbor array of one coordinate: in-grid neighbors first, in
/// walk order, then empty slots.
fn neighbor_slots_of(cc: &CubeCoords, radius: u32) -> (r: [Option<AxialCoords>; 6])
    requires
        radius as int <= COORD_BOUND as int,
        cube_within(cc@, 2 * COORD_BOUND as int),
        cc@.2 == -cc@.0 - cc@.1,
    ensures
        r@.map_values(|o: Option<AxialCoords>| slot_view(o)) =~= neighbor_slots(
            (cc@.0, cc@.1),
            radius as int,
        ),
{
    let ghost a = (cc@.0, cc@.1);
    let ghost rad = radius as int;
    let dirs = direct_neighbors(cc);
    let mut found: Vec<AxialCoords> = Vec::new();

    proof {
        assert(axial_cube(a) == cc@);
    }

    let mut i: usize = 0;
    while i < 6
        invariant
            radius as int <= COORD_BOUND as int,
            rad == radius as int,
            a == (cc@.0, cc@.1),
            axial_cube(a) == cc@,
            cube_within(cc@, 2 * COORD_BOUND as int),
            0 <= i as int <= 6,
            forall|d: int| 0 <= d < 6 ==> (#[trigger] dirs@[d])@ == ring_corner(cc@, 1, d),
            found@.map_values(|x: AxialCoords| x@) =~= grid_neighbors_upto(a, rad, i as int),
        decreases 6 - i as int,
    {
        let nb = dirs[i].as_axial();
        proof {
            assert(nb@ == neighbor_list(a)[i as int]);
        }
        let ghost prev = found@;
        if is_within_grid(nb, radius) {
            found.push(nb);
        }
        proof {
            assert(found@.map_values(|x: AxialCoords| x@) =~= grid_neighbors_upto(
                a,
                rad,
                i as int + 1,
            ));
        }
        i = i + 1;
    }

    proof {
        lemma_grid_neighbors_upto_len(a, rad, 6);
        assert(found@.len() == grid_neighbors(a, rad).len());
    }

    let s0: Option<AxialCoords> = if found.len() > 0 { Some(found[0]) } else { None };
    let s1: Option<AxialCoords> = if found.len() > 1 { Some(found[1]) } else { None };
    let s2: Option<AxialCoords> = if found.len() > 2 { Some(found[2]) } else { None };
    let s3: Option<AxialCoords> = if found.len() > 3 { Some(found[3]) } else { None };
    let s4: Option<AxialCoords> = if found.len() > 4 { Some(found[4]) } else { None };
    let s5: Option<AxialCoords> = if found.len() > 5 { Some(found[5]) } else { None };
    let r = [s0, s1, s2, s3, s4, s5];
    proof {
        let rv = r@.map_values(|o: Option<AxialCoords>| slot_view(o));
        let fv = found@.map_values(|x: AxialCoords| x@);
        assert(r@[0] == s0 && r@[1] == s1 && r@[2] == s2 && r@[3] == s3 && r@[4] == s4 && r@[5]
            == s5);
        assert forall|d: int| 0 <= d < 6 implies rv[d] == neighbor_slots(a, rad)[d] by {
            assert(rv[d] == slot_view(r@[d]));
            if d < fv.len() {
                assert(fv[d] == grid_neighbors(a, rad)[d]);
            }
        }
    }
    r
}


} // verus!
