use std::collections::HashSet;

use pixelstratwar::coords::{
    create_parallelogram_coords_batches, cube_ring, cube_spiral, is_within_grid, AxialCoords,
    CubeCoords,
};

#[test]
fn test_cube_ring() {
    let center = CubeCoords::new(0, 0, 0);

    let result_one: Vec<CubeCoords> = cube_ring(&center, 1);
    let result_two: Vec<CubeCoords> = cube_ring(&center, 2);
    let result_three: Vec<CubeCoords> = cube_ring(&center, 3);

    assert!(
        result_one.len() == 6,
        "coords_range should return a vector with exactly 6 elements for a radius of 1"
    );

    assert!(
        result_two.len() == 12,
        "coords_range should return a vector with exactly 12 elements for a radius of 2"
    );

    assert!(
        result_three.len() == 18,
        "coords_range should return a vector with exactly 18 elements for a radius of 3"
    )
}

#[test]
fn test_coords_spiral() {
    let center = CubeCoords::new(0, 0, 0);
    let result_one: Vec<CubeCoords> = cube_spiral(&center, 1);
    let result_two = cube_spiral(&center, 2);
    let result_three = cube_spiral(&center, 3);

    // the spiral holds the center plus every ring: 1 + 3k(k + 1) positions
    assert!(
        result_one.len() == 7,
        "spiral should return a vector with exactly 7 elements for a radius of 1"
    );

    assert!(
        result_two.len() == 19,
        "spiral should return a vector with exactly 19 elements for a radius of 2"
    );

    assert!(
        result_three.len() == 37,
        "spiral should return a vector with exactly 37 elements for a radius of 3"
    );
}

#[test]
fn ring_zero_is_empty() {
    let center = CubeCoords::new(0, 0, 0);
    assert_eq!(cube_ring(&center, 0).len(), 0);
}

#[test]
fn ring_one_are_the_six_neighbors() {
    let center = CubeCoords::new(2, -1, -1);
    let ring = cube_ring(&center, 1);
    let expected = [(1, 0), (2, 0), (3, -1), (3, -2), (2, -2), (1, -1)];
    assert_eq!(ring.len(), 6);
    for (i, (q, r)) in expected.iter().enumerate() {
        let a = ring[i].as_axial();
        assert_eq!((a.q, a.r), (*q, *r), "ring element {i}");
    }
}

#[test]
fn in_grid_matches_hex_norm() {
    assert!(is_within_grid(AxialCoords::new(0, 0), 0));
    assert!(is_within_grid(AxialCoords::new(3, -3), 3));
    assert!(!is_within_grid(AxialCoords::new(4, -1), 3));
    assert!(is_within_grid(AxialCoords::new(-2, -1), 3));
    assert!(!is_within_grid(AxialCoords::new(-2, -2), 3));
}

/// For the default settings (radius 80, division 8) the batches partition the
/// grid: their sizes sum to `1 + 3*80*81 = 19441` coordinates, all pairwise
/// distinct.
#[test]
fn batch_partition_covers_the_grid_once() {
    let batches = create_parallelogram_coords_batches(8, 8, 80);
    assert_eq!(batches.len(), 64);

    let mut seen: HashSet<(i32, i32)> = HashSet::new();
    let mut total = 0usize;
    for batch in batches.iter() {
        for c in batch.iter() {
            total += 1;
            assert!(
                seen.insert((c.q, c.r)),
                "coordinate ({}, {}) appears in two batches",
                c.q,
                c.r
            );
            assert!(is_within_grid(*c, 80));
        }
    }
    assert_eq!(total, 19441);
}

#[test]
fn small_batch_partition_is_exact() {
    let batches = create_parallelogram_coords_batches(2, 2, 3);
    let mut seen: HashSet<(i32, i32)> = HashSet::new();
    let mut total = 0usize;
    for batch in batches.iter() {
        for c in batch.iter() {
            total += 1;
            assert!(seen.insert((c.q, c.r)));
        }
    }
    // 1 + 3 * 3 * 4 tiles on a radius-3 grid
    assert_eq!(total, 37);
}
