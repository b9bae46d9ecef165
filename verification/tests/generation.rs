use wfc::map::WfcProbabilityMap;
use wfc::relation::WfcRelation;
use wfc::rng::ReplaySource;

fn source(entries: Vec<usize>) -> ReplaySource {
    ReplaySource::new(entries)
}

fn pseudo_entries() -> Vec<usize> {
    vec![
        3, 1, 4, 1, 5, 9, 2, 6, 5, 3, 5, 8, 9, 7, 9, 3, 2, 3, 8, 4, 6, 2, 6, 4, 3, 3, 8, 3, 2, 7,
        9, 5, 0, 2, 8, 8, 4, 1, 9, 7,
    ]
}

/// Four tiles carrying two independent connection classes: a vertical
/// class (tiles 0 and 1 against tiles 2 and 3) and a horizontal class
/// (tiles 0 and 2 against tiles 1 and 3). Always solvable.
fn class_dict() -> Vec<Vec<u64>> {
    vec![
        vec![1, 2, 1, 2],
        vec![1, 1, 1, 1],
        vec![2, 2, 2, 2],
        vec![2, 1, 2, 1],
    ]
}

#[test]
fn single_tile_always_succeeds() {
    // One self-compatible tile: generation succeeds at once and fills
    // every cell with tile 0.
    let dict = vec![vec![5, 5, 5, 5]];
    let rel = WfcRelation::new(&dict);
    let mut rng = source(pseudo_entries());
    let grid = rel.generate_wfc_grid(&mut rng, 3, 4, 0);
    let grid = grid.expect("a single-tile dictionary must always succeed");
    assert_eq!(grid.len(), 3);
    for column in &grid {
        assert_eq!(column.len(), 4);
        for cell in column {
            assert_eq!(*cell, Some(0));
        }
    }
}

#[test]
fn two_incompatible_tiles_on_two_by_two() {
    // Tiles connect only to themselves, so any success is all-0 or
    // all-1.
    let dict = vec![vec![7, 7, 7, 7], vec![8, 8, 8, 8]];
    let rel = WfcRelation::new(&dict);
    let mut rng = source(pseudo_entries());
    let grid = rel.generate_wfc_grid(&mut rng, 2, 2, 5);
    let grid = grid.expect("a self-compatible dictionary admits the uniform grid");
    let first = grid[0][0].expect("every cell is filled");
    assert!(first == 0 || first == 1);
    for column in &grid {
        for cell in column {
            assert_eq!(*cell, Some(first));
        }
    }
}

#[test]
fn degenerate_guard_rejects_uniform_grids() {
    // With the degenerate-result guard active, a dictionary whose only
    // solutions are uniform must fail on every attempt.
    let dict = vec![vec![7, 7, 7, 7], vec![8, 8, 8, 8]];
    let mut map = WfcProbabilityMap::new(&dict, 2, 2);
    let mut rng = source(pseudo_entries());
    assert!(!map.generate_wfc_grid(&mut rng, 4));
}

#[test]
fn degenerate_guard_rejects_single_tile() {
    // A single-tile dictionary can only fill the grid uniformly, which
    // this variant refuses.
    let dict = vec![vec![5, 5, 5, 5]];
    let mut map = WfcProbabilityMap::new(&dict, 3, 3);
    let mut rng = source(pseudo_entries());
    assert!(!map.generate_wfc_grid(&mut rng, 2));
}

#[test]
fn no_vertical_fit_reports_failure() {
    // The single tile never matches itself vertically, so a 1 x 2 grid
    // exhausts its retries and reports failure rather than returning
    // an invalid placement.
    let dict = vec![vec![0, 0, 1, 0]];
    let rel = WfcRelation::new(&dict);
    let mut rng = source(pseudo_entries());
    assert!(rel.generate_wfc_grid(&mut rng, 1, 2, 3).is_none());
}

#[test]
fn no_vertical_fit_fails_with_zero_retries() {
    let dict = vec![vec![0, 0, 1, 0]];
    let rel = WfcRelation::new(&dict);
    let mut rng = source(pseudo_entries());
    assert!(rel.generate_wfc_grid(&mut rng, 1, 2, 0).is_none());
}

#[test]
fn reproducible_with_fixed_sequence() {
    // Two runs with identical parameters and a freshly reset recorded
    // sequence produce identical grids.
    let rel = WfcRelation::new(&class_dict());
    let mut rng_a = source(pseudo_entries());
    let mut rng_b = source(pseudo_entries());
    let grid_a = rel.generate_wfc_grid(&mut rng_a, 4, 4, 6);
    let grid_b = rel.generate_wfc_grid(&mut rng_b, 4, 4, 6);
    assert_eq!(grid_a, grid_b);
}

#[test]
fn successful_grid_satisfies_adjacency() {
    // Every pair of grid neighbors in a successful output is permitted
    // by the compatibility table. An exhausted recording always draws
    // 0, which collapses every cell to tile 0 without contradiction.
    let dict = class_dict();
    let rel = WfcRelation::new(&dict);
    let mut rng = source(Vec::new());
    let grid = rel
        .generate_wfc_grid(&mut rng, 4, 4, 0)
        .expect("all-zero draws collapse every cell to tile 0");
    let offsets: [(i64, i64); 4] = [(0, 1), (1, 0), (0, -1), (-1, 0)];
    for x in 0..4usize {
        for y in 0..4usize {
            let a = grid[x][y].expect("every cell is filled");
            for (d, (dx, dy)) in offsets.iter().enumerate() {
                let nx = x as i64 + dx;
                let ny = y as i64 + dy;
                if nx < 0 || nx >= 4 || ny < 0 || ny >= 4 {
                    continue;
                }
                let b = grid[nx as usize][ny as usize].expect("every cell is filled");
                assert_eq!(dict[a][d], dict[b][(d + 2) % 4]);
            }
        }
    }
}

#[test]
fn map_generation_succeeds_and_collapses_all() {
    // Three mutually compatible tiles: nothing ever shrinks, so the
    // traced draws are pick(4) -> 0, collapse(3) -> 0, pick(3) -> 0,
    // collapse(3) -> 1, then zeros: tiles 0, 1, 0, 0 — mixed, so the
    // degenerate guard accepts the first attempt.
    let dict = vec![vec![1, 1, 1, 1], vec![1, 1, 1, 1], vec![1, 1, 1, 1]];
    let mut map = WfcProbabilityMap::new(&dict, 2, 2);
    let mut rng = source(vec![0, 0, 0, 1]);
    let ok = map.generate_wfc_grid(&mut rng, 0);
    assert!(ok);
    assert!(map.all_collapsed());
    assert!(!map.all_same());
}

#[test]
fn generation_terminates_whatever_the_budget() {
    // Bounded retries: the driver returns on both solvable and
    // unsolvable inputs, with the smallest and a larger budget.
    let bad = vec![vec![0, 0, 1, 0]];
    let rel = WfcRelation::new(&bad);
    let mut rng = source(Vec::new());
    assert!(rel.generate_wfc_grid(&mut rng, 2, 2, 0).is_none());
    let mut rng = source(Vec::new());
    assert!(rel.generate_wfc_grid(&mut rng, 2, 2, 7).is_none());
    let good = vec![vec![5, 5, 5, 5]];
    let rel = WfcRelation::new(&good);
    let mut rng = source(Vec::new());
    assert!(rel.generate_wfc_grid(&mut rng, 2, 2, 0).is_some());
}
