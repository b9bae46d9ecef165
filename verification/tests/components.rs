use wfc::cell::{contains_tile, copy_tiles, filter_tiles, State};
use wfc::map::WfcProbabilityMap;
use wfc::relation::WfcRelation;
use wfc::rng::{RandomSource, ReplaySource};

#[test]
fn replay_source_replays_and_reduces() {
    let mut rng = ReplaySource::new(vec![5, 3, 11]);
    assert_eq!(rng.sample(4), 1);
    assert_eq!(rng.sample(4), 3);
    assert_eq!(rng.sample(2), 1);
    // Exhausted recordings keep answering deterministically.
    assert_eq!(rng.sample(7), 0);
    assert_eq!(rng.sample(9), 0);
}

#[test]
fn state_reports_collapse_and_values() {
    let wave = State::Wave(vec![4, 7, 9]);
    assert!(!wave.is_collapsed());
    assert_eq!(wave.values(), vec![4, 7, 9]);
    let fixed = State::Collapsed(3);
    assert!(fixed.is_collapsed());
    assert_eq!(fixed.values(), vec![3]);
}

#[test]
fn collapse_random_picks_a_candidate() {
    let mut cell = State::Wave(vec![4, 7, 9]);
    let mut rng = ReplaySource::new(vec![1]);
    cell.collapse_random(&mut rng);
    assert!(cell.is_collapsed());
    assert_eq!(cell.values(), vec![7]);
}

#[test]
fn tile_vector_helpers() {
    let v = vec![2, 4, 6, 8];
    assert_eq!(copy_tiles(&v), v);
    assert!(contains_tile(&v, 6));
    assert!(!contains_tile(&v, 5));
    let allowed = vec![8, 2, 5];
    assert_eq!(filter_tiles(&v, &allowed), vec![2, 8]);
    assert_eq!(filter_tiles(&v, &Vec::new()), Vec::<usize>::new());
}

#[test]
fn all_done_checks_every_cell() {
    let full = vec![vec![Some(1), Some(0)], vec![Some(0), Some(2)]];
    assert!(WfcRelation::all_done(&full));
    let partial = vec![vec![Some(1), None], vec![Some(0), Some(2)]];
    assert!(!WfcRelation::all_done(&partial));
    let empty: Vec<Vec<Option<usize>>> = Vec::new();
    assert!(WfcRelation::all_done(&empty));
}

#[test]
fn map_reset_restores_full_candidates() {
    let dict = vec![vec![1, 1, 1, 1], vec![2, 2, 2, 2]];
    let mut map = WfcProbabilityMap::new(&dict, 2, 3);
    let mut rng = ReplaySource::new(vec![0, 0]);
    map.set_and_propagate(&mut rng, 0, 0);
    assert!(map.grid[0][0].is_collapsed());
    map.reset();
    for x in 0..2 {
        for y in 0..3 {
            assert!(!map.grid[x][y].is_collapsed());
            assert_eq!(map.grid[x][y].values(), vec![0, 1]);
        }
    }
}

#[test]
fn propagation_narrows_monotonically() {
    // Two mutually incompatible tiles: fixing the center cascades the
    // single surviving candidate through the whole grid, and no
    // candidate set ever grows.
    let dict = vec![vec![7, 7, 7, 7], vec![8, 8, 8, 8]];
    let mut map = WfcProbabilityMap::new(&dict, 3, 3);
    let before: Vec<usize> = (0..3)
        .flat_map(|x| (0..3).map(move |y| (x, y)))
        .map(|(x, y)| map.grid[x][y].values().len())
        .collect();
    let mut rng = ReplaySource::new(vec![0]);
    map.set_and_propagate(&mut rng, 1, 1);
    assert!(map.grid[1][1].is_collapsed());
    assert_eq!(map.grid[1][1].values(), vec![0]);
    let after: Vec<usize> = (0..3)
        .flat_map(|x| (0..3).map(move |y| (x, y)))
        .map(|(x, y)| map.grid[x][y].values().len())
        .collect();
    for (b, a) in before.iter().zip(after.iter()) {
        assert!(a <= b);
    }
    for x in 0..3 {
        for y in 0..3 {
            assert_eq!(map.grid[x][y].values(), vec![0]);
        }
    }
}

#[test]
fn pick_prefers_the_most_constrained_cell() {
    let dict = vec![vec![7, 7, 7, 7], vec![8, 8, 8, 8]];
    let mut map = WfcProbabilityMap::new(&dict, 2, 2);
    let mut rng = ReplaySource::new(vec![0, 0]);
    // On a fresh grid every cell ties; the first option is chosen.
    let picked = map.pick_possibility(&mut rng).expect("undetermined cells exist");
    assert_eq!(picked, (0, 0));
    // Fixing one cell narrows the rest to a single candidate each, so
    // the next pick must name one of those most-constrained cells.
    map.set_and_propagate(&mut rng, 0, 0);
    let picked = map.pick_possibility(&mut rng).expect("three cells remain");
    let (x, y) = picked;
    assert!(!map.grid[x][y].is_collapsed());
    assert_eq!(map.grid[x][y].values().len(), 1);
}

#[test]
fn pick_reports_contradiction_as_none() {
    let dict = vec![vec![0, 0, 1, 0]];
    let mut map = WfcProbabilityMap::new(&dict, 1, 2);
    let mut rng = ReplaySource::new(vec![0, 0]);
    // Fixing one cell empties its vertical neighbor's candidates.
    map.set_and_propagate(&mut rng, 0, 0);
    assert!(map.pick_possibility(&mut rng).is_none());
}

#[test]
fn all_collapsed_and_all_same_scan_the_grid() {
    let dict = vec![vec![1, 1, 1, 1], vec![1, 1, 1, 1]];
    let mut map = WfcProbabilityMap::new(&dict, 2, 2);
    assert!(!map.all_collapsed());
    assert!(!map.all_same());
    map.grid = vec![
        vec![State::Collapsed(0), State::Collapsed(0)],
        vec![State::Collapsed(0), State::Collapsed(0)],
    ];
    assert!(map.all_collapsed());
    assert!(map.all_same());
    map.grid = vec![
        vec![State::Collapsed(0), State::Collapsed(1)],
        vec![State::Collapsed(0), State::Collapsed(0)],
    ];
    assert!(map.all_collapsed());
    assert!(!map.all_same());
    map.grid = vec![
        vec![State::Collapsed(0), State::Wave(vec![0, 1])],
        vec![State::Collapsed(0), State::Collapsed(0)],
    ];
    assert!(!map.all_collapsed());
    assert!(!map.all_same());
}
