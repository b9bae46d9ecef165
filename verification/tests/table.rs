use wfc::relation::WfcRelation;

fn has(list: &Vec<usize>, t: usize) -> bool {
    list.iter().any(|&v| v == t)
}

#[test]
fn table_of_two_uniform_tiles() {
    // Tile 0 connects only to itself, tile 1 connects only to itself.
    let dict = vec![vec![7, 7, 7, 7], vec![8, 8, 8, 8]];
    let rel = WfcRelation::new(&dict);
    assert_eq!(rel.possible_neighbors.len(), 2);
    for i in 0..2 {
        assert_eq!(rel.possible_neighbors[i].len(), 4);
        for d in 0..4 {
            assert_eq!(rel.possible_neighbors[i][d], vec![i]);
        }
    }
}

#[test]
fn table_exact_mixed_dictionary() {
    // compatible(i, j, d) iff dict[i][d] == dict[j][(d + 2) % 4].
    let dict = vec![vec![1, 2, 3, 4], vec![3, 9, 1, 9]];
    let rel = WfcRelation::new(&dict);
    let t = &rel.possible_neighbors;
    assert_eq!(t[0][0], vec![1]);
    assert_eq!(t[0][1], Vec::<usize>::new());
    assert_eq!(t[0][2], vec![1]);
    assert_eq!(t[0][3], Vec::<usize>::new());
    assert_eq!(t[1][0], vec![0]);
    assert_eq!(t[1][1], vec![1]);
    assert_eq!(t[1][2], vec![0]);
    assert_eq!(t[1][3], vec![1]);
}

#[test]
fn table_symmetry() {
    // j may stand in direction d of i exactly when i may stand in the
    // opposite direction of j.
    let dict = vec![
        vec![1, 2, 3, 4],
        vec![3, 9, 1, 9],
        vec![1, 1, 2, 2],
        vec![2, 4, 2, 9],
    ];
    let rel = WfcRelation::new(&dict);
    let n = dict.len();
    for i in 0..n {
        for d in 0..4 {
            for j in 0..n {
                let fwd = has(&rel.possible_neighbors[i][d], j);
                let bwd = has(&rel.possible_neighbors[j][(d + 2) % 4], i);
                assert_eq!(fwd, bwd);
            }
        }
    }
}

#[test]
fn table_matches_labels() {
    let dict = vec![
        vec![1, 2, 3, 4],
        vec![3, 9, 1, 9],
        vec![1, 1, 2, 2],
    ];
    let rel = WfcRelation::new(&dict);
    for i in 0..dict.len() {
        for d in 0..4 {
            for j in 0..dict.len() {
                let expected = dict[i][d] == dict[j][(d + 2) % 4];
                assert_eq!(has(&rel.possible_neighbors[i][d], j), expected);
            }
        }
    }
}

#[test]
fn empty_dictionary_gives_empty_table() {
    let dict: Vec<Vec<u64>> = Vec::new();
    let rel = WfcRelation::new(&dict);
    assert_eq!(rel.possible_neighbors.len(), 0);
}
