use soft::hash::{grid_idx, SpatialHash, BUCKETS, GRID};

#[test]
fn grid_constants() {
    assert_eq!(GRID, 74);
    assert_eq!(BUCKETS, 5547);
}

#[test]
fn grid_idx_numbers_the_cells_row_by_row() {
    assert_eq!(grid_idx(0, 0), 0);
    assert_eq!(grid_idx(3, 0), 3);
    assert_eq!(grid_idx(0, 1), 74);
    assert_eq!(grid_idx(3, 2), 151);
    assert_eq!(grid_idx(73, 73), 5475);
}

#[test]
fn grid_idx_puts_what_lies_beyond_into_the_last_bucket() {
    assert_eq!(grid_idx(69, 74), 5545);
    assert_eq!(grid_idx(70, 74), 5546);
    assert_eq!(grid_idx(71, 74), 5546);
    assert_eq!(grid_idx(74, 74), 5546);
    assert_eq!(grid_idx(0, 75), 5546);
    assert_eq!(grid_idx(5546, 0), 5546);
    assert_eq!(grid_idx(1_000_000, 3), 5546);
    assert_eq!(grid_idx(usize::MAX, usize::MAX), 5546);
    assert_eq!(grid_idx(usize::MAX, 0), 5546);
    assert_eq!(grid_idx(0, usize::MAX), 5546);
}

#[test]
fn a_particle_is_not_its_own_candidate() {
    let mut hash = SpatialHash::new();
    hash.rebuild(&vec![(5, 5)]);
    assert_eq!(hash.candidates(0, 5, 5), Vec::<usize>::new());
}

#[test]
fn candidates_come_cell_by_cell() {
    let mut hash = SpatialHash::new();
    // index:        0       1       2       3       4       5       6       7
    let cells = vec![(5, 5), (5, 4), (4, 4), (4, 5), (4, 6), (5, 5), (6, 5), (5, 6)];
    hash.rebuild(&cells);
    assert_eq!(hash.candidates(0, 5, 5), vec![5, 1, 2, 3, 4]);
    assert_eq!(hash.candidates(5, 5, 5), vec![0, 1, 2, 3, 4]);
    assert_eq!(hash.candidates(6, 6, 5), vec![1, 0, 5, 7]);
    assert_eq!(hash.candidates(7, 5, 6), vec![0, 5, 3, 4]);
    assert_eq!(hash.candidates(1, 5, 4), vec![2, 3]);
}

#[test]
fn first_row_and_first_column_have_fewer_neighbours() {
    let mut hash = SpatialHash::new();
    let cells = vec![(0, 0), (1, 0), (0, 1), (1, 1)];
    hash.rebuild(&cells);
    assert_eq!(hash.candidates(0, 0, 0), Vec::<usize>::new());
    assert_eq!(hash.candidates(1, 1, 0), vec![0, 2]);
    assert_eq!(hash.candidates(2, 0, 1), vec![0]);
    assert_eq!(hash.candidates(3, 1, 1), vec![1, 0, 2]);
}

#[test]
fn touching_cells_are_paired_once() {
    let mut hash = SpatialHash::new();
    let mut cells = Vec::new();
    for y in 10..13 {
        for x in 20..23 {
            cells.push((x, y));
        }
    }
    hash.rebuild(&cells);
    let mut met = vec![vec![0u32; cells.len()]; cells.len()];
    for (i, &(x, y)) in cells.iter().enumerate() {
        for j in hash.candidates(i, x, y) {
            met[i][j] += 1;
        }
    }
    for i in 0..cells.len() {
        for j in 0..cells.len() {
            let touch = i != j
                && cells[i].0.abs_diff(cells[j].0) <= 1
                && cells[i].1.abs_diff(cells[j].1) <= 1;
            assert_eq!(met[i][j] + met[j][i], if touch { 1 } else { 0 });
        }
    }
}

#[test]
fn rebuild_forgets_what_was_there() {
    let mut hash = SpatialHash::new();
    hash.rebuild(&vec![(1, 1), (1, 1), (1, 1)]);
    assert_eq!(hash.candidates(0, 1, 1), vec![1, 2]);
    hash.rebuild(&vec![(1, 1), (9, 9)]);
    assert_eq!(hash.candidates(0, 1, 1), Vec::<usize>::new());
    assert_eq!(hash.candidates(5, 9, 9), vec![1]);
}

#[test]
fn clear_empties_the_hash() {
    let mut hash = SpatialHash::new();
    hash.insert(3, 2, 2);
    hash.insert(4, 2, 2);
    assert_eq!(hash.candidates(3, 2, 2), vec![4]);
    hash.clear();
    assert_eq!(hash.candidates(3, 2, 2), Vec::<usize>::new());
}

#[test]
fn collect_overwrites_its_output() {
    let mut hash = SpatialHash::new();
    hash.insert(0, 2, 2);
    hash.insert(1, 2, 2);
    let mut out = vec![7, 7, 7];
    hash.collect(0, 2, 2, &mut out);
    assert_eq!(out, vec![1]);
}

#[test]
fn cells_beyond_the_grid_share_the_last_bucket() {
    let mut hash = SpatialHash::new();
    hash.rebuild(&vec![(500, 500), (9000, 3), (0, 0)]);
    assert_eq!(hash.candidates(0, 500, 500), vec![1, 1, 1, 1]);
    assert_eq!(hash.candidates(2, 0, 0), Vec::<usize>::new());
}
