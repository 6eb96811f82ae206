use life::board::{Board, Coord, SEED_NUMERATOR};

fn coords(cells: &[(i32, i32)]) -> Vec<Coord> {
    cells.iter().map(|&(r, c)| Coord::new(r, c)).collect()
}

fn assert_cells_are(board: &Board, expected: &[(i32, i32)]) {
    let got = board.cells();
    assert_eq!(got.len(), expected.len());
    for &(r, c) in expected {
        assert!(got.contains(&Coord::new(r, c)), "missing cell ({}, {})", r, c);
    }
}

#[test]
fn coord_new_sets_fields() {
    let c = Coord::new(-3, 7);
    assert_eq!(c.row, -3);
    assert_eq!(c.column, 7);
    assert_eq!(c, Coord::new(-3, 7));
    assert_ne!(c, Coord::new(7, -3));
}

#[test]
fn new_board_starts_at_generation_zero() {
    let board = Board::new(coords(&[(0, 0), (5, 5)]));
    assert_eq!(board.generation(), 0);
    assert_eq!(board.population(), 2);
    assert_cells_are(&board, &[(0, 0), (5, 5)]);
}

#[test]
fn seeding_same_coordinate_twice_counts_once() {
    let board = Board::new(coords(&[(1, 1), (1, 1)]));
    assert_eq!(board.population(), 1);
    assert_cells_are(&board, &[(1, 1)]);
}

#[test]
fn seeding_duplicates_among_others_counts_each_cell_once() {
    let board = Board::new(coords(&[(0, 0), (2, 3), (0, 0), (2, 3), (2, 3), (4, 4)]));
    assert_eq!(board.population(), 3);
    assert_cells_are(&board, &[(0, 0), (2, 3), (4, 4)]);
}

#[test]
fn neighbor_counts_in_a_block() {
    let board = Board::new(coords(&[(0, 0), (0, 1), (1, 0), (1, 1)]));
    // every cell of a 2x2 block has exactly 3 live neighbors
    assert_eq!(board.get_live_neighbors_count(&Coord::new(0, 0)), 3);
    assert_eq!(board.get_live_neighbors_count(&Coord::new(1, 1)), 3);
    // a dead cell beside the block sees 2; a diagonal dead cell sees 1
    assert_eq!(board.get_live_neighbors_count(&Coord::new(0, 2)), 2);
    assert_eq!(board.get_live_neighbors_count(&Coord::new(2, 2)), 1);
    // far away: none
    assert_eq!(board.get_live_neighbors_count(&Coord::new(10, 10)), 0);
}

#[test]
fn live_cell_with_no_neighbors_dies() {
    let mut board = Board::new(coords(&[(0, 0)]));
    board.update();
    assert_eq!(board.population(), 0);
}

#[test]
fn live_cell_with_one_neighbor_dies() {
    let mut board = Board::new(coords(&[(0, 0), (0, 1)]));
    board.update();
    assert_eq!(board.population(), 0);
}

#[test]
fn live_cell_with_two_neighbors_survives_dead_one_stays_dead() {
    // the centre of a blinker has 2 live neighbors and survives;
    // the dead cells at (0, 0) and (2, 2) also see 2 and stay dead
    let board = Board::new(coords(&[(1, 0), (1, 1), (1, 2)]));
    assert_eq!(board.get_live_neighbors_count(&Coord::new(1, 1)), 2);
    assert_eq!(board.get_live_neighbors_count(&Coord::new(0, 0)), 2);
    let mut board = board;
    board.update();
    let after = board.cells();
    assert!(after.contains(&Coord::new(1, 1)));
    assert!(!after.contains(&Coord::new(0, 0)));
    assert!(!after.contains(&Coord::new(2, 2)));
}

#[test]
fn dead_cell_with_three_neighbors_is_born() {
    let board = Board::new(coords(&[(1, 0), (1, 1), (1, 2)]));
    assert_eq!(board.get_live_neighbors_count(&Coord::new(0, 1)), 3);
    let mut board = board;
    board.update();
    assert!(board.cells().contains(&Coord::new(0, 1)));
}

#[test]
fn live_cell_with_four_neighbors_dies() {
    // centre of a plus shape has 4 live neighbors
    let board = Board::new(coords(&[(1, 1), (0, 1), (2, 1), (1, 0), (1, 2)]));
    assert_eq!(board.get_live_neighbors_count(&Coord::new(1, 1)), 4);
    let mut board = board;
    board.update();
    assert!(!board.cells().contains(&Coord::new(1, 1)));
}

#[test]
fn empty_board_stays_empty() {
    let mut board = Board::new(Vec::new());
    for _ in 0..5 {
        board.update();
        assert_eq!(board.population(), 0);
        assert_eq!(board.cells().len(), 0);
    }
    assert_eq!(board.generation(), 5);
}

#[test]
fn generation_counts_updates() {
    let mut board = Board::new(coords(&[(0, 0), (0, 1), (1, 0), (1, 1)]));
    assert_eq!(board.generation(), 0);
    for n in 1..=10u32 {
        board.update();
        assert_eq!(board.generation(), n);
    }
}

#[test]
fn population_equals_cell_count_across_updates() {
    let mut board = Board::new(coords(&[(1, 0), (1, 1), (1, 2), (5, 5), (9, 9), (9, 10)]));
    for _ in 0..6 {
        assert_eq!(board.population() as usize, board.cells().len());
        board.update();
    }
    assert_eq!(board.population() as usize, board.cells().len());
}

#[test]
fn block_is_a_still_life() {
    let mut board = Board::new(coords(&[(0, 0), (0, 1), (1, 0), (1, 1)]));
    board.update();
    assert_cells_are(&board, &[(0, 0), (0, 1), (1, 0), (1, 1)]);
    board.update();
    assert_cells_are(&board, &[(0, 0), (0, 1), (1, 0), (1, 1)]);
}

#[test]
fn blinker_oscillates_with_period_two() {
    let mut board = Board::new(coords(&[(1, 0), (1, 1), (1, 2)]));
    board.update();
    assert_cells_are(&board, &[(0, 1), (1, 1), (2, 1)]);
    board.update();
    assert_cells_are(&board, &[(1, 0), (1, 1), (1, 2)]);
}

#[test]
fn blinker_works_at_negative_coordinates() {
    let mut board = Board::new(coords(&[(-7, -10), (-7, -9), (-7, -8)]));
    board.update();
    assert_cells_are(&board, &[(-8, -9), (-7, -9), (-6, -9)]);
    board.update();
    assert_cells_are(&board, &[(-7, -10), (-7, -9), (-7, -8)]);
}

#[test]
fn glider_translates_by_one_row_and_column_in_four_updates() {
    let glider = [(0, 1), (1, 2), (2, 0), (2, 1), (2, 2)];
    let mut board = Board::new(coords(&glider));
    for _ in 0..4 {
        board.update();
    }
    let moved: Vec<(i32, i32)> = glider.iter().map(|&(r, c)| (r + 1, c + 1)).collect();
    assert_cells_are(&board, &moved);
    assert_eq!(board.generation(), 4);
    assert_eq!(board.population(), 5);
}

#[test]
fn lone_cell_at_extreme_corner_dies_without_wrapping() {
    let mut board = Board::new(coords(&[(i32::MAX, i32::MAX)]));
    assert_eq!(board.get_live_neighbors_count(&Coord::new(i32::MAX, i32::MAX)), 0);
    board.update();
    assert_eq!(board.population(), 0);
}

#[test]
fn block_at_extreme_corner_is_still_a_still_life() {
    let m = i32::MAX;
    let mut board = Board::new(coords(&[(m - 1, m - 1), (m - 1, m), (m, m - 1), (m, m)]));
    board.update();
    assert_cells_are(&board, &[(m - 1, m - 1), (m - 1, m), (m, m - 1), (m, m)]);
}

#[test]
fn draws_seed_exactly_the_cells_below_the_threshold() {
    // region [0, 2) x [0, 3), row-major: indices 0..6 are
    // (0,0) (0,1) (0,2) (1,0) (1,1) (1,2)
    let live = 0u32;
    let dead = u32::MAX;
    let board = Board::new_from_draws(3, 2, vec![live, dead, dead, dead, live, dead]);
    assert_eq!(board.generation(), 0);
    assert_eq!(board.population(), 2);
    assert_cells_are(&board, &[(0, 0), (1, 1)]);
}

#[test]
fn threshold_boundary_is_strict() {
    // a draw equal to the threshold leaves the cell dead; one below seeds it
    let board = Board::new_from_draws(2, 1, vec![SEED_NUMERATOR, SEED_NUMERATOR - 1]);
    assert_eq!(board.population(), 1);
    assert_cells_are(&board, &[(0, 1)]);
}

#[test]
fn all_draws_below_threshold_fill_the_region() {
    let board = Board::new_from_draws(4, 3, vec![0; 12]);
    assert_eq!(board.population(), 12);
    for row in 0..3 {
        for column in 0..4 {
            assert!(board.cells().contains(&Coord::new(row, column)));
        }
    }
}

#[test]
fn all_draws_at_or_above_threshold_seed_nothing() {
    let board = Board::new_from_draws(5, 5, vec![u32::MAX; 25]);
    assert_eq!(board.population(), 0);
}

#[test]
fn random_board_stays_inside_its_block() {
    let board = Board::new_random(16, 16);
    assert_eq!(board.generation(), 0);
    assert_eq!(board.population() as usize, board.cells().len());
    assert!(board.population() <= 256);
    for cell in board.cells() {
        assert!(0 <= cell.row && cell.row < 16);
        assert!(0 <= cell.column && cell.column < 16);
    }
}

#[test]
fn random_non_square_board_stays_inside_its_region() {
    // region is [0, height) x [0, width): rows below 4, columns below 8
    let board = Board::new_random(8, 4);
    assert_eq!(board.generation(), 0);
    assert!(board.population() <= 32);
    for cell in board.cells() {
        assert!(0 <= cell.row && cell.row < 4);
        assert!(0 <= cell.column && cell.column < 8);
    }
}

#[test]
fn random_board_updates_without_losing_its_invariants() {
    let mut board = Board::new_random(32, 32);
    for n in 1..=3u32 {
        board.update();
        assert_eq!(board.generation(), n);
        assert_eq!(board.population() as usize, board.cells().len());
    }
}
