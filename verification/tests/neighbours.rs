use minesweeper::neighbours::{count_neighbouring_mines, get_neighbouring_indices};
use std::collections::HashSet;

fn sorted(set: &HashSet<usize>) -> Vec<usize> {
    let mut items: Vec<usize> = set.iter().copied().collect();
    items.sort();
    items
}

fn set_of(items: &[usize]) -> HashSet<usize> {
    items.iter().copied().collect()
}

#[test]
fn interior_tile_has_its_eight_neighbours() {
    let found = get_neighbouring_indices(12, 5, 5);
    assert_eq!(sorted(&found), vec![6, 7, 8, 11, 13, 16, 17, 18]);
}

#[test]
fn interior_tile_of_a_wide_board() {
    let found = get_neighbouring_indices(7, 10, 5);
    assert_eq!(sorted(&found), vec![1, 2, 3, 6, 8, 11, 12, 13]);
}

#[test]
fn first_tile_stops_at_zero_and_holds_itself() {
    let found = get_neighbouring_indices(0, 5, 5);
    assert_eq!(sorted(&found), vec![0, 1, 4, 5, 6]);
}

#[test]
fn last_tile_stops_at_the_last_index_and_holds_itself() {
    let found = get_neighbouring_indices(24, 5, 5);
    assert_eq!(sorted(&found), vec![18, 19, 20, 23, 24]);
}

#[test]
fn right_edge_reaches_into_the_next_row() {
    let found = get_neighbouring_indices(4, 5, 5);
    assert_eq!(sorted(&found), vec![0, 3, 5, 8, 9, 10]);
}

#[test]
fn left_edge_reaches_into_the_row_before() {
    let found = get_neighbouring_indices(5, 5, 5);
    assert_eq!(sorted(&found), vec![0, 1, 4, 6, 9, 10, 11]);
}

#[test]
fn single_column_board_holds_the_tile_itself() {
    let found = get_neighbouring_indices(3, 10, 1);
    assert_eq!(sorted(&found), vec![1, 2, 3, 4, 5]);
}

#[test]
fn single_tile_board_has_only_itself() {
    let found = get_neighbouring_indices(0, 1, 1);
    assert_eq!(sorted(&found), vec![0]);
}

#[test]
fn neighbourhood_is_never_empty_and_stays_on_the_board() {
    for index in 0..50 {
        let found = get_neighbouring_indices(index, 10, 5);
        assert!(!found.is_empty());
        assert!(found.len() <= 8);
        assert!(found.iter().all(|&n| n < 50));
    }
}

#[test]
fn interior_neighbourhoods_are_symmetric() {
    let rows = 6;
    let cols = 7;
    let interior: Vec<usize> = (0..rows * cols)
        .filter(|i| {
            let (r, c) = (i / cols, i % cols);
            0 < r && r < rows - 1 && 0 < c && c < cols - 1
        })
        .collect();
    for &a in &interior {
        let around_a = get_neighbouring_indices(a, rows, cols);
        assert_eq!(around_a.len(), 8);
        assert!(around_a.iter().all(|&n| n < rows * cols));
        for &b in &interior {
            let around_b = get_neighbouring_indices(b, rows, cols);
            assert_eq!(around_a.contains(&b), around_b.contains(&a));
        }
    }
}

#[test]
fn interior_neighbours_are_the_tiles_that_touch() {
    let rows = 5;
    let cols = 6;
    let index = 2 * cols + 3;
    let found = get_neighbouring_indices(index, rows, cols);
    for n in 0..rows * cols {
        let row_gap = (n / cols).abs_diff(index / cols);
        let col_gap = (n % cols).abs_diff(index % cols);
        let touches = n != index && row_gap <= 1 && col_gap <= 1;
        assert_eq!(found.contains(&n), touches);
    }
}

#[test]
fn counts_the_mines_around_a_tile() {
    let mines = set_of(&[6, 8, 18, 0, 24]);
    assert_eq!(count_neighbouring_mines(12, &mines, 5, 5), 3);
    assert_eq!(count_neighbouring_mines(7, &mines, 5, 5), 2);
    assert_eq!(count_neighbouring_mines(20, &mines, 5, 5), 1);
    assert_eq!(count_neighbouring_mines(2, &mines, 5, 5), 3);
    assert_eq!(count_neighbouring_mines(15, &mines, 5, 5), 0);
}

#[test]
fn counts_no_mine_on_a_board_without_mines() {
    let mines = HashSet::new();
    for index in 0..25 {
        assert_eq!(count_neighbouring_mines(index, &mines, 5, 5), 0);
    }
}

#[test]
fn counts_eight_mines_around_a_surrounded_tile() {
    let mines = set_of(&[6, 7, 8, 11, 12, 13, 16, 17, 18]);
    assert_eq!(count_neighbouring_mines(12, &mines, 5, 5), 8);
}

#[test]
fn counts_a_mine_on_the_first_tile_for_the_first_tile() {
    let mines = set_of(&[0]);
    assert_eq!(count_neighbouring_mines(0, &mines, 5, 5), 1);
    assert_eq!(count_neighbouring_mines(4, &mines, 5, 5), 1);
}
