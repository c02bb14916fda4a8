use minesweeper::board::{flag_tile, Board, Tile};
use minesweeper::cascade::{reveal_recoursively, reveal_tiles};
use std::collections::HashSet;

fn set_of(items: &[usize]) -> HashSet<usize> {
    items.iter().copied().collect()
}

fn shown(board: &Board) -> Vec<Option<usize>> {
    board
        .snapshot()
        .iter()
        .map(|tile| match tile {
            Tile::Open(count) => Some(*count),
            _ => None,
        })
        .collect()
}

fn concealed(board: &Board) -> usize {
    board.snapshot().iter().filter(|tile| **tile == Tile::Concealed).count()
}

#[test]
fn new_board_is_all_concealed() {
    let board = Board::new(10, 5);
    assert_eq!(board.len(), 50);
    assert!(board.snapshot().iter().all(|tile| *tile == Tile::Concealed));
    assert_eq!(board.tile(49), Tile::Concealed);
}

#[test]
fn empty_board_has_no_tiles() {
    let board = Board::new(0, 7);
    assert_eq!(board.len(), 0);
    assert!(board.snapshot().is_empty());
}

#[test]
fn cascade_around_a_mine_in_the_middle() {
    let mut board = Board::new(5, 5);
    let mines = set_of(&[12]);
    reveal_tiles(&mut board, 0, &mines, 5, 5);
    let z = Some(0);
    let o = Some(1);
    assert_eq!(
        shown(&board),
        vec![
            z, z, z, z, z, //
            z, o, o, o, z, //
            z, o, None, o, z, //
            z, o, o, o, z, //
            z, z, z, z, z,
        ]
    );
    assert_eq!(board.tile(12), Tile::Concealed);
}

#[test]
fn cascade_stops_at_the_tiles_next_to_a_corner_mine() {
    let mut board = Board::new(5, 5);
    let mines = set_of(&[24]);
    reveal_tiles(&mut board, 0, &mines, 5, 5);
    let z = Some(0);
    let o = Some(1);
    assert_eq!(
        shown(&board),
        vec![
            z, z, z, z, z, //
            z, z, z, z, z, //
            z, z, z, z, z, //
            z, z, z, o, o, //
            o, o, o, o, None,
        ]
    );
}

#[test]
fn cascade_leaves_a_tile_that_no_empty_tile_reaches() {
    let mut board = Board::new(5, 5);
    let mines = set_of(&[6]);
    reveal_tiles(&mut board, 24, &mines, 5, 5);
    let z = Some(0);
    let o = Some(1);
    assert_eq!(
        shown(&board),
        vec![
            o, None, o, z, z, //
            o, None, o, z, z, //
            o, o, o, z, z, //
            z, z, z, z, z, //
            z, z, z, z, z,
        ]
    );
    assert_eq!(board.tile(1), Tile::Concealed);
    assert_eq!(board.tile(6), Tile::Concealed);
}

#[test]
fn tile_next_to_a_mine_opens_alone() {
    let mut board = Board::new(5, 5);
    let mines = set_of(&[12]);
    reveal_tiles(&mut board, 6, &mines, 5, 5);
    assert_eq!(board.tile(6), Tile::Open(1));
    assert_eq!(concealed(&board), 24);
}

#[test]
fn shows_the_number_of_mines_around() {
    let mut board = Board::new(5, 5);
    let mines = set_of(&[6, 8, 18]);
    reveal_tiles(&mut board, 12, &mines, 5, 5);
    assert_eq!(board.tile(12), Tile::Open(3));
    assert_eq!(concealed(&board), 24);
}

#[test]
fn board_without_mines_opens_whole() {
    let mut board = Board::new(10, 5);
    let mines = HashSet::new();
    reveal_tiles(&mut board, 17, &mines, 10, 5);
    assert!(board.snapshot().iter().all(|tile| *tile == Tile::Open(0)));
}

#[test]
fn flagged_tiles_are_not_opened_and_stop_the_cascade() {
    let mut board = Board::new(6, 5);
    for index in 10..20 {
        flag_tile(&mut board, index);
    }
    let mines = HashSet::new();
    reveal_tiles(&mut board, 0, &mines, 6, 5);
    let tiles = board.snapshot();
    for index in 0..30 {
        let expected = if index < 10 {
            Tile::Open(0)
        } else if index < 20 {
            Tile::Flagged
        } else {
            Tile::Concealed
        };
        assert_eq!(tiles[index], expected);
    }
}

#[test]
fn cascade_passes_a_single_flag_on_a_one_row_board() {
    let mut board = Board::new(1, 5);
    flag_tile(&mut board, 2);
    let mines = HashSet::new();
    reveal_tiles(&mut board, 0, &mines, 1, 5);
    assert_eq!(
        board.snapshot(),
        vec![
            Tile::Open(0),
            Tile::Open(0),
            Tile::Flagged,
            Tile::Open(0),
            Tile::Open(0)
        ]
    );
}

#[test]
fn opening_a_flagged_tile_changes_nothing() {
    let mut board = Board::new(5, 5);
    flag_tile(&mut board, 7);
    let before = board.snapshot();
    reveal_tiles(&mut board, 7, &HashSet::new(), 5, 5);
    assert_eq!(board.snapshot(), before);
}

#[test]
fn open_tiles_stay_and_concealed_tiles_get_fewer() {
    let mut board = Board::new(5, 5);
    let mines = set_of(&[12, 4]);
    reveal_tiles(&mut board, 6, &mines, 5, 5);
    reveal_tiles(&mut board, 8, &mines, 5, 5);
    let before = board.snapshot();
    let concealed_before = concealed(&board);
    assert_eq!(before[20], Tile::Concealed);
    reveal_tiles(&mut board, 20, &mines, 5, 5);
    let after = board.snapshot();
    for index in 0..25 {
        if let Tile::Open(count) = before[index] {
            assert_eq!(after[index], Tile::Open(count));
        }
        if after[index] == Tile::Concealed {
            assert_eq!(before[index], Tile::Concealed);
        }
    }
    assert!(concealed(&board) < concealed_before);
}

#[test]
fn second_reveal_of_an_open_tile_changes_nothing() {
    let mut board = Board::new(5, 5);
    let mines = set_of(&[12]);
    reveal_tiles(&mut board, 0, &mines, 5, 5);
    let before = board.snapshot();
    reveal_tiles(&mut board, 0, &mines, 5, 5);
    assert_eq!(board.snapshot(), before);
    reveal_tiles(&mut board, 6, &mines, 5, 5);
    assert_eq!(board.snapshot(), before);
}

#[test]
fn cascade_from_several_tiles() {
    let mut board = Board::new(1, 7);
    flag_tile(&mut board, 3);
    let mines = HashSet::new();
    reveal_recoursively(&mut board, &mines, &set_of(&[0, 6]), 1, 7);
    assert_eq!(
        shown(&board),
        vec![Some(0), Some(0), Some(0), None, Some(0), Some(0), Some(0)]
    );
    assert_eq!(board.tile(3), Tile::Flagged);
}

#[test]
fn cascade_from_no_tile_changes_nothing() {
    let mut board = Board::new(5, 5);
    let before = board.snapshot();
    reveal_recoursively(&mut board, &HashSet::new(), &HashSet::new(), 5, 5);
    assert_eq!(board.snapshot(), before);
}

#[test]
fn cascade_on_a_large_board_needs_no_deep_stack() {
    let mut board = Board::new(300, 300);
    let mines = set_of(&[45_150]);
    reveal_tiles(&mut board, 0, &mines, 300, 300);
    assert_eq!(concealed(&board), 1);
    assert_eq!(board.tile(45_150), Tile::Concealed);
    assert_eq!(board.tile(45_149), Tile::Open(1));
}

#[test]
fn reveal_one_opens_a_concealed_tile_only() {
    let mut board = Board::new(5, 5);
    let mines = set_of(&[12]);
    let first = board.reveal_one(6, &mines, 5, 5).unwrap();
    assert_eq!(first.count, 1);
    assert!(!first.cascade);
    assert_eq!(board.tile(6), Tile::Open(1));
    assert!(board.reveal_one(6, &mines, 5, 5).is_none());
    let second = board.reveal_one(0, &mines, 5, 5).unwrap();
    assert_eq!(second.count, 0);
    assert!(second.cascade);
    assert_eq!(board.tile(1), Tile::Concealed);
    board.toggle_flag(20);
    assert!(board.reveal_one(20, &mines, 5, 5).is_none());
    assert_eq!(board.tile(20), Tile::Flagged);
}

#[test]
fn flag_toggles_between_concealed_and_flagged() {
    let mut board = Board::new(5, 5);
    flag_tile(&mut board, 3);
    assert_eq!(board.tile(3), Tile::Flagged);
    assert_eq!(concealed(&board), 24);
    flag_tile(&mut board, 3);
    assert_eq!(board.tile(3), Tile::Concealed);
    assert_eq!(concealed(&board), 25);
}

#[test]
fn flag_on_an_open_tile_changes_nothing() {
    let mut board = Board::new(5, 5);
    let mines = set_of(&[12]);
    reveal_tiles(&mut board, 6, &mines, 5, 5);
    let before = board.snapshot();
    flag_tile(&mut board, 6);
    assert_eq!(board.snapshot(), before);
    assert_eq!(board.tile(6), Tile::Open(1));
}
