use minesweeper::board::Tile;
use minesweeper::command::InputError;
use minesweeper::render::{append_decimal, describe_error, render_board};
use minesweeper::session::new_session;
use std::collections::HashSet;

fn by_chunks(board: &[Tile], col_count: usize) -> String {
    board
        .chunks(col_count)
        .map(|row| {
            row.iter()
                .map(|tile| match tile {
                    Tile::Flagged => "F".to_string(),
                    Tile::Open(count) => count.to_string(),
                    Tile::Concealed => "#".to_string(),
                })
                .collect::<Vec<_>>()
                .join(" ")
        })
        .collect::<Vec<_>>()
        .join("\n")
}

#[test]
fn new_board_renders_as_rows_of_hashes() {
    let session = new_session(3, 4, 1);
    assert_eq!(
        render_board(&session.snapshot(), 4),
        "# # # #\n# # # #\n# # # #"
    );
}

#[test]
fn flags_and_counts_render() {
    let tiles = vec![
        Tile::Open(0),
        Tile::Open(1),
        Tile::Flagged,
        Tile::Concealed,
        Tile::Open(8),
        Tile::Concealed,
    ];
    assert_eq!(render_board(&tiles, 3), "0 1 F\n# 8 #");
    assert_eq!(render_board(&tiles, 2), "0 1\nF #\n8 #");
    assert_eq!(render_board(&tiles, 6), "0 1 F # 8 #");
    assert_eq!(render_board(&tiles, 1), "0\n1\nF\n#\n8\n#");
}

#[test]
fn last_row_may_be_short() {
    let tiles = vec![Tile::Flagged, Tile::Concealed, Tile::Open(2), Tile::Open(10), Tile::Concealed];
    assert_eq!(render_board(&tiles, 3), "F # 2\n10 #");
    assert_eq!(render_board(&tiles, 9), "F # 2 10 #");
}

#[test]
fn empty_board_renders_as_nothing() {
    assert_eq!(render_board(&Vec::new(), 5), "");
}

#[test]
fn board_after_a_cascade_renders() {
    let mut session = new_session(5, 5, 1);
    let mines: HashSet<usize> = [12].into_iter().collect();
    session.place_mines(mines);
    session.open(0);
    session.flag(12);
    assert_eq!(
        render_board(&session.snapshot(), 5),
        "0 0 0 0 0\n0 1 1 1 0\n0 1 F 1 0\n0 1 1 1 0\n0 0 0 0 0"
    );
}

#[test]
fn rendering_agrees_with_rows_joined_by_line_breaks() {
    let tiles: Vec<Tile> = (0..37)
        .map(|i| match i % 4 {
            0 => Tile::Concealed,
            1 => Tile::Flagged,
            2 => Tile::Open(i % 9),
            _ => Tile::Open(i * 1000),
        })
        .collect();
    for col_count in 1..40 {
        assert_eq!(render_board(&tiles, col_count), by_chunks(&tiles, col_count));
    }
}

#[test]
fn numbers_render_in_decimal() {
    for value in [0, 1, 9, 10, 11, 99, 100, 101, 1234567890, usize::MAX] {
        let mut text = String::from("n=");
        append_decimal(&mut text, value);
        assert_eq!(text, format!("n={}", value));
    }
}

#[test]
fn parse_error_is_described() {
    assert_eq!(
        describe_error(InputError::ParseError),
        "Failed to parse the input. Please try again"
    );
}

#[test]
fn invalid_coordinates_are_described() {
    assert_eq!(
        describe_error(InputError::InvalidCoords((10, 5))),
        "The coords (10, 5) are invalid"
    );
    assert_eq!(
        describe_error(InputError::InvalidCoords((0, usize::MAX))),
        format!("The coords {:?} are invalid", (0, usize::MAX))
    );
}
