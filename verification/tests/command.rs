use minesweeper::command::{
    parse_command, parse_number, read_command, split_line, InputAction, InputError,
};

fn chars(text: &str) -> Vec<char> {
    text.chars().collect()
}

fn parts(text: &str) -> Vec<String> {
    split_line(&chars(text))
        .iter()
        .map(|part| part.iter().collect::<String>())
        .collect()
}

#[test]
fn exit_ends_the_game() {
    assert_eq!(parse_command("exit", 10, 5), Ok(InputAction::Exit));
}

#[test]
fn open_command_gives_the_index() {
    assert_eq!(parse_command("x 1 2", 10, 5), Ok(InputAction::Open(7)));
    assert_eq!(parse_command("x 0 0", 10, 5), Ok(InputAction::Open(0)));
    assert_eq!(parse_command("x 1 0", 10, 5), Ok(InputAction::Open(5)));
    assert_eq!(parse_command("x 5 0", 10, 5), Ok(InputAction::Open(25)));
    assert_eq!(parse_command("x 9 4", 10, 5), Ok(InputAction::Open(49)));
}

#[test]
fn flag_command_gives_the_index() {
    assert_eq!(parse_command("f 0 4", 10, 5), Ok(InputAction::Flag(4)));
    assert_eq!(parse_command("f 3 1", 10, 5), Ok(InputAction::Flag(16)));
    assert_eq!(parse_command("f 9 4", 10, 5), Ok(InputAction::Flag(49)));
}

#[test]
fn index_is_row_times_column_count_plus_column() {
    assert_eq!(parse_command("x 2 3", 4, 7), Ok(InputAction::Open(2 * 7 + 3)));
    assert_eq!(parse_command("f 3 6", 4, 7), Ok(InputAction::Flag(3 * 7 + 6)));
    assert_eq!(parse_command("x 6 3", 7, 4), Ok(InputAction::Open(6 * 4 + 3)));
}

#[test]
fn last_tile_of_the_board_is_reached() {
    assert_eq!(read_command("x 9 4\n", 10, 5), Ok(InputAction::Open(49)));
    assert_eq!(read_command("f 9 4\n", 10, 5), Ok(InputAction::Flag(49)));
}

#[test]
fn every_tile_has_an_index_of_its_own_on_the_board() {
    for (row_size, col_size) in [(10, 5), (5, 10), (1, 1), (1, 8), (8, 1), (6, 6)] {
        let mut seen = vec![false; row_size * col_size];
        for row in 0..row_size {
            for col in 0..col_size {
                let opened = parse_command(&format!("x {} {}", row, col), row_size, col_size);
                let flagged = parse_command(&format!("f {} {}", row, col), row_size, col_size);
                let index = match opened {
                    Ok(InputAction::Open(index)) => index,
                    other => panic!("no tile for {} {}: {:?}", row, col, other),
                };
                assert_eq!(flagged, Ok(InputAction::Flag(index)));
                assert!(index < row_size * col_size);
                assert_eq!(index, row * col_size + col);
                assert!(!seen[index]);
                seen[index] = true;
            }
        }
        assert!(seen.iter().all(|&hit| hit));
    }
}

#[test]
fn row_or_column_off_the_board_is_refused() {
    assert_eq!(
        parse_command("x 10 0", 10, 5),
        Err(InputError::InvalidCoords((10, 0)))
    );
    assert_eq!(
        parse_command("f 0 5", 10, 5),
        Err(InputError::InvalidCoords((0, 5)))
    );
    assert_eq!(
        parse_command("x 77 88", 10, 5),
        Err(InputError::InvalidCoords((77, 88)))
    );
}

#[test]
fn coordinates_are_checked_before_the_letter() {
    assert_eq!(
        parse_command("q 99 99", 10, 5),
        Err(InputError::InvalidCoords((99, 99)))
    );
    assert_eq!(parse_command("q 0 0", 10, 5), Err(InputError::ParseError));
}

#[test]
fn wrong_number_of_parts_is_refused() {
    assert_eq!(parse_command("", 10, 5), Err(InputError::ParseError));
    assert_eq!(parse_command("x", 10, 5), Err(InputError::ParseError));
    assert_eq!(parse_command("x 1", 10, 5), Err(InputError::ParseError));
    assert_eq!(parse_command("x 1 2 3", 10, 5), Err(InputError::ParseError));
    assert_eq!(parse_command("x  1 2", 10, 5), Err(InputError::ParseError));
    assert_eq!(parse_command("x 1 2 ", 10, 5), Err(InputError::ParseError));
    assert_eq!(parse_command("x\t1\t2", 10, 5), Err(InputError::ParseError));
    assert_eq!(parse_command("exit now", 10, 5), Err(InputError::ParseError));
}

#[test]
fn text_that_is_no_number_is_refused() {
    assert_eq!(parse_command("x a 1", 10, 5), Err(InputError::ParseError));
    assert_eq!(parse_command("x 1 b", 10, 5), Err(InputError::ParseError));
    assert_eq!(parse_command("x -1 2", 10, 5), Err(InputError::ParseError));
    assert_eq!(parse_command("x 1.0 2", 10, 5), Err(InputError::ParseError));
    assert_eq!(parse_command("x + 2", 10, 5), Err(InputError::ParseError));
    assert_eq!(
        parse_command("x 99999999999999999999999 1", 10, 5),
        Err(InputError::ParseError)
    );
}

#[test]
fn numbers_may_have_a_plus_and_leading_zeros() {
    assert_eq!(parse_command("x +1 +2", 10, 5), Ok(InputAction::Open(7)));
    assert_eq!(parse_command("x 01 002", 10, 5), Ok(InputAction::Open(7)));
}

#[test]
fn unknown_letter_is_refused() {
    assert_eq!(parse_command("o 1 2", 10, 5), Err(InputError::ParseError));
    assert_eq!(parse_command("xx 1 2", 10, 5), Err(InputError::ParseError));
    assert_eq!(parse_command(" 1 2", 10, 5), Err(InputError::ParseError));
}

#[test]
fn parse_command_takes_the_text_as_it_is() {
    assert_eq!(parse_command("Exit", 10, 5), Err(InputError::ParseError));
    assert_eq!(parse_command(" exit", 10, 5), Err(InputError::ParseError));
    assert_eq!(parse_command("X 1 2", 10, 5), Err(InputError::ParseError));
}

#[test]
fn read_command_drops_blanks_and_capitals() {
    assert_eq!(read_command("exit\n", 10, 5), Ok(InputAction::Exit));
    assert_eq!(read_command("  EXIT  ", 10, 5), Ok(InputAction::Exit));
    assert_eq!(read_command("Exit", 10, 5), Ok(InputAction::Exit));
    assert_eq!(read_command(" X 1 2 \r\n", 10, 5), Ok(InputAction::Open(7)));
    assert_eq!(read_command("\tF 0 4\n", 10, 5), Ok(InputAction::Flag(4)));
    assert_eq!(read_command("x 1  2\n", 10, 5), Err(InputError::ParseError));
    assert_eq!(read_command("\n", 10, 5), Err(InputError::ParseError));
    assert_eq!(
        read_command("x 10 5\n", 10, 5),
        Err(InputError::InvalidCoords((10, 5)))
    );
}

#[test]
fn read_command_drops_every_kind_of_white_space() {
    let blanks = [
        '\u{9}', '\u{a}', '\u{b}', '\u{c}', '\u{d}', ' ', '\u{85}', '\u{a0}', '\u{1680}',
        '\u{2000}', '\u{2001}', '\u{2002}', '\u{2003}', '\u{2004}', '\u{2005}', '\u{2006}',
        '\u{2007}', '\u{2008}', '\u{2009}', '\u{200a}', '\u{2028}', '\u{2029}', '\u{202f}',
        '\u{205f}', '\u{3000}',
    ];
    assert_eq!(blanks.len(), 25);
    for blank in blanks {
        assert!(blank.is_whitespace());
        let line = format!("{}{}x 1 2{}", blank, blank, blank);
        assert_eq!(read_command(&line, 10, 5), Ok(InputAction::Open(7)));
        let inside = format!("x{}1 2", blank);
        if blank != ' ' {
            assert_eq!(read_command(&inside, 10, 5), Err(InputError::ParseError));
        }
    }
}

#[test]
fn read_command_keeps_what_is_no_white_space() {
    for other in ['\u{200b}', '\u{180e}', '\u{feff}', '\u{1f}', '\u{8}', '_'] {
        assert!(!other.is_whitespace());
        let line = format!("{}x 1 2", other);
        assert_eq!(read_command(&line, 10, 5), Err(InputError::ParseError));
        let line = format!("x 1 2{}", other);
        assert_eq!(read_command(&line, 10, 5), Err(InputError::ParseError));
    }
}

#[test]
fn white_space_is_what_the_standard_library_takes_for_it() {
    let listed = |c: char| {
        ('\u{9}'..='\u{d}').contains(&c)
            || c == ' '
            || c == '\u{85}'
            || c == '\u{a0}'
            || c == '\u{1680}'
            || ('\u{2000}'..='\u{200a}').contains(&c)
            || c == '\u{2028}'
            || c == '\u{2029}'
            || c == '\u{202f}'
            || c == '\u{205f}'
            || c == '\u{3000}'
    };
    for code in 0..=0x10ffff_u32 {
        if let Some(c) = char::from_u32(code) {
            assert_eq!(c.is_whitespace(), listed(c));
        }
    }
}

#[test]
fn board_without_tiles_has_no_valid_coordinates() {
    assert_eq!(
        parse_command("x 0 0", 0, 0),
        Err(InputError::InvalidCoords((0, 0)))
    );
    assert_eq!(parse_command("exit", 0, 0), Ok(InputAction::Exit));
}

#[test]
fn numbers_are_read_as_the_standard_parser_reads_them() {
    let samples = [
        "", "0", "7", "42", "007", "+", "+0", "+15", "++1", "+-1", "-", "-0", "-3", "1 ", " 1", "1a",
        "a1", "1_000", "0x10", "1e3", "1.5", "１２", "٣", "18446744073709551615",
        "18446744073709551616", "+18446744073709551615", "99999999999999999999",
        "000000000000000000000000000001", "4294967295", "4294967296", "9223372036854775808",
    ];
    for text in samples {
        assert_eq!(parse_number(&chars(text)), text.parse::<usize>().ok());
    }
}

#[test]
fn numbers_have_their_decimal_value() {
    assert_eq!(parse_number(&chars("0")), Some(0));
    assert_eq!(parse_number(&chars("120")), Some(120));
    assert_eq!(parse_number(&chars("+9")), Some(9));
    assert_eq!(parse_number(&chars("18446744073709551615")), Some(usize::MAX));
    assert_eq!(parse_number(&chars("18446744073709551616")), None);
    assert_eq!(parse_number(&chars("")), None);
    assert_eq!(parse_number(&chars("+")), None);
    assert_eq!(parse_number(&chars("12x")), None);
}

#[test]
fn lines_split_at_each_space() {
    assert_eq!(parts("x 1 2"), vec!["x", "1", "2"]);
    assert_eq!(parts("exit"), vec!["exit"]);
    assert_eq!(parts(""), vec![""]);
    assert_eq!(parts(" "), vec!["", ""]);
    assert_eq!(parts("a  b"), vec!["a", "", "b"]);
    assert_eq!(parts(" a b "), vec!["", "a", "b", ""]);
    assert_eq!(parts("a\tb c"), vec!["a\tb", "c"]);
}

#[test]
fn lines_split_as_the_standard_splitter_splits_them() {
    let samples = ["", " ", "  ", "x 1 2", " x", "x ", "a  b   c", "no-space", "f 3 4 5 6"];
    for text in samples {
        let expected: Vec<String> = text.split(' ').map(|part| part.to_string()).collect();
        assert_eq!(parts(text), expected);
    }
}
