//! The board and the messages as text.

use vstd::prelude::*;
use vstd::string::StringExecFns;
use crate::board::Tile;
use crate::command::InputError;

verus! {

/// The character of a decimal digit.
pub open spec fn digit_char(digit: nat) -> char {
    if digit == 0 {
        '0'
    } else if digit == 1 {
        '1'
    } else if digit == 2 {
        '2'
    } else if digit == 3 {
        '3'
    } else if digit == 4 {
        '4'
    } else if digit == 5 {
        '5'
    } else if digit == 6 {
        '6'
    } else if digit == 7 {
        '7'
    } else if digit == 8 {
        '8'
    } else {
        '9'
    }
}

/// The decimal digits of `value` without leading zeros; none for 0.
pub open spec fn digits_text(value: nat) -> Seq<char>
    decreases value,
{
    if value == 0 {
        Seq::empty()
    } else {
        digits_text(value / 10).push(digit_char(value % 10))
    }
}

/// `value` in decimal.
pub open spec fn decimal_text(value: nat) -> Seq<char> {
    if value == 0 {
        seq!['0']
    } else {
        digits_text(value)
    }
}

/// One tile as the player sees it: `F` for a flag, `#` for a concealed
/// tile, and the number of adjacent mines for an open one.
pub open spec fn tile_text(tile: Tile) -> Seq<char> {
    match tile {
        Tile::Flagged => seq!['F'],
        Tile::Concealed => seq!['#'],
        Tile::Open(count) => decimal_text(count as nat),
    }
}

/// What stands before the tile at `index`: nothing before the first tile, a
/// line break before the first tile of each further row, a space elsewhere.
pub open spec fn gap_text(index: int, col_count: usize) -> Seq<char> {
    if index == 0 {
        Seq::empty()
    } else if index % (col_count as int) == 0 {
        seq!['\n']
    } else {
        seq![' ']
    }
}

/// The first `upto` tiles of a board in rows of `col_count` tiles: the tiles
/// of a row separated by spaces, the rows by line breaks.
pub open spec fn board_text(tiles: Seq<Tile>, col_count: usize, upto: int) -> Seq<char>
    decreases upto,
{
    if upto <= 0 {
        Seq::empty()
    } else {
        board_text(tiles, col_count, upto - 1) + gap_text(upto - 1, col_count) + tile_text(
            tiles[upto - 1],
        )
    }
}

/// The text of one decimal digit.
fn digit_text(digit: u8) -> (text: &'static str)
    requires
        digit < 10,
    ensures
        text@ == seq![digit_char(digit as nat)],
{
    proof {
        reveal_strlit("0");
        reveal_strlit("1");
        reveal_strlit("2");
        reveal_strlit("3");
        reveal_strlit("4");
        reveal_strlit("5");
        reveal_strlit("6");
        reveal_strlit("7");
        reveal_strlit("8");
        reveal_strlit("9");
    }
    let text = if digit == 0 {
        "0"
    } else if digit == 1 {
        "1"
    } else if digit == 2 {
        "2"
    } else if digit == 3 {
        "3"
    } else if digit == 4 {
        "4"
    } else if digit == 5 {
        "5"
    } else if digit == 6 {
        "6"
    } else if digit == 7 {
        "7"
    } else if digit == 8 {
        "8"
    } else {
        "9"
    };
    assert(text@ =~= seq![digit_char(digit as nat)]);
    text
}

/// Appends `value` in decimal to `out`.
pub fn append_decimal(out: &mut String, value: usize)
    ensures
        final(out)@ == old(out)@ + decimal_text(value as nat),
{
    if value == 0 {
        proof {
            reveal_strlit("0");
        }
        out.append("0");
        assert(out@ =~= old(out)@ + decimal_text(0));
        return ;
    }
    let mut low_first: Vec<u8> = Vec::new();
    let mut rest: usize = value;
    while rest > 0
        invariant
            forall|k: int| 0 <= k < low_first@.len() ==> low_first@[k] < 10,
            digits_text(value as nat) == digits_text(rest as nat) + Seq::new(
                low_first@.len(),
                |k: int| digit_char(low_first@[low_first@.len() - 1 - k] as nat),
            ),
        decreases rest,
    {
        let ghost before = low_first@;
        low_first.push((rest % 10) as u8);
        assert(digits_text(rest as nat) + Seq::new(
            before.len(),
            |k: int| digit_char(before[before.len() - 1 - k] as nat),
        ) =~= digits_text((rest / 10) as nat) + Seq::new(
            low_first@.len(),
            |k: int| digit_char(low_first@[low_first@.len() - 1 - k] as nat),
        ));
        rest = rest / 10;
    }
    let mut left: usize = low_first.len();
    while left > 0
        invariant
            left <= low_first@.len(),
            forall|k: int| 0 <= k < low_first@.len() ==> low_first@[k] < 10,
            out@ == old(out)@ + Seq::new(
                (low_first@.len() - left) as nat,
                |k: int| digit_char(low_first@[low_first@.len() - 1 - k] as nat),
            ),
        decreases left,
    {
        left = left - 1;
        let ghost before = out@;
        out.append(digit_text(low_first[left]));
        assert(out@ =~= old(out)@ + Seq::new(
            (low_first@.len() - left) as nat,
            |k: int| digit_char(low_first@[low_first@.len() - 1 - k] as nat),
        ));
    }
    assert(out@ =~= old(out)@ + decimal_text(value as nat));
}

/// Appends one tile as the player sees it to `out`.
fn append_tile(out: &mut String, tile: Tile)
    ensures
        final(out)@ == old(out)@ + tile_text(tile),
{
    proof {
        reveal_strlit("F");
        reveal_strlit("#");
    }
    match tile {
        Tile::Flagged => {
            out.append("F");
        },
        Tile::Concealed => {
            out.append("#");
        },
        Tile::Open(count) => {
            append_decimal(out, count);
        },
    }
}

/// The board as text, in rows of `col_count` tiles.
pub fn render_board(board: &Vec<Tile>, col_count: usize) -> (text: String)
    requires
        col_count > 0,
    ensures
        text@ == board_text(board@, col_count, board@.len() as int),
{
    let mut text = String::new();
    let mut at: usize = 0;
    let mut col: usize = 0;
    while at < board.len()
        invariant
            at <= board@.len(),
            col_count > 0,
            col < col_count,
            col == at as int % col_count as int,
            text@ == board_text(board@, col_count, at as int),
        decreases board@.len() - at,
    {
        let ghost before = text@;
        proof {
            reveal_strlit("\n");
            reveal_strlit(" ");
        }
        if at == 0 {
        } else if col == 0 {
            text.append("\n");
        } else {
            text.append(" ");
        }
        assert(text@ =~= before + gap_text(at as int, col_count));
        append_tile(&mut text, board[at]);
        assert(text@ == before + gap_text(at as int, col_count) + tile_text(board@[at as int]));
        proof {
            lemma_next_column(at as int, col_count as int);
        }
        at = at + 1;
        col = if col + 1 == col_count {
            0
        } else {
            col + 1
        };
    }
    text
}

/// The column after the one of `index`.
proof fn lemma_next_column(index: int, cols: int)
    requires
        0 <= index,
        0 < cols,
    ensures
        (index + 1) % cols == if index % cols + 1 == cols {
            0
        } else {
            index % cols + 1
        },
{
    vstd::arithmetic::div_mod::lemma_fundamental_div_mod(index, cols);
    vstd::arithmetic::div_mod::lemma_mod_pos_bound(index, cols);
    let row = index / cols;
    let col = index % cols;
    if col + 1 == cols {
        assert(index + 1 == (row + 1) * cols + 0) by (nonlinear_arith)
            requires
                index == cols * row + col,
                col + 1 == cols,
        ;
        vstd::arithmetic::div_mod::lemma_fundamental_div_mod_converse(
            index + 1,
            cols,
            row + 1,
            0,
        );
    } else {
        assert(index + 1 == row * cols + (col + 1)) by (nonlinear_arith)
            requires
                index == cols * row + col,
        ;
        vstd::arithmetic::div_mod::lemma_fundamental_div_mod_converse(
            index + 1,
            cols,
            row,
            col + 1,
        );
    }
}

/// What the player is told of a line that is no command.
pub open spec fn error_text(error: InputError) -> Seq<char> {
    match error {
        InputError::ParseError => "Failed to parse the input. Please try again"@,
        InputError::InvalidCoords((row, col)) => "The coords ("@ + decimal_text(row as nat) + ", "@
            + decimal_text(col as nat) + ") are invalid"@,
    }
}

/// Words what is wrong with a line that is no command.
pub fn describe_error(error: InputError) -> (text: String)
    ensures
        text@ == error_text(error),
{
    match error {
        InputError::ParseError => String::from_str("Failed to parse the input. Please try again"),
        InputError::InvalidCoords((row, col)) => {
            let mut text = String::from_str("The coords (");
            append_decimal(&mut text, row);
            text.append(", ");
            append_decimal(&mut text, col);
            text.append(") are invalid");
            text
        },
    }
}

} // verus!
