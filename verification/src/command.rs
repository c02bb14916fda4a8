//! The player's commands as typed on one line.
//!
//! A line is `exit`, or a letter and two numbers separated by single
//! spaces: `x <row> <col>` opens a tile, `f <row> <col>` flags it. Blanks
//! around the line are dropped and capital letters count as small ones.

use vstd::prelude::*;

verus! {

broadcast use vstd::string::group_string_axioms;

/// What the player asks for.
#[derive(Clone, Copy, Debug, PartialEq, Eq)]
pub enum InputAction {
    /// Set or remove the flag on the tile at this index.
    Flag(usize),
    /// Open the tile at this index.
    Open(usize),
    /// End the game.
    Exit,
}

/// Why a line is no command.
#[derive(Clone, Copy, Debug, PartialEq, Eq)]
pub enum InputError {
    /// The line has not the shape of a command.
    ParseError,
    /// The row and column, in this order, do not lie on the board.
    InvalidCoords((usize, usize)),
}

/// Whether `c` is white space in the sense of Unicode: one of the 25
/// characters with the property White_Space.
pub open spec fn is_white_space(c: char) -> bool {
    ||| '\u{9}' <= c <= '\u{d}'
    ||| c == ' '
    ||| c == '\u{85}'
    ||| c == '\u{a0}'
    ||| c == '\u{1680}'
    ||| '\u{2000}' <= c <= '\u{200a}'
    ||| c == '\u{2028}'
    ||| c == '\u{2029}'
    ||| c == '\u{202f}'
    ||| c == '\u{205f}'
    ||| c == '\u{3000}'
}

/// `text` without the white space at its start.
pub open spec fn trimmed_start(text: Seq<char>) -> Seq<char>
    decreases text.len(),
{
    if text.len() > 0 && is_white_space(text.first()) {
        trimmed_start(text.drop_first())
    } else {
        text
    }
}

/// `text` without the white space at its end.
pub open spec fn trimmed_end(text: Seq<char>) -> Seq<char>
    decreases text.len(),
{
    if text.len() > 0 && is_white_space(text.last()) {
        trimmed_end(text.drop_last())
    } else {
        text
    }
}

/// `text` without the white space at its two ends.
pub open spec fn trimmed(text: Seq<char>) -> Seq<char> {
    trimmed_end(trimmed_start(text))
}

/// Where the text without white space at its start begins.
proof fn lemma_trimmed_start(text: Seq<char>) -> (from: int)
    ensures
        0 <= from <= text.len(),
        trimmed_start(text) == text.skip(from),
        forall|k: int| 0 <= k < from ==> is_white_space(#[trigger] text[k]),
        from < text.len() ==> !is_white_space(text[from]),
    decreases text.len(),
{
    if text.len() > 0 && is_white_space(text.first()) {
        let rest = text.drop_first();
        let inner = lemma_trimmed_start(rest);
        assert(rest.skip(inner) =~= text.skip(inner + 1));
        assert forall|k: int| 0 <= k < inner + 1 implies is_white_space(#[trigger] text[k]) by {
            if k > 0 {
                assert(text[k] == rest[k - 1]);
            }
        }
        if inner + 1 < text.len() {
            assert(text[inner + 1] == rest[inner]);
        }
        inner + 1
    } else {
        assert(text.skip(0) =~= text);
        0
    }
}

/// Where the text without white space at its end stops.
proof fn lemma_trimmed_end(text: Seq<char>) -> (to: int)
    ensures
        0 <= to <= text.len(),
        trimmed_end(text) == text.take(to),
        forall|k: int| to <= k < text.len() ==> is_white_space(#[trigger] text[k]),
        0 < to ==> !is_white_space(text[to - 1]),
    decreases text.len(),
{
    if text.len() > 0 && is_white_space(text.last()) {
        let rest = text.drop_last();
        let inner = lemma_trimmed_end(rest);
        assert(rest.take(inner) =~= text.take(inner));
        assert forall|k: int| inner <= k < text.len() implies is_white_space(
            #[trigger] text[k],
        ) by {
            if k < text.len() - 1 {
                assert(text[k] == rest[k]);
            }
        }
        if 0 < inner {
            assert(text[inner - 1] == rest[inner - 1]);
        }
        inner
    } else {
        assert(text.take(text.len() as int) =~= text);
        text.len() as int
    }
}

/// Trimming keeps one stretch of the text, drops nothing but white space,
/// and leaves no white space at either end.
pub proof fn lemma_trimmed(text: Seq<char>)
    ensures
        trimmed(text).len() > 0 ==> !is_white_space(trimmed(text).first()) && !is_white_space(
            trimmed(text).last(),
        ),
        exists|from: int, to: int|
            {
                &&& 0 <= from <= to <= text.len()
                &&& #[trigger] text.subrange(from, to) == trimmed(text)
                &&& forall|k: int|
                    0 <= k < from || to <= k < text.len() ==> is_white_space(#[trigger] text[k])
            },
{
    let from = lemma_trimmed_start(text);
    let tail = text.skip(from);
    let kept = lemma_trimmed_end(tail);
    let to = from + kept;
    assert(tail.take(kept) =~= text.subrange(from, to));
    assert forall|k: int| 0 <= k < from || to <= k < text.len() implies is_white_space(
        #[trigger] text[k],
    ) by {
        if to <= k {
            assert(text[k] == tail[k - from]);
        }
    }
    if kept > 0 {
        assert(trimmed(text).first() == text[from]);
        assert(trimmed(text).last() == tail[kept - 1]);
    }
}

/// `text` in lower case, as `str::to_lowercase` gives it.
pub uninterp spec fn lowercased(text: Seq<char>) -> Seq<char>;

/// `str::trim` returns the part of the text between its leading and its
/// trailing white space, where white space is what has the Unicode property
/// White_Space: the characters that [`is_white_space`] lists.
pub assume_specification[ str::trim ](text: &str) -> (inner: &str)
    ensures
        inner@ == trimmed(text@),
;

/// `str::to_lowercase` returns the text with each character replaced by its
/// lower case form, in the sense of Unicode.
pub assume_specification[ str::to_lowercase ](text: &str) -> (lower: String)
    ensures
        lower@ == lowercased(text@),
;

/// Whether `c` is one of the digits `0` to `9`.
pub open spec fn is_digit(c: char) -> bool {
    '0' <= c <= '9'
}

/// The number that the digits of `digits` write in decimal.
pub open spec fn decimal_value(digits: Seq<char>) -> nat
    decreases digits.len(),
{
    if digits.len() == 0 {
        0
    } else {
        10 * decimal_value(digits.drop_last()) + (digits.last() as nat - '0' as nat) as nat
    }
}

/// The number that `digits` writes if it is one or more decimal digits with
/// a value that an index can hold.
pub open spec fn digits_number(digits: Seq<char>) -> Option<usize> {
    if digits.len() > 0 && (forall|k: int| 0 <= k < digits.len() ==> is_digit(#[trigger] digits[k]))
        && decimal_value(digits) <= usize::MAX {
        Some(decimal_value(digits) as usize)
    } else {
        None
    }
}

/// The number that `text` writes: one or more decimal digits, a `+` before
/// them or not, with a value that an index can hold. Any other text writes
/// no number.
pub open spec fn number_of(text: Seq<char>) -> Option<usize> {
    if text.len() > 1 && text[0] == '+' {
        digits_number(text.skip(1))
    } else {
        digits_number(text)
    }
}

/// The parts of `text` between its spaces. A text without a space is one
/// part, and two spaces in a row have an empty part between them.
pub open spec fn split_on_spaces(text: Seq<char>) -> Seq<Seq<char>>
    decreases text.len(),
{
    if text.len() == 0 {
        seq![Seq::empty()]
    } else {
        let before = split_on_spaces(text.drop_last());
        if text.last() == ' ' {
            before.push(Seq::empty())
        } else {
            before.update(before.len() - 1, before.last().push(text.last()))
        }
    }
}

/// The parts `parts` put together again with one space between each two.
pub open spec fn joined_by_spaces(parts: Seq<Seq<char>>) -> Seq<char>
    decreases parts.len(),
{
    if parts.len() == 0 {
        Seq::empty()
    } else if parts.len() == 1 {
        parts[0]
    } else {
        joined_by_spaces(parts.drop_last()).push(' ') + parts.last()
    }
}

/// Splitting a text gives at least one part, no part holds a space, and the
/// parts with a space between each two are the text again.
pub proof fn lemma_split_on_spaces(text: Seq<char>)
    ensures
        split_on_spaces(text).len() >= 1,
        forall|k: int, j: int|
            0 <= k < split_on_spaces(text).len() && 0 <= j < split_on_spaces(text)[k].len()
                ==> #[trigger] split_on_spaces(text)[k][j] != ' ',
        joined_by_spaces(split_on_spaces(text)) == text,
    decreases text.len(),
{
    let parts = split_on_spaces(text);
    if text.len() == 0 {
        assert(joined_by_spaces(parts) =~= text);
    } else {
        let shorter = text.drop_last();
        let before = split_on_spaces(shorter);
        lemma_split_on_spaces(shorter);
        if text.last() == ' ' {
            assert(parts.drop_last() =~= before);
            assert(joined_by_spaces(parts) =~= shorter.push(' '));
            assert(shorter.push(' ') =~= text);
        } else {
            let grown = before.last().push(text.last());
            assert(parts.last() == grown);
            if before.len() == 1 {
                assert(joined_by_spaces(before) == before[0]);
                assert(joined_by_spaces(parts) =~= shorter.push(text.last()));
            } else {
                assert(parts.drop_last() =~= before.drop_last());
                assert(joined_by_spaces(parts) =~= (joined_by_spaces(before.drop_last()).push(' ')
                    + before.last()).push(text.last()));
            }
            assert(shorter.push(text.last()) =~= text);
        }
    }
}

/// The command that `text` stands for on a board of `row_size` rows and
/// `col_size` columns. The text `exit` ends the game. Any other text must
/// have three parts, of which the second and third write the row and the
/// column; both must lie on the board; and the first part must be `f` or
/// `x`. The tile meant is the one in that row and column: with the board
/// laid out row by row, its index is `row * col_size + col`, which is below
/// the number of tiles.
pub open spec fn command_of(text: Seq<char>, row_size: usize, col_size: usize) -> Result<
    InputAction,
    InputError,
> {
    let parts = split_on_spaces(text);
    if text == seq!['e', 'x', 'i', 't'] {
        Ok(InputAction::Exit)
    } else if parts.len() != 3 {
        Err(InputError::ParseError)
    } else {
        match (number_of(parts[1]), number_of(parts[2])) {
            (Some(row), Some(col)) => {
                if row >= row_size || col >= col_size {
                    Err(InputError::InvalidCoords((row, col)))
                } else if parts[0] == seq!['f'] {
                    Ok(InputAction::Flag((row * col_size + col) as usize))
                } else if parts[0] == seq!['x'] {
                    Ok(InputAction::Open((row * col_size + col) as usize))
                } else {
                    Err(InputError::ParseError)
                }
            },
            _ => Err(InputError::ParseError),
        }
    }
}

/// Whether the index of every tile of the board can be held.
pub open spec fn indices_fit(row_size: usize, col_size: usize) -> bool {
    row_size * col_size <= usize::MAX
}

/// Whether `command` names no tile or one of the board.
pub open spec fn stays_on_board(
    command: Result<InputAction, InputError>,
    row_size: usize,
    col_size: usize,
) -> bool {
    match command {
        Ok(InputAction::Flag(index)) => index < row_size * col_size,
        Ok(InputAction::Open(index)) => index < row_size * col_size,
        _ => true,
    }
}

/// Every command names a tile of the board, if it names one.
pub proof fn lemma_command_on_board(text: Seq<char>, row_size: usize, col_size: usize)
    requires
        indices_fit(row_size, col_size),
    ensures
        stays_on_board(command_of(text, row_size, col_size), row_size, col_size),
{
    let parts = split_on_spaces(text);
    if text != seq!['e', 'x', 'i', 't'] && parts.len() == 3 {
        if let (Some(row), Some(col)) = (number_of(parts[1]), number_of(parts[2])) {
            if row < row_size && col < col_size {
                lemma_index_on_board(row, col, row_size, col_size);
            }
        }
    }
}

/// The index of a tile in a row and a column of the board is below the
/// number of tiles.
proof fn lemma_index_on_board(row: usize, col: usize, row_size: usize, col_size: usize)
    requires
        row < row_size,
        col < col_size,
    ensures
        row * col_size + col < row_size * col_size,
{
    assert(row * col_size + col < row_size * col_size) by (nonlinear_arith)
        requires
            row <= row_size - 1,
            col <= col_size - 1,
            0 <= row,
            0 <= col,
    ;
}

/// The characters of `text`.
fn chars_of(text: &str) -> (chars: Vec<char>)
    ensures
        chars@ == text@,
{
    let mut chars: Vec<char> = Vec::new();
    for c in it: text.chars()
        invariant
            it.seq() == text@,
            chars@ == it.seq().take(it.index()),
    {
        chars.push(c);
        assert(chars@ =~= it.seq().take(it.index() + 1));
    }
    assert(chars@ =~= text@);
    chars
}

/// The value of the digit `c`, if it is one.
fn digit_of(c: char) -> (digit: Option<usize>)
    ensures
        digit is Some == is_digit(c),
        digit matches Some(value) ==> value == c as nat - '0' as nat,
{
    if '0' <= c && c <= '9' {
        Some((c as u32 - '0' as u32) as usize)
    } else {
        None
    }
}

/// Reads the number that `text` writes.
pub fn parse_number(text: &Vec<char>) -> (number: Option<usize>)
    ensures
        number == number_of(text@),
{
    let start: usize = if text.len() > 1 && text[0] == '+' {
        1
    } else {
        0
    };
    let ghost digits = text@.skip(start as int);
    if text.len() == start {
        return None;
    }
    let mut value: usize = 0;
    let mut at: usize = start;
    while at < text.len()
        invariant
            start <= at <= text@.len(),
            start == if text@.len() > 1 && text@[0] == '+' {
                1int
            } else {
                0int
            },
            digits == text@.skip(start as int),
            forall|k: int| 0 <= k < at - start ==> is_digit(#[trigger] digits[k]),
            value == decimal_value(digits.take(at - start)),
        decreases text@.len() - at,
    {
        let ghost seen = digits.take(at - start);
        let ghost next = digits.take(at - start + 1);
        proof {
            assert(next.drop_last() =~= seen);
            assert(next.last() == text@[at as int]);
            lemma_decimal_value_grows(digits, at - start + 1);
        }
        match digit_of(text[at]) {
            None => {
                assert(text@.skip(0) =~= text@);
                assert(!is_digit(digits[at - start]));
                return None;
            },
            Some(digit) => {
                assert(decimal_value(next) == 10 * value + digit);
                if value > (usize::MAX - digit) / 10 {
                    assert(10 * value + digit > usize::MAX);
                    assert(text@.skip(0) =~= text@);
                    return None;
                }
                value = value * 10 + digit;
            },
        }
        at = at + 1;
    }
    assert(digits.take(at - start) =~= digits);
    assert(text@.skip(0) =~= text@);
    Some(value)
}

/// A longer run of digits does not write a smaller number.
proof fn lemma_decimal_value_grows(digits: Seq<char>, upto: int)
    requires
        0 <= upto <= digits.len(),
    ensures
        decimal_value(digits.take(upto)) <= decimal_value(digits),
    decreases digits.len() - upto,
{
    if upto < digits.len() {
        lemma_decimal_value_grows(digits, upto + 1);
        assert(digits.take(upto + 1).drop_last() =~= digits.take(upto));
    } else {
        assert(digits.take(upto) =~= digits);
    }
}

/// The texts of `parts`.
pub open spec fn texts_of(parts: Seq<Vec<char>>) -> Seq<Seq<char>> {
    Seq::new(parts.len(), |k: int| parts[k]@)
}

/// Splits `text` at its spaces.
pub fn split_line(text: &Vec<char>) -> (parts: Vec<Vec<char>>)
    ensures
        texts_of(parts@) == split_on_spaces(text@),
{
    let mut parts: Vec<Vec<char>> = Vec::new();
    let mut current: Vec<char> = Vec::new();
    let mut at: usize = 0;
    assert(texts_of(parts@).push(current@) =~= split_on_spaces(text@.take(0)));
    while at < text.len()
        invariant
            at <= text@.len(),
            texts_of(parts@).push(current@) == split_on_spaces(text@.take(at as int)),
        decreases text@.len() - at,
    {
        let ghost before = texts_of(parts@).push(current@);
        assert(text@.take(at + 1).drop_last() =~= text@.take(at as int));
        if text[at] == ' ' {
            parts.push(current);
            current = Vec::new();
            assert(texts_of(parts@).push(current@) =~= before.push(Seq::empty()));
        } else {
            current.push(text[at]);
            assert(texts_of(parts@).push(current@) =~= before.update(
                before.len() - 1,
                before.last().push(text@[at as int]),
            ));
        }
        at = at + 1;
    }
    assert(text@.take(at as int) =~= text@);
    let ghost before = texts_of(parts@).push(current@);
    parts.push(current);
    assert(texts_of(parts@) =~= before);
    parts
}

/// Whether `text` is the one character `letter`.
fn is_letter(text: &Vec<char>, letter: char) -> (same: bool)
    ensures
        same == (text@ == seq![letter]),
{
    let same = text.len() == 1 && text[0] == letter;
    assert(same == (text@ =~= seq![letter]));
    same
}

/// Whether `text` is the word `exit`.
fn is_exit(text: &Vec<char>) -> (same: bool)
    ensures
        same == (text@ == seq!['e', 'x', 'i', 't']),
{
    let same = text.len() == 4 && text[0] == 'e' && text[1] == 'x' && text[2] == 'i' && text[3]
        == 't';
    assert(same == (text@ =~= seq!['e', 'x', 'i', 't']));
    same
}

/// Reads the command that `text` stands for on a board of `row_size` rows
/// and `col_size` columns. `text` is taken as it is: blanks at its ends and
/// capital letters are not allowed for.
pub fn parse_command(text: &str, row_size: usize, col_size: usize) -> (command: Result<
    InputAction,
    InputError,
>)
    requires
        indices_fit(row_size, col_size),
    ensures
        command == command_of(text@, row_size, col_size),
        command matches Ok(InputAction::Flag(index)) ==> index < row_size * col_size,
        command matches Ok(InputAction::Open(index)) ==> index < row_size * col_size,
{
    let chars = chars_of(text);
    if is_exit(&chars) {
        return Ok(InputAction::Exit);
    }
    let parts = split_line(&chars);
    if parts.len() != 3 {
        return Err(InputError::ParseError);
    }
    assert(texts_of(parts@)[0] == parts@[0]@ && texts_of(parts@)[1] == parts@[1]@ && texts_of(
        parts@,
    )[2] == parts@[2]@);
    let row = match parse_number(&parts[1]) {
        Some(row) => row,
        None => {
            return Err(InputError::ParseError);
        },
    };
    let col = match parse_number(&parts[2]) {
        Some(col) => col,
        None => {
            return Err(InputError::ParseError);
        },
    };
    if row >= row_size || col >= col_size {
        return Err(InputError::InvalidCoords((row, col)));
    }
    proof {
        lemma_index_on_board(row, col, row_size, col_size);
    }
    if is_letter(&parts[0], 'f') {
        Ok(InputAction::Flag(row * col_size + col))
    } else if is_letter(&parts[0], 'x') {
        Ok(InputAction::Open(row * col_size + col))
    } else {
        Err(InputError::ParseError)
    }
}

/// Reads the command on the line `line` as the player typed it: white space
/// at its ends is dropped and it is put in lower case before it is read.
pub fn read_command(line: &str, row_size: usize, col_size: usize) -> (command: Result<
    InputAction,
    InputError,
>)
    requires
        indices_fit(row_size, col_size),
    ensures
        command == command_of(lowercased(trimmed(line@)), row_size, col_size),
        command matches Ok(InputAction::Flag(index)) ==> index < row_size * col_size,
        command matches Ok(InputAction::Open(index)) ==> index < row_size * col_size,
{
    let input = line.trim().to_lowercase();
    parse_command(input.as_str(), row_size, col_size)
}

} // verus!
