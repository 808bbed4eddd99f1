//! Board squares and their two-character algebraic names.

use vstd::prelude::*;
use crate::text::{chars_to_string, str_chars};

verus! {

/// An integer representing a square on a chess board.
/// There are 64 unique positions on the board, indexed 0-63: the file is
/// `square % 8` and the rank is `square / 8`, both counted from zero, so
/// square 0 is a1 and square 63 is h8.
pub type Square = u8;

/// Whether `sq` indexes one of the 64 board cells.
pub open spec fn on_board(sq: int) -> bool {
    0 <= sq < 64
}

/// The rank (row, 0-7) of a square index.
pub open spec fn rank_of(sq: int) -> int {
    sq / 8
}

/// The file (column, 0-7) of a square index.
pub open spec fn file_of(sq: int) -> int {
    sq % 8
}

/// The letter of file `f` (0-7): 'a'..'h'.
pub open spec fn spec_file_char(f: int) -> char {
    if f == 0 {
        'a'
    } else if f == 1 {
        'b'
    } else if f == 2 {
        'c'
    } else if f == 3 {
        'd'
    } else if f == 4 {
        'e'
    } else if f == 5 {
        'f'
    } else if f == 6 {
        'g'
    } else {
        'h'
    }
}

/// The digit of rank `r` (0-7): '1'..'8'.
pub open spec fn spec_rank_char(r: int) -> char {
    if r == 0 {
        '1'
    } else if r == 1 {
        '2'
    } else if r == 2 {
        '3'
    } else if r == 3 {
        '4'
    } else if r == 4 {
        '5'
    } else if r == 5 {
        '6'
    } else if r == 6 {
        '7'
    } else {
        '8'
    }
}

/// The file index named by a letter 'a'..'h', if any.
pub open spec fn spec_file_index(c: char) -> Option<int> {
    match c {
        'a' => Some(0int),
        'b' => Some(1int),
        'c' => Some(2int),
        'd' => Some(3int),
        'e' => Some(4int),
        'f' => Some(5int),
        'g' => Some(6int),
        'h' => Some(7int),
        _ => None,
    }
}

/// The rank index named by a digit '1'..'8', if any.
pub open spec fn spec_rank_index(c: char) -> Option<int> {
    match c {
        '1' => Some(0int),
        '2' => Some(1int),
        '3' => Some(2int),
        '4' => Some(3int),
        '5' => Some(4int),
        '6' => Some(5int),
        '7' => Some(6int),
        '8' => Some(7int),
        _ => None,
    }
}

/// The two algebraic characters of square `sq`, file letter then rank digit.
pub open spec fn spec_square_chars(sq: int) -> Seq<char> {
    seq![spec_file_char(file_of(sq)), spec_rank_char(rank_of(sq))]
}

/// The square named by a file letter and a rank digit, if both are valid.
pub open spec fn spec_square_from_chars(fc: char, rc: char) -> Option<Square> {
    match (spec_file_index(fc), spec_rank_index(rc)) {
        (Some(f), Some(r)) => Some((r * 8 + f) as Square),
        _ => None,
    }
}

/// The square named by a two-character algebraic string; anything else is `None`.
pub open spec fn spec_square_from_algebraic(s: Seq<char>) -> Option<Square> {
    if s.len() == 2 {
        spec_square_from_chars(s[0], s[1])
    } else {
        None
    }
}

/// Converts an i8 that may point to a square in a board to a valid Square if possible.
pub fn to_board_square(maybe_square: i8) -> (r: Option<Square>)
    ensures
        r == if 0 <= maybe_square < 64 {
            Some(maybe_square as Square)
        } else {
            None::<Square>
        },
{
    if maybe_square >= 0 && maybe_square < 64 {
        Some(maybe_square as u8)
    } else {
        None
    }
}

/// The letter of file `f` (0-7).
pub(crate) fn file_char(f: u8) -> (r: char)
    requires
        f < 8,
    ensures
        r == spec_file_char(f as int),
{
    match f {
        0 => 'a',
        1 => 'b',
        2 => 'c',
        3 => 'd',
        4 => 'e',
        5 => 'f',
        6 => 'g',
        _ => 'h',
    }
}

/// The digit of rank `r` (0-7).
pub(crate) fn rank_char(r: u8) -> (c: char)
    requires
        r < 8,
    ensures
        c == spec_rank_char(r as int),
{
    match r {
        0 => '1',
        1 => '2',
        2 => '3',
        3 => '4',
        4 => '5',
        5 => '6',
        6 => '7',
        _ => '8',
    }
}

/// The algebraic name of a square, such as "e4".
pub fn square_to_algebraic(square: Square) -> (r: String)
    requires
        square < 64,
    ensures
        r@ == spec_square_chars(square as int),
{
    let mut v: Vec<char> = Vec::new();
    v.push(file_char(square % 8));
    v.push(rank_char(square / 8));
    proof {
        assert(v@ =~= spec_square_chars(square as int));
    }
    chars_to_string(&v)
}

/// The square named by a file letter and a rank digit, if both are valid.
pub(crate) fn square_from_chars(fc: char, rc: char) -> (r: Option<Square>)
    ensures
        r == spec_square_from_chars(fc, rc),
{
    let f: u8 = match fc {
        'a' => 0,
        'b' => 1,
        'c' => 2,
        'd' => 3,
        'e' => 4,
        'f' => 5,
        'g' => 6,
        'h' => 7,
        _ => 8,
    };
    let r: u8 = match rc {
        '1' => 0,
        '2' => 1,
        '3' => 2,
        '4' => 3,
        '5' => 4,
        '6' => 5,
        '7' => 6,
        '8' => 7,
        _ => 8,
    };
    if f < 8 && r < 8 {
        Some(r * 8 + f)
    } else {
        None
    }
}

/// Reads a square from its two-character algebraic name, such as "b6".
/// Returns `None` when the string is not exactly a file letter 'a'-'h'
/// followed by a rank digit '1'-'8'.
pub fn square_from_algebraic(long_algebraic: &str) -> (r: Option<Square>)
    ensures
        r == spec_square_from_algebraic(long_algebraic@),
{
    let cs = str_chars(long_algebraic);
    if cs.len() == 2 {
        square_from_chars(cs[0], cs[1])
    } else {
        None
    }
}

/// A valid square name round-trips through its algebraic form.
pub proof fn lemma_square_algebraic_round_trip(sq: int)
    requires
        on_board(sq),
    ensures
        spec_square_from_algebraic(spec_square_chars(sq)) == Some(sq as Square),
{
}

} // verus!
