//! Moves: a source square, a destination square, and an optional promotion.

use vstd::prelude::*;
use crate::piece::{Piece, PieceKind};
use crate::rules::color_piece;
use crate::square::{spec_square_chars, spec_square_from_algebraic, Square};
use crate::text::{chars_to_string, str_chars};

verus! {

/// A move between two squares.
#[derive(Debug, PartialEq, Eq, Structural, Clone, Copy, Hash)]
pub struct Move {
    pub from: Square,
    pub to: Square,
    pub promote_to: Option<Piece>,
}

impl Move {
    /// A plain move between two squares, with no promotion.
    pub fn new(from: Square, to: Square) -> (r: Self)
        ensures
            r == (Move { from, to, promote_to: None::<Piece> }),
    {
        Self { from, to, promote_to: None }
    }

    /// The move denoted by a long-algebraic string: four square characters
    /// and an optional promotion letter. A fifth character that is not a
    /// piece letter is ignored, as are any further characters.
    pub open spec fn spec_from_str(s: Seq<char>) -> Option<Move> {
        if s.len() < 4 {
            None
        } else {
            match (
                spec_square_from_algebraic(s.subrange(0, 2)),
                spec_square_from_algebraic(s.subrange(2, 4)),
            ) {
                (Some(f), Some(t)) => Some(
                    Move {
                        from: f,
                        to: t,
                        promote_to: if s.len() >= 5 {
                            Piece::spec_from_char(s[4])
                        } else {
                            None
                        },
                    },
                ),
                _ => None,
            }
        }
    }

    /// Read a move from long algebraic notation, such as "e7e8q".
    /// Returns `None` when the string is shorter than four characters or
    /// either square name is invalid.
    pub fn from_str(long_algebraic: &str) -> (r: Option<Move>)
        ensures
            r == Self::spec_from_str(long_algebraic@),
    {
        let cs = str_chars(long_algebraic);
        if cs.len() < 4 {
            return None;
        }
        proof {
            assert(cs@.subrange(0, 2) =~= seq![cs@[0], cs@[1]]);
            assert(cs@.subrange(2, 4) =~= seq![cs@[2], cs@[3]]);
        }
        let from = crate::square::square_from_chars(cs[0], cs[1]);
        let to = crate::square::square_from_chars(cs[2], cs[3]);
        match (from, to) {
            (Some(f), Some(t)) => {
                let promote_to = if cs.len() >= 5 {
                    Piece::from_char(&cs[4])
                } else {
                    None
                };
                Some(Move { from: f, to: t, promote_to })
            },
            _ => None,
        }
    }
}


/// The lower-case letter of a piece kind, as promotion letters are written.
pub open spec fn spec_lower_char(p: Piece) -> char {
    match p.kind() {
        PieceKind::Pawn => 'p',
        PieceKind::Knight => 'n',
        PieceKind::Bishop => 'b',
        PieceKind::Rook => 'r',
        PieceKind::Queen => 'q',
        PieceKind::King => 'k',
    }
}

impl Move {
    /// The long-algebraic text of this move: source and destination square
    /// names, and the promotion piece's letter in lower case, if any.
    pub open spec fn spec_text(self) -> Seq<char> {
        spec_square_chars(self.from as int) + spec_square_chars(self.to as int) + (
        match self.promote_to {
            Some(p) => seq![spec_lower_char(p)],
            None => seq![],
        })
    }

    /// Writes this move in long algebraic notation, such as "e7e8q".
    pub fn to_algebraic(&self) -> (r: String)
        requires
            self.from < 64,
            self.to < 64,
        ensures
            r@ == self.spec_text(),
    {
        let mut v: Vec<char> = Vec::new();
        v.push(crate::square::file_char(self.from % 8));
        v.push(crate::square::rank_char(self.from / 8));
        v.push(crate::square::file_char(self.to % 8));
        v.push(crate::square::rank_char(self.to / 8));
        if let Some(p) = self.promote_to {
            let c = match p {
                Piece::PawnWhite | Piece::PawnBlack => 'p',
                Piece::KnightWhite | Piece::KnightBlack => 'n',
                Piece::BishopWhite | Piece::BishopBlack => 'b',
                Piece::RookWhite | Piece::RookBlack => 'r',
                Piece::QueenWhite | Piece::QueenBlack => 'q',
                Piece::KingWhite | Piece::KingBlack => 'k',
            };
            v.push(c);
        }
        proof {
            assert(v@ =~= self.spec_text());
        }
        chars_to_string(&v)
    }
}


/// The promotion piece named by a letter of either case, colored by the
/// mover's side: the kind is looked up case-insensitively.
pub open spec fn spec_promotion_piece(white: bool, c: char) -> Option<Piece> {
    match Piece::spec_from_char(c) {
        Some(p) => Some(color_piece(white, p.kind())),
        None => None,
    }
}

impl Move {
    /// The move denoted by side-aware long-algebraic text: four square
    /// characters, and an optional fifth letter naming the promotion kind
    /// case-insensitively, colored by the side that moves.
    pub open spec fn spec_from_algebraic(white: bool, s: Seq<char>) -> Option<Move> {
        if s.len() < 4 {
            None
        } else {
            match (
                spec_square_from_algebraic(s.subrange(0, 2)),
                spec_square_from_algebraic(s.subrange(2, 4)),
            ) {
                (Some(f), Some(t)) => Some(
                    Move {
                        from: f,
                        to: t,
                        promote_to: if s.len() >= 5 {
                            spec_promotion_piece(white, s[4])
                        } else {
                            None
                        },
                    },
                ),
                _ => None,
            }
        }
    }

    /// Read a move from long algebraic notation for the side to move: the
    /// promotion letter's kind is looked up regardless of case and the
    /// promoted piece takes the mover's color, so this parser inverts
    /// [`Move::to_algebraic`]. Returns `None` when the string is shorter
    /// than four characters or either square name is invalid.
    pub fn from_algebraic(white: bool, long_algebraic: &str) -> (r: Option<Move>)
        ensures
            r == Self::spec_from_algebraic(white, long_algebraic@),
    {
        let cs = str_chars(long_algebraic);
        if cs.len() < 4 {
            return None;
        }
        proof {
            assert(cs@.subrange(0, 2) =~= seq![cs@[0], cs@[1]]);
            assert(cs@.subrange(2, 4) =~= seq![cs@[2], cs@[3]]);
        }
        let from = crate::square::square_from_chars(cs[0], cs[1]);
        let to = crate::square::square_from_chars(cs[2], cs[3]);
        match (from, to) {
            (Some(f), Some(t)) => {
                let promote_to = if cs.len() >= 5 {
                    match Piece::from_char(&cs[4]) {
                        Some(p) => Some(recolored(white, p)),
                        None => None,
                    }
                } else {
                    None
                };
                Some(Move { from: f, to: t, promote_to })
            },
            _ => None,
        }
    }
}

/// The piece of the same kind as `p`, in the given color.
fn recolored(white: bool, p: Piece) -> (r: Piece)
    ensures
        r == color_piece(white, p.kind()),
{
    match p {
        Piece::PawnWhite | Piece::PawnBlack => if white {
            Piece::PawnWhite
        } else {
            Piece::PawnBlack
        },
        Piece::KnightWhite | Piece::KnightBlack => if white {
            Piece::KnightWhite
        } else {
            Piece::KnightBlack
        },
        Piece::BishopWhite | Piece::BishopBlack => if white {
            Piece::BishopWhite
        } else {
            Piece::BishopBlack
        },
        Piece::RookWhite | Piece::RookBlack => if white {
            Piece::RookWhite
        } else {
            Piece::RookBlack
        },
        Piece::QueenWhite | Piece::QueenBlack => if white {
            Piece::QueenWhite
        } else {
            Piece::QueenBlack
        },
        Piece::KingWhite | Piece::KingBlack => if white {
            Piece::KingWhite
        } else {
            Piece::KingBlack
        },
    }
}

} // verus!
