//! The twelve chess pieces: six kinds in two colors.

use vstd::prelude::*;

verus! {

/// Every type of piece in chess.
#[derive(Debug, PartialEq, Eq, Structural, Clone, Copy, Hash)]
pub enum Piece {
    PawnWhite,
    KnightWhite,
    BishopWhite,
    RookWhite,
    QueenWhite,
    KingWhite,
    PawnBlack,
    KnightBlack,
    BishopBlack,
    RookBlack,
    QueenBlack,
    KingBlack,
}

/// A piece kind, disregarding color; used by the specifications.
#[derive(Debug, PartialEq, Eq, Structural, Clone, Copy, Hash)]
pub enum PieceKind {
    Pawn,
    Knight,
    Bishop,
    Rook,
    Queen,
    King,
}

impl Piece {
    /// Whether this piece is white, as a specification-level predicate.
    pub open spec fn spec_white(self) -> bool {
        match self {
            Piece::PawnWhite => true,
            Piece::KnightWhite => true,
            Piece::BishopWhite => true,
            Piece::RookWhite => true,
            Piece::QueenWhite => true,
            Piece::KingWhite => true,
            Piece::PawnBlack => false,
            Piece::KnightBlack => false,
            Piece::BishopBlack => false,
            Piece::RookBlack => false,
            Piece::QueenBlack => false,
            Piece::KingBlack => false,
        }
    }

    /// The kind of this piece, disregarding color.
    pub open spec fn kind(self) -> PieceKind {
        match self {
            Piece::PawnWhite => PieceKind::Pawn,
            Piece::KnightWhite => PieceKind::Knight,
            Piece::BishopWhite => PieceKind::Bishop,
            Piece::RookWhite => PieceKind::Rook,
            Piece::QueenWhite => PieceKind::Queen,
            Piece::KingWhite => PieceKind::King,
            Piece::PawnBlack => PieceKind::Pawn,
            Piece::KnightBlack => PieceKind::Knight,
            Piece::BishopBlack => PieceKind::Bishop,
            Piece::RookBlack => PieceKind::Rook,
            Piece::QueenBlack => PieceKind::Queen,
            Piece::KingBlack => PieceKind::King,
        }
    }

    /// The FEN letter of this piece: white pieces are upper case, black lower case.
    pub open spec fn spec_char(self) -> char {
        match self {
            Piece::PawnWhite => 'P',
            Piece::KnightWhite => 'N',
            Piece::BishopWhite => 'B',
            Piece::RookWhite => 'R',
            Piece::QueenWhite => 'Q',
            Piece::KingWhite => 'K',
            Piece::PawnBlack => 'p',
            Piece::KnightBlack => 'n',
            Piece::BishopBlack => 'b',
            Piece::RookBlack => 'r',
            Piece::QueenBlack => 'q',
            Piece::KingBlack => 'k',
        }
    }

    /// The piece denoted by a FEN letter, or `None` for any other character.
    pub open spec fn spec_from_char(c: char) -> Option<Piece> {
        match c {
            'P' => Some(Piece::PawnWhite),
            'N' => Some(Piece::KnightWhite),
            'B' => Some(Piece::BishopWhite),
            'R' => Some(Piece::RookWhite),
            'Q' => Some(Piece::QueenWhite),
            'K' => Some(Piece::KingWhite),
            'p' => Some(Piece::PawnBlack),
            'n' => Some(Piece::KnightBlack),
            'b' => Some(Piece::BishopBlack),
            'r' => Some(Piece::RookBlack),
            'q' => Some(Piece::QueenBlack),
            'k' => Some(Piece::KingBlack),
            _ => None,
        }
    }

    /// Converts a FEN notation char to a Piece.
    /// Example: 'p' -> PawnBlack
    /// Example: 'K' -> KingWhite
    pub fn from_char(c: &char) -> (r: Option<Self>)
        ensures
            r == Self::spec_from_char(*c),
    {
        match *c {
            'P' => Some(Piece::PawnWhite),
            'N' => Some(Piece::KnightWhite),
            'B' => Some(Piece::BishopWhite),
            'R' => Some(Piece::RookWhite),
            'Q' => Some(Piece::QueenWhite),
            'K' => Some(Piece::KingWhite),
            'p' => Some(Piece::PawnBlack),
            'n' => Some(Piece::KnightBlack),
            'b' => Some(Piece::BishopBlack),
            'r' => Some(Piece::RookBlack),
            'q' => Some(Piece::QueenBlack),
            'k' => Some(Piece::KingBlack),
            _ => None,
        }
    }

    /// Converts this piece to its FEN notation char.
    /// Example: PawnBlack -> 'p'
    /// Example: KingWhite -> 'K'
    pub fn to_char(&self) -> (r: char)
        ensures
            r == self.spec_char(),
    {
        match *self {
            Piece::PawnWhite => 'P',
            Piece::KnightWhite => 'N',
            Piece::BishopWhite => 'B',
            Piece::RookWhite => 'R',
            Piece::QueenWhite => 'Q',
            Piece::KingWhite => 'K',
            Piece::PawnBlack => 'p',
            Piece::KnightBlack => 'n',
            Piece::BishopBlack => 'b',
            Piece::RookBlack => 'r',
            Piece::QueenBlack => 'q',
            Piece::KingBlack => 'k',
        }
    }

    /// Tells whether this piece is white.
    pub fn is_white(&self) -> (r: bool)
        ensures
            r == self.spec_white(),
    {
        match *self {
            Piece::PawnWhite => true,
            Piece::KnightWhite => true,
            Piece::BishopWhite => true,
            Piece::RookWhite => true,
            Piece::QueenWhite => true,
            Piece::KingWhite => true,
            Piece::PawnBlack => false,
            Piece::KnightBlack => false,
            Piece::BishopBlack => false,
            Piece::RookBlack => false,
            Piece::QueenBlack => false,
            Piece::KingBlack => false,
        }
    }

    /// Check if another piece is of the same kind, regardless of color.
    /// For instance, are both rooks?
    pub fn is_same_kind(&self, other: &Piece) -> (r: bool)
        ensures
            r == (self.kind() == other.kind()),
    {
        match *self {
            Piece::PawnWhite | Piece::PawnBlack => matches!(
                *other,
                Piece::PawnWhite | Piece::PawnBlack
            ),
            Piece::KnightWhite | Piece::KnightBlack => matches!(
                *other,
                Piece::KnightWhite | Piece::KnightBlack
            ),
            Piece::BishopWhite | Piece::BishopBlack => matches!(
                *other,
                Piece::BishopWhite | Piece::BishopBlack
            ),
            Piece::RookWhite | Piece::RookBlack => matches!(
                *other,
                Piece::RookWhite | Piece::RookBlack
            ),
            Piece::QueenWhite | Piece::QueenBlack => matches!(
                *other,
                Piece::QueenWhite | Piece::QueenBlack
            ),
            Piece::KingWhite | Piece::KingBlack => matches!(
                *other,
                Piece::KingWhite | Piece::KingBlack
            ),
        }
    }
}

} // verus!
