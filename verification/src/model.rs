//! The mathematical model of a chess position, used by all contracts.

use vstd::prelude::*;
use crate::piece::Piece;
use crate::square::Square;

verus! {

/// The state of a chess position: the placement of pieces on the 64 squares,
/// the side to move, the en-passant target square, the four castling rights,
/// and the two move clocks.
#[verifier::ext_equal]
pub struct BoardModel {
    /// What stands on each of the 64 squares, indexed 0-63.
    pub placement: Seq<Option<Piece>>,
    /// Whether white is the side to move.
    pub white_to_move: bool,
    /// The square a pawn skipped over on its immediately preceding two-square
    /// advance, if any; eligible for en-passant capture this move only.
    pub en_passant: Option<Square>,
    /// Whether white may still castle king-side.
    pub castle_wk: bool,
    /// Whether white may still castle queen-side.
    pub castle_wq: bool,
    /// Whether black may still castle king-side.
    pub castle_bk: bool,
    /// Whether black may still castle queen-side.
    pub castle_bq: bool,
    /// Count of half-moves since the last pawn move or capture.
    pub halfmove_clock: u32,
    /// The full-move number, incremented after each of black's moves.
    pub fullmove_number: u32,
}

impl BoardModel {
    /// Structural well-formedness: one entry per square, and the en-passant
    /// target, when present, names a board square.
    pub open spec fn wf(self) -> bool {
        &&& self.placement.len() == 64
        &&& (self.en_passant matches Some(sq) ==> sq < 64)
    }

    /// The piece on square `sq`, if any.
    pub open spec fn at(self, sq: int) -> Option<Piece>
        recommends
            self.wf(),
            0 <= sq < 64,
    {
        self.placement[sq]
    }

    /// The blank position: all squares empty, white to move, every castling
    /// right held, no en-passant target, both clocks zero.
    pub open spec fn blank() -> BoardModel {
        BoardModel {
            placement: Seq::new(64, |i: int| None::<Piece>),
            white_to_move: true,
            en_passant: None,
            castle_wk: true,
            castle_wq: true,
            castle_bk: true,
            castle_bq: true,
            halfmove_clock: 0,
            fullmove_number: 0,
        }
    }
}

/// Whether `o` holds a piece of the given color.
pub open spec fn is_color(o: Option<Piece>, white: bool) -> bool {
    o matches Some(p) && p.spec_white() == white
}

} // verus!
