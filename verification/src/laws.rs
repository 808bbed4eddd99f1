//! General properties of the move generator, stated and proved over the
//! rule model that the public functions' contracts use.

use vstd::prelude::*;
use crate::fen::{lemma_fen_round_trip, spec_from_fen, spec_to_fen};
use crate::model::BoardModel;
use crate::moves::{spec_promotion_piece, Move};
use crate::rules::{leaves_mover_in_check, spec_apply, spec_in_check, spec_legal, spec_pseudo_legal};
use crate::square::{lemma_square_algebraic_round_trip, spec_square_chars};

verus! {

/// Every legal move is pseudo-legal: the legal move set of a position is a
/// subset of its pseudo-legal move set.
pub proof fn lemma_legal_subset_of_pseudo(m: BoardModel, mv: Move)
    requires
        spec_legal(m, mv),
    ensures
        spec_pseudo_legal(m, mv),
{
}

/// King safety decides legality: a pseudo-legal move is legal exactly when
/// applying it to the position leaves the mover's own king unattacked.
pub proof fn lemma_king_safety(m: BoardModel, mv: Move)
    requires
        spec_pseudo_legal(m, mv),
    ensures
        spec_legal(m, mv) <==> !spec_in_check(spec_apply(m, mv), m.white_to_move),
{
    assert(leaves_mover_in_check(m, mv) == spec_in_check(spec_apply(m, mv), m.white_to_move));
}

/// Round-trip: decoding a FEN string produced by the encoder succeeds, and
/// re-encoding the decoded position reproduces the original string exactly.
pub proof fn lemma_fen_reencode(m: BoardModel)
    requires
        m.wf(),
    ensures
        spec_from_fen(spec_to_fen(m)) matches Some(b) && spec_to_fen(b) == spec_to_fen(m),
{
    lemma_fen_round_trip(m);
}

/// No pseudo-legal move stands still or leaves the board: its two squares
/// differ and both lie among the 64 cells.
pub proof fn lemma_pseudo_legal_in_range(m: BoardModel, mv: Move)
    requires
        spec_pseudo_legal(m, mv),
    ensures
        mv.from < 64,
        mv.to < 64,
        mv.from != mv.to,
{
    crate::rules::lemma_piece_move_bounds(
        m,
        m.placement[mv.from as int]->Some_0,
        mv.from as int,
        false,
        mv,
    );
}

/// Round-trip of the move text pair: the side-aware parser inverts the
/// writer on every move whose promotion piece, if any, is the mover's.
pub proof fn lemma_move_text_round_trip(white: bool, mv: Move)
    requires
        mv.from < 64,
        mv.to < 64,
        mv.promote_to matches Some(p) ==> p.spec_white() == white,
    ensures
        Move::spec_from_algebraic(white, mv.spec_text()) == Some(mv),
{
    let s = mv.spec_text();
    assert(s.subrange(0, 2) =~= spec_square_chars(mv.from as int));
    assert(s.subrange(2, 4) =~= spec_square_chars(mv.to as int));
    lemma_square_algebraic_round_trip(mv.from as int);
    lemma_square_algebraic_round_trip(mv.to as int);
    match mv.promote_to {
        Some(p) => {
            assert(s.len() == 5);
            assert(s[4] == crate::moves::spec_lower_char(p));
            assert(spec_promotion_piece(white, s[4]) == Some(p));
        },
        None => {
            assert(s.len() == 4);
        },
    }
}

} // verus!
