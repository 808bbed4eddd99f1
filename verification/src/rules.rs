//! The rules of chess, as specification-level predicates over [`BoardModel`]:
//! piece movement patterns, check detection, castling, the pseudo-legal and
//! legal move relations, and the state transition of applying a move.

use vstd::prelude::*;
use crate::model::{is_color, BoardModel};
use crate::moves::Move;
use crate::piece::{Piece, PieceKind};
use crate::square::{file_of, on_board, rank_of, Square};

verus! {

/// The distance between two integers.
pub open spec fn dist(a: int, b: int) -> int {
    if a < b {
        b - a
    } else {
        a - b
    }
}

/// A knight's jump: two squares along one axis and one along the other.
pub open spec fn knight_jump(s: int, t: int) -> bool {
    &&& on_board(s)
    &&& on_board(t)
    &&& {
        let dr = dist(rank_of(s), rank_of(t));
        let df = dist(file_of(s), file_of(t));
        (dr == 2 && df == 1) || (dr == 1 && df == 2)
    }
}

/// A king's step: to any of the up to eight surrounding squares.
pub open spec fn king_step(s: int, t: int) -> bool {
    &&& on_board(s)
    &&& on_board(t)
    &&& s != t
    &&& dist(rank_of(s), rank_of(t)) <= 1
    &&& dist(file_of(s), file_of(t)) <= 1
}

/// How one coordinate relates to another along a ray direction component
/// `d` of -1, 0 or 1: equal, or strictly beyond in the direction's sense.
pub open spec fn step_rel(a: int, b: int, d: int) -> bool {
    if d == 0 {
        b == a
    } else if d == 1 {
        b > a
    } else {
        b < a
    }
}

/// Whether `t` lies on the ray from `s` in direction `(sr, sf)` (each
/// component -1, 0 or 1, not both 0), strictly after `s`.
pub open spec fn on_ray(s: int, t: int, sr: int, sf: int) -> bool {
    &&& step_rel(rank_of(s), rank_of(t), sr)
    &&& step_rel(file_of(s), file_of(t), sf)
    &&& (sr != 0 && sf != 0 ==> dist(rank_of(s), rank_of(t)) == dist(file_of(s), file_of(t)))
}

/// Whether every square strictly between `s` and `t` on the ray in
/// direction `(sr, sf)` is vacant.
pub open spec fn ray_clear(m: BoardModel, s: int, t: int, sr: int, sf: int) -> bool {
    forall|u: int|
        on_board(u) && on_ray(s, u, sr, sf) && on_ray(u, t, sr, sf) ==> (#[trigger] m.placement[u]) is None
}

/// A sliding step from `s` to `t` along direction `(sr, sf)`: `t` is on the
/// ray and the squares strictly between are vacant.
pub open spec fn ray_move(m: BoardModel, s: int, t: int, sr: int, sf: int) -> bool {
    &&& on_board(s)
    &&& on_board(t)
    &&& on_ray(s, t, sr, sf)
    &&& ray_clear(m, s, t, sr, sf)
}

/// A rook's movement pattern: along a rank or a file, over vacant squares.
pub open spec fn rook_move(m: BoardModel, s: int, t: int) -> bool {
    ||| ray_move(m, s, t, 0, 1)
    ||| ray_move(m, s, t, 0, -1)
    ||| ray_move(m, s, t, 1, 0)
    ||| ray_move(m, s, t, -1, 0)
}

/// A bishop's movement pattern: along a diagonal, over vacant squares.
pub open spec fn bishop_move(m: BoardModel, s: int, t: int) -> bool {
    ||| ray_move(m, s, t, 1, 1)
    ||| ray_move(m, s, t, 1, -1)
    ||| ray_move(m, s, t, -1, 1)
    ||| ray_move(m, s, t, -1, -1)
}

/// A queen's movement pattern: that of a rook or of a bishop.
pub open spec fn queen_move(m: BoardModel, s: int, t: int) -> bool {
    rook_move(m, s, t) || bishop_move(m, s, t)
}

/// The direction a pawn of the given color advances in: +1 rank for white.
pub open spec fn pawn_dir(white: bool) -> int {
    if white {
        1
    } else {
        -1
    }
}

/// The rank a pawn of the given color starts on, from which it may leap.
pub open spec fn pawn_start_rank(white: bool) -> int {
    if white {
        1
    } else {
        6
    }
}

/// The rank on which a pawn of the given color promotes.
pub open spec fn last_rank(white: bool) -> int {
    if white {
        7
    } else {
        0
    }
}

/// A pawn push: one square forward onto a vacant square, or two squares
/// forward from the starting rank when both squares ahead are vacant.
pub open spec fn pawn_push(m: BoardModel, white: bool, s: int, t: int) -> bool {
    &&& on_board(s)
    &&& on_board(t)
    &&& file_of(t) == file_of(s)
    &&& m.placement[t] is None
    &&& {
        ||| rank_of(t) == rank_of(s) + pawn_dir(white)
        ||| (rank_of(s) == pawn_start_rank(white) && rank_of(t) == rank_of(s) + 2 * pawn_dir(
            white,
        ) && m.placement[s + 8 * pawn_dir(white)] is None)
    }
}

/// The squares a pawn of the given color standing on `s` bears on:
/// one rank forward, one file aside.
pub open spec fn pawn_capture_step(white: bool, s: int, t: int) -> bool {
    &&& on_board(s)
    &&& on_board(t)
    &&& rank_of(t) == rank_of(s) + pawn_dir(white)
    &&& dist(file_of(s), file_of(t)) == 1
}

/// A pawn capture: diagonally forward onto an enemy piece, or onto the
/// en-passant target square even though that square is vacant.
pub open spec fn pawn_capture(m: BoardModel, white: bool, s: int, t: int) -> bool {
    &&& pawn_capture_step(white, s, t)
    &&& (is_color(m.placement[t], !white) || m.en_passant == Some(t as Square))
}

/// A pawn's movement pattern: a push or a capture.
pub open spec fn pawn_move(m: BoardModel, white: bool, s: int, t: int) -> bool {
    pawn_push(m, white, s, t) || pawn_capture(m, white, s, t)
}

/// A correct promotion field for a pawn of the given color arriving on
/// square `t`: on the last rank, one of the four promotion pieces of the
/// mover's color; anywhere else, no promotion.
pub open spec fn promotion_ok(white: bool, t: int, promote_to: Option<Piece>) -> bool {
    if rank_of(t) == last_rank(white) {
        promote_to matches Some(pp) && {
            ||| pp == (if white { Piece::KnightWhite } else { Piece::KnightBlack })
            ||| pp == (if white { Piece::BishopWhite } else { Piece::BishopBlack })
            ||| pp == (if white { Piece::RookWhite } else { Piece::RookBlack })
            ||| pp == (if white { Piece::QueenWhite } else { Piece::QueenBlack })
        }
    } else {
        promote_to is None
    }
}

/// The movement pattern of `p` from `s` to `t`, together with the occupancy
/// rules for the destination; castling is not included.
pub open spec fn piece_dest(m: BoardModel, p: Piece, s: int, t: int) -> bool {
    match p.kind() {
        PieceKind::Pawn => pawn_move(m, p.spec_white(), s, t),
        PieceKind::Knight => knight_jump(s, t) && !is_color(m.placement[t], p.spec_white()),
        PieceKind::Bishop => bishop_move(m, s, t) && !is_color(m.placement[t], p.spec_white()),
        PieceKind::Rook => rook_move(m, s, t) && !is_color(m.placement[t], p.spec_white()),
        PieceKind::Queen => queen_move(m, s, t) && !is_color(m.placement[t], p.spec_white()),
        PieceKind::King => king_step(s, t) && !is_color(m.placement[t], p.spec_white()),
    }
}

/// Whether a piece of the given kind and color standing on `s` would bear on
/// square `t`: the capture pattern of `p`, regardless of what stands on `t`.
pub open spec fn attack_step(m: BoardModel, p: Piece, s: int, t: int) -> bool {
    match p.kind() {
        PieceKind::Pawn => pawn_capture_step(p.spec_white(), s, t),
        PieceKind::Knight => knight_jump(s, t),
        PieceKind::Bishop => bishop_move(m, s, t),
        PieceKind::Rook => rook_move(m, s, t),
        PieceKind::Queen => queen_move(m, s, t),
        PieceKind::King => king_step(s, t),
    }
}

/// Whether any piece of the given color attacks square `sq`.
pub open spec fn square_attacked(m: BoardModel, sq: int, by_white: bool) -> bool {
    exists|s: int|
        on_board(s) && is_color(#[trigger] m.placement[s], by_white) && attack_step(
            m,
            m.placement[s]->Some_0,
            s,
            sq,
        )
}

/// The lowest-indexed square at or after `i` holding the king of the given
/// color, if any.
pub open spec fn first_king_from(m: BoardModel, white: bool, i: int) -> Option<int>
    decreases 64 - i,
{
    if i < 0 || i >= 64 {
        None
    } else if m.placement[i] == Some(if white { Piece::KingWhite } else { Piece::KingBlack }) {
        Some(i)
    } else {
        first_king_from(m, white, i + 1)
    }
}

/// Whether the king of the given color is attacked. A position with no such
/// king is never in check; when several stand on the board the lowest-indexed
/// one is the one examined.
pub open spec fn spec_in_check(m: BoardModel, white: bool) -> bool {
    match first_king_from(m, white, 0) {
        Some(k) => square_attacked(m, k, !white),
        None => false,
    }
}

/// The position after applying `mv`: the piece on the source square is moved
/// (or replaced by the promoted piece), a pawn captured en passant is
/// removed, the rook accompanies a castling king, the en-passant target,
/// castling rights and clocks are updated, and the side to move flips.
/// A move from a vacant square leaves the position unchanged.
pub open spec fn spec_apply(m: BoardModel, mv: Move) -> BoardModel
    recommends
        m.wf(),
        mv.from < 64,
        mv.to < 64,
{
    let from = mv.from as int;
    let to = mv.to as int;
    match m.placement[from] {
        None => m,
        Some(piece) => {
            let is_capture = m.placement[to] is Some;
            let is_pawn = piece.kind() == PieceKind::Pawn;
            let p1 = m.placement.update(from, None).update(
                to,
                match mv.promote_to {
                    Some(pp) => Some(pp),
                    None => Some(piece),
                },
            );
            let cap_sq = ep_capture_square(m, mv);
            let p2 = match cap_sq {
                Some(c) => p1.update(c as int, None),
                None => p1,
            };
            let p3 = if piece == Piece::KingWhite && from == 4 && to == 2 {
                p2.update(0, None).update(3, Some(Piece::RookWhite))
            } else if piece == Piece::KingWhite && from == 4 && to == 6 {
                p2.update(7, None).update(5, Some(Piece::RookWhite))
            } else if piece == Piece::KingBlack && from == 60 && to == 58 {
                p2.update(56, None).update(59, Some(Piece::RookBlack))
            } else if piece == Piece::KingBlack && from == 60 && to == 62 {
                p2.update(63, None).update(61, Some(Piece::RookBlack))
            } else {
                p2
            };
            let new_ep: Option<Square> = if is_pawn && to - from == 16 {
                Some((from + 8) as Square)
            } else if is_pawn && to - from == -16 {
                Some((from - 8) as Square)
            } else {
                None
            };
            BoardModel {
                placement: p3,
                white_to_move: !m.white_to_move,
                en_passant: new_ep,
                castle_wk: m.castle_wk && !(piece == Piece::KingWhite || from == 7 || to == 7),
                castle_wq: m.castle_wq && !(piece == Piece::KingWhite || from == 0 || to == 0),
                castle_bk: m.castle_bk && !(piece == Piece::KingBlack || from == 63 || to == 63),
                castle_bq: m.castle_bq && !(piece == Piece::KingBlack || from == 56 || to == 56),
                halfmove_clock: if is_pawn || is_capture {
                    0
                } else {
                    (m.halfmove_clock + 1) as u32
                },
                fullmove_number: if !m.white_to_move {
                    (m.fullmove_number + 1) as u32
                } else {
                    m.fullmove_number
                },
            }
        },
    }
}

/// The square of a pawn captured en passant by `mv`, if any: `mv` moves a
/// pawn that changes file without landing on a piece, so the captured pawn
/// sits one rank behind the destination, on the mover's side.
pub open spec fn ep_capture_square(m: BoardModel, mv: Move) -> Option<Square>
    recommends
        m.wf(),
        mv.from < 64,
        mv.to < 64,
{
    let from = mv.from as int;
    let to = mv.to as int;
    match m.placement[from] {
        Some(piece) => {
            if piece.kind() == PieceKind::Pawn && file_of(from) != file_of(to)
                && m.placement[to] is None {
                let c = if m.white_to_move {
                    to - 8
                } else {
                    to + 8
                };
                if on_board(c) {
                    Some(c as Square)
                } else {
                    None
                }
            } else {
                None
            }
        },
        None => None,
    }
}

/// The (from, to) relocations reported for `mv`: the moving piece unless the
/// move promotes, and the rook's relocation when the king castles.
pub open spec fn spec_moved_pieces(m: BoardModel, mv: Move) -> Seq<(Square, Square)>
    recommends
        m.wf(),
        mv.from < 64,
        mv.to < 64,
{
    match m.placement[mv.from as int] {
        None => seq![],
        Some(piece) => {
            let base: Seq<(Square, Square)> = if mv.promote_to is Some {
                seq![]
            } else {
                seq![(mv.from, mv.to)]
            };
            if piece == Piece::KingWhite && mv.from == 4 && mv.to == 2 {
                base.push((0u8, 3u8))
            } else if piece == Piece::KingWhite && mv.from == 4 && mv.to == 6 {
                base.push((7u8, 5u8))
            } else if piece == Piece::KingBlack && mv.from == 60 && mv.to == 58 {
                base.push((56u8, 59u8))
            } else if piece == Piece::KingBlack && mv.from == 60 && mv.to == 62 {
                base.push((63u8, 61u8))
            } else {
                base
            }
        },
    }
}

/// The squares reported as emptied by `mv`: the destination when it held a
/// piece, the source when the move promotes, and the square of a pawn
/// captured en passant.
pub open spec fn spec_removed_pieces(m: BoardModel, mv: Move) -> Seq<Square>
    recommends
        m.wf(),
        mv.from < 64,
        mv.to < 64,
{
    match m.placement[mv.from as int] {
        None => seq![],
        Some(piece) => {
            let s1: Seq<Square> = if m.placement[mv.to as int] is Some {
                seq![mv.to]
            } else {
                seq![]
            };
            let s2 = if mv.promote_to is Some {
                s1.push(mv.from)
            } else {
                s1
            };
            match ep_capture_square(m, mv) {
                Some(c) => s2.push(c),
                None => s2,
            }
        },
    }
}

/// The (square, piece) additions reported for `mv`: the promoted piece, when
/// the move promotes.
pub open spec fn spec_added_pieces(m: BoardModel, mv: Move) -> Seq<(Square, Piece)>
    recommends
        m.wf(),
        mv.from < 64,
        mv.to < 64,
{
    match m.placement[mv.from as int] {
        None => seq![],
        Some(_) => match mv.promote_to {
            Some(pp) => seq![(mv.to, pp)],
            None => seq![],
        },
    }
}

/// Whether, after applying `mv`, the side that made it has its king attacked.
pub open spec fn leaves_mover_in_check(m: BoardModel, mv: Move) -> bool {
    spec_in_check(spec_apply(m, mv), m.white_to_move)
}

/// A castling candidate move of the side to move, rooted at the king's home
/// square `s`: the corresponding right is still held, the squares strictly
/// between king and rook-corner are vacant, the king is not currently in
/// check, and its one-square transit move would not leave it in check.
/// Whether the king's destination square is attacked is left to the
/// legality filter.
pub open spec fn castle_move(m: BoardModel, s: int, mv: Move) -> bool {
    mv.promote_to is None && mv.from == s as Square && {
        ||| (m.white_to_move && s == 4 && mv.to == 2 && m.placement[4] == Some(Piece::KingWhite)
            && m.castle_wq && m.placement[1] is None
            && m.placement[2] is None && m.placement[3] is None && !spec_in_check(m, true)
            && !leaves_mover_in_check(m, Move { from: 4, to: 3, promote_to: None }))
        ||| (m.white_to_move && s == 4 && mv.to == 6 && m.placement[4] == Some(Piece::KingWhite)
            && m.castle_wk && m.placement[5] is None
            && m.placement[6] is None && !spec_in_check(m, true) && !leaves_mover_in_check(
            m,
            Move { from: 4, to: 5, promote_to: None },
        ))
        ||| (!m.white_to_move && s == 60 && mv.to == 58 && m.placement[60] == Some(
            Piece::KingBlack,
        ) && m.castle_bq && m.placement[57] is None
            && m.placement[58] is None && m.placement[59] is None && !spec_in_check(m, false)
            && !leaves_mover_in_check(m, Move { from: 60, to: 59, promote_to: None }))
        ||| (!m.white_to_move && s == 60 && mv.to == 62 && m.placement[60] == Some(
            Piece::KingBlack,
        ) && m.castle_bk && m.placement[61] is None
            && m.placement[62] is None && !spec_in_check(m, false) && !leaves_mover_in_check(
            m,
            Move { from: 60, to: 61, promote_to: None },
        ))
    }
}

/// The pseudo-legal moves of piece `p` standing on square `s`: its movement
/// pattern with promotion expansion, and, for a king, castling candidates
/// unless `skip_castling` is set.
pub open spec fn piece_move(
    m: BoardModel,
    p: Piece,
    s: int,
    skip_castling: bool,
    mv: Move,
) -> bool {
    &&& on_board(s)
    &&& mv.from == s as Square
    &&& {
        ||| {
            &&& piece_dest(m, p, s, mv.to as int)
            &&& if p.kind() == PieceKind::Pawn {
                promotion_ok(p.spec_white(), mv.to as int, mv.promote_to)
            } else {
                mv.promote_to is None
            }
        }
        ||| (p.kind() == PieceKind::King && !skip_castling && castle_move(m, s, mv))
    }
}

/// The pseudo-legal move relation: `mv` moves a piece of the side to move
/// according to its movement rules, ignoring king safety (except for the
/// conditions built into castling candidates).
pub open spec fn spec_pseudo_legal(m: BoardModel, mv: Move) -> bool {
    &&& on_board(mv.from as int)
    &&& is_color(m.placement[mv.from as int], m.white_to_move)
    &&& piece_move(m, m.placement[mv.from as int]->Some_0, mv.from as int, false, mv)
}

/// The legal move relation: pseudo-legal, and the mover's king is not
/// attacked afterwards.
pub open spec fn spec_legal(m: BoardModel, mv: Move) -> bool {
    spec_pseudo_legal(m, mv) && !leaves_mover_in_check(m, mv)
}


/// The piece of the given color and kind.
pub open spec fn color_piece(white: bool, k: PieceKind) -> Piece {
    match k {
        PieceKind::Pawn => if white { Piece::PawnWhite } else { Piece::PawnBlack },
        PieceKind::Knight => if white { Piece::KnightWhite } else { Piece::KnightBlack },
        PieceKind::Bishop => if white { Piece::BishopWhite } else { Piece::BishopBlack },
        PieceKind::Rook => if white { Piece::RookWhite } else { Piece::RookBlack },
        PieceKind::Queen => if white { Piece::QueenWhite } else { Piece::QueenBlack },
        PieceKind::King => if white { Piece::KingWhite } else { Piece::KingBlack },
    }
}

/// Whether a hypothetical piece `p` standing on `s` could capture an enemy
/// piece of its own kind on square `t`. This is the move-generator reuse at
/// the heart of check detection.
pub open spec fn capture_detected(m: BoardModel, p: Piece, s: int, t: int) -> bool {
    &&& on_board(t)
    &&& piece_dest(m, p, s, t)
    &&& (m.placement[t] matches Some(q) && q.spec_white() != p.spec_white() && q.kind() == p.kind())
}

/// Whether the substitution trick detects a check against `s` with kind of `p`.
pub open spec fn detects_with(m: BoardModel, p: Piece, s: int) -> bool {
    exists|t: int| capture_detected(m, p, s, t)
}

/// A sliding step read backwards is a sliding step in the opposite direction.
proof fn lemma_ray_move_sym(m: BoardModel, s: int, t: int, sr: int, sf: int)
    requires
        -1 <= sr <= 1,
        -1 <= sf <= 1,
        !(sr == 0 && sf == 0),
        ray_move(m, s, t, sr, sf),
    ensures
        ray_move(m, t, s, -sr, -sf),
{
    assert(on_ray(t, s, -sr, -sf));
    assert forall|u: int|
        on_board(u) && on_ray(t, u, -sr, -sf) && on_ray(u, s, -sr, -sf) implies (
    #[trigger] m.placement[u]) is None by {
        assert(on_ray(s, u, sr, sf));
        assert(on_ray(u, t, sr, sf));
    }
}

/// A rook's movement pattern is symmetric.
pub proof fn lemma_rook_move_sym(m: BoardModel, s: int, t: int)
    requires
        rook_move(m, s, t),
    ensures
        rook_move(m, t, s),
{
    if ray_move(m, s, t, 0, 1) {
        lemma_ray_move_sym(m, s, t, 0, 1);
    } else if ray_move(m, s, t, 0, -1) {
        lemma_ray_move_sym(m, s, t, 0, -1);
    } else if ray_move(m, s, t, 1, 0) {
        lemma_ray_move_sym(m, s, t, 1, 0);
    } else {
        lemma_ray_move_sym(m, s, t, -1, 0);
    }
}

/// A bishop's movement pattern is symmetric.
pub proof fn lemma_bishop_move_sym(m: BoardModel, s: int, t: int)
    requires
        bishop_move(m, s, t),
    ensures
        bishop_move(m, t, s),
{
    if ray_move(m, s, t, 1, 1) {
        lemma_ray_move_sym(m, s, t, 1, 1);
    } else if ray_move(m, s, t, 1, -1) {
        lemma_ray_move_sym(m, s, t, 1, -1);
    } else if ray_move(m, s, t, -1, 1) {
        lemma_ray_move_sym(m, s, t, -1, 1);
    } else {
        lemma_ray_move_sym(m, s, t, -1, -1);
    }
}

/// The six-piece-substitution trick is check detection: some enemy piece
/// attacks square `ksq` exactly when, for one of the six kinds, a piece of
/// that kind and the defender's color standing on `ksq` could capture an
/// enemy piece of the same kind.
pub proof fn lemma_check_by_substitution(m: BoardModel, ksq: int, white: bool)
    requires
        m.wf(),
        on_board(ksq),
    ensures
        square_attacked(m, ksq, !white) <==> {
            ||| detects_with(m, color_piece(white, PieceKind::Queen), ksq)
            ||| detects_with(m, color_piece(white, PieceKind::Bishop), ksq)
            ||| detects_with(m, color_piece(white, PieceKind::Rook), ksq)
            ||| detects_with(m, color_piece(white, PieceKind::Knight), ksq)
            ||| detects_with(m, color_piece(white, PieceKind::Pawn), ksq)
            ||| detects_with(m, color_piece(white, PieceKind::King), ksq)
        },
{
    if square_attacked(m, ksq, !white) {
        let a = choose|a: int|
            on_board(a) && is_color(#[trigger] m.placement[a], !white) && attack_step(
                m,
                m.placement[a]->Some_0,
                a,
                ksq,
            );
        let q = m.placement[a]->Some_0;
        let p = color_piece(white, q.kind());
        match q.kind() {
            PieceKind::Pawn => {
                assert(pawn_capture_step(white, ksq, a));
                assert(capture_detected(m, p, ksq, a));
            },
            PieceKind::Knight => {
                assert(capture_detected(m, p, ksq, a));
            },
            PieceKind::Bishop => {
                lemma_bishop_move_sym(m, a, ksq);
                assert(capture_detected(m, p, ksq, a));
            },
            PieceKind::Rook => {
                lemma_rook_move_sym(m, a, ksq);
                assert(capture_detected(m, p, ksq, a));
            },
            PieceKind::Queen => {
                if rook_move(m, a, ksq) {
                    lemma_rook_move_sym(m, a, ksq);
                } else {
                    lemma_bishop_move_sym(m, a, ksq);
                }
                assert(capture_detected(m, p, ksq, a));
            },
            PieceKind::King => {
                assert(capture_detected(m, p, ksq, a));
            },
        }
    }
    let kinds = [
        PieceKind::Queen,
        PieceKind::Bishop,
        PieceKind::Rook,
        PieceKind::Knight,
        PieceKind::Pawn,
        PieceKind::King,
    ];
    assert forall|k: PieceKind|
        #[trigger] detects_with(m, color_piece(white, k), ksq) implies square_attacked(
        m,
        ksq,
        !white,
    ) by {
        let p = color_piece(white, k);
        let t = choose|t: int| capture_detected(m, p, ksq, t);
        let q = m.placement[t]->Some_0;
        match k {
            PieceKind::Pawn => {
                assert(m.placement[t] is Some);
                assert(!pawn_push(m, white, ksq, t));
                assert(pawn_capture_step(white, ksq, t));
                assert(pawn_capture_step(!white, t, ksq));
                assert(attack_step(m, q, t, ksq));
            },
            PieceKind::Knight => {
                assert(attack_step(m, q, t, ksq));
            },
            PieceKind::Bishop => {
                lemma_bishop_move_sym(m, ksq, t);
                assert(attack_step(m, q, t, ksq));
            },
            PieceKind::Rook => {
                lemma_rook_move_sym(m, ksq, t);
                assert(attack_step(m, q, t, ksq));
            },
            PieceKind::Queen => {
                if rook_move(m, ksq, t) {
                    lemma_rook_move_sym(m, ksq, t);
                } else {
                    lemma_bishop_move_sym(m, ksq, t);
                }
                assert(attack_step(m, q, t, ksq));
            },
            PieceKind::King => {
                assert(attack_step(m, q, t, ksq));
            },
        }
        assert(is_color(m.placement[t], !white));
    }
}


/// Any move admitted by `piece_move` stays within the 64 squares.
pub proof fn lemma_piece_move_bounds(
    m: BoardModel,
    p: Piece,
    s: int,
    skip_castling: bool,
    mv: Move,
)
    requires
        piece_move(m, p, s, skip_castling, mv),
    ensures
        mv.from < 64,
        mv.to < 64,
{
    if !(p.kind() == PieceKind::King && !skip_castling && castle_move(m, s, mv)) {
        assert(piece_dest(m, p, s, mv.to as int));
    }
}


/// Whether the king of the given color stands somewhere on the board.
pub open spec fn has_king(m: BoardModel, white: bool) -> bool {
    first_king_from(m, white, 0) is Some
}

/// The en-passant invariant of a position: the target square, when present,
/// is a vacant board square, and the square one rank behind it (on the
/// mover's side) holds the pawn of the side not to move that just advanced.
pub open spec fn ep_coherent(m: BoardModel) -> bool {
    m.en_passant matches Some(t) ==> {
        let ts = t as int;
        let behind = if m.white_to_move {
            ts - 8
        } else {
            ts + 8
        };
        &&& on_board(ts)
        &&& m.placement[ts] is None
        &&& on_board(behind)
        &&& m.placement[behind] == Some(
            if m.white_to_move {
                Piece::PawnBlack
            } else {
                Piece::PawnWhite
            },
        )
    }
}

/// Where the king search finds a king, a king stands.
pub proof fn lemma_first_king_is_king(m: BoardModel, white: bool, i: int)
    requires
        first_king_from(m, white, i) is Some,
    ensures
        ({
            let k = first_king_from(m, white, i)->Some_0;
            &&& i <= k < 64
            &&& m.placement[k] == Some(
                if white {
                    Piece::KingWhite
                } else {
                    Piece::KingBlack
                },
            )
        }),
    decreases 64 - i,
{
    if !(i < 0 || i >= 64) && m.placement[i] != Some(
        if white {
            Piece::KingWhite
        } else {
            Piece::KingBlack
        },
    ) {
        lemma_first_king_is_king(m, white, i + 1);
    }
}

/// A king standing anywhere at or after `i` is found by the king search.
pub proof fn lemma_king_is_found(m: BoardModel, white: bool, i: int, k: int)
    requires
        0 <= i <= k < 64,
        m.placement[k] == Some(
            if white {
                Piece::KingWhite
            } else {
                Piece::KingBlack
            },
        ),
    ensures
        first_king_from(m, white, i) is Some,
    decreases k - i,
{
    if i < k {
        lemma_king_is_found(m, white, i + 1, k);
    }
}

/// Applying a pseudo-legal move keeps the mover's king on the board: the
/// mover's own pieces never land on it, and under the en-passant invariant
/// the pawn removed en passant is the opponent's.
pub proof fn lemma_apply_keeps_mover_king(m: BoardModel, mv: Move)
    requires
        m.wf(),
        spec_pseudo_legal(m, mv),
        has_king(m, m.white_to_move),
        m.placement[mv.from as int]->Some_0.kind() == PieceKind::Pawn ==> ep_coherent(m),
    ensures
        has_king(spec_apply(m, mv), m.white_to_move),
{
    let white = m.white_to_move;
    let king = if white {
        Piece::KingWhite
    } else {
        Piece::KingBlack
    };
    let from = mv.from as int;
    let to = mv.to as int;
    let p = m.placement[from]->Some_0;
    let after = spec_apply(m, mv);
    lemma_piece_move_bounds(m, p, from, false, mv);
    if p.kind() == PieceKind::King {
        // the moving king itself stands on the destination afterwards
        assert(p == king);
        assert(mv.promote_to is None);
        assert(ep_capture_square(m, mv) is None);
        assert(after.placement[to] == Some(king));
        lemma_king_is_found(after, white, 0, to);
    } else {
        // the king does not move and no update touches its square
        lemma_first_king_is_king(m, white, 0);
        let k = first_king_from(m, white, 0)->Some_0;
        assert(k != from);
        assert(k != to) by {
            if piece_dest(m, p, from, to) {
                if p.kind() == PieceKind::Pawn {
                    if pawn_push(m, white, from, to) {
                        assert(m.placement[to] is None);
                    } else {
                        assert(pawn_capture(m, white, from, to));
                        if !is_color(m.placement[to], !white) {
                            assert(m.en_passant == Some(to as Square));
                            assert(m.placement[to] is None);
                        }
                    }
                } else {
                    assert(!is_color(m.placement[to], white));
                }
            }
        }
        match ep_capture_square(m, mv) {
            Some(c) => {
                assert(p.kind() == PieceKind::Pawn);
                assert(m.placement[to] is None);
                assert(pawn_capture(m, white, from, to));
                assert(m.en_passant == Some(to as Square));
                assert(m.placement[c as int] == Some(
                    if white {
                        Piece::PawnBlack
                    } else {
                        Piece::PawnWhite
                    },
                ));
                assert(k != c as int);
            },
            None => {},
        }
        assert(after.placement[k] == Some(king));
        lemma_king_is_found(after, white, 0, k);
    }
}

} // verus!
