//! The chess board: piece placement, side to move, castling rights,
//! en-passant target and move clocks, with move application and
//! legal move generation.

use vstd::prelude::*;
use crate::model::{is_color, BoardModel};
use crate::moves::Move;
use crate::piece::{Piece, PieceKind};
use crate::square::{file_of, on_board, rank_of, Square};
use crate::rules::{
    bishop_move, capture_detected, castle_move, color_piece, detects_with, ep_capture_square,
    ep_coherent, first_king_from, has_king, king_step, knight_jump, last_rank, leaves_mover_in_check,
    lemma_apply_keeps_mover_king, lemma_check_by_substitution, lemma_king_is_found, on_ray,
    pawn_capture, pawn_capture_step, pawn_move, pawn_push, piece_move, promotion_ok, ray_move,
    rook_move, spec_added_pieces, spec_apply, spec_in_check, spec_legal, spec_moved_pieces,
    spec_pseudo_legal, spec_removed_pieces,
};

verus! {

broadcast use vstd::array::group_array_axioms, vstd::seq_lib::lemma_seq_contains_after_push;

/// `new` extends `old` with exactly the moves satisfying `p`: it keeps `old`
/// as a prefix, the added entries are pairwise distinct, fresh, and satisfy
/// `p`, and membership in `new` is membership in `old` or `p`.
spec fn added_ok(old: Seq<Move>, new: Seq<Move>, p: spec_fn(Move) -> bool) -> bool {
    &&& old.len() <= new.len()
    &&& new.subrange(0, old.len() as int) == old
    &&& (forall|i: int, j: int| old.len() <= i < j < new.len() ==> new[i] != new[j])
    &&& (forall|i: int| old.len() <= i < new.len() ==> p(#[trigger] new[i]) && !old.contains(new[i]))
    &&& (forall|mv: Move| #[trigger] new.contains(mv) <==> old.contains(mv) || p(mv))
}

/// Extending by `p1` and then by a disjoint `p2` extends by their union.
proof fn lemma_added_ok_trans(
    a: Seq<Move>,
    b: Seq<Move>,
    c: Seq<Move>,
    p1: spec_fn(Move) -> bool,
    p2: spec_fn(Move) -> bool,
    p: spec_fn(Move) -> bool,
)
    requires
        added_ok(a, b, p1),
        added_ok(b, c, p2),
        forall|mv: Move| #[trigger] p1(mv) ==> !p2(mv),
        forall|mv: Move| #[trigger] p(mv) <==> p1(mv) || p2(mv),
    ensures
        added_ok(a, c, p),
{
    assert(c.subrange(0, a.len() as int) =~= b.subrange(0, b.len() as int).subrange(
        0,
        a.len() as int,
    ));
    assert(c.subrange(0, a.len() as int) =~= a);
    assert forall|i: int| a.len() <= i < c.len() implies p(#[trigger] c[i]) && !a.contains(
        c[i],
    ) by {
        if i < b.len() {
            assert(c.subrange(0, b.len() as int) == b);
            assert(c[i] == b[i]);
            assert(p1(b[i]) && !a.contains(b[i]));
        } else {
            assert(p2(c[i]) && !b.contains(c[i]));
            if a.contains(c[i]) {
                let k = choose|k: int| 0 <= k < a.len() && a[k] == c[i];
                assert(b[k] == a[k]);
                assert(b.contains(c[i]));
            }
        }
    }
    assert forall|i: int, j: int| a.len() <= i < j < c.len() implies c[i] != c[j] by {
        if i < b.len() && j >= b.len() {
            assert(c.subrange(0, b.len() as int) == b);
            assert(c[i] == b[i]);
            assert(p1(b[i]));
            assert(p2(c[j]));
        } else if i < b.len() && j < b.len() {
            assert(c.subrange(0, b.len() as int) == b);
            assert(c[i] == b[i] && c[j] == b[j]);
            if a.len() <= i {
                assert(b[i] != b[j]);
            }
        }
    }
}

/// The move a sliding walk in direction `(sr, sf)` from `s` may emit:
/// a plain move along the open ray, not onto a piece of the mover's color.
spec fn ray_move_from(m: BoardModel, white: bool, s: int, sr: int, sf: int, mv: Move) -> bool {
    &&& mv.from as int == s
    &&& mv.promote_to is None
    &&& ray_move(m, s, mv.to as int, sr, sf)
    &&& !is_color(m.placement[mv.to as int], white)
}

/// The single move a leap by `(dr, df)` from `s` may emit: the offset square
/// is on the board and does not hold a piece of the mover's color.
spec fn leap_emit(m: BoardModel, white: bool, s: int, dr: int, df: int, mv: Move) -> bool {
    let t = (rank_of(s) + dr) * 8 + (file_of(s) + df);
    &&& mv.from as int == s
    &&& mv.promote_to is None
    &&& 0 <= rank_of(s) + dr < 8
    &&& 0 <= file_of(s) + df < 8
    &&& mv.to as int == t
    &&& !is_color(m.placement[t], white)
}

/// The moves a rook on `s` emits.
spec fn rook_emit(m: BoardModel, white: bool, s: int, mv: Move) -> bool {
    &&& mv.from as int == s
    &&& mv.promote_to is None
    &&& rook_move(m, s, mv.to as int)
    &&& !is_color(m.placement[mv.to as int], white)
}

/// The moves a bishop on `s` emits.
spec fn bishop_emit(m: BoardModel, white: bool, s: int, mv: Move) -> bool {
    &&& mv.from as int == s
    &&& mv.promote_to is None
    &&& bishop_move(m, s, mv.to as int)
    &&& !is_color(m.placement[mv.to as int], white)
}

/// The moves a knight on `s` emits.
spec fn knight_emit(m: BoardModel, white: bool, s: int, mv: Move) -> bool {
    &&& mv.from as int == s
    &&& mv.promote_to is None
    &&& knight_jump(s, mv.to as int)
    &&& !is_color(m.placement[mv.to as int], white)
}

/// The plain one-square moves a king on `s` emits; castling is separate.
spec fn king_step_emit(m: BoardModel, white: bool, s: int, mv: Move) -> bool {
    &&& mv.from as int == s
    &&& mv.promote_to is None
    &&& king_step(s, mv.to as int)
    &&& !is_color(m.placement[mv.to as int], white)
}

/// Whether square `t` is no further than square `c` along direction `(sr, sf)`.
spec fn ray_le(t: int, c: int, sr: int, sf: int) -> bool {
    &&& (sr == 1 ==> rank_of(t) <= rank_of(c))
    &&& (sr == -1 ==> rank_of(t) >= rank_of(c))
    &&& (sf == 1 ==> file_of(t) <= file_of(c))
    &&& (sf == -1 ==> file_of(t) >= file_of(c))
}

/// Walks from `at` in direction `(sr, sf)` one square at a time, appending a
/// move for each vacant square and for the first enemy-occupied square, and
/// stopping at the first occupied square or the edge of the board.
#[verifier::rlimit(100)]
#[verifier::spinoff_prover]
fn sliding_ray(board: &Board, white: bool, at: Square, sr: i8, sf: i8, moves: &mut Vec<Move>)
    requires
        board@.wf(),
        at < 64,
        -1 <= sr <= 1,
        -1 <= sf <= 1,
        !(sr == 0 && sf == 0),
        forall|mv: Move|
            old(moves)@.contains(mv) ==> !ray_move_from(
                board@,
                white,
                at as int,
                sr as int,
                sf as int,
                mv,
            ),
    ensures
        added_ok(
            old(moves)@,
            final(moves)@,
            |mv: Move| ray_move_from(board@, white, at as int, sr as int, sf as int, mv),
        ),
{
    let mut r: i8 = (at / 8) as i8;
    let mut f: i8 = (at % 8) as i8;
    loop
        invariant_except_break
            board@.wf(),
            at < 64,
            -1 <= sr <= 1,
            -1 <= sf <= 1,
            !(sr == 0 && sf == 0),
            0 <= r <= 7,
            0 <= f <= 7,
            (r as int == rank_of(at as int) && f as int == file_of(at as int)) || (ray_move(
                board@,
                at as int,
                r as int * 8 + f as int,
                sr as int,
                sf as int,
            ) && board@.placement[r as int * 8 + f as int] is None),
            old(moves)@.len() <= moves@.len(),
            moves@.subrange(0, old(moves)@.len() as int) == old(moves)@,
            forall|i: int, j: int|
                old(moves)@.len() <= i < j < moves@.len() ==> moves@[i] != moves@[j],
            forall|mv: Move|
                old(moves)@.contains(mv) ==> !ray_move_from(
                    board@,
                    white,
                    at as int,
                    sr as int,
                    sf as int,
                    mv,
                ),
            forall|mv: Move|
                #[trigger] moves@.contains(mv) <==> old(moves)@.contains(mv) || (ray_move_from(
                    board@,
                    white,
                    at as int,
                    sr as int,
                    sf as int,
                    mv,
                ) && ray_le(mv.to as int, r as int * 8 + f as int, sr as int, sf as int)),
            forall|i: int|
                old(moves)@.len() <= i < moves@.len() ==> ray_move_from(
                    board@,
                    white,
                    at as int,
                    sr as int,
                    sf as int,
                    #[trigger] moves@[i],
                ) && !old(moves)@.contains(moves@[i]),
        ensures
            added_ok(
                old(moves)@,
                moves@,
                |mv: Move| ray_move_from(board@, white, at as int, sr as int, sf as int, mv),
            ),
        decreases 16 + (if sr == 1 {
            7 - r as int
        } else if sr == -1 {
            r as int
        } else if sf == 1 {
            7 - f as int
        } else {
            f as int
        }),
    {
        let ghost prev = r as int * 8 + f as int;
        r = r + sr;
        f = f + sf;
        if r > 7 || f > 7 || r < 0 || f < 0 {
            proof {
                assert forall|mv: Move|
                    ray_move_from(
                        board@,
                        white,
                        at as int,
                        sr as int,
                        sf as int,
                        mv,
                    ) implies ray_le(mv.to as int, prev, sr as int, sf as int) by {
                    let t = mv.to as int;
                    assert(on_board(t));
                    assert(t == rank_of(t) * 8 + file_of(t));
                }
            }
            break;
        }
        let sq: u8 = (r * 8 + f) as u8;
        let ghost cur = r as int * 8 + f as int;
        proof {
            assert(rank_of(cur) == r as int && file_of(cur) == f as int);
            assert(at as int == rank_of(at as int) * 8 + file_of(at as int));
            assert(on_ray(at as int, cur, sr as int, sf as int));
            // every square strictly between `at` and `cur` was visited vacant
            assert forall|u: int|
                on_board(u) && on_ray(at as int, u, sr as int, sf as int) && on_ray(
                    u,
                    cur,
                    sr as int,
                    sf as int,
                ) implies (#[trigger] board@.placement[u]) is None by {
                assert(u == rank_of(u) * 8 + file_of(u));
                assert(ray_le(u, prev, sr as int, sf as int));
            }
            assert(ray_move(board@, at as int, cur, sr as int, sf as int));
        }
        match board.at(sq) {
            None => {
                let mv = Move { from: at, to: sq, promote_to: None };
                proof {
                    assert(ray_move_from(board@, white, at as int, sr as int, sf as int, mv));
                    assert(!ray_le(cur, prev, sr as int, sf as int));
                    assert(!moves@.contains(mv));
                }
                let ghost pre = moves@;
                moves.push(mv);
                proof {
                    assert(moves@ == pre.push(mv));
                    assert forall|m2: Move|
                        #[trigger] moves@.contains(m2) <==> old(moves)@.contains(m2) || (
                        ray_move_from(board@, white, at as int, sr as int, sf as int, m2) && ray_le(
                            m2.to as int,
                            cur,
                            sr as int,
                            sf as int,
                        )) by {
                        if !moves@.contains(m2) {
                            if ray_move_from(board@, white, at as int, sr as int, sf as int, m2)
                                && ray_le(m2.to as int, cur, sr as int, sf as int) {
                                let t = m2.to as int;
                                assert(t == rank_of(t) * 8 + file_of(t));
                                if t == cur {
                                    assert(m2 == mv);
                                } else {
                                    assert(ray_le(t, prev, sr as int, sf as int));
                                }
                            }
                        }
                    }
                    assert(moves@.subrange(0, old(moves)@.len() as int) =~= old(moves)@);
                }
            },
            Some(other) => {
                proof {
                    // any move beyond `cur` is blocked by the piece on `cur`
                    assert forall|m2: Move|
                        ray_move_from(
                            board@,
                            white,
                            at as int,
                            sr as int,
                            sf as int,
                            m2,
                        ) implies (ray_le(m2.to as int, prev, sr as int, sf as int) || m2.to as int
                        == cur) by {
                        let t = m2.to as int;
                        assert(t == rank_of(t) * 8 + file_of(t));
                        if !ray_le(t, prev, sr as int, sf as int) && t != cur {
                            assert(on_ray(at as int, cur, sr as int, sf as int));
                            assert(on_ray(cur, t, sr as int, sf as int));
                            assert(board@.placement[cur] is None);
                        }
                    }
                }
                if other.is_white() != white {
                    let mv = Move { from: at, to: sq, promote_to: None };
                    proof {
                        assert(ray_move_from(board@, white, at as int, sr as int, sf as int, mv));
                        assert(!moves@.contains(mv));
                    }
                    let ghost pre = moves@;
                    moves.push(mv);
                    proof {
                        assert(moves@ == pre.push(mv));
                        assert forall|m2: Move|
                            #[trigger] moves@.contains(m2) <==> old(moves)@.contains(m2) || (
                            ray_move_from(
                                board@,
                                white,
                                at as int,
                                sr as int,
                                sf as int,
                                m2,
                            )) by {
                            if !moves@.contains(m2) {
                                if ray_move_from(
                                    board@,
                                    white,
                                    at as int,
                                    sr as int,
                                    sf as int,
                                    m2,
                                ) {
                                    let t = m2.to as int;
                                    assert(t == rank_of(t) * 8 + file_of(t));
                                    if t == cur {
                                        assert(m2 == mv);
                                    } else {
                                        assert(ray_le(t, prev, sr as int, sf as int));
                                    }
                                }
                            }
                        }
                        assert(moves@.subrange(0, old(moves)@.len() as int) =~= old(moves)@);
                    }
                } else {
                    proof {
                        assert(is_color(board@.placement[cur], white));
                    }
                }
                break;
            },
        }
    }
}


/// Extending by `p` also extends by any equivalent predicate.
proof fn lemma_added_ok_equiv(
    a: Seq<Move>,
    b: Seq<Move>,
    p: spec_fn(Move) -> bool,
    q: spec_fn(Move) -> bool,
)
    requires
        added_ok(a, b, p),
        forall|mv: Move| #[trigger] p(mv) <==> #[trigger] q(mv),
    ensures
        added_ok(a, b, q),
{
}

/// Appends the move leaping by `(dr, df)` from `at`, when its target square
/// is on the board and free of a piece of the mover's color.
fn leap_into(board: &Board, white: bool, at: Square, dr: i8, df: i8, moves: &mut Vec<Move>)
    requires
        board@.wf(),
        at < 64,
        -2 <= dr <= 2,
        -2 <= df <= 2,
        forall|mv: Move|
            old(moves)@.contains(mv) ==> !leap_emit(
                board@,
                white,
                at as int,
                dr as int,
                df as int,
                mv,
            ),
    ensures
        added_ok(
            old(moves)@,
            final(moves)@,
            |mv: Move| leap_emit(board@, white, at as int, dr as int, df as int, mv),
        ),
{
    proof {
        assert(at as int == rank_of(at as int) * 8 + file_of(at as int));
    }
    let r: i8 = (at / 8) as i8 + dr;
    let f: i8 = (at % 8) as i8 + df;
    if 0 <= r && r <= 7 && 0 <= f && f <= 7 {
        let sq: u8 = (r * 8 + f) as u8;
        let take = match board.at(sq) {
            None => true,
            Some(other) => other.is_white() != white,
        };
        if take {
            let mv = Move { from: at, to: sq, promote_to: None };
            proof {
                assert(leap_emit(board@, white, at as int, dr as int, df as int, mv));
                assert(!moves@.contains(mv));
            }
            let ghost pre = moves@;
            moves.push(mv);
            proof {
                assert(moves@.subrange(0, pre.len() as int) =~= pre);
                assert forall|m2: Move|
                    #[trigger] moves@.contains(m2) <==> pre.contains(m2) || leap_emit(
                        board@,
                        white,
                        at as int,
                        dr as int,
                        df as int,
                        m2,
                    ) by {
                    if leap_emit(board@, white, at as int, dr as int, df as int, m2) {
                        assert(m2 == mv);
                    }
                }
            }
        } else {
            proof {
                assert(moves@.subrange(0, moves@.len() as int) =~= moves@);
            }
        }
    } else {
        proof {
            assert(moves@.subrange(0, moves@.len() as int) =~= moves@);
        }
    }
}

/// Appends the moves of a knight standing on `at`.
#[verifier::rlimit(100)]
#[verifier::spinoff_prover]
fn knight_into(board: &Board, white: bool, at: Square, moves: &mut Vec<Move>)
    requires
        board@.wf(),
        at < 64,
        forall|mv: Move|
            old(moves)@.contains(mv) ==> !knight_emit(board@, white, at as int, mv),
    ensures
        added_ok(
            old(moves)@,
            final(moves)@,
            |mv: Move| knight_emit(board@, white, at as int, mv),
        ),
{
    let ghost m = board@;
    let ghost s = at as int;
    proof {
        assert(s == rank_of(s) * 8 + file_of(s));
    }
    let ghost s0 = moves@;
    let ghost q1 = |mv: Move| leap_emit(m, white, s, 2, 1, mv);
    leap_into(board, white, at, 2, 1, moves);
    let ghost b1 = moves@;
    let ghost q2 = |mv: Move| q1(mv) || leap_emit(m, white, s, 2, -1, mv);
    leap_into(board, white, at, 2, -1, moves);
    proof {
        lemma_added_ok_trans(s0, b1, moves@, q1, |mv: Move| leap_emit(m, white, s, 2, -1, mv), q2);
    }
    let ghost b2 = moves@;
    let ghost q3 = |mv: Move| q2(mv) || leap_emit(m, white, s, -2, 1, mv);
    leap_into(board, white, at, -2, 1, moves);
    proof {
        lemma_added_ok_trans(s0, b2, moves@, q2, |mv: Move| leap_emit(m, white, s, -2, 1, mv), q3);
    }
    let ghost b3 = moves@;
    let ghost q4 = |mv: Move| q3(mv) || leap_emit(m, white, s, -2, -1, mv);
    leap_into(board, white, at, -2, -1, moves);
    proof {
        lemma_added_ok_trans(s0, b3, moves@, q3, |mv: Move| leap_emit(m, white, s, -2, -1, mv), q4);
    }
    let ghost b4 = moves@;
    let ghost q5 = |mv: Move| q4(mv) || leap_emit(m, white, s, 1, 2, mv);
    leap_into(board, white, at, 1, 2, moves);
    proof {
        lemma_added_ok_trans(s0, b4, moves@, q4, |mv: Move| leap_emit(m, white, s, 1, 2, mv), q5);
    }
    let ghost b5 = moves@;
    let ghost q6 = |mv: Move| q5(mv) || leap_emit(m, white, s, 1, -2, mv);
    leap_into(board, white, at, 1, -2, moves);
    proof {
        lemma_added_ok_trans(s0, b5, moves@, q5, |mv: Move| leap_emit(m, white, s, 1, -2, mv), q6);
    }
    let ghost b6 = moves@;
    let ghost q7 = |mv: Move| q6(mv) || leap_emit(m, white, s, -1, 2, mv);
    leap_into(board, white, at, -1, 2, moves);
    proof {
        lemma_added_ok_trans(s0, b6, moves@, q6, |mv: Move| leap_emit(m, white, s, -1, 2, mv), q7);
    }
    let ghost b7 = moves@;
    let ghost q8 = |mv: Move| q7(mv) || leap_emit(m, white, s, -1, -2, mv);
    leap_into(board, white, at, -1, -2, moves);
    proof {
        lemma_added_ok_trans(s0, b7, moves@, q7, |mv: Move| leap_emit(m, white, s, -1, -2, mv), q8);
        assert forall|mv: Move| #[trigger] q8(mv) <==> knight_emit(m, white, s, mv) by {
            if knight_emit(m, white, s, mv) {
                let t = mv.to as int;
                assert(t == rank_of(t) * 8 + file_of(t));
            }
        }
        lemma_added_ok_equiv(s0, moves@, q8, |mv: Move| knight_emit(m, white, s, mv));
    }
}

/// The one-square king moves from `s` whose rank changes.
spec fn king_rank_step_emit(m: BoardModel, white: bool, s: int, mv: Move) -> bool {
    &&& king_step_emit(m, white, s, mv)
    &&& rank_of(mv.to as int) != rank_of(s)
}

/// Appends the one-square king moves from `at` whose rank changes.
#[verifier::rlimit(100)]
#[verifier::spinoff_prover]
fn king_rank_steps_into(board: &Board, white: bool, at: Square, moves: &mut Vec<Move>)
    requires
        board@.wf(),
        at < 64,
        forall|mv: Move|
            old(moves)@.contains(mv) ==> !king_rank_step_emit(board@, white, at as int, mv),
    ensures
        added_ok(
            old(moves)@,
            final(moves)@,
            |mv: Move| king_rank_step_emit(board@, white, at as int, mv),
        ),
{
    let ghost m = board@;
    let ghost s = at as int;
    proof {
        assert(s == rank_of(s) * 8 + file_of(s));
    }
    let ghost s0 = moves@;
    let ghost q1 = |mv: Move| leap_emit(m, white, s, 1, 1, mv);
    leap_into(board, white, at, 1, 1, moves);
    let ghost b1 = moves@;
    let ghost q2 = |mv: Move| q1(mv) || leap_emit(m, white, s, 1, 0, mv);
    leap_into(board, white, at, 1, 0, moves);
    proof {
        lemma_added_ok_trans(s0, b1, moves@, q1, |mv: Move| leap_emit(m, white, s, 1, 0, mv), q2);
    }
    let ghost b2 = moves@;
    let ghost q3 = |mv: Move| q2(mv) || leap_emit(m, white, s, 1, -1, mv);
    leap_into(board, white, at, 1, -1, moves);
    proof {
        lemma_added_ok_trans(s0, b2, moves@, q2, |mv: Move| leap_emit(m, white, s, 1, -1, mv), q3);
    }
    let ghost b3 = moves@;
    let ghost q4 = |mv: Move| q3(mv) || leap_emit(m, white, s, -1, 1, mv);
    leap_into(board, white, at, -1, 1, moves);
    proof {
        lemma_added_ok_trans(s0, b3, moves@, q3, |mv: Move| leap_emit(m, white, s, -1, 1, mv), q4);
    }
    let ghost b4 = moves@;
    let ghost q5 = |mv: Move| q4(mv) || leap_emit(m, white, s, -1, 0, mv);
    leap_into(board, white, at, -1, 0, moves);
    proof {
        lemma_added_ok_trans(s0, b4, moves@, q4, |mv: Move| leap_emit(m, white, s, -1, 0, mv), q5);
    }
    let ghost b5 = moves@;
    let ghost q6 = |mv: Move| q5(mv) || leap_emit(m, white, s, -1, -1, mv);
    leap_into(board, white, at, -1, -1, moves);
    proof {
        lemma_added_ok_trans(s0, b5, moves@, q5, |mv: Move| leap_emit(m, white, s, -1, -1, mv), q6);
        assert forall|mv: Move| #[trigger] q6(mv) <==> king_rank_step_emit(m, white, s, mv) by {
            if king_rank_step_emit(m, white, s, mv) {
                let t = mv.to as int;
                assert(t == rank_of(t) * 8 + file_of(t));
            }
        }
        lemma_added_ok_equiv(s0, moves@, q6, |mv: Move| king_rank_step_emit(m, white, s, mv));
    }
}

/// Appends the plain one-square moves of a king standing on `at`.
#[verifier::rlimit(100)]
#[verifier::spinoff_prover]
fn king_steps_into(board: &Board, white: bool, at: Square, moves: &mut Vec<Move>)
    requires
        board@.wf(),
        at < 64,
        forall|mv: Move|
            old(moves)@.contains(mv) ==> !king_step_emit(board@, white, at as int, mv),
    ensures
        added_ok(
            old(moves)@,
            final(moves)@,
            |mv: Move| king_step_emit(board@, white, at as int, mv),
        ),
{
    let ghost m = board@;
    let ghost s = at as int;
    proof {
        assert(s == rank_of(s) * 8 + file_of(s));
    }
    let ghost s0 = moves@;
    let ghost q1 = |mv: Move| king_rank_step_emit(m, white, s, mv);
    king_rank_steps_into(board, white, at, moves);
    let ghost b1 = moves@;
    let ghost q2 = |mv: Move| q1(mv) || leap_emit(m, white, s, 0, 1, mv);
    leap_into(board, white, at, 0, 1, moves);
    proof {
        lemma_added_ok_trans(s0, b1, moves@, q1, |mv: Move| leap_emit(m, white, s, 0, 1, mv), q2);
    }
    let ghost b2 = moves@;
    let ghost q3 = |mv: Move| q2(mv) || leap_emit(m, white, s, 0, -1, mv);
    leap_into(board, white, at, 0, -1, moves);
    proof {
        lemma_added_ok_trans(s0, b2, moves@, q2, |mv: Move| leap_emit(m, white, s, 0, -1, mv), q3);
        assert forall|mv: Move| #[trigger] q3(mv) <==> king_step_emit(m, white, s, mv) by {
            if king_step_emit(m, white, s, mv) {
                let t = mv.to as int;
                assert(t == rank_of(t) * 8 + file_of(t));
            }
        }
        lemma_added_ok_equiv(s0, moves@, q3, |mv: Move| king_step_emit(m, white, s, mv));
    }
}

/// Appends the moves of a rook standing on `at`: the four orthogonal rays.
fn rook_into(board: &Board, white: bool, at: Square, moves: &mut Vec<Move>)
    requires
        board@.wf(),
        at < 64,
        forall|mv: Move| old(moves)@.contains(mv) ==> !rook_emit(board@, white, at as int, mv),
    ensures
        added_ok(
            old(moves)@,
            final(moves)@,
            |mv: Move| rook_emit(board@, white, at as int, mv),
        ),
{
    let ghost m = board@;
    let ghost s = at as int;
    let ghost s0 = moves@;
    let ghost q1 = |mv: Move| ray_move_from(m, white, s, 1, 0, mv);
    sliding_ray(board, white, at, 1, 0, moves);
    let ghost b1 = moves@;
    let ghost q2 = |mv: Move| q1(mv) || ray_move_from(m, white, s, -1, 0, mv);
    sliding_ray(board, white, at, -1, 0, moves);
    proof {
        lemma_added_ok_trans(s0, b1, moves@, q1, |mv: Move| ray_move_from(m, white, s, -1, 0, mv), q2);
    }
    let ghost b2 = moves@;
    let ghost q3 = |mv: Move| q2(mv) || ray_move_from(m, white, s, 0, 1, mv);
    sliding_ray(board, white, at, 0, 1, moves);
    proof {
        lemma_added_ok_trans(s0, b2, moves@, q2, |mv: Move| ray_move_from(m, white, s, 0, 1, mv), q3);
    }
    let ghost b3 = moves@;
    let ghost q4 = |mv: Move| q3(mv) || ray_move_from(m, white, s, 0, -1, mv);
    sliding_ray(board, white, at, 0, -1, moves);
    proof {
        lemma_added_ok_trans(s0, b3, moves@, q3, |mv: Move| ray_move_from(m, white, s, 0, -1, mv), q4);
        lemma_added_ok_equiv(s0, moves@, q4, |mv: Move| rook_emit(m, white, s, mv));
    }
}

/// Appends the moves of a bishop standing on `at`: the four diagonal rays.
fn bishop_into(board: &Board, white: bool, at: Square, moves: &mut Vec<Move>)
    requires
        board@.wf(),
        at < 64,
        forall|mv: Move| old(moves)@.contains(mv) ==> !bishop_emit(board@, white, at as int, mv),
    ensures
        added_ok(
            old(moves)@,
            final(moves)@,
            |mv: Move| bishop_emit(board@, white, at as int, mv),
        ),
{
    let ghost m = board@;
    let ghost s = at as int;
    let ghost s0 = moves@;
    let ghost q1 = |mv: Move| ray_move_from(m, white, s, 1, 1, mv);
    sliding_ray(board, white, at, 1, 1, moves);
    let ghost b1 = moves@;
    let ghost q2 = |mv: Move| q1(mv) || ray_move_from(m, white, s, -1, -1, mv);
    sliding_ray(board, white, at, -1, -1, moves);
    proof {
        lemma_added_ok_trans(s0, b1, moves@, q1, |mv: Move| ray_move_from(m, white, s, -1, -1, mv), q2);
    }
    let ghost b2 = moves@;
    let ghost q3 = |mv: Move| q2(mv) || ray_move_from(m, white, s, -1, 1, mv);
    sliding_ray(board, white, at, -1, 1, moves);
    proof {
        lemma_added_ok_trans(s0, b2, moves@, q2, |mv: Move| ray_move_from(m, white, s, -1, 1, mv), q3);
    }
    let ghost b3 = moves@;
    let ghost q4 = |mv: Move| q3(mv) || ray_move_from(m, white, s, 1, -1, mv);
    sliding_ray(board, white, at, 1, -1, moves);
    proof {
        lemma_added_ok_trans(s0, b3, moves@, q3, |mv: Move| ray_move_from(m, white, s, 1, -1, mv), q4);
        lemma_added_ok_equiv(s0, moves@, q4, |mv: Move| bishop_emit(m, white, s, mv));
    }
}

/// Appends the moves of a queen standing on `at`: rook and bishop rays.
fn queen_into(board: &Board, white: bool, at: Square, moves: &mut Vec<Move>)
    requires
        board@.wf(),
        at < 64,
        forall|mv: Move|
            old(moves)@.contains(mv) ==> !(rook_emit(board@, white, at as int, mv) || bishop_emit(
                board@,
                white,
                at as int,
                mv,
            )),
    ensures
        added_ok(
            old(moves)@,
            final(moves)@,
            |mv: Move|
                rook_emit(board@, white, at as int, mv) || bishop_emit(
                    board@,
                    white,
                    at as int,
                    mv,
                ),
        ),
{
    let ghost m = board@;
    let ghost s = at as int;
    let ghost s0 = moves@;
    let ghost q1 = |mv: Move| rook_emit(m, white, s, mv);
    rook_into(board, white, at, moves);
    let ghost b1 = moves@;
    let ghost q2 = |mv: Move| q1(mv) || bishop_emit(m, white, s, mv);
    bishop_into(board, white, at, moves);
    proof {
        lemma_added_ok_trans(s0, b1, moves@, q1, |mv: Move| bishop_emit(m, white, s, mv), q2);
        lemma_added_ok_equiv(
            s0,
            moves@,
            q2,
            |mv: Move| rook_emit(m, white, s, mv) || bishop_emit(m, white, s, mv),
        );
    }
}


/// The moves a pawn on `s` emits: pushes and captures, expanded into the
/// four promotion moves when the destination is on the last rank.
spec fn pawn_emit(m: BoardModel, white: bool, s: int, mv: Move) -> bool {
    &&& mv.from as int == s
    &&& pawn_move(m, white, s, mv.to as int)
    &&& promotion_ok(white, mv.to as int, mv.promote_to)
}

/// Appends the pawn move(s) from `at` to `to`: the plain move, or the four
/// promotion moves when `to` is on the last rank.
fn push_pawn_dest(white: bool, at: Square, to: Square, moves: &mut Vec<Move>)
    requires
        to < 64,
        forall|mv: Move| old(moves)@.contains(mv) ==> !(mv.from == at && mv.to == to),
    ensures
        added_ok(
            old(moves)@,
            final(moves)@,
            |mv: Move| mv.from == at && mv.to == to && promotion_ok(
                white,
                to as int,
                mv.promote_to,
            ),
        ),
{
    let ghost pre = moves@;
    if (white && to / 8 == 7) || (!white && to / 8 == 0) {
        let mv_n = Move {
            from: at,
            to,
            promote_to: Some(if white { Piece::KnightWhite } else { Piece::KnightBlack }),
        };
        let mv_b = Move {
            from: at,
            to,
            promote_to: Some(if white { Piece::BishopWhite } else { Piece::BishopBlack }),
        };
        let mv_r = Move {
            from: at,
            to,
            promote_to: Some(if white { Piece::RookWhite } else { Piece::RookBlack }),
        };
        let mv_q = Move {
            from: at,
            to,
            promote_to: Some(if white { Piece::QueenWhite } else { Piece::QueenBlack }),
        };
        moves.push(mv_n);
        moves.push(mv_b);
        moves.push(mv_r);
        moves.push(mv_q);
        proof {
            assert(moves@.subrange(0, pre.len() as int) =~= pre);
            assert(moves@[pre.len() as int] == mv_n);
            assert(moves@[pre.len() as int + 1] == mv_b);
            assert(moves@[pre.len() as int + 2] == mv_r);
            assert(moves@[pre.len() as int + 3] == mv_q);
            assert(rank_of(to as int) == last_rank(white));
            assert forall|mv: Move|
                #[trigger] moves@.contains(mv) <==> pre.contains(mv) || (mv.from == at && mv.to
                    == to && promotion_ok(white, to as int, mv.promote_to)) by {
                if mv.from == at && mv.to == to && promotion_ok(white, to as int, mv.promote_to) {
                    assert(mv == mv_n || mv == mv_b || mv == mv_r || mv == mv_q);
                }
            }
        }
    } else {
        let mv = Move { from: at, to, promote_to: None };
        moves.push(mv);
        proof {
            assert(moves@.subrange(0, pre.len() as int) =~= pre);
            assert(moves@[pre.len() as int] == mv);
            assert(rank_of(to as int) != last_rank(white));
            assert forall|m2: Move|
                #[trigger] moves@.contains(m2) <==> pre.contains(m2) || (m2.from == at && m2.to
                    == to && promotion_ok(white, to as int, m2.promote_to)) by {
                if m2.from == at && m2.to == to && promotion_ok(white, to as int, m2.promote_to) {
                    assert(m2 == mv);
                }
            }
        }
    }
}

/// Appends the moves of a pawn standing on `at`: the single push, the
/// two-square leap from the starting rank, and the two diagonal captures
/// (including en passant), each expanded into promotions on the last rank.
#[verifier::rlimit(100)]
#[verifier::spinoff_prover]
fn pawn_into(board: &Board, white: bool, at: Square, moves: &mut Vec<Move>)
    requires
        board@.wf(),
        at < 64,
        forall|mv: Move| old(moves)@.contains(mv) ==> mv.from != at,
    ensures
        added_ok(
            old(moves)@,
            final(moves)@,
            |mv: Move| pawn_emit(board@, white, at as int, mv),
        ),
{
    let ghost m = board@;
    let ghost s = at as int;
    proof {
        assert(s == rank_of(s) * 8 + file_of(s));
    }
    let r: u8 = at / 8;
    let f: u8 = at % 8;
    let ghost s0 = moves@;

    // one square forward, when vacant
    let ghost adv = s + 8 * crate::rules::pawn_dir(white);
    let ghost p1 = |mv: Move| pawn_emit(m, white, s, mv) && mv.to as int == adv;
    let can_advance = if white {
        r < 7 && board.at(at + 8).is_none()
    } else {
        r > 0 && board.at(at - 8).is_none()
    };
    if can_advance {
        let a: u8 = if white { at + 8 } else { at - 8 };
        push_pawn_dest(white, at, a, moves);
        proof {
            assert(rank_of(adv) == rank_of(s) + crate::rules::pawn_dir(white));
            assert(file_of(adv) == file_of(s));
            lemma_added_ok_equiv(
                s0,
                moves@,
                |mv: Move| mv.from == at && mv.to == a && promotion_ok(
                    white,
                    a as int,
                    mv.promote_to,
                ),
                p1,
            );
        }
    } else {
        proof {
            assert(moves@.subrange(0, moves@.len() as int) =~= moves@);
            assert forall|mv: Move| !(#[trigger] p1(mv)) by {
                if pawn_emit(m, white, s, mv) && mv.to as int == adv {
                    assert(on_board(adv));
                    assert(rank_of(adv) == rank_of(s) + crate::rules::pawn_dir(white));
                    assert(file_of(adv) == file_of(s));
                }
            }
        }
    }

    // two squares forward from the starting rank, when both are vacant
    let ghost leap = s + 16 * crate::rules::pawn_dir(white);
    let ghost p2x = |mv: Move| pawn_emit(m, white, s, mv) && mv.to as int == leap;
    let ghost q2 = |mv: Move| p1(mv) || p2x(mv);
    let ghost b1 = moves@;
    let can_leap = can_advance && (if white {
        r == 1 && board.at(at + 16).is_none()
    } else {
        r == 6 && board.at(at - 16).is_none()
    });
    if can_leap {
        let a: u8 = if white { at + 16 } else { at - 16 };
        push_pawn_dest(white, at, a, moves);
        proof {
            assert(rank_of(leap) == rank_of(s) + 2 * crate::rules::pawn_dir(white));
            assert(file_of(leap) == file_of(s));
            lemma_added_ok_equiv(
                b1,
                moves@,
                |mv: Move| mv.from == at && mv.to == a && promotion_ok(
                    white,
                    a as int,
                    mv.promote_to,
                ),
                p2x,
            );
            lemma_added_ok_trans(s0, b1, moves@, p1, p2x, q2);
        }
    } else {
        proof {
            assert(moves@.subrange(0, moves@.len() as int) =~= moves@);
            assert forall|mv: Move| !(#[trigger] p2x(mv)) by {
                if pawn_emit(m, white, s, mv) && mv.to as int == leap {
                    assert(on_board(leap));
                    assert(rank_of(leap) == rank_of(s) + 2 * crate::rules::pawn_dir(white));
                    assert(file_of(leap) == file_of(s));
                    assert(m.placement[s + 8 * crate::rules::pawn_dir(white)] is None);
                }
            }
            lemma_added_ok_trans(s0, b1, moves@, p1, p2x, q2);
        }
    }

    // diagonal captures, toward the lower file and the higher file
    let ghost capl = s + 8 * crate::rules::pawn_dir(white) - 1;
    let ghost pl = |mv: Move| pawn_emit(m, white, s, mv) && mv.to as int == capl;
    let ghost q3 = |mv: Move| q2(mv) || pl(mv);
    let ghost b2 = moves@;
    let can_left = f > 0 && (if white { r < 7 } else { r > 0 }) && {
        let a: u8 = if white { at + 7 } else { at - 9 };
        let enemy = match board.at(a) {
            Some(other) => other.is_white() != white,
            None => false,
        };
        enemy || (match board.en_pessant_square {
            Some(es) => es == a,
            None => false,
        })
    };
    if can_left {
        let a: u8 = if white { at + 7 } else { at - 9 };
        push_pawn_dest(white, at, a, moves);
        proof {
            assert(rank_of(capl) == rank_of(s) + crate::rules::pawn_dir(white));
            assert(file_of(capl) == file_of(s) - 1);
            assert(pawn_capture(m, white, s, capl));
            lemma_added_ok_equiv(
                b2,
                moves@,
                |mv: Move| mv.from == at && mv.to == a && promotion_ok(
                    white,
                    a as int,
                    mv.promote_to,
                ),
                pl,
            );
            lemma_added_ok_trans(s0, b2, moves@, q2, pl, q3);
        }
    } else {
        proof {
            assert(moves@.subrange(0, moves@.len() as int) =~= moves@);
            assert forall|mv: Move| !(#[trigger] pl(mv)) by {
                if pawn_emit(m, white, s, mv) && mv.to as int == capl {
                    assert(on_board(capl));
                    assert(rank_of(capl) == rank_of(s) + crate::rules::pawn_dir(white));
                    if file_of(s) == 0 {
                        assert(file_of(capl) == 7);
                    } else {
                        assert(file_of(capl) == file_of(s) - 1);
                    }
                }
            }
            lemma_added_ok_trans(s0, b2, moves@, q2, pl, q3);
        }
    }

    let ghost capr = s + 8 * crate::rules::pawn_dir(white) + 1;
    let ghost pr = |mv: Move| pawn_emit(m, white, s, mv) && mv.to as int == capr;
    let ghost q4 = |mv: Move| q3(mv) || pr(mv);
    let ghost b3 = moves@;
    let can_right = f < 7 && (if white { r < 7 } else { r > 0 }) && {
        let a: u8 = if white { at + 9 } else { at - 7 };
        let enemy = match board.at(a) {
            Some(other) => other.is_white() != white,
            None => false,
        };
        enemy || (match board.en_pessant_square {
            Some(es) => es == a,
            None => false,
        })
    };
    if can_right {
        let a: u8 = if white { at + 9 } else { at - 7 };
        push_pawn_dest(white, at, a, moves);
        proof {
            assert(rank_of(capr) == rank_of(s) + crate::rules::pawn_dir(white));
            assert(file_of(capr) == file_of(s) + 1);
            assert(pawn_capture(m, white, s, capr));
            lemma_added_ok_equiv(
                b3,
                moves@,
                |mv: Move| mv.from == at && mv.to == a && promotion_ok(
                    white,
                    a as int,
                    mv.promote_to,
                ),
                pr,
            );
            lemma_added_ok_trans(s0, b3, moves@, q3, pr, q4);
        }
    } else {
        proof {
            assert(moves@.subrange(0, moves@.len() as int) =~= moves@);
            assert forall|mv: Move| !(#[trigger] pr(mv)) by {
                if pawn_emit(m, white, s, mv) && mv.to as int == capr {
                    assert(on_board(capr));
                    assert(rank_of(capr) == rank_of(s) + crate::rules::pawn_dir(white));
                    if file_of(s) == 7 {
                        assert(file_of(capr) == 0);
                    } else {
                        assert(file_of(capr) == file_of(s) + 1);
                    }
                }
            }
            lemma_added_ok_trans(s0, b3, moves@, q3, pr, q4);
        }
    }

    proof {
        assert forall|mv: Move| #[trigger] q4(mv) <==> pawn_emit(m, white, s, mv) by {
            if pawn_emit(m, white, s, mv) {
                let t = mv.to as int;
                assert(t == rank_of(t) * 8 + file_of(t));
                if pawn_push(m, white, s, t) {
                    if rank_of(t) == rank_of(s) + crate::rules::pawn_dir(white) {
                        assert(t == adv);
                    } else {
                        assert(t == leap);
                    }
                } else {
                    assert(pawn_capture_step(white, s, t));
                    if file_of(t) == file_of(s) - 1 {
                        assert(t == capl);
                    } else {
                        assert(t == capr);
                    }
                }
            }
        }
        lemma_added_ok_equiv(s0, moves@, q4, |mv: Move| pawn_emit(m, white, s, mv));
    }
}


/// A sequence that extends a duplicate-free sequence is duplicate-free.
proof fn lemma_added_ok_no_dup(a: Seq<Move>, b: Seq<Move>, p: spec_fn(Move) -> bool)
    requires
        added_ok(a, b, p),
        a.no_duplicates(),
    ensures
        b.no_duplicates(),
{
    assert forall|i: int, j: int| 0 <= i < j < b.len() implies b[i] != b[j] by {
        if j < a.len() {
            assert(b.subrange(0, a.len() as int) == a);
            assert(b[i] == a[i] && b[j] == a[j]);
        } else if i < a.len() {
            assert(b.subrange(0, a.len() as int) == a);
            assert(b[i] == a[i]);
            assert(a.contains(b[i]));
            assert(!a.contains(b[j]));
        }
    }
}

/// Appends the castling candidate moves for a king standing on `at`: for
/// each side, the right is still held, the squares between king and rook are
/// vacant, the king is not in check, and its transit square (tested by
/// simulating the one-square king move) would not leave it in check.
#[verifier::rlimit(100)]
#[verifier::spinoff_prover]
fn castling_into(board: &Board, at: Square, moves: &mut Vec<Move>)
    requires
        board@.wf(),
        at < 64,
        board@.halfmove_clock < u32::MAX,
        board@.fullmove_number < u32::MAX,
        forall|mv: Move| old(moves)@.contains(mv) ==> !castle_move(board@, at as int, mv),
    ensures
        added_ok(
            old(moves)@,
            final(moves)@,
            |mv: Move| castle_move(board@, at as int, mv),
        ),
{
    let ghost m = board@;
    let ghost s = at as int;
    let ghost s0 = moves@;
    proof {
        assert(moves@.subrange(0, moves@.len() as int) =~= moves@);
    }
    if board.white_to_move && at == 4 {
        let king_home = match board.at(4) {
            Some(p) => p == Piece::KingWhite,
            None => false,
        };
        if king_home {
            proof {
                lemma_king_is_found(m, true, 0, 4);
                let tq = Move { from: 4u8, to: 3u8, promote_to: None };
                assert(ep_capture_square(m, tq) is None);
                assert(spec_apply(m, tq).placement[3] == Some(Piece::KingWhite));
                lemma_king_is_found(spec_apply(m, tq), true, 0, 3);
                let tk = Move { from: 4u8, to: 5u8, promote_to: None };
                assert(ep_capture_square(m, tk) is None);
                assert(spec_apply(m, tk).placement[5] == Some(Piece::KingWhite));
                lemma_king_is_found(spec_apply(m, tk), true, 0, 5);
            }
            let ghost pq = |mv: Move| castle_move(m, s, mv) && mv.to == 2;
            if board.can_white_castle_queen_side && board.at(3).is_none() && board.at(2).is_none()
                && board.at(1).is_none() && !board.is_in_check() && !board.would_leave_in_check(
                Move::new(4, 3),
            ) {
                let mv = Move { from: at, to: 2, promote_to: None };
                let ghost pre = moves@;
                moves.push(mv);
                proof {
                    assert(castle_move(m, s, mv));
                    assert(moves@.subrange(0, pre.len() as int) =~= pre);
                    assert forall|m2: Move|
                        #[trigger] moves@.contains(m2) <==> pre.contains(m2) || pq(m2) by {
                        if pq(m2) {
                            assert(m2 == mv);
                        }
                    }
                }
            } else {
                proof {
                    assert forall|m2: Move| !(#[trigger] pq(m2)) by {}
                }
            }
            let ghost b1 = moves@;
            let ghost pk = |mv: Move| castle_move(m, s, mv) && mv.to == 6;
            let ghost q2 = |mv: Move| pq(mv) || pk(mv);
            if board.can_white_castle_king_side && board.at(5).is_none() && board.at(6).is_none()
                && !board.is_in_check() && !board.would_leave_in_check(Move::new(4, 5)) {
                let mv = Move { from: at, to: 6, promote_to: None };
                let ghost pre = moves@;
                moves.push(mv);
                proof {
                    assert(castle_move(m, s, mv));
                    assert(moves@.subrange(0, pre.len() as int) =~= pre);
                    assert forall|m2: Move|
                        #[trigger] moves@.contains(m2) <==> pre.contains(m2) || pk(m2) by {
                        if pk(m2) {
                            assert(m2 == mv);
                        }
                    }
                    lemma_added_ok_trans(s0, b1, moves@, pq, pk, q2);
                }
            } else {
                proof {
                    assert(moves@.subrange(0, moves@.len() as int) =~= moves@);
                    assert forall|m2: Move| !(#[trigger] pk(m2)) by {}
                    lemma_added_ok_trans(s0, b1, moves@, pq, pk, q2);
                }
            }
            proof {
                lemma_added_ok_equiv(s0, moves@, q2, |mv: Move| castle_move(m, s, mv));
            }
        } else {
            proof {
                assert forall|m2: Move| !(#[trigger] castle_move(m, s, m2)) by {}
            }
        }
    } else if !board.white_to_move && at == 60 {
        let king_home = match board.at(60) {
            Some(p) => p == Piece::KingBlack,
            None => false,
        };
        if king_home {
            proof {
                lemma_king_is_found(m, false, 0, 60);
                let tq = Move { from: 60u8, to: 59u8, promote_to: None };
                assert(ep_capture_square(m, tq) is None);
                assert(spec_apply(m, tq).placement[59] == Some(Piece::KingBlack));
                lemma_king_is_found(spec_apply(m, tq), false, 0, 59);
                let tk = Move { from: 60u8, to: 61u8, promote_to: None };
                assert(ep_capture_square(m, tk) is None);
                assert(spec_apply(m, tk).placement[61] == Some(Piece::KingBlack));
                lemma_king_is_found(spec_apply(m, tk), false, 0, 61);
            }
            let ghost pq = |mv: Move| castle_move(m, s, mv) && mv.to == 58;
            if board.can_black_castle_queen_side && board.at(59).is_none() && board.at(58).is_none()
                && board.at(57).is_none() && !board.is_in_check() && !board.would_leave_in_check(
                Move::new(60, 59),
            ) {
                let mv = Move { from: at, to: 58, promote_to: None };
                let ghost pre = moves@;
                moves.push(mv);
                proof {
                    assert(castle_move(m, s, mv));
                    assert(moves@.subrange(0, pre.len() as int) =~= pre);
                    assert forall|m2: Move|
                        #[trigger] moves@.contains(m2) <==> pre.contains(m2) || pq(m2) by {
                        if pq(m2) {
                            assert(m2 == mv);
                        }
                    }
                }
            } else {
                proof {
                    assert forall|m2: Move| !(#[trigger] pq(m2)) by {}
                }
            }
            let ghost b1 = moves@;
            let ghost pk = |mv: Move| castle_move(m, s, mv) && mv.to == 62;
            let ghost q2 = |mv: Move| pq(mv) || pk(mv);
            if board.can_black_castle_king_side && board.at(61).is_none() && board.at(62).is_none()
                && !board.is_in_check() && !board.would_leave_in_check(Move::new(60, 61)) {
                let mv = Move { from: at, to: 62, promote_to: None };
                let ghost pre = moves@;
                moves.push(mv);
                proof {
                    assert(castle_move(m, s, mv));
                    assert(moves@.subrange(0, pre.len() as int) =~= pre);
                    assert forall|m2: Move|
                        #[trigger] moves@.contains(m2) <==> pre.contains(m2) || pk(m2) by {
                        if pk(m2) {
                            assert(m2 == mv);
                        }
                    }
                    lemma_added_ok_trans(s0, b1, moves@, pq, pk, q2);
                }
            } else {
                proof {
                    assert(moves@.subrange(0, moves@.len() as int) =~= moves@);
                    assert forall|m2: Move| !(#[trigger] pk(m2)) by {}
                    lemma_added_ok_trans(s0, b1, moves@, pq, pk, q2);
                }
            }
            proof {
                lemma_added_ok_equiv(s0, moves@, q2, |mv: Move| castle_move(m, s, mv));
            }
        } else {
            proof {
                assert forall|m2: Move| !(#[trigger] castle_move(m, s, m2)) by {}
            }
        }
    } else {
        proof {
            assert forall|m2: Move| !(#[trigger] castle_move(m, s, m2)) by {}
        }
    }
}

/// Appends the pseudo-legal moves of `piece` standing on `at`: the piece's
/// movement pattern with promotion expansion, and, for a king, castling
/// candidates unless `skip_castling` is set.
fn piece_moves_into(board: &Board, piece: Piece, at: Square, skip_castling: bool, moves: &mut Vec<Move>)
    requires
        board@.wf(),
        at < 64,
        !skip_castling ==> board@.halfmove_clock < u32::MAX && board@.fullmove_number
            < u32::MAX,
        forall|mv: Move| old(moves)@.contains(mv) ==> (#[trigger] mv.from) != at,
    ensures
        added_ok(
            old(moves)@,
            final(moves)@,
            |mv: Move| piece_move(board@, piece, at as int, skip_castling, mv),
        ),
{
    let ghost m = board@;
    let ghost s = at as int;
    let ghost s0 = moves@;
    let white = piece.is_white();
    match piece {
        Piece::PawnWhite | Piece::PawnBlack => {
            pawn_into(board, white, at, moves);
            proof {
                lemma_added_ok_equiv(
                    s0,
                    moves@,
                    |mv: Move| pawn_emit(m, white, s, mv),
                    |mv: Move| piece_move(m, piece, s, skip_castling, mv),
                );
            }
        },
        Piece::KnightWhite | Piece::KnightBlack => {
            knight_into(board, white, at, moves);
            proof {
                lemma_added_ok_equiv(
                    s0,
                    moves@,
                    |mv: Move| knight_emit(m, white, s, mv),
                    |mv: Move| piece_move(m, piece, s, skip_castling, mv),
                );
            }
        },
        Piece::BishopWhite | Piece::BishopBlack => {
            bishop_into(board, white, at, moves);
            proof {
                lemma_added_ok_equiv(
                    s0,
                    moves@,
                    |mv: Move| bishop_emit(m, white, s, mv),
                    |mv: Move| piece_move(m, piece, s, skip_castling, mv),
                );
            }
        },
        Piece::RookWhite | Piece::RookBlack => {
            rook_into(board, white, at, moves);
            proof {
                lemma_added_ok_equiv(
                    s0,
                    moves@,
                    |mv: Move| rook_emit(m, white, s, mv),
                    |mv: Move| piece_move(m, piece, s, skip_castling, mv),
                );
            }
        },
        Piece::QueenWhite | Piece::QueenBlack => {
            queen_into(board, white, at, moves);
            proof {
                lemma_added_ok_equiv(
                    s0,
                    moves@,
                    |mv: Move| rook_emit(m, white, s, mv) || bishop_emit(m, white, s, mv),
                    |mv: Move| piece_move(m, piece, s, skip_castling, mv),
                );
            }
        },
        Piece::KingWhite | Piece::KingBlack => {
            king_steps_into(board, white, at, moves);
            if !skip_castling {
                let ghost b1 = moves@;
                let ghost q = |mv: Move| king_step_emit(m, white, s, mv) || castle_move(m, s, mv);
                castling_into(board, at, moves);
                proof {
                    lemma_added_ok_trans(
                        s0,
                        b1,
                        moves@,
                        |mv: Move| king_step_emit(m, white, s, mv),
                        |mv: Move| castle_move(m, s, mv),
                        q,
                    );
                    lemma_added_ok_equiv(
                        s0,
                        moves@,
                        q,
                        |mv: Move| piece_move(m, piece, s, skip_castling, mv),
                    );
                }
            } else {
                proof {
                    lemma_added_ok_equiv(
                        s0,
                        moves@,
                        |mv: Move| king_step_emit(m, white, s, mv),
                        |mv: Move| piece_move(m, piece, s, skip_castling, mv),
                    );
                }
            }
        },
    }
}

/// Generate the pseudo-legal moves for a particular piece on a certain
/// square within a board.
fn generate_piece_moves(board: &Board, piece: Piece, at: Square, skip_castling: bool) -> (r: Vec<
    Move,
>)
    requires
        board@.wf(),
        at < 64,
        !skip_castling ==> board@.halfmove_clock < u32::MAX && board@.fullmove_number
            < u32::MAX,
    ensures
        forall|mv: Move|
            #[trigger] r@.contains(mv) <==> piece_move(board@, piece, at as int, skip_castling, mv),
        r@.no_duplicates(),
{
    let mut moves: Vec<Move> = Vec::new();
    piece_moves_into(board, piece, at, skip_castling, &mut moves);
    proof {
        lemma_added_ok_no_dup(
            Seq::<Move>::empty(),
            moves@,
            |mv: Move| piece_move(board@, piece, at as int, skip_castling, mv),
        );
    }
    moves
}

/// A chess position.
#[derive(Debug, PartialEq, Eq, Clone, Copy)]
pub struct Board {
    pieces: [Option<Piece>; 64],
    pub white_to_move: bool,
    en_pessant_square: Option<Square>,
    can_white_castle_king_side: bool,
    can_white_castle_queen_side: bool,
    can_black_castle_king_side: bool,
    can_black_castle_queen_side: bool,
    half_move_clock: u32,
    full_move_counter: u32,
}

/// Additional information about a move, for the benefit of a rendering
/// collaborator; it never feeds back into legality logic.
#[derive(PartialEq, Eq, Clone, Debug)]
pub struct MoveInfo {
    /// Pairs of (from, to) square indices, indicating that the piece on `from`
    /// was moved to `to`. Castling will result in both the rook and king move
    /// being added to this list.
    pub moved_pieces: Vec<(Square, Square)>,
    /// List of squares from which a piece was removed.
    /// Promotions will add a removed pawn to this list and the promoted piece
    /// to `added_pieces`.
    pub removed_pieces: Vec<Square>,
    /// Pairs of (square, piece) indicating that a piece of kind `piece` was
    /// added to `square`. Promotions will add the promoted piece to this list.
    pub added_pieces: Vec<(Square, Piece)>,
}

impl View for Board {
    type V = BoardModel;

    closed spec fn view(&self) -> BoardModel {
        BoardModel {
            placement: self.pieces@,
            white_to_move: self.white_to_move,
            en_passant: self.en_pessant_square,
            castle_wk: self.can_white_castle_king_side,
            castle_wq: self.can_white_castle_queen_side,
            castle_bk: self.can_black_castle_king_side,
            castle_bq: self.can_black_castle_queen_side,
            halfmove_clock: self.half_move_clock,
            fullmove_number: self.full_move_counter,
        }
    }
}

impl Board {
    /// Create a new chess board with no pieces placed.
    pub fn blank() -> (r: Self)
        ensures
            r@ == BoardModel::blank(),
            r@.wf(),
    {
        let r = Self {
            pieces: [None; 64],
            white_to_move: true,
            en_pessant_square: None,
            can_white_castle_king_side: true,
            can_white_castle_queen_side: true,
            can_black_castle_king_side: true,
            can_black_castle_queen_side: true,
            half_move_clock: 0,
            full_move_counter: 0,
        };
        proof {
            assert(r@.placement =~= BoardModel::blank().placement);
            assert(r@ =~= BoardModel::blank());
        }
        r
    }

    /// Lookup what piece is at a particular square in the board.
    /// A square index off the board holds nothing.
    pub fn at(&self, square: Square) -> (r: Option<Piece>)
        ensures
            r == if square < 64 {
                self@.placement[square as int]
            } else {
                None::<Piece>
            },
    {
        if square < 64 {
            self.pieces[square as usize]
        } else {
            None
        }
    }

    /// Place a piece within the board without updating any other state.
    pub(crate) fn place(&mut self, piece: Piece, at: Square)
        requires
            at < 64,
        ensures
            final(self)@ == (BoardModel {
                placement: old(self)@.placement.update(at as int, Some(piece)),
                ..old(self)@
            }),
    {
        self.pieces[at as usize] = Some(piece);
    }

    /// Applies a move to the board, and reports the relocations, removals and
    /// additions it performed. The move is assumed to be legal; legality must
    /// be established beforehand by the move generator. A move from a vacant
    /// square is a no-op and reports nothing.
    #[verifier::rlimit(100)]
#[verifier::spinoff_prover]
    pub fn apply(&mut self, mv: Move) -> (info: MoveInfo)
        requires
            old(self)@.wf(),
            mv.from < 64,
            mv.to < 64,
            old(self)@.halfmove_clock < u32::MAX,
            old(self)@.fullmove_number < u32::MAX,
        ensures
            final(self)@ == spec_apply(old(self)@, mv),
            final(self)@.wf(),
            info.moved_pieces@ == spec_moved_pieces(old(self)@, mv),
            info.removed_pieces@ == spec_removed_pieces(old(self)@, mv),
            info.added_pieces@ == spec_added_pieces(old(self)@, mv),
    {
        let from = mv.from;
        let to = mv.to;
        let mut moved_pieces: Vec<(Square, Square)> = Vec::new();
        let mut removed_pieces: Vec<Square> = Vec::new();
        let mut added_pieces: Vec<(Square, Piece)> = Vec::new();

        // A move from a vacant square leaves the position unchanged.
        let piece = match self.at(from) {
            Some(p) => p,
            None => {
                return MoveInfo { moved_pieces, removed_pieces, added_pieces };
            },
        };

        // Record the captured piece.
        let is_capture = self.at(to).is_some();
        if is_capture {
            removed_pieces.push(to);
        }

        // Update the state of the moved piece.
        self.pieces[from as usize] = None;
        if let Some(promote_to) = mv.promote_to {
            self.pieces[to as usize] = Some(promote_to);
            removed_pieces.push(from);
            added_pieces.push((to, promote_to));
        } else {
            self.pieces[to as usize] = Some(piece);
            moved_pieces.push((from, to));
        }

        // Set the half-move clock.
        let is_pawn_move = piece == Piece::PawnWhite || piece == Piece::PawnBlack;
        if is_pawn_move || is_capture {
            self.half_move_clock = 0;
        } else {
            self.half_move_clock = self.half_move_clock + 1;
        }

        // Remove the pawn captured en passant: a pawn changed file without
        // landing on a piece, so the captured pawn sits one rank behind the
        // destination, on the mover's side.
        let changed_file = (from % 8) != (to % 8);
        if is_pawn_move && changed_file && !is_capture {
            if self.white_to_move {
                if to >= 8 {
                    let captured_pawn_square = to - 8;
                    self.pieces[captured_pawn_square as usize] = None;
                    removed_pieces.push(captured_pawn_square);
                }
            } else {
                if to < 56 {
                    let captured_pawn_square = to + 8;
                    self.pieces[captured_pawn_square as usize] = None;
                    removed_pieces.push(captured_pawn_square);
                }
            }
        }
        proof {
            assert(self.pieces@ == (match ep_capture_square(old(self)@, mv) {
                Some(c) => old(self)@.placement.update(from as int, None).update(
                    to as int,
                    match mv.promote_to {
                        Some(pp) => Some(pp),
                        None => Some(piece),
                    },
                ).update(c as int, None),
                None => old(self)@.placement.update(from as int, None).update(
                    to as int,
                    match mv.promote_to {
                        Some(pp) => Some(pp),
                        None => Some(piece),
                    },
                ),
            }));
        }

        // Set the en-passant target square.
        if is_pawn_move && to == from + 16 {
            self.en_pessant_square = Some(from + 8);
        } else if is_pawn_move && from == to + 16 {
            self.en_pessant_square = Some(from - 8);
        } else {
            self.en_pessant_square = None;
        }

        // Move the rook when a player castles.
        if piece == Piece::KingWhite && from == 4 && to == 2 {
            self.pieces[0] = None;
            self.pieces[3] = Some(Piece::RookWhite);
            moved_pieces.push((0, 3));
        } else if piece == Piece::KingWhite && from == 4 && to == 6 {
            self.pieces[7] = None;
            self.pieces[5] = Some(Piece::RookWhite);
            moved_pieces.push((7, 5));
        } else if piece == Piece::KingBlack && from == 60 && to == 58 {
            self.pieces[56] = None;
            self.pieces[59] = Some(Piece::RookBlack);
            moved_pieces.push((56, 59));
        } else if piece == Piece::KingBlack && from == 60 && to == 62 {
            self.pieces[63] = None;
            self.pieces[61] = Some(Piece::RookBlack);
            moved_pieces.push((63, 61));
        }

        // Update castling rights: a right is lost when the king moves or the
        // relevant rook's home square is vacated or landed on.
        self.can_white_castle_queen_side = self.can_white_castle_queen_side && !(piece
            == Piece::KingWhite || from == 0 || to == 0);
        self.can_white_castle_king_side = self.can_white_castle_king_side && !(piece
            == Piece::KingWhite || from == 7 || to == 7);
        self.can_black_castle_queen_side = self.can_black_castle_queen_side && !(piece
            == Piece::KingBlack || from == 56 || to == 56);
        self.can_black_castle_king_side = self.can_black_castle_king_side && !(piece
            == Piece::KingBlack || from == 63 || to == 63);

        // Update whose turn it is, and increment the move counter if needed.
        self.white_to_move = !self.white_to_move;
        if self.white_to_move {
            self.full_move_counter = self.full_move_counter + 1;
        }

        proof {
            assert(self@ =~= spec_apply(old(self)@, mv));
            assert(moved_pieces@ =~= spec_moved_pieces(old(self)@, mv));
            assert(removed_pieces@ =~= spec_removed_pieces(old(self)@, mv));
            assert(added_pieces@ =~= spec_added_pieces(old(self)@, mv));
        }
        MoveInfo { moved_pieces, removed_pieces, added_pieces }
    }

    /// Whether a hypothetical piece like `piece` standing on `ksq` could
    /// capture an enemy piece of its own kind.
    fn detects_check_with(&self, piece: Piece, ksq: Square) -> (r: bool)
        requires
            self@.wf(),
            ksq < 64,
        ensures
            r == detects_with(self@, piece, ksq as int),
    {
        let ghost m = self@;
        let ghost s = ksq as int;
        let white = piece.is_white();
        let mut pm: Vec<Move> = Vec::new();
        match piece {
            Piece::PawnWhite | Piece::PawnBlack => pawn_into(self, white, ksq, &mut pm),
            Piece::KnightWhite | Piece::KnightBlack => knight_into(self, white, ksq, &mut pm),
            Piece::BishopWhite | Piece::BishopBlack => bishop_into(self, white, ksq, &mut pm),
            Piece::RookWhite | Piece::RookBlack => rook_into(self, white, ksq, &mut pm),
            Piece::QueenWhite | Piece::QueenBlack => queen_into(self, white, ksq, &mut pm),
            Piece::KingWhite | Piece::KingBlack => king_steps_into(self, white, ksq, &mut pm),
        }
        proof {
            assert forall|mv: Move|
                #[trigger] pm@.contains(mv) implies on_board(mv.to as int) && crate::rules::piece_dest(
                m,
                piece,
                s,
                mv.to as int,
            ) by {
                if piece.kind() == PieceKind::Pawn {
                    assert(pawn_emit(m, white, s, mv));
                }
            }
            assert forall|t: int|
                capture_detected(m, piece, s, t) implies exists|mv: Move|
                #[trigger] pm@.contains(mv) && mv.to as int == t by {
                if piece.kind() == PieceKind::Pawn {
                    let promo: Option<Piece> = if rank_of(t) == last_rank(white) {
                        Some(if white { Piece::KnightWhite } else { Piece::KnightBlack })
                    } else {
                        None
                    };
                    let mv = Move { from: ksq, to: t as Square, promote_to: promo };
                    assert(pawn_emit(m, white, s, mv));
                    assert(pm@.contains(mv) && mv.to as int == t);
                } else {
                    let mv = Move { from: ksq, to: t as Square, promote_to: None };
                    assert(pm@.contains(mv) && mv.to as int == t);
                }
            }
        }
        let mut j: usize = 0;
        while j < pm.len()
            invariant
                self@.wf(),
                ksq < 64,
                m == self@,
                s == ksq as int,
                white == piece.spec_white(),
                j <= pm@.len(),
                forall|mv: Move|
                    #[trigger] pm@.contains(mv) ==> on_board(mv.to as int)
                        && crate::rules::piece_dest(m, piece, s, mv.to as int),
                forall|t: int|
                    capture_detected(m, piece, s, t) ==> exists|mv: Move|
                        #[trigger] pm@.contains(mv) && mv.to as int == t,
                forall|jj: int|
                    0 <= jj < j ==> !(m.placement[(#[trigger] pm@[jj]).to as int] matches Some(q)
                        && q.spec_white() != white && q.kind() == piece.kind()),
            decreases pm@.len() - j,
        {
            let mv = pm[j];
            proof {
                assert(pm@.contains(mv));
            }
            let hit = match self.at(mv.to) {
                Some(other) => other.is_white() != white && other.is_same_kind(&piece),
                None => false,
            };
            if hit {
                proof {
                    assert(pm@.contains(mv));
                    assert(capture_detected(m, piece, s, mv.to as int));
                }
                return true;
            }
            j = j + 1;
        }
        proof {
            if detects_with(m, piece, s) {
                let t = choose|t: int| capture_detected(m, piece, s, t);
                let mv = choose|mv: Move| #[trigger] pm@.contains(mv) && mv.to as int == t;
                let jj = choose|jj: int| 0 <= jj < pm@.len() && pm@[jj] == mv;
                assert(!(m.placement[pm@[jj].to as int] matches Some(q) && q.spec_white() != white
                    && q.kind() == piece.kind()));
                assert(false);
            }
        }
        false
    }

    /// Is black or white in check? Asking of a color whose king is absent
    /// is an invariant violation, so the king must be on the board; when
    /// several stand there, the lowest-indexed one is the one examined.
    fn is_side_in_check(&self, check_white: bool) -> (r: bool)
        requires
            self@.wf(),
            has_king(self@, check_white),
        ensures
            r == spec_in_check(self@, check_white),
    {
        let ghost m = self@;
        // find the position of the player's king
        let mut king_pos: Option<Square> = None;
        let mut i: u8 = 0;
        while i < 64
            invariant
                self@.wf(),
                m == self@,
                i <= 64,
                match king_pos {
                    None => first_king_from(m, check_white, 0) == first_king_from(
                        m,
                        check_white,
                        i as int,
                    ),
                    Some(k) => first_king_from(m, check_white, 0) == Some(k as int) && k < 64,
                },
            decreases 64 - i,
        {
            if king_pos.is_none() {
                let found = match self.at(i) {
                    Some(p) => (check_white && p == Piece::KingWhite) || (!check_white && p
                        == Piece::KingBlack),
                    None => false,
                };
                if found {
                    king_pos = Some(i);
                }
            }
            i = i + 1;
        }

        // Pretend that the player's king is any other piece of the same color.
        // If that piece could capture an enemy piece of the same kind, the
        // king is in check: for example, if a knight standing on the king's
        // square could capture an enemy knight, that knight gives check.
        let ksq = match king_pos {
            Some(k) => k,
            None => {
                proof {
                    assert(false);
                }
                return false;
            },
        };
        proof {
            lemma_check_by_substitution(m, ksq as int, check_white);
            assert(color_piece(check_white, PieceKind::Queen) == (if check_white {
                Piece::QueenWhite
            } else {
                Piece::QueenBlack
            }));
        }
        if check_white {
            self.detects_check_with(Piece::QueenWhite, ksq) || self.detects_check_with(
                Piece::BishopWhite,
                ksq,
            ) || self.detects_check_with(Piece::RookWhite, ksq) || self.detects_check_with(
                Piece::KnightWhite,
                ksq,
            ) || self.detects_check_with(Piece::PawnWhite, ksq) || self.detects_check_with(
                Piece::KingWhite,
                ksq,
            )
        } else {
            self.detects_check_with(Piece::QueenBlack, ksq) || self.detects_check_with(
                Piece::BishopBlack,
                ksq,
            ) || self.detects_check_with(Piece::RookBlack, ksq) || self.detects_check_with(
                Piece::KnightBlack,
                ksq,
            ) || self.detects_check_with(Piece::PawnBlack, ksq) || self.detects_check_with(
                Piece::KingBlack,
                ksq,
            )
        }
    }

    /// Whether the side to move is in check.
    fn is_in_check(&self) -> (r: bool)
        requires
            self@.wf(),
            has_king(self@, self@.white_to_move),
        ensures
            r == spec_in_check(self@, self@.white_to_move),
    {
        self.is_side_in_check(self.white_to_move)
    }

    /// Whether the side that is not to move is in check.
    fn is_opponent_in_check(&self) -> (r: bool)
        requires
            self@.wf(),
            has_king(self@, !self@.white_to_move),
        ensures
            r == spec_in_check(self@, !self@.white_to_move),
    {
        self.is_side_in_check(!self.white_to_move)
    }

    /// Does this move leave the current player in check? The check is
    /// performed by applying the move to a clone of the board, then asking
    /// whether the side that just moved is in check.
    fn would_leave_in_check(&self, mv: Move) -> (r: bool)
        requires
            self@.wf(),
            mv.from < 64,
            mv.to < 64,
            self@.placement[mv.from as int] is Some,
            has_king(spec_apply(self@, mv), self@.white_to_move),
            self@.halfmove_clock < u32::MAX,
            self@.fullmove_number < u32::MAX,
        ensures
            r == leaves_mover_in_check(self@, mv),
    {
        let mut b = *self;
        b.apply(mv);
        b.is_opponent_in_check()
    }

    /// Generate all pseudo-legal moves possible within the current board.
    /// A pseudo-legal move may leave the player in check.
    pub fn generate_pseudo_moves(&self) -> (r: Vec<Move>)
        requires
            self@.wf(),
            self@.halfmove_clock < u32::MAX,
            self@.fullmove_number < u32::MAX,
        ensures
            forall|mv: Move| #[trigger] r@.contains(mv) <==> spec_pseudo_legal(self@, mv),
            r@.no_duplicates(),
    {
        let ghost m = self@;
        let mut moves: Vec<Move> = Vec::new();
        let mut rr: u8 = 8;
        while rr > 0
            invariant
                self@.wf(),
                m == self@,
                self@.halfmove_clock < u32::MAX,
                self@.fullmove_number < u32::MAX,
                rr <= 8,
                moves@.no_duplicates(),
                forall|mv: Move|
                    #[trigger] moves@.contains(mv) <==> spec_pseudo_legal(m, mv) && rank_of(
                        mv.from as int,
                    ) >= rr as int,
            decreases rr,
        {
            rr = rr - 1;
            let mut ff: u8 = 0;
            while ff < 8
                invariant
                    self@.wf(),
                    m == self@,
                    self@.halfmove_clock < u32::MAX,
                    self@.fullmove_number < u32::MAX,
                    rr < 8,
                    ff <= 8,
                    moves@.no_duplicates(),
                    forall|mv: Move|
                        #[trigger] moves@.contains(mv) <==> spec_pseudo_legal(m, mv) && (rank_of(
                            mv.from as int,
                        ) > rr as int || (rank_of(mv.from as int) == rr as int && file_of(
                            mv.from as int,
                        ) < ff as int)),
                decreases 8 - ff,
            {
                let square: u8 = rr * 8 + ff;
                proof {
                    assert(rank_of(square as int) == rr as int);
                    assert(file_of(square as int) == ff as int);
                }
                let take = match self.at(square) {
                    Some(piece) => self.white_to_move == piece.is_white(),
                    None => false,
                };
                if take {
                    let piece = match self.at(square) {
                        Some(p) => p,
                        None => Piece::PawnWhite,
                    };
                    let ghost pre = moves@;
                    piece_moves_into(self, piece, square, false, &mut moves);
                    proof {
                        lemma_added_ok_no_dup(
                            pre,
                            moves@,
                            |mv: Move| piece_move(m, piece, square as int, false, mv),
                        );
                        assert forall|mv: Move|
                            #[trigger] moves@.contains(mv) <==> spec_pseudo_legal(m, mv) && (
                            rank_of(mv.from as int) > rr as int || (rank_of(mv.from as int)
                                == rr as int && file_of(mv.from as int) < ff as int + 1)) by {
                            if piece_move(m, piece, square as int, false, mv) {
                                assert(mv.from == square);
                                assert(spec_pseudo_legal(m, mv));
                            }
                            if spec_pseudo_legal(m, mv) && mv.from == square {
                                assert(piece_move(m, piece, square as int, false, mv));
                            }
                            if spec_pseudo_legal(m, mv) && mv.from != square && (rank_of(
                                mv.from as int,
                            ) > rr as int || (rank_of(mv.from as int) == rr as int && file_of(
                                mv.from as int,
                            ) < ff as int + 1)) {
                                assert(mv.from as int == rank_of(mv.from as int) * 8 + file_of(
                                    mv.from as int,
                                ));
                                assert(rank_of(mv.from as int) > rr as int || file_of(
                                    mv.from as int,
                                ) < ff as int);
                            }
                        }
                    }
                } else {
                    proof {
                        assert forall|mv: Move|
                            #[trigger] moves@.contains(mv) <==> spec_pseudo_legal(m, mv) && (
                            rank_of(mv.from as int) > rr as int || (rank_of(mv.from as int)
                                == rr as int && file_of(mv.from as int) < ff as int + 1)) by {
                            if spec_pseudo_legal(m, mv) && mv.from == square {
                                assert(is_color(m.placement[square as int], m.white_to_move));
                            }
                            if spec_pseudo_legal(m, mv) && mv.from != square && (rank_of(
                                mv.from as int,
                            ) > rr as int || (rank_of(mv.from as int) == rr as int && file_of(
                                mv.from as int,
                            ) < ff as int + 1)) {
                                assert(mv.from as int == rank_of(mv.from as int) * 8 + file_of(
                                    mv.from as int,
                                ));
                                assert(rank_of(mv.from as int) > rr as int || file_of(
                                    mv.from as int,
                                ) < ff as int);
                            }
                        }
                    }
                }
                ff = ff + 1;
            }
        }
        proof {
            assert forall|mv: Move|
                #[trigger] moves@.contains(mv) <==> spec_pseudo_legal(m, mv) by {
                if spec_pseudo_legal(m, mv) {
                    assert(rank_of(mv.from as int) >= 0);
                }
            }
        }
        moves
    }

    /// Generate all legal moves possible within the current board: the
    /// pseudo-legal moves that do not leave the mover's own king attacked.
    /// The side to move must have its king on the board, and the en-passant
    /// target must satisfy its invariant; asking without them is an
    /// invariant violation.
    pub fn generate_moves(&self) -> (r: Vec<Move>)
        requires
            self@.wf(),
            has_king(self@, self@.white_to_move),
            ep_coherent(self@),
            self@.halfmove_clock < u32::MAX,
            self@.fullmove_number < u32::MAX,
        ensures
            forall|mv: Move| #[trigger] r@.contains(mv) <==> spec_legal(self@, mv),
            r@.no_duplicates(),
    {
        let ghost m = self@;
        let pseudo = self.generate_pseudo_moves();
        let mut moves: Vec<Move> = Vec::new();
        let mut i: usize = 0;
        while i < pseudo.len()
            invariant
                self@.wf(),
                m == self@,
                has_king(m, m.white_to_move),
                ep_coherent(m),
                self@.halfmove_clock < u32::MAX,
                self@.fullmove_number < u32::MAX,
                i <= pseudo@.len(),
                pseudo@.no_duplicates(),
                forall|mv: Move| #[trigger] pseudo@.contains(mv) <==> spec_pseudo_legal(m, mv),
                forall|mv: Move|
                    #[trigger] moves@.contains(mv) <==> pseudo@.subrange(0, i as int).contains(mv)
                        && !leaves_mover_in_check(m, mv),
                moves@.no_duplicates(),
            decreases pseudo@.len() - i,
        {
            let mv = pseudo[i];
            proof {
                assert(pseudo@.contains(mv));
                assert(spec_pseudo_legal(m, mv));
                crate::rules::lemma_piece_move_bounds(
                    m,
                    m.placement[mv.from as int]->Some_0,
                    mv.from as int,
                    false,
                    mv,
                );
                lemma_apply_keeps_mover_king(m, mv);
            }
            if !self.would_leave_in_check(mv) {
                let ghost pre = moves@;
                proof {
                    if pre.contains(mv) {
                        assert(pseudo@.subrange(0, i as int).contains(mv));
                        let k = choose|k: int|
                            0 <= k < i && pseudo@.subrange(0, i as int)[k] == mv;
                        assert(pseudo@[k] == mv);
                        assert(false);
                    }
                }
                moves.push(mv);
            }
            proof {
                assert(pseudo@.subrange(0, i as int + 1) =~= pseudo@.subrange(0, i as int).push(
                    pseudo@[i as int],
                ));
            }
            i = i + 1;
        }
        proof {
            assert(pseudo@.subrange(0, pseudo@.len() as int) =~= pseudo@);
        }
        moves
    }

    /// Generate the legal moves of the side to move's piece standing on
    /// `from`; an empty square yields no moves. The square may not hold the
    /// other side's piece: legality is the mover's king safety.
    pub fn generate_square_moves(&self, from: Square) -> (r: Vec<Move>)
        requires
            self@.wf(),
            has_king(self@, self@.white_to_move),
            ep_coherent(self@),
            from < 64 ==> !(self@.placement[from as int] matches Some(p) && p.spec_white()
                != self@.white_to_move),
            self@.halfmove_clock < u32::MAX,
            self@.fullmove_number < u32::MAX,
        ensures
            forall|mv: Move|
                #[trigger] r@.contains(mv) <==> (from < 64 && (self@.placement[from as int]
                    matches Some(p) && piece_move(self@, p, from as int, false, mv)
                    && !leaves_mover_in_check(self@, mv))),
            r@.no_duplicates(),
    {
        let ghost m = self@;
        let piece = match self.at(from) {
            Some(p) => p,
            None => {
                return Vec::new();
            },
        };
        let pm = generate_piece_moves(self, piece, from, false);
        let mut moves: Vec<Move> = Vec::new();
        let mut i: usize = 0;
        while i < pm.len()
            invariant
                self@.wf(),
                m == self@,
                has_king(m, m.white_to_move),
                ep_coherent(m),
                piece.spec_white() == m.white_to_move,
                self@.halfmove_clock < u32::MAX,
                self@.fullmove_number < u32::MAX,
                from < 64,
                m.placement[from as int] == Some(piece),
                i <= pm@.len(),
                pm@.no_duplicates(),
                forall|mv: Move|
                    #[trigger] pm@.contains(mv) <==> piece_move(m, piece, from as int, false, mv),
                forall|mv: Move|
                    #[trigger] moves@.contains(mv) <==> pm@.subrange(0, i as int).contains(mv)
                        && !leaves_mover_in_check(m, mv),
                moves@.no_duplicates(),
            decreases pm@.len() - i,
        {
            let mv = pm[i];
            proof {
                assert(pm@.contains(mv));
                crate::rules::lemma_piece_move_bounds(m, piece, from as int, false, mv);
                assert(spec_pseudo_legal(m, mv));
                lemma_apply_keeps_mover_king(m, mv);
            }
            if !self.would_leave_in_check(mv) {
                let ghost pre = moves@;
                proof {
                    if pre.contains(mv) {
                        assert(pm@.subrange(0, i as int).contains(mv));
                        let k = choose|k: int| 0 <= k < i && pm@.subrange(0, i as int)[k] == mv;
                        assert(pm@[k] == mv);
                        assert(false);
                    }
                }
                moves.push(mv);
            }
            proof {
                assert(pm@.subrange(0, i as int + 1) =~= pm@.subrange(0, i as int).push(
                    pm@[i as int],
                ));
            }
            i = i + 1;
        }
        proof {
            assert(pm@.subrange(0, pm@.len() as int) =~= pm@);
        }
        moves
    }
}


/// The error of decoding a malformed FEN string.
#[derive(Debug, PartialEq, Eq, Structural, Clone, Copy)]
pub enum FenError {
    /// The string does not follow the FEN grammar.
    Malformed,
}

impl Board {
    /// Reads a FEN piece-placement field onto a blank board.
    fn read_placement(&mut self, t: &Vec<char>) -> (ok: bool)
        requires
            old(self)@.placement == Seq::new(64, |i: int| None::<Piece>),
        ensures
            ok ==> crate::fen::spec_parse_placement(t@) == Some(final(self)@.placement),
            !ok ==> crate::fen::spec_parse_placement(t@) is None,
            final(self)@ == (BoardModel { placement: final(self)@.placement, ..old(self)@ }),
    {
        let mut rank: u8 = 7;
        let mut file: u8 = 0;
        let mut i: usize = 0;
        proof {
            assert(t@.skip(0) =~= t@);
        }
        while i < t.len()
            invariant
                i <= t@.len(),
                rank <= 7,
                file <= 8,
                crate::fen::spec_parse_placement(t@) == crate::fen::parse_placement_from(
                    t@.skip(i as int),
                    rank as int,
                    file as int,
                    self@.placement,
                ),
                self@ == (BoardModel { placement: self@.placement, ..old(self)@ }),
            decreases t@.len() - i,
        {
            proof {
                assert(t@.skip(i as int).first() == t@[i as int]);
                assert(t@.skip(i as int).drop_first() =~= t@.skip(i as int + 1));
            }
            let c = t[i];
            if c == '/' {
                if file == 8 && rank > 0 {
                    rank = rank - 1;
                    file = 0;
                } else {
                    return false;
                }
            } else if let Some(d) = crate::fen::digit_val(c) {
                if 1 <= d && d <= 8 && file + d <= 8 {
                    file = file + d;
                } else {
                    return false;
                }
            } else if let Some(p) = Piece::from_char(&c) {
                if file < 8 {
                    self.place(p, rank * 8 + file);
                    file = file + 1;
                } else {
                    return false;
                }
            } else {
                return false;
            }
            i = i + 1;
        }
        proof {
            assert(t@.skip(t@.len() as int) =~= Seq::<char>::empty());
        }
        rank == 0 && file == 8
    }

    /// Create a board from a Forsyth-Edwards Notation (FEN) string: four or
    /// six whitespace-separated fields (piece placement, side to move,
    /// castling rights, en-passant target, and optionally the half-move
    /// clock and full-move number). A string that does not follow the
    /// grammar is rejected; the castling field must be "-" or an in-order,
    /// duplicate-free subset of "KQkq".
    pub fn from_fen(fen: &str) -> (r: Result<Board, FenError>)
        ensures
            match crate::fen::spec_from_fen(fen@) {
                Some(bm) => r matches Ok(b) && b@ == bm && bm.wf(),
                None => r == Err::<Board, FenError>(FenError::Malformed),
            },
    {
        let ghost s = fen@;
        let cs = crate::text::str_chars(fen);
        let fields = crate::fen::split_ws(&cs);
        let ghost spec_fields = crate::fen::spec_split_ws(s);
        proof {
            assert forall|k: int| 0 <= k < fields@.len() implies (#[trigger] fields@[k])@
                == spec_fields[k] by {}
        }
        if !(fields.len() == 4 || fields.len() == 6) {
            return Err(FenError::Malformed);
        }

        // Read piece placement and place onto a blank board.
        let mut board = Self::blank();
        let ok = board.read_placement(&fields[0]);
        if !ok {
            return Err(FenError::Malformed);
        }
        proof {
            crate::fen::lemma_parse_placement_len(
                fields@[0]@,
                7,
                0,
                Seq::new(64, |i: int| None::<Piece>),
            );
        }

        // Read whose turn it is.
        let f1 = &fields[1];
        let white = if f1.len() == 1 && f1[0] == 'w' {
            proof {
                assert(f1@ =~= seq!['w']);
            }
            true
        } else if f1.len() == 1 && f1[0] == 'b' {
            proof {
                assert(f1@ =~= seq!['b']);
            }
            false
        } else {
            proof {
                if f1@ =~= seq!['w'] {
                    assert(f1@.len() == 1 && f1@[0] == 'w');
                }
                if f1@ =~= seq!['b'] {
                    assert(f1@.len() == 1 && f1@[0] == 'b');
                }
            }
            return Err(FenError::Malformed);
        };
        board.white_to_move = white;

        // Read castling rights.
        let f2 = &fields[2];
        let (wk, wq, bk, bq) = match crate::fen::parse_castling(f2) {
            Some(rights) => rights,
            None => {
                return Err(FenError::Malformed);
            },
        };
        board.can_white_castle_king_side = wk;
        board.can_white_castle_queen_side = wq;
        board.can_black_castle_king_side = bk;
        board.can_black_castle_queen_side = bq;

        // Read the en-passant target square.
        let f3 = &fields[3];
        let ep: Option<Square> = if f3.len() == 1 && f3[0] == '-' {
            proof {
                assert(f3@ =~= seq!['-']);
            }
            None
        } else {
            proof {
                if f3@ =~= seq!['-'] {
                    assert(f3@.len() == 1 && f3@[0] == '-');
                }
            }
            if f3.len() == 2 {
                match crate::square::square_from_chars(f3[0], f3[1]) {
                    Some(sq) => Some(sq),
                    None => {
                        return Err(FenError::Malformed);
                    },
                }
            } else {
                return Err(FenError::Malformed);
            }
        };
        board.en_pessant_square = ep;

        // Read the half-move and full-move clock counts, when present.
        if fields.len() == 6 {
            let h = match crate::fen::parse_u32(&fields[4]) {
                Some(h) => h,
                None => {
                    return Err(FenError::Malformed);
                },
            };
            let fm = match crate::fen::parse_u32(&fields[5]) {
                Some(fm) => fm,
                None => {
                    return Err(FenError::Malformed);
                },
            };
            board.half_move_clock = h;
            board.full_move_counter = fm;
        }
        proof {
            let bm = crate::fen::spec_from_fen(s)->Some_0;
            assert(board@ =~= bm);
        }
        Ok(board)
    }

    /// Create a Forsyth-Edwards Notation (FEN) string from the current
    /// board: its six fields separated by single spaces.
    #[verifier::rlimit(100)]
    pub fn to_fen(&self) -> (r: String)
        requires
            self@.wf(),
        ensures
            r@ == crate::fen::spec_to_fen(self@),
    {
        let ghost m = self@;
        let mut fen: Vec<char> = Vec::new();

        // Generate the piece placement, rank 8 first.
        let mut rr: u8 = 8;
        while rr > 0
            invariant
                self@.wf(),
                m == self@,
                rr <= 8,
                rr > 0 ==> fen@ + crate::fen::placement_chars_from(m, rr as int - 1)
                    == crate::fen::placement_chars_from(m, 7),
                rr == 0 ==> fen@ == crate::fen::placement_chars_from(m, 7),
            decreases rr,
        {
            rr = rr - 1;
            let r = rr;
            let ghost start = fen@;
            let mut run: u8 = 0;
            let mut ff: u8 = 0;
            while ff < 8
                invariant
                    self@.wf(),
                    m == self@,
                    r < 8,
                    ff <= 8,
                    run <= ff,
                    start + crate::fen::rank_chars_from(m, r as int, 0, 0) == fen@
                        + crate::fen::rank_chars_from(m, r as int, ff as int, run as int),
                decreases 8 - ff,
            {
                let sq: u8 = r * 8 + ff;
                match self.at(sq) {
                    None => {
                        run = run + 1;
                    },
                    Some(piece) => {
                        let ghost pre = fen@;
                        if run > 0 {
                            fen.push(crate::fen::digit_char_of(run as u32));
                        }
                        fen.push(piece.to_char());
                        proof {
                            assert(fen@ =~= pre + (if run > 0 {
                                seq![crate::fen::digit_char(run as int)]
                            } else {
                                Seq::<char>::empty()
                            }) + seq![piece.spec_char()]);
                            assert(start + crate::fen::rank_chars_from(m, r as int, 0, 0) =~= fen@
                                + crate::fen::rank_chars_from(m, r as int, ff as int + 1, 0));
                        }
                        run = 0;
                    },
                }
                ff = ff + 1;
            }
            let ghost pre = fen@;
            if run > 0 {
                fen.push(crate::fen::digit_char_of(run as u32));
            }
            proof {
                assert(fen@ =~= pre + (if run > 0 {
                    seq![crate::fen::digit_char(run as int)]
                } else {
                    Seq::<char>::empty()
                }));
                assert(fen@ =~= start + crate::fen::rank_chars_from(m, r as int, 0, 0));
            }
            if r > 0 {
                fen.push('/');
                proof {
                    assert(fen@ + crate::fen::placement_chars_from(m, r as int - 1)
                        =~= start + crate::fen::placement_chars_from(m, r as int));
                }
            } else {
                proof {
                    assert(fen@ =~= start + crate::fen::placement_chars_from(m, 0));
                }
            }
        }
        let ghost placement_done = fen@;

        // Write whose turn it is.
        fen.push(' ');
        if self.white_to_move {
            fen.push('w');
        } else {
            fen.push('b');
        }
        let ghost side_done = fen@;

        // Write castling rights.
        fen.push(' ');
        let ghost cast_start = fen@;
        if self.can_white_castle_king_side {
            fen.push('K');
        }
        if self.can_white_castle_queen_side {
            fen.push('Q');
        }
        if self.can_black_castle_king_side {
            fen.push('k');
        }
        if self.can_black_castle_queen_side {
            fen.push('q');
        }
        let cant_castle = !self.can_white_castle_king_side && !self.can_white_castle_queen_side
            && !self.can_black_castle_king_side && !self.can_black_castle_queen_side;
        if cant_castle {
            fen.push('-');
        }
        proof {
            assert(fen@ =~= cast_start + crate::fen::castling_chars(m));
        }
        let ghost cast_done = fen@;

        // Write the en-passant square.
        fen.push(' ');
        match self.en_pessant_square {
            None => {
                fen.push('-');
            },
            Some(square) => {
                fen.push(crate::square::file_char(square % 8));
                fen.push(crate::square::rank_char(square / 8));
            },
        }
        proof {
            assert(fen@ =~= cast_done + seq![' '] + crate::fen::ep_chars(m));
        }
        let ghost ep_done = fen@;

        // Write the half and full move counts.
        fen.push(' ');
        crate::fen::push_dec(self.half_move_clock, &mut fen);
        let ghost half_done = fen@;
        fen.push(' ');
        crate::fen::push_dec(self.full_move_counter, &mut fen);
        proof {
            assert(side_done =~= placement_done + seq![' '] + (if m.white_to_move {
                seq!['w']
            } else {
                seq!['b']
            }));
            assert(half_done =~= ep_done + seq![' '] + crate::fen::dec_chars(
                m.halfmove_clock as int,
            ));
            assert(fen@ =~= half_done + seq![' '] + crate::fen::dec_chars(
                m.fullmove_number as int,
            ));
            assert(fen@ =~= crate::fen::spec_to_fen(m));
        }
        crate::text::chars_to_string(&fen)
    }
}

} // verus!
