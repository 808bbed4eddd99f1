//! The Forsyth-Edwards Notation (FEN) text format, at the specification
//! level: what the encoder produces, what the decoder accepts, and the proof
//! that decoding an encoded position gives the position back.

use vstd::prelude::*;
use vstd::seq_lib::group_seq_properties;
use crate::model::BoardModel;
use crate::piece::Piece;
use crate::square::{
    file_of, on_board, rank_of, spec_square_chars, spec_square_from_algebraic, Square,
};

verus! {

broadcast use group_seq_properties;

/// The whitespace characters that separate FEN fields.
pub open spec fn is_ws(c: char) -> bool {
    c == ' ' || c == '\t' || c == '\n' || c == '\r'
}

/// Splits a string into its whitespace-separated tokens.
pub open spec fn spec_split_ws(s: Seq<char>) -> Seq<Seq<char>>
    decreases s.len(),
{
    if s.len() == 0 {
        seq![]
    } else {
        let c = s.last();
        let rest = spec_split_ws(s.drop_last());
        if is_ws(c) {
            rest
        } else if s.len() >= 2 && !is_ws(s[s.len() - 2]) {
            rest.update(rest.len() - 1, rest.last().push(c))
        } else {
            rest.push(seq![c])
        }
    }
}

/// The value of a decimal digit character, if it is one.
pub open spec fn dec_digit(c: char) -> Option<int> {
    match c {
        '0' => Some(0int),
        '1' => Some(1int),
        '2' => Some(2int),
        '3' => Some(3int),
        '4' => Some(4int),
        '5' => Some(5int),
        '6' => Some(6int),
        '7' => Some(7int),
        '8' => Some(8int),
        '9' => Some(9int),
        _ => None,
    }
}

/// The character of a decimal digit value 0-9.
pub open spec fn digit_char(d: int) -> char {
    if d == 0 {
        '0'
    } else if d == 1 {
        '1'
    } else if d == 2 {
        '2'
    } else if d == 3 {
        '3'
    } else if d == 4 {
        '4'
    } else if d == 5 {
        '5'
    } else if d == 6 {
        '6'
    } else if d == 7 {
        '7'
    } else if d == 8 {
        '8'
    } else {
        '9'
    }
}

/// The decimal digits of `n`, most significant first.
pub open spec fn dec_chars(n: int) -> Seq<char>
    decreases n,
{
    if n < 10 {
        seq![digit_char(n)]
    } else {
        dec_chars(n / 10) + seq![digit_char(n % 10)]
    }
}

/// Reading digits onto an accumulator: the value after reading all of `n`'s
/// digits onto `acc`.
pub open spec fn dec_shift(acc: int, n: int) -> int
    decreases n,
{
    if n < 10 {
        acc * 10 + n
    } else {
        dec_shift(acc, n / 10) * 10 + n % 10
    }
}

/// Parses the remaining digits of a non-negative integer onto `acc`,
/// rejecting any non-digit and any value beyond `u32::MAX`.
pub open spec fn parse_u32_from(t: Seq<char>, acc: int) -> Option<int>
    decreases t.len(),
{
    if t.len() == 0 {
        Some(acc)
    } else {
        match dec_digit(t.first()) {
            Some(d) => if acc * 10 + d <= u32::MAX {
                parse_u32_from(t.drop_first(), acc * 10 + d)
            } else {
                None
            },
            None => None,
        }
    }
}

/// The non-negative integer denoted by a non-empty string of decimal digits,
/// when it fits in a `u32`.
pub open spec fn spec_parse_u32(t: Seq<char>) -> Option<int> {
    if t.len() == 0 {
        None
    } else {
        parse_u32_from(t, 0)
    }
}

/// Parses the tail of a FEN piece-placement field, standing at the given
/// rank and file with pieces placed so far in `acc`: a digit skips that many
/// files, a piece letter places a piece, '/' closes a rank that has exactly
/// eight files, and the field must end with all eight ranks closed.
pub open spec fn parse_placement_from(
    t: Seq<char>,
    rank: int,
    file: int,
    acc: Seq<Option<Piece>>,
) -> Option<Seq<Option<Piece>>>
    decreases t.len(),
{
    if t.len() == 0 {
        if rank == 0 && file == 8 {
            Some(acc)
        } else {
            None
        }
    } else {
        let c = t.first();
        if c == '/' {
            if file == 8 && rank > 0 {
                parse_placement_from(t.drop_first(), rank - 1, 0, acc)
            } else {
                None
            }
        } else {
            match dec_digit(c) {
                Some(d) => if 1 <= d <= 8 && file + d <= 8 {
                    parse_placement_from(t.drop_first(), rank, file + d, acc)
                } else {
                    None
                },
                None => match Piece::spec_from_char(c) {
                    Some(p) => if file < 8 && 0 <= rank <= 7 {
                        parse_placement_from(
                            t.drop_first(),
                            rank,
                            file + 1,
                            acc.update(rank * 8 + file, Some(p)),
                        )
                    } else {
                        None
                    },
                    None => None,
                },
            }
        }
    }
}

/// The 64-square placement described by a FEN piece-placement field, if the
/// field is well formed: eight ranks, rank 8 first, each summing to exactly
/// eight files.
pub open spec fn spec_parse_placement(t: Seq<char>) -> Option<Seq<Option<Piece>>> {
    parse_placement_from(t, 7, 0, Seq::new(64, |i: int| None::<Piece>))
}

/// The side denoted by a FEN side-to-move field: "w" or "b".
pub open spec fn spec_parse_side(t: Seq<char>) -> Option<bool> {
    if t =~= seq!['w'] {
        Some(true)
    } else if t =~= seq!['b'] {
        Some(false)
    } else {
        None
    }
}

/// The en-passant target denoted by a FEN field: "-" for none, else a square
/// in algebraic form.
pub open spec fn spec_parse_ep(t: Seq<char>) -> Option<Option<Square>> {
    if t =~= seq!['-'] {
        Some(None)
    } else {
        match spec_square_from_algebraic(t) {
            Some(sq) => Some(Some(sq)),
            None => None,
        }
    }
}

/// The position denoted by a FEN string: four or six whitespace-separated
/// fields; the piece placement, side to move and en-passant target must be
/// well formed; the castling field grants each right by the presence of its
/// letter; a four-field string leaves both clocks zero.
pub open spec fn spec_from_fen(s: Seq<char>) -> Option<BoardModel> {
    let fields = spec_split_ws(s);
    if fields.len() != 4 && fields.len() != 6 {
        None
    } else {
        match (spec_parse_placement(fields[0]), spec_parse_side(fields[1]), spec_parse_castling(
            fields[2],
        ), spec_parse_ep(fields[3])) {
            (Some(placement), Some(white), Some((wk, wq, bk, bq)), Some(ep)) => {
                let clocks = if fields.len() == 6 {
                    match (spec_parse_u32(fields[4]), spec_parse_u32(fields[5])) {
                        (Some(h), Some(f)) => Some((h, f)),
                        _ => None,
                    }
                } else {
                    Some((0int, 0int))
                };
                match clocks {
                    Some((h, f)) => Some(
                        BoardModel {
                            placement,
                            white_to_move: white,
                            en_passant: ep,
                            castle_wk: wk,
                            castle_wq: wq,
                            castle_bk: bk,
                            castle_bq: bq,
                            halfmove_clock: h as u32,
                            fullmove_number: f as u32,
                        },
                    ),
                    None => None,
                }
            },
            _ => None,
        }
    }
}

/// The FEN encoding of one rank from file `f` on, with `run` empty files
/// already pending: runs of empty files become a digit, pieces their letter.
pub open spec fn rank_chars_from(m: BoardModel, r: int, f: int, run: int) -> Seq<char>
    decreases 8 - f,
{
    if f >= 8 {
        if run > 0 {
            seq![digit_char(run)]
        } else {
            seq![]
        }
    } else {
        match m.placement[r * 8 + f] {
            None => rank_chars_from(m, r, f + 1, run + 1),
            Some(p) => (if run > 0 {
                seq![digit_char(run)]
            } else {
                seq![]
            }) + seq![p.spec_char()] + rank_chars_from(m, r, f + 1, 0),
        }
    }
}

/// The FEN piece placement of ranks `r` down to 0, separated by '/'.
pub open spec fn placement_chars_from(m: BoardModel, r: int) -> Seq<char>
    decreases r,
{
    if r <= 0 {
        rank_chars_from(m, 0, 0, 0)
    } else {
        rank_chars_from(m, r, 0, 0) + seq!['/'] + placement_chars_from(m, r - 1)
    }
}

/// The letters of the held castling rights, in the order KQkq.
pub open spec fn castling_field_chars(wk: bool, wq: bool, bk: bool, bq: bool) -> Seq<char> {
    (if wk {
        seq!['K']
    } else {
        seq![]
    }) + (if wq {
        seq!['Q']
    } else {
        seq![]
    }) + (if bk {
        seq!['k']
    } else {
        seq![]
    }) + (if bq {
        seq!['q']
    } else {
        seq![]
    })
}

/// The FEN castling field: the letters of the rights still held, in the
/// order KQkq, or "-" when none are.
pub open spec fn castling_chars(m: BoardModel) -> Seq<char> {
    let s = castling_field_chars(m.castle_wk, m.castle_wq, m.castle_bk, m.castle_bq);
    if s.len() == 0 {
        seq!['-']
    } else {
        s
    }
}

/// The rights denoted by a FEN castling field: "-" for none, or an in-order,
/// duplicate-free subset of "KQkq" — that is, a field that spells exactly
/// the letters it grants, canonically. Anything else is rejected.
pub open spec fn spec_parse_castling(t: Seq<char>) -> Option<(bool, bool, bool, bool)> {
    if t =~= seq!['-'] {
        Some((false, false, false, false))
    } else if t.len() > 0 && t =~= castling_field_chars(
        t.contains('K'),
        t.contains('Q'),
        t.contains('k'),
        t.contains('q'),
    ) {
        Some((t.contains('K'), t.contains('Q'), t.contains('k'), t.contains('q')))
    } else {
        None
    }
}

/// The FEN en-passant field: the target square's name, or "-".
pub open spec fn ep_chars(m: BoardModel) -> Seq<char> {
    match m.en_passant {
        Some(sq) => spec_square_chars(sq as int),
        None => seq!['-'],
    }
}

/// The FEN encoding of a position: its six fields separated by single spaces.
pub open spec fn spec_to_fen(m: BoardModel) -> Seq<char> {
    placement_chars_from(m, 7) + seq![' '] + (if m.white_to_move {
        seq!['w']
    } else {
        seq!['b']
    }) + seq![' '] + castling_chars(m) + seq![' '] + ep_chars(m) + seq![' '] + dec_chars(
        m.halfmove_clock as int,
    ) + seq![' '] + dec_chars(m.fullmove_number as int)
}


/// Whether `c` is a FEN field separator.
pub(crate) fn is_ws_char(c: char) -> (r: bool)
    ensures
        r == is_ws(c),
{
    c == ' ' || c == '\t' || c == '\n' || c == '\r'
}

/// Splits the characters into whitespace-separated tokens.
pub(crate) fn split_ws(cs: &Vec<char>) -> (r: Vec<Vec<char>>)
    ensures
        r.deep_view() == spec_split_ws(cs@),
{
    let mut fields: Vec<Vec<char>> = Vec::new();
    let mut tok: Vec<char> = Vec::new();
    let mut i: usize = 0;
    while i < cs.len()
        invariant
            i <= cs@.len(),
            tok@.len() == 0 ==> spec_split_ws(cs@.subrange(0, i as int)) == fields.deep_view() && (
            i == 0 || is_ws(cs@[i - 1])),
            tok@.len() > 0 ==> i > 0 && !is_ws(cs@[i - 1]) && spec_split_ws(
                cs@.subrange(0, i as int),
            ) == fields.deep_view().push(tok@),
        decreases cs@.len() - i,
    {
        let c = cs[i];
        let ghost pre_fields = fields.deep_view();
        let ghost pre_tok = tok@;
        proof {
            assert(cs@.subrange(0, i as int + 1).drop_last() =~= cs@.subrange(0, i as int));
            assert(cs@.subrange(0, i as int + 1).last() == cs@[i as int]);
        }
        if is_ws_char(c) {
            if tok.len() > 0 {
                fields.push(tok);
                tok = Vec::new();
                proof {
                    assert(fields.deep_view() =~~= pre_fields.push(pre_tok));
                }
            }
        } else {
            if tok.len() == 0 {
                tok.push(c);
                proof {
                    assert(tok@ =~= seq![c]);
                    assert(spec_split_ws(cs@.subrange(0, i as int + 1)) =~~= fields.deep_view().push(
                        tok@,
                    ));
                }
            } else {
                tok.push(c);
                proof {
                    assert(tok@ =~= pre_tok.push(c));
                    let s1 = cs@.subrange(0, i as int + 1);
                    assert(s1.len() >= 2);
                    assert(s1[s1.len() - 2] == cs@[i - 1]);
                    assert(s1.last() == c);
                    let rest = spec_split_ws(cs@.subrange(0, i as int));
                    assert(rest == pre_fields.push(pre_tok));
                    assert(rest.last() == pre_tok);
                    assert(spec_split_ws(s1) == rest.update(rest.len() - 1, rest.last().push(c)));
                    assert(pre_fields.push(pre_tok).update(
                        pre_fields.push(pre_tok).len() - 1,
                        pre_tok.push(c),
                    ) =~~= pre_fields.push(pre_tok.push(c)));
                    assert(spec_split_ws(cs@.subrange(0, i as int + 1)) =~~= fields.deep_view().push(
                        tok@,
                    ));
                }
            }
        }
        i = i + 1;
    }
    proof {
        assert(cs@.subrange(0, cs@.len() as int) =~= cs@);
    }
    if tok.len() > 0 {
        let ghost pre_fields = fields.deep_view();
        let ghost pre_tok = tok@;
        fields.push(tok);
        proof {
            assert(fields.deep_view() =~~= pre_fields.push(pre_tok));
        }
    }
    fields
}

/// The character of a decimal digit value.
pub(crate) fn digit_char_of(d: u32) -> (c: char)
    requires
        d < 10,
    ensures
        c == digit_char(d as int),
{
    match d {
        0 => '0',
        1 => '1',
        2 => '2',
        3 => '3',
        4 => '4',
        5 => '5',
        6 => '6',
        7 => '7',
        8 => '8',
        _ => '9',
    }
}

/// Appends the decimal digits of `n`, most significant first.
pub(crate) fn push_dec(n: u32, out: &mut Vec<char>)
    ensures
        final(out)@ == old(out)@ + dec_chars(n as int),
    decreases n,
{
    if n < 10 {
        out.push(digit_char_of(n));
        proof {
            assert(final(out)@ =~= old(out)@ + dec_chars(n as int));
        }
    } else {
        push_dec(n / 10, out);
        let ghost mid = out@;
        out.push(digit_char_of(n % 10));
        proof {
            assert(out@ =~= mid + seq![digit_char((n % 10) as int)]);
            assert(out@ =~= old(out)@ + dec_chars(n as int));
        }
    }
}

/// The value of a decimal digit character, if it is one.
pub(crate) fn digit_val(c: char) -> (r: Option<u8>)
    ensures
        match r {
            Some(d) => dec_digit(c) == Some(d as int),
            None => dec_digit(c) is None,
        },
{
    match c {
        '0' => Some(0),
        '1' => Some(1),
        '2' => Some(2),
        '3' => Some(3),
        '4' => Some(4),
        '5' => Some(5),
        '6' => Some(6),
        '7' => Some(7),
        '8' => Some(8),
        '9' => Some(9),
        _ => None,
    }
}

/// Reads a non-negative integer from a non-empty string of decimal digits,
/// rejecting anything else and any value beyond `u32::MAX`.
pub(crate) fn parse_u32(t: &Vec<char>) -> (r: Option<u32>)
    ensures
        match spec_parse_u32(t@) {
            Some(v) => r == Some(v as u32),
            None => r is None,
        },
{
    if t.len() == 0 {
        return None;
    }
    let mut acc: u32 = 0;
    let mut i: usize = 0;
    while i < t.len()
        invariant
            i <= t@.len(),
            spec_parse_u32(t@) == parse_u32_from(t@.skip(i as int), acc as int),
        decreases t@.len() - i,
    {
        proof {
            assert(t@.skip(i as int).first() == t@[i as int]);
            assert(t@.skip(i as int).drop_first() =~= t@.skip(i as int + 1));
        }
        let d = match digit_val(t[i]) {
            Some(d) => d,
            None => {
                return None;
            },
        };
        if acc > (u32::MAX - d as u32) / 10 {
            proof {
                assert(acc as int * 10 + d as int > u32::MAX);
            }
            return None;
        }
        acc = acc * 10 + d as u32;
        i = i + 1;
    }
    proof {
        assert(t@.skip(t@.len() as int) =~= Seq::<char>::empty());
    }
    Some(acc)
}

/// Parsing a placement field never changes the board size.
pub proof fn lemma_parse_placement_len(
    t: Seq<char>,
    rank: int,
    file: int,
    acc: Seq<Option<Piece>>,
)
    requires
        acc.len() == 64,
        0 <= rank,
        0 <= file,
        parse_placement_from(t, rank, file, acc) is Some,
    ensures
        parse_placement_from(t, rank, file, acc)->Some_0.len() == 64,
    decreases t.len(),
{
    if t.len() != 0 {
        let c = t.first();
        if c == '/' {
            if file == 8 && rank > 0 {
                lemma_parse_placement_len(t.drop_first(), rank - 1, 0, acc);
            }
        } else {
            match dec_digit(c) {
                Some(d) => {
                    if 1 <= d <= 8 && file + d <= 8 {
                        lemma_parse_placement_len(t.drop_first(), rank, file + d, acc);
                    }
                },
                None => {
                    match Piece::spec_from_char(c) {
                        Some(p) => {
                            if file < 8 && 0 <= rank <= 7 {
                                lemma_parse_placement_len(
                                    t.drop_first(),
                                    rank,
                                    file + 1,
                                    acc.update(rank * 8 + file, Some(p)),
                                );
                            }
                        },
                        None => {},
                    }
                },
            }
        }
    }
}



/// Reads a FEN castling field: "-" for no rights, or an in-order,
/// duplicate-free subset of "KQkq"; anything else is rejected.
#[verifier::rlimit(100)]
#[verifier::spinoff_prover]
pub(crate) fn parse_castling(t: &Vec<char>) -> (r: Option<(bool, bool, bool, bool)>)
    ensures
        r == spec_parse_castling(t@),
{
    if t.len() == 1 && t[0] == '-' {
        proof {
            assert(t@ =~= seq!['-']);
        }
        return Some((false, false, false, false));
    }
    proof {
        if t@ =~= seq!['-'] {
            assert(t@.len() == 1 && t@[0] == '-');
        }
    }
    let mut i: usize = 0;
    let mut wk = false;
    let mut wq = false;
    let mut bk = false;
    let mut bq = false;
    if i < t.len() && t[i] == 'K' {
        wk = true;
        i = i + 1;
    }
    if i < t.len() && t[i] == 'Q' {
        wq = true;
        i = i + 1;
    }
    if i < t.len() && t[i] == 'k' {
        bk = true;
        i = i + 1;
    }
    if i < t.len() && t[i] == 'q' {
        bq = true;
        i = i + 1;
    }
    if i == t.len() && t.len() > 0 {
        proof {
            assert(t@ =~= castling_field_chars(wk, wq, bk, bq));
            lemma_castling_field_contains(wk, wq, bk, bq);
        }
        Some((wk, wq, bk, bq))
    } else {
        proof {
            let ck = t@.contains('K');
            let cq = t@.contains('Q');
            let cbk = t@.contains('k');
            let cbq = t@.contains('q');
            if t@.len() > 0 && t@ =~= castling_field_chars(ck, cq, cbk, cbq) {
                lemma_castling_field_contains(ck, cq, cbk, cbq);
                assert(wk == ck && wq == cq && bk == cbk && bq == cbq);
                assert(i == t@.len());
            }
        }
        None
    }
}

/// The canonical castling spelling contains exactly the granted letters.
proof fn lemma_castling_field_contains(wk: bool, wq: bool, bk: bool, bq: bool)
    ensures
        castling_field_chars(wk, wq, bk, bq).contains('K') == wk,
        castling_field_chars(wk, wq, bk, bq).contains('Q') == wq,
        castling_field_chars(wk, wq, bk, bq).contains('k') == bk,
        castling_field_chars(wk, wq, bk, bq).contains('q') == bq,
        !castling_field_chars(wk, wq, bk, bq).contains('-'),
{
    let s = castling_field_chars(wk, wq, bk, bq);
    assert forall|j: int| 0 <= j < s.len() implies s[j] == 'K' || s[j] == 'Q' || s[j] == 'k'
        || s[j] == 'q' by {}
    assert(!s.contains('-')) by {
        assert forall|j: int| 0 <= j < s.len() implies s[j] != '-' by {}
    }
    if wk {
        assert(s[0] == 'K');
    } else {
        assert(!s.contains('K')) by {
            assert forall|j: int| 0 <= j < s.len() implies s[j] != 'K' by {}
        }
    }
    if wq {
        assert(s[if wk {
            1int
        } else {
            0int
        }] == 'Q');
    } else {
        assert(!s.contains('Q')) by {
            assert forall|j: int| 0 <= j < s.len() implies s[j] != 'Q' by {}
        }
    }
    if bk {
        assert(s[(if wk {
            1int
        } else {
            0int
        }) + (if wq {
            1int
        } else {
            0int
        })] == 'k');
    } else {
        assert(!s.contains('k')) by {
            assert forall|j: int| 0 <= j < s.len() implies s[j] != 'k' by {}
        }
    }
    if bq {
        assert(s[(if wk {
            1int
        } else {
            0int
        }) + (if wq {
            1int
        } else {
            0int
        }) + (if bk {
            1int
        } else {
            0int
        })] == 'q');
    } else {
        assert(!s.contains('q')) by {
            assert forall|j: int| 0 <= j < s.len() implies s[j] != 'q' by {}
        }
    }
}

/// No character of `t` is whitespace.
pub open spec fn ws_free(t: Seq<char>) -> bool {
    forall|i: int| 0 <= i < t.len() ==> !is_ws(#[trigger] t[i])
}

/// Splitting after a separator-terminated prefix and a clean token appends
/// that token.
proof fn lemma_split_push_token(s: Seq<char>, t: Seq<char>)
    requires
        t.len() > 0,
        ws_free(t),
        s.len() == 0 || is_ws(s.last()),
    ensures
        spec_split_ws(s + t) == spec_split_ws(s).push(t),
    decreases t.len(),
{
    let st = s + t;
    assert(st.last() == t.last());
    assert(!is_ws(st.last()));
    if t.len() == 1 {
        assert(st.drop_last() =~= s);
        if s.len() == 0 {
            assert(st.len() == 1);
            assert(spec_split_ws(st) == spec_split_ws(s).push(seq![t[0]]));
        } else {
            assert(st[st.len() - 2] == s.last());
            assert(spec_split_ws(st) == spec_split_ws(s).push(seq![t[0]]));
        }
        assert(seq![t[0]] =~= t);
    } else {
        assert(st.len() >= 2);
        assert(st[st.len() - 2] == t[t.len() - 2]);
        assert(!is_ws(st[st.len() - 2]));
        assert(st.drop_last() =~= s + t.drop_last());
        lemma_split_push_token(s, t.drop_last());
        let rest = spec_split_ws(s).push(t.drop_last());
        assert(spec_split_ws(st) == rest.update(rest.len() - 1, rest.last().push(t.last())));
        assert(rest.last() == t.drop_last());
        assert(t.drop_last().push(t.last()) =~= t);
        assert(rest.update(rest.len() - 1, t) =~~= spec_split_ws(s).push(t));
    }
}

/// Splitting ignores a trailing separator.
proof fn lemma_split_append_ws(s: Seq<char>, c: char)
    requires
        is_ws(c),
    ensures
        spec_split_ws(s + seq![c]) == spec_split_ws(s),
{
    assert((s + seq![c]).last() == c);
    assert((s + seq![c]).drop_last() =~= s);
}

/// The decimal digits of a number round-trip through the digit characters.
proof fn lemma_dec_digit_char(d: int)
    requires
        0 <= d <= 9,
    ensures
        dec_digit(digit_char(d)) == Some(d),
{
}

/// A piece letter round-trips through the piece it denotes.
proof fn lemma_piece_char_rt(p: Piece)
    ensures
        Piece::spec_from_char(p.spec_char()) == Some(p),
{
}

/// Reading digits onto a non-negative accumulator keeps it non-negative.
proof fn lemma_dec_shift_nonneg(acc: int, n: int)
    requires
        0 <= acc,
        0 <= n,
    ensures
        dec_shift(acc, n) >= 0,
    decreases n,
{
    if n >= 10 {
        lemma_dec_shift_nonneg(acc, n / 10);
    }
}

/// Reading the digits of `n` onto an accumulator of zero yields `n`.
proof fn lemma_dec_shift_zero(n: int)
    requires
        0 <= n,
    ensures
        dec_shift(0, n) == n,
    decreases n,
{
    if n >= 10 {
        lemma_dec_shift_zero(n / 10);
    }
}

/// The decimal encoding of `n` parses back onto the accumulator.
proof fn lemma_dec_rt(n: int, acc: int, rest: Seq<char>)
    requires
        0 <= acc,
        0 <= n,
        dec_shift(acc, n) <= u32::MAX,
    ensures
        parse_u32_from(dec_chars(n) + rest, acc) == parse_u32_from(rest, dec_shift(acc, n)),
    decreases n,
{
    if n < 10 {
        let st = dec_chars(n) + rest;
        assert(st.first() == digit_char(n));
        lemma_dec_digit_char(n);
        assert(st.drop_first() =~= rest);
    } else {
        lemma_dec_shift_nonneg(acc, n / 10);
        assert(dec_shift(acc, n) == dec_shift(acc, n / 10) * 10 + n % 10);
        assert(dec_shift(acc, n / 10) <= u32::MAX);
        assert(dec_chars(n) + rest =~= dec_chars(n / 10) + (seq![digit_char(n % 10)] + rest));
        lemma_dec_rt(n / 10, acc, seq![digit_char(n % 10)] + rest);
        let mid = seq![digit_char(n % 10)] + rest;
        assert(mid.first() == digit_char(n % 10));
        lemma_dec_digit_char(n % 10);
        assert(mid.drop_first() =~= rest);
    }
}

/// The decimal digits are never empty and never whitespace.
proof fn lemma_dec_chars_clean(n: int)
    requires
        0 <= n,
    ensures
        dec_chars(n).len() >= 1,
        ws_free(dec_chars(n)),
    decreases n,
{
    if n >= 10 {
        lemma_dec_chars_clean(n / 10);
        assert forall|i: int| 0 <= i < dec_chars(n).len() implies !is_ws(
            #[trigger] dec_chars(n)[i],
        ) by {
            if i < dec_chars(n / 10).len() {
                assert(dec_chars(n)[i] == dec_chars(n / 10)[i]);
            } else {
                assert(dec_chars(n)[i] == digit_char(n % 10));
            }
        }
    }
}

/// The decimal encoding of a `u32` parses back to its value.
proof fn lemma_parse_dec_rt(n: int)
    requires
        0 <= n <= u32::MAX,
    ensures
        spec_parse_u32(dec_chars(n)) == Some(n),
{
    lemma_dec_shift_zero(n);
    lemma_dec_chars_clean(n);
    assert(dec_chars(n) + Seq::<char>::empty() =~= dec_chars(n));
    lemma_dec_rt(n, 0, Seq::<char>::empty());
}

/// The placement `acc` after reading row `r` of `m` from file `f` on.
pub open spec fn row_update(
    acc: Seq<Option<Piece>>,
    m: BoardModel,
    r: int,
    f: int,
) -> Seq<Option<Piece>> {
    Seq::new(
        64,
        |k: int|
            if rank_of(k) == r && file_of(k) >= f && m.placement[k] is Some {
                m.placement[k]
            } else {
                acc[k]
            },
    )
}

/// The placement `acc` after reading rows `r` down to 0 of `m`.
pub open spec fn rows_update(acc: Seq<Option<Piece>>, m: BoardModel, r: int) -> Seq<
    Option<Piece>,
> {
    Seq::new(
        64,
        |k: int|
            if rank_of(k) <= r && m.placement[k] is Some {
                m.placement[k]
            } else {
                acc[k]
            },
    )
}

/// The encoding of one rank parses back, advancing the parser to the end of
/// that rank and placing exactly the rank's pieces.
proof fn lemma_rank_rt(
    m: BoardModel,
    r: int,
    f: int,
    run: int,
    rest: Seq<char>,
    acc: Seq<Option<Piece>>,
)
    requires
        m.wf(),
        acc.len() == 64,
        0 <= r <= 7,
        0 <= run <= f <= 8,
        forall|j: int| f - run <= j < f ==> (#[trigger] m.placement[r * 8 + j]) is None,
    ensures
        parse_placement_from(rank_chars_from(m, r, f, run) + rest, r, f - run, acc)
            == parse_placement_from(rest, r, 8, row_update(acc, m, r, f)),
    decreases 8 - f,
{
    if f >= 8 {
        assert(row_update(acc, m, r, 8) =~= acc);
        if run > 0 {
            let st = rank_chars_from(m, r, f, run) + rest;
            assert(st.first() == digit_char(run));
            lemma_dec_digit_char(run);
            assert(st.drop_first() =~= rest);
        } else {
            assert(rank_chars_from(m, r, f, run) + rest =~= rest);
        }
    } else {
        match m.placement[r * 8 + f] {
            None => {
                lemma_rank_rt(m, r, f + 1, run + 1, rest, acc);
                assert(row_update(acc, m, r, f) =~= row_update(acc, m, r, f + 1));
            },
            Some(p) => {
                let tail = rank_chars_from(m, r, f + 1, 0);
                let acc2 = acc.update(r * 8 + f, Some(p));
                if run > 0 {
                    let st = rank_chars_from(m, r, f, run) + rest;
                    assert(st =~= seq![digit_char(run)] + (seq![p.spec_char()] + (tail + rest)));
                    assert(st.first() == digit_char(run));
                    lemma_dec_digit_char(run);
                    assert(st.drop_first() =~= seq![p.spec_char()] + (tail + rest));
                    let st2 = seq![p.spec_char()] + (tail + rest);
                    assert(st2.first() == p.spec_char());
                    lemma_piece_char_rt(p);
                    assert(dec_digit(p.spec_char()) is None);
                    assert(st2.drop_first() =~= tail + rest);
                    lemma_rank_rt(m, r, f + 1, 0, rest, acc2);
                    assert(parse_placement_from(st, r, f - run, acc) == parse_placement_from(
                        st2,
                        r,
                        f,
                        acc,
                    ));
                    assert(parse_placement_from(st2, r, f, acc) == parse_placement_from(
                        tail + rest,
                        r,
                        f + 1,
                        acc2,
                    ));
                    assert(parse_placement_from(st, r, f - run, acc) == parse_placement_from(
                        rest,
                        r,
                        8,
                        row_update(acc2, m, r, f + 1),
                    ));
                } else {
                    let st = rank_chars_from(m, r, f, run) + rest;
                    assert(st =~= seq![p.spec_char()] + (tail + rest));
                    assert(st.first() == p.spec_char());
                    lemma_piece_char_rt(p);
                    assert(dec_digit(p.spec_char()) is None);
                    assert(st.drop_first() =~= tail + rest);
                    lemma_rank_rt(m, r, f + 1, 0, rest, acc2);
                    assert(parse_placement_from(st, r, f, acc) == parse_placement_from(
                        rest,
                        r,
                        8,
                        row_update(acc2, m, r, f + 1),
                    ));
                }
                assert(row_update(acc2, m, r, f + 1) =~= row_update(acc, m, r, f));
            },
        }
    }
}

/// The encoding of ranks `r` down to 0 parses back, placing their pieces.
proof fn lemma_placement_rows_rt(m: BoardModel, r: int, rest: Seq<char>, acc: Seq<Option<Piece>>)
    requires
        m.wf(),
        acc.len() == 64,
        0 <= r <= 7,
    ensures
        parse_placement_from(placement_chars_from(m, r) + rest, r, 0, acc) == parse_placement_from(
            rest,
            0,
            8,
            rows_update(acc, m, r),
        ),
    decreases r,
{
    if r <= 0 {
        lemma_rank_rt(m, 0, 0, 0, rest, acc);
        assert(row_update(acc, m, 0, 0) =~= rows_update(acc, m, 0));
    } else {
        let tail = placement_chars_from(m, r - 1);
        let st = placement_chars_from(m, r) + rest;
        assert(st =~= rank_chars_from(m, r, 0, 0) + (seq!['/'] + (tail + rest)));
        lemma_rank_rt(m, r, 0, 0, seq!['/'] + (tail + rest), acc);
        let acc1 = row_update(acc, m, r, 0);
        let st2 = seq!['/'] + (tail + rest);
        assert(st2.first() == '/');
        assert(st2.drop_first() =~= tail + rest);
        assert(acc1.len() == 64);
        lemma_placement_rows_rt(m, r - 1, rest, acc1);
        assert(rows_update(acc1, m, r - 1) =~= rows_update(acc, m, r));
    }
}

/// The characters of one encoded rank are clean: no whitespace.
proof fn lemma_rank_chars_clean(m: BoardModel, r: int, f: int, run: int)
    ensures
        ws_free(rank_chars_from(m, r, f, run)),
    decreases 8 - f,
{
    if f < 8 {
        match m.placement[r * 8 + f] {
            None => {
                lemma_rank_chars_clean(m, r, f + 1, run + 1);
            },
            Some(p) => {
                lemma_rank_chars_clean(m, r, f + 1, 0);
                let s = rank_chars_from(m, r, f, run);
                assert forall|i: int| 0 <= i < s.len() implies !is_ws(#[trigger] s[i]) by {
                    let head = (if run > 0 {
                        seq![digit_char(run)]
                    } else {
                        Seq::<char>::empty()
                    }) + seq![p.spec_char()];
                    if i < head.len() {
                        assert(s[i] == head[i]);
                    } else {
                        assert(s[i] == rank_chars_from(m, r, f + 1, 0)[i - head.len()]);
                    }
                }
            },
        }
    }
}

/// The encoded piece placement is non-empty and contains no whitespace.
proof fn lemma_placement_chars_clean(m: BoardModel, r: int)
    requires
        0 <= r <= 7,
    ensures
        placement_chars_from(m, r).len() >= 1,
        ws_free(placement_chars_from(m, r)),
    decreases r,
{
    lemma_rank_chars_clean(m, r, 0, 0);
    assert(rank_chars_from(m, r, 0, 0).len() >= 1) by {
        lemma_rank_chars_len(m, r, 0, 0);
    }
    if r > 0 {
        lemma_placement_chars_clean(m, r - 1);
        let s = placement_chars_from(m, r);
        let a = rank_chars_from(m, r, 0, 0);
        let b = placement_chars_from(m, r - 1);
        assert forall|i: int| 0 <= i < s.len() implies !is_ws(#[trigger] s[i]) by {
            if i < a.len() {
                assert(s[i] == a[i]);
            } else if i == a.len() {
                assert(s[i] == '/');
            } else {
                assert(s[i] == b[i - a.len() - 1]);
            }
        }
    }
}

/// One encoded rank is never empty.
proof fn lemma_rank_chars_len(m: BoardModel, r: int, f: int, run: int)
    requires
        0 <= f <= 8,
        0 <= run,
        f == 8 ==> run > 0,
    ensures
        rank_chars_from(m, r, f, run).len() >= 1,
    decreases 8 - f,
{
    if f < 8 {
        match m.placement[r * 8 + f] {
            None => {
                lemma_rank_chars_len(m, r, f + 1, run + 1);
            },
            Some(_) => {},
        }
    }
}

/// The encoded FEN string splits into exactly its six fields.
#[verifier::rlimit(100)]
#[verifier::spinoff_prover]
proof fn lemma_fen_fields(m: BoardModel)
    requires
        m.wf(),
    ensures
        spec_split_ws(spec_to_fen(m)) == seq![
            placement_chars_from(m, 7),
            if m.white_to_move {
                seq!['w']
            } else {
                seq!['b']
            },
            castling_chars(m),
            ep_chars(m),
            dec_chars(m.halfmove_clock as int),
            dec_chars(m.fullmove_number as int),
        ],
{
    let pl = placement_chars_from(m, 7);
    let side: Seq<char> = if m.white_to_move {
        seq!['w']
    } else {
        seq!['b']
    };
    let cast = castling_chars(m);
    let ep = ep_chars(m);
    let dh = dec_chars(m.halfmove_clock as int);
    let df = dec_chars(m.fullmove_number as int);
    let sp = seq![' '];

    lemma_placement_chars_clean(m, 7);
    lemma_dec_chars_clean(m.halfmove_clock as int);
    lemma_dec_chars_clean(m.fullmove_number as int);
    assert(ws_free(side));
    assert(ws_free(cast)) by {
        assert forall|i: int| 0 <= i < cast.len() implies !is_ws(#[trigger] cast[i]) by {
            assert(cast[i] == '-' || cast[i] == 'K' || cast[i] == 'Q' || cast[i] == 'k'
                || cast[i] == 'q');
        }
    }
    assert(ws_free(ep)) by {
        assert forall|i: int| 0 <= i < ep.len() implies !is_ws(#[trigger] ep[i]) by {
            match m.en_passant {
                Some(sq) => {
                    assert(ep =~= spec_square_chars(sq as int));
                },
                None => {},
            }
        }
    }
    assert(cast.len() >= 1);
    assert(ep.len() >= 1);

    let s0 = Seq::<char>::empty();
    let s1 = pl;
    let s2 = s1 + sp;
    let s3 = s2 + side;
    let s4 = s3 + sp;
    let s5 = s4 + cast;
    let s6 = s5 + sp;
    let s7 = s6 + ep;
    let s8 = s7 + sp;
    let s9 = s8 + dh;
    let s10 = s9 + sp;
    let s11 = s10 + df;
    assert(spec_to_fen(m) =~= s11);

    assert(s1 =~= s0 + pl);
    lemma_split_push_token(s0, pl);
    assert(spec_split_ws(s0) =~= Seq::<Seq<char>>::empty());
    lemma_split_append_ws(s1, ' ');
    assert(s2.last() == ' ');
    lemma_split_push_token(s2, side);
    lemma_split_append_ws(s3, ' ');
    assert(s4.last() == ' ');
    lemma_split_push_token(s4, cast);
    lemma_split_append_ws(s5, ' ');
    assert(s6.last() == ' ');
    lemma_split_push_token(s6, ep);
    lemma_split_append_ws(s7, ' ');
    assert(s8.last() == ' ');
    lemma_split_push_token(s8, dh);
    lemma_split_append_ws(s9, ' ');
    assert(s10.last() == ' ');
    lemma_split_push_token(s10, df);
    assert(spec_split_ws(spec_to_fen(m)) =~~= seq![pl, side, cast, ep, dh, df]);
}

/// The encoded piece placement parses back to the position's placement.
proof fn lemma_placement_rt(m: BoardModel)
    requires
        m.wf(),
    ensures
        spec_parse_placement(placement_chars_from(m, 7)) == Some(m.placement),
{
    let pl = placement_chars_from(m, 7);
    let blank = Seq::new(64, |i: int| None::<Piece>);
    assert(pl + Seq::<char>::empty() =~= pl);
    lemma_placement_rows_rt(m, 7, Seq::<char>::empty(), blank);
    assert(spec_parse_placement(pl) == Some(rows_update(blank, m, 7)));
    assert(rows_update(blank, m, 7) =~= m.placement);
}

/// The side-to-move field parses back to the side.
proof fn lemma_side_rt(m: BoardModel)
    ensures
        spec_parse_side(
            if m.white_to_move {
                seq!['w']
            } else {
                seq!['b']
            },
        ) == Some(m.white_to_move),
{
    if m.white_to_move {
        assert(seq!['w'] =~= seq!['w']);
    } else {
        assert(seq!['b'][0] == 'b');
        assert(!(seq!['b'] =~= seq!['w']));
        assert(seq!['b'] =~= seq!['b']);
    }
}

/// The en-passant field parses back to the target square.
proof fn lemma_ep_rt(m: BoardModel)
    requires
        m.wf(),
    ensures
        spec_parse_ep(ep_chars(m)) == Some(m.en_passant),
{
    match m.en_passant {
        Some(sq) => {
            let ep = ep_chars(m);
            assert(ep =~= spec_square_chars(sq as int));
            assert(ep.len() == 2);
            assert(!(ep =~= seq!['-']));
            crate::square::lemma_square_algebraic_round_trip(sq as int);
        },
        None => {
            assert(ep_chars(m) =~= seq!['-']);
        },
    }
}

/// Decoding the encoding of any well-formed position yields that position
/// back, exactly.
#[verifier::rlimit(100)]
#[verifier::spinoff_prover]
pub proof fn lemma_fen_round_trip(m: BoardModel)
    requires
        m.wf(),
    ensures
        spec_from_fen(spec_to_fen(m)) == Some(m),
{
    let pl = placement_chars_from(m, 7);
    let side: Seq<char> = if m.white_to_move {
        seq!['w']
    } else {
        seq!['b']
    };
    let cast = castling_chars(m);
    let ep = ep_chars(m);
    let dh = dec_chars(m.halfmove_clock as int);
    let df = dec_chars(m.fullmove_number as int);

    lemma_fen_fields(m);
    let fields = spec_split_ws(spec_to_fen(m));
    assert(fields.len() == 6);
    assert(fields[0] == pl && fields[1] == side && fields[2] == cast && fields[3] == ep
        && fields[4] == dh && fields[5] == df);

    // field 0: the piece placement
    lemma_placement_rt(m);

    // field 1: the side to move
    lemma_side_rt(m);

    // field 2: the castling rights
    assert(spec_parse_castling(cast) == Some(
        (m.castle_wk, m.castle_wq, m.castle_bk, m.castle_bq),
    )) by {
        let body = castling_field_chars(m.castle_wk, m.castle_wq, m.castle_bk, m.castle_bq);
        lemma_castling_field_contains(m.castle_wk, m.castle_wq, m.castle_bk, m.castle_bq);
        if body.len() == 0 {
            assert(cast =~= seq!['-']);
        } else {
            assert(cast == body);
            if cast =~= seq!['-'] {
                assert(cast.contains('-'));
            }
            assert(cast =~= castling_field_chars(
                cast.contains('K'),
                cast.contains('Q'),
                cast.contains('k'),
                cast.contains('q'),
            ));
        }
    }

    // field 3: the en-passant target
    lemma_ep_rt(m);

    // fields 4 and 5: the clocks
    lemma_parse_dec_rt(m.halfmove_clock as int);
    lemma_parse_dec_rt(m.fullmove_number as int);

    let bm = spec_from_fen(spec_to_fen(m))->Some_0;
    assert(bm =~= m);
}

} // verus!
