//! Algebraic notation names one legal move.
use vstd::prelude::*;

use crate::arbiter::law_parts_name_the_move;
use crate::fen_text::{file_char, rank_char};
use crate::geometry::{file_of, rank_of};
use crate::moves::{
    flag_of, from_of, is_capture, is_promotion, law_move_word_round_trip, promoted_kind, to_of,
    F_KCASTLE, F_QCASTLE, PAWN,
};
use crate::notation::piece_char;
use crate::position::Pos;

verus! {

/// A castling move.
spec fn castling(m: u16) -> bool {
    flag_of(m) == F_KCASTLE || flag_of(m) == F_QCASTLE
}

spec fn mover(p: Pos, m: u16) -> int {
    p.at[from_of(m)]->0.kind
}

proof fn lemma_square_chars(a: int, b: int)
    requires
        0 <= a < 64,
        0 <= b < 64,
    ensures
        file_char(a) == file_char(b) <==> file_of(a) == file_of(b),
        rank_char(a) == rank_char(b) <==> rank_of(a) == rank_of(b),
        file_char(a) != rank_char(b),
        'a' as int <= file_char(a) as int <= 'h' as int,
        '1' as int <= rank_char(a) as int <= '8' as int,
        file_of(a) == file_of(b) && rank_of(a) == rank_of(b) ==> a == b,
{
}

/// Two pawn moves with one text are one move.
proof fn lemma_pawn_texts(p: Pos, a: u16, b: u16)
    requires
        p.movable(),
        p.legal(a),
        p.legal(b),
        !castling(a),
        !castling(b),
        mover(p, a) == PAWN,
        mover(p, b) == PAWN,
        p.san_body(a) == p.san_body(b),
    ensures
        a == b,
{
    let x = p.san_body(a);
    let y = p.san_body(b);
    lemma_square_chars(from_of(a), from_of(b));
    lemma_square_chars(to_of(a), to_of(b));
    lemma_square_chars(from_of(a), to_of(b));
    lemma_square_chars(to_of(a), from_of(b));
    if is_capture(a) {
        assert(x[0] == file_char(from_of(a)) && x[1] == 'x');
        assert(x[2] == file_char(to_of(a)) && x[3] == rank_char(to_of(a)));
    } else {
        assert(x[0] == file_char(to_of(a)) && x[1] == rank_char(to_of(a)));
    }
    if is_capture(b) {
        assert(y[0] == file_char(from_of(b)) && y[1] == 'x');
        assert(y[2] == file_char(to_of(b)) && y[3] == rank_char(to_of(b)));
    } else {
        assert(y[0] == file_char(to_of(b)) && y[1] == rank_char(to_of(b)));
    }
    assert(is_capture(a) == is_capture(b));
    assert(to_of(a) == to_of(b));
    assert(is_promotion(a) == is_promotion(b)) by {
        assert(x.len() == y.len());
    }
    if is_promotion(a) {
        assert(x.last() == piece_char(promoted_kind(a)));
        assert(y.last() == piece_char(promoted_kind(b)));
        assert(promoted_kind(a) == promoted_kind(b));
    }
    assert(from_of(a) == from_of(b));
    law_parts_name_the_move(p, a, b);
}

/// What a piece move's text is made of.
proof fn lemma_piece_text(p: Pos, m: u16)
    requires
        p.movable(),
        p.legal(m),
        !castling(m),
        mover(p, m) != PAWN,
    ensures
        ({
            let x = p.san_body(m);
            let n = p.origin(m).len() as int;
            let k = if is_capture(m) {
                1int
            } else {
                0int
            };
            &&& x.len() == n + k + 3
            &&& x[0] == piece_char(mover(p, m))
            &&& forall|i: int| 0 <= i < n ==> #[trigger] x[i + 1] == p.origin(m)[i]
            &&& x[x.len() - 2] == file_char(to_of(m))
            &&& x[x.len() - 1] == rank_char(to_of(m))
            &&& 0 <= n <= 2
        }),
        is_capture(m) == p.owns(1 - p.stm, to_of(m)),
        !is_promotion(m),
        1 <= mover(p, m) < 6,
{
}

/// Two moves of pieces with one text are one move.
proof fn lemma_piece_texts(p: Pos, a: u16, b: u16)
    requires
        p.movable(),
        p.legal(a),
        p.legal(b),
        !castling(a),
        !castling(b),
        mover(p, a) != PAWN,
        mover(p, b) != PAWN,
        p.san_body(a) == p.san_body(b),
    ensures
        a == b,
{
    lemma_piece_text(p, a);
    lemma_piece_text(p, b);
    lemma_square_chars(to_of(a), to_of(b));
    lemma_square_chars(from_of(a), from_of(b));
    lemma_square_chars(from_of(b), from_of(a));
    let x = p.san_body(a);
    assert(mover(p, a) == mover(p, b));
    assert(to_of(a) == to_of(b));
    assert(p.origin(a) =~= p.origin(b)) by {
        assert forall|i: int| 0 <= i < p.origin(a).len() implies p.origin(a)[i] == p.origin(
            b,
        )[i] by {
            assert(x[i + 1] == p.origin(a)[i]);
            assert(x[i + 1] == p.origin(b)[i]);
        }
    }
    if a != b {
        p.law_legal_list_is_legal(a);
        p.law_legal_list_is_legal(b);
        assert(p.rival(a, b));
        assert(p.rival(b, a));
        let u = p.origin(a);
        let w = p.origin(b);
        if !p.has_rival_on_file(a) {
            assert(u.len() == 1 && u[0] == file_char(from_of(a)));
            assert(file_of(from_of(a)) != file_of(from_of(b)));
            assert(w.len() == 1);
            assert(w[0] == file_char(from_of(b)) || w[0] == rank_char(from_of(b)));
            assert(false);
        } else if !p.has_rival_on_rank(a) {
            assert(u.len() == 1 && u[0] == rank_char(from_of(a)));
            assert(rank_of(from_of(a)) != rank_of(from_of(b)));
            assert(w.len() == 1);
            assert(w[0] == file_char(from_of(b)) || w[0] == rank_char(from_of(b)));
            assert(false);
        } else {
            assert(u.len() == 2 && u[0] == file_char(from_of(a)) && u[1] == rank_char(from_of(a)));
            assert(w.len() == 2);
            assert(w[0] == file_char(from_of(b)) && w[1] == rank_char(from_of(b)));
        }
        assert(from_of(a) == from_of(b));
        law_parts_name_the_move(p, a, b);
    }
}

/// Two castling moves with one text are one move.
proof fn lemma_castling_texts(p: Pos, a: u16, b: u16)
    requires
        p.movable(),
        p.legal(a),
        p.legal(b),
        castling(a),
        castling(b),
        p.san_body(a) == p.san_body(b),
    ensures
        a == b,
{
    reveal_strlit("O-O");
    reveal_strlit("O-O-O");
    assert("O-O"@.len() == 3 && "O-O-O"@.len() == 5);
    law_move_word_round_trip(0, 0, 0, a);
    law_move_word_round_trip(0, 0, 0, b);
}

/// The first letter tells castling, pawn moves and piece moves apart.
proof fn lemma_first_letter(p: Pos, m: u16)
    requires
        p.movable(),
        p.legal(m),
    ensures
        p.san_body(m).len() > 0,
        castling(m) <==> p.san_body(m)[0] == 'O',
        !castling(m) && mover(p, m) == PAWN <==> 'a' as int <= p.san_body(m)[0] as int
            <= 'h' as int,
        p.san_body(m).last() != '+',
        p.san_body(m).last() != '#',
{
    reveal_strlit("O-O");
    reveal_strlit("O-O-O");
    lemma_square_chars(from_of(m), to_of(m));
    lemma_square_chars(to_of(m), from_of(m));
    let x = p.san_body(m);
    if castling(m) {
        assert(x[0] == 'O');
        assert(x.last() == 'O');
    } else if mover(p, m) == PAWN {
        if is_capture(m) {
            assert(x[0] == file_char(from_of(m)));
        } else {
            assert(x[0] == file_char(to_of(m)));
        }
        if is_promotion(m) {
            assert(x.last() == piece_char(promoted_kind(m)));
        } else {
            assert(x.last() == rank_char(to_of(m)));
        }
    } else {
        lemma_piece_text(p, m);
        assert(x.last() == rank_char(to_of(m)));
    }
}

/// The notation of a legal move is that of no other legal move: disambiguation always
/// suffices.
pub proof fn law_san_names_the_move(p: Pos, a: u16, b: u16)
    requires
        p.movable(),
        p.legal(a),
        p.legal(b),
        p.san(a) == p.san(b),
    ensures
        a == b,
{
    lemma_first_letter(p, a);
    lemma_first_letter(p, b);
    let x = p.san_body(a);
    let y = p.san_body(b);
    let u = p.san_suffix(a);
    let w = p.san_suffix(b);
    assert((x + u).last() == if u.len() > 0 {
        u.last()
    } else {
        x.last()
    });
    assert((y + w).last() == if w.len() > 0 {
        w.last()
    } else {
        y.last()
    });
    assert(u =~= w);
    assert(x =~= (x + u).take((x + u).len() - u.len()));
    assert(y =~= (y + w).take((y + w).len() - w.len()));
    assert(x == y);
    if castling(a) {
        lemma_castling_texts(p, a, b);
    } else if mover(p, a) == PAWN {
        lemma_pawn_texts(p, a, b);
    } else {
        lemma_piece_texts(p, a, b);
    }
}

} // verus!
