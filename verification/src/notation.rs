//! Moves as text: coordinates, algebraic notation, and whole games.
use vstd::prelude::*;

use crate::board::Board;
use crate::fen::position_of;
use crate::fen_text::{file_ch, file_char, rank_ch, rank_char, square_text};
use crate::game::{Outcome, Verdict};
use crate::geometry::{file_of, rank_of};
use crate::moves::{
    flag_of, from_of, is_capture, is_promotion, mv_flag, mv_from, mv_is_cap, mv_is_promo,
    mv_promo_piece, mv_to, promoted_kind, to_of, F_KCASTLE, F_QCASTLE, PAWN, WHITE,
};
use crate::position::Pos;
use crate::tables::Tables;
use crate::text::{decimal, push_decimal};

verus! {

// ------------------------------------------------------------------- coordinates

/// The letter of a kind, in lower case.
pub open spec fn promotion_char(kind: int) -> char {
    if kind == 1 {
        'n'
    } else if kind == 2 {
        'b'
    } else if kind == 3 {
        'r'
    } else {
        'q'
    }
}

/// From-square, to-square, and the letter of a promotion.
pub open spec fn uci(m: u16) -> Seq<char> {
    let squares = square_text(from_of(m)) + square_text(to_of(m));
    if is_promotion(m) {
        squares.push(promotion_char(promoted_kind(m)))
    } else {
        squares
    }
}

/// The name of a square.
pub fn sq_str(sq: u32) -> (s: String)
    requires
        sq < 64,
    ensures
        s@ == square_text(sq as int),
{
    let mut s = String::new();
    s.push(file_ch(sq));
    s.push(rank_ch(sq));
    assert(s@ =~= square_text(sq as int));
    s
}

/// The coordinates of a move.
pub fn move_to_uci(m: u16) -> (s: String)
    ensures
        s@ == uci(m),
{
    let mut s = sq_str(mv_from(m));
    s.append(sq_str(mv_to(m)).as_str());
    if mv_is_promo(m) {
        let c = match mv_promo_piece(m) {
            1 => 'n',
            2 => 'b',
            3 => 'r',
            _ => 'q',
        };
        s.push(c);
    }
    s
}

/// The coordinates tell moves apart by their squares and the piece they promote to.
pub proof fn law_uci_names_the_move(a: u16, b: u16)
    requires
        uci(a) == uci(b),
    ensures
        from_of(a) == from_of(b),
        to_of(a) == to_of(b),
        is_promotion(a) == is_promotion(b),
        is_promotion(a) ==> promoted_kind(a) == promoted_kind(b),
{
    let x = uci(a);
    let y = uci(b);
    assert(x.len() == y.len());
    assert(x[0] == file_char(from_of(a)) && y[0] == file_char(from_of(b)));
    assert(x[1] == rank_char(from_of(a)) && y[1] == rank_char(from_of(b)));
    assert(x[2] == file_char(to_of(a)) && y[2] == file_char(to_of(b)));
    assert(x[3] == rank_char(to_of(a)) && y[3] == rank_char(to_of(b)));
    if is_promotion(a) {
        assert(x[4] == promotion_char(promoted_kind(a)));
        assert(y[4] == promotion_char(promoted_kind(b)));
    }
}

// -------------------------------------------------------------- algebraic notation

/// The letter of a kind other than the pawn, in upper case.
pub open spec fn piece_char(kind: int) -> char {
    if kind == 1 {
        'N'
    } else if kind == 2 {
        'B'
    } else if kind == 3 {
        'R'
    } else if kind == 4 {
        'Q'
    } else {
        'K'
    }
}

impl Pos {
    /// Another legal move by a man of the same kind to the same square.
    pub open spec fn rival(self, m: u16, o: u16) -> bool {
        &&& self.legal_list().contains(o)
        &&& o != m
        &&& to_of(o) == to_of(m)
        &&& self.at[from_of(o)] is Some
        &&& self.at[from_of(o)]->0.kind == self.at[from_of(m)]->0.kind
    }

    pub open spec fn has_rival(self, m: u16) -> bool {
        exists|o: u16| self.rival(m, o)
    }

    pub open spec fn has_rival_on_file(self, m: u16) -> bool {
        exists|o: u16| #[trigger]
            self.rival(m, o) && file_of(from_of(o)) == file_of(from_of(m))
    }

    pub open spec fn has_rival_on_rank(self, m: u16) -> bool {
        exists|o: u16| #[trigger]
            self.rival(m, o) && rank_of(from_of(o)) == rank_of(from_of(m))
    }

    /// What tells the moving man from its rivals: the file where that is enough, else the
    /// rank where that is enough, else both.
    pub open spec fn origin(self, m: u16) -> Seq<char> {
        let from = from_of(m);
        if !self.has_rival(m) {
            Seq::<char>::empty()
        } else if !self.has_rival_on_file(m) {
            seq![file_char(from)]
        } else if !self.has_rival_on_rank(m) {
            seq![rank_char(from)]
        } else {
            square_text(from)
        }
    }

    /// The move without what it does to the other king.
    pub open spec fn san_body(self, m: u16) -> Seq<char> {
        let from = from_of(m);
        let to = to_of(m);
        let kind = self.at[from]->0.kind;
        if flag_of(m) == F_KCASTLE {
            "O-O"@
        } else if flag_of(m) == F_QCASTLE {
            "O-O-O"@
        } else if kind == PAWN {
            let start = if is_capture(m) {
                seq![file_char(from), 'x']
            } else {
                Seq::<char>::empty()
            };
            let arrived = start + square_text(to);
            if is_promotion(m) {
                arrived.push('=').push(piece_char(promoted_kind(m)))
            } else {
                arrived
            }
        } else {
            let named = seq![piece_char(kind)] + self.origin(m);
            let taking = if is_capture(m) {
                named.push('x')
            } else {
                named
            };
            taking + square_text(to)
        }
    }

    /// A plus for check, a hash for mate.
    pub open spec fn san_suffix(self, m: u16) -> Seq<char> {
        let q = self.after(m);
        if !q.in_check(q.stm) {
            Seq::<char>::empty()
        } else if q.legal_list().len() == 0 {
            seq!['#']
        } else {
            seq!['+']
        }
    }

    /// Standard algebraic notation.
    pub open spec fn san(self, m: u16) -> Seq<char> {
        self.san_body(m) + self.san_suffix(m)
    }
}

fn piece_letter(kind: usize) -> (c: char)
    requires
        1 <= kind < 6,
    ensures
        c == piece_char(kind as int),
{
    match kind {
        1 => 'N',
        2 => 'B',
        3 => 'R',
        4 => 'Q',
        _ => 'K',
    }
}

/// Whether `m` has rivals at all, on its file, and on its rank.
fn rivals(t: &Tables, b: &Board, m: u16) -> (r: (bool, bool, bool))
    requires
        t.wf(),
        b.wf(),
        b@.movable(),
        b@.at[from_of(m)] is Some,
    ensures
        r.0 == b@.has_rival(m),
        r.1 == b@.has_rival_on_file(m),
        r.2 == b@.has_rival_on_rank(m),
{
    let ghost p = b@;
    let legal = b.legal_moves(t);
    let from = mv_from(m);
    let to = mv_to(m);
    let piece = b.piece_at(from);
    let mut any = false;
    let mut file = false;
    let mut rank = false;
    let mut i: usize = 0;
    proof {
        b.lemma_fields();
    }
    while i < legal.len()
        invariant
            b.wf(),
            p == b@,
            p.wf(),
            legal@ == p.legal_list(),
            from == from_of(m),
            to == to_of(m),
            p.at[from_of(m)] is Some,
            piece == p.at[from_of(m)]->0.kind,
            piece < 6,
            i <= legal@.len(),
            any == exists|j: int| 0 <= j < i && p.rival(m, #[trigger] legal@[j]),
            file == exists|j: int|
                0 <= j < i && p.rival(m, #[trigger] legal@[j]) && file_of(from_of(legal@[j]))
                    == file_of(from_of(m)),
            rank == exists|j: int|
                0 <= j < i && p.rival(m, #[trigger] legal@[j]) && rank_of(from_of(legal@[j]))
                    == rank_of(from_of(m)),
        decreases legal@.len() - i,
    {
        let o = legal[i];
        let ghost any0 = any;
        let ghost file0 = file;
        let ghost rank0 = rank;
        proof {
            assert(legal@.contains(legal@[i as int]));
            b.lemma_fields();
        }
        let hit = o != m && mv_to(o) == to && b.piece_at(mv_from(o)) == piece;
        assert(hit == p.rival(m, o));
        if hit {
            any = true;
            if mv_from(o) % 8 == from % 8 {
                file = true;
            }
            if mv_from(o) / 8 == from / 8 {
                rank = true;
            }
        }
        proof {
            assert(any == (any0 || p.rival(m, legal@[i as int])));
            assert(file == (file0 || (p.rival(m, legal@[i as int]) && file_of(
                from_of(legal@[i as int]),
            ) == file_of(from_of(m)))));
            assert(rank == (rank0 || (p.rival(m, legal@[i as int]) && rank_of(
                from_of(legal@[i as int]),
            ) == rank_of(from_of(m)))));
        }
        i = i + 1;
    }
    proof {
        assert forall|o: u16| #[trigger] p.rival(m, o) implies exists|j: int|
            0 <= j < legal@.len() && legal@[j] == o by {}
        if p.has_rival(m) {
            let o = choose|o: u16| p.rival(m, o);
            let j = choose|j: int| 0 <= j < legal@.len() && legal@[j] == o;
            assert(p.rival(m, legal@[j]));
        }
        if p.has_rival_on_file(m) {
            let o = choose|o: u16| #[trigger]
                p.rival(m, o) && file_of(from_of(o)) == file_of(from_of(m));
            let j = choose|j: int| 0 <= j < legal@.len() && legal@[j] == o;
            assert(p.rival(m, legal@[j]));
        }
        if p.has_rival_on_rank(m) {
            let o = choose|o: u16| #[trigger]
                p.rival(m, o) && rank_of(from_of(o)) == rank_of(from_of(m));
            let j = choose|j: int| 0 <= j < legal@.len() && legal@[j] == o;
            assert(p.rival(m, legal@[j]));
        }
    }
    (any, file, rank)
}

/// The move without its suffix.
fn san_start(t: &Tables, b: &Board, m: u16) -> (s: String)
    requires
        t.wf(),
        b.wf(),
        b@.movable(),
        b@.at[from_of(m)] is Some,
    ensures
        s@ == b@.san_body(m),
{
    let flag = mv_flag(m);
    if flag == F_KCASTLE {
        return "O-O".to_owned();
    }
    if flag == F_QCASTLE {
        return "O-O-O".to_owned();
    }
    let from = mv_from(m);
    let to = mv_to(m);
    let piece = b.piece_at(from);
    proof {
        b.lemma_fields();
    }
    let mut s = String::new();
    if piece == PAWN {
        if mv_is_cap(m) {
            s.push(file_ch(from));
            s.push('x');
            assert(s@ =~= seq![file_char(from as int), 'x']);
        }
        s.append(sq_str(to).as_str());
        if mv_is_promo(m) {
            s.push('=');
            s.push(piece_letter(mv_promo_piece(m)));
        }
    } else {
        s.push(piece_letter(piece));
        let (any, file, rank) = rivals(t, b, m);
        let ghost named = seq![piece_char(piece as int)] + b@.origin(m);
        if any {
            if !file {
                s.push(file_ch(from));
            } else if !rank {
                s.push(rank_ch(from));
            } else {
                s.push(file_ch(from));
                s.push(rank_ch(from));
            }
        }
        assert(s@ =~= named);
        if mv_is_cap(m) {
            s.push('x');
        }
        s.append(sq_str(to).as_str());
    }
    s
}

/// Standard algebraic notation, with disambiguation and the marks for check and mate.
pub fn move_to_san(t: &Tables, b: &Board, m: u16) -> (s: String)
    requires
        t.wf(),
        b.wf(),
        b@.movable(),
        b@.playable(m),
        b@.after(m).movable(),
    ensures
        s@ == b@.san(m),
{
    let mut s = san_start(t, b, m);
    let ghost body = s@;
    let mut after = *b;
    let _ = after.make(m);
    if after.in_check(t, after.stm) {
        if after.legal_moves(t).len() == 0 {
            s.push('#');
        } else {
            s.push('+');
        }
    }
    assert(s@ =~= body + b@.san_suffix(m));
    s
}

// --------------------------------------------------------------------- whole games

/// The position after the first `n` of `moves`.
pub open spec fn played(p: Pos, moves: Seq<u16>, n: int) -> Pos
    decreases n,
{
    if n <= 0 {
        p
    } else {
        played(p, moves, n - 1).after(moves[n - 1])
    }
}

/// Whether move `i` is legal where it is made.
pub open spec fn legal_at(p: Pos, moves: Seq<u16>, i: int) -> bool {
    played(p, moves, i).legal(moves[i])
}

/// Whether `moves` are legal from `p`, in order.
pub open spec fn legal_line(p: Pos, moves: Seq<u16>) -> bool {
    forall|i: int| 0 <= i < moves.len() ==> #[trigger] legal_at(p, moves, i)
}

/// The score of a game.
pub open spec fn score_text(v: Verdict) -> Seq<char> {
    match v {
        Verdict::Win(c) => if c == 0 {
            "1-0"@
        } else {
            "0-1"@
        },
        Verdict::Draw(_) => "1/2-1/2"@,
        Verdict::Forfeit(loser, _) => if loser == 0 {
            "0-1"@
        } else {
            "1-0"@
        },
        Verdict::Ongoing => "*"@,
    }
}

/// How a game was terminated.
pub open spec fn termination(v: Verdict) -> Seq<char> {
    match v {
        Verdict::Win(_) => "normal"@,
        Verdict::Draw(why) => why,
        Verdict::Forfeit(_, why) => "forfeit: "@ + why,
        Verdict::Ongoing => "unfinished"@,
    }
}

/// The number of the full move that ply `i` belongs to.
pub open spec fn move_number(p: Pos, i: int) -> int {
    1 + (i + p.stm) / 2
}

/// The first `n` moves: numbered, separated by spaces, eight plies to a line.
pub open spec fn movetext(p: Pos, moves: Seq<u16>, n: int) -> Seq<char>
    decreases n,
{
    if n <= 0 {
        if p.stm == 1 {
            decimal(1) + "... "@
        } else {
            Seq::<char>::empty()
        }
    } else {
        let i = n - 1;
        let q = played(p, moves, i);
        let before = movetext(p, moves, i);
        let numbered = if q.stm == 0 {
            before + decimal(move_number(p, i) as nat) + ". "@
        } else {
            before
        };
        let moved = (numbered + q.san(moves[i])).push(' ');
        if i % 8 == 7 {
            moved.push('\n')
        } else {
            moved
        }
    }
}

/// The header of a game.
pub open spec fn header(
    opening: Seq<char>,
    white: Seq<char>,
    black: Seq<char>,
    v: Verdict,
    round: nat,
) -> Seq<char> {
    "[Event \"High-Frequency Chess\"]\n[Round \""@ + decimal(round) + "\"]\n[White \""@ + white
        + "\"]\n[Black \""@ + black + "\"]\n[Result \""@ + score_text(v) + "\"]\n[FEN \""@ + opening
        + "\"]\n[SetUp \"1\"]\n[Termination \""@ + termination(v) + "\"]\n\n"@
}

/// A game in Portable Game Notation.
pub open spec fn pgn(
    p: Pos,
    opening: Seq<char>,
    moves: Seq<u16>,
    white: Seq<char>,
    black: Seq<char>,
    v: Verdict,
    round: nat,
) -> Seq<char> {
    header(opening, white, black, v, round) + (movetext(p, moves, moves.len() as int) + score_text(
        v,
    )) + "\n\n"@
}

/// The score of a game as text.
pub fn score_str(result: Outcome) -> (s: &'static str)
    ensures
        s@ == score_text(result@),
{
    match result {
        Outcome::Win(c) => if c == WHITE {
            "1-0"
        } else {
            "0-1"
        },
        Outcome::Draw(_) => "1/2-1/2",
        Outcome::Forfeit(loser, _) => if loser == WHITE {
            "0-1"
        } else {
            "1-0"
        },
        Outcome::Ongoing => "*",
    }
}

/// Legal moves lead from legal positions to legal positions.
pub proof fn law_legal_line_stays_legal(p: Pos, moves: Seq<u16>, n: int)
    requires
        p.legal_position(),
        legal_line(p, moves),
        0 <= n <= moves.len(),
    ensures
        played(p, moves, n).legal_position(),
        played(p, moves, n).stm == (p.stm + n) % 2,
    decreases n,
{
    if n > 0 {
        law_legal_line_stays_legal(p, moves, n - 1);
        assert(legal_at(p, moves, n - 1));
        played(p, moves, n - 1).lemma_legal_step(moves[n - 1]);
    }
}

fn moves_string(t: &Tables, start: &Board, moves: &[u16]) -> (line: String)
    requires
        t.wf(),
        start.wf(),
        start@.legal_position(),
        legal_line(start@, moves@),
    ensures
        line@ == movetext(start@, moves@, moves@.len() as int),
{
    let ghost p = start@;
    let mut b = *start;
    let mut n: u128 = 1;
    let mut line = String::new();
    if b.stm != WHITE {
        push_decimal(&mut line, n);
        line.append("... ");
    }
    let mut i: usize = 0;
    assert(line@ =~= movetext(p, moves@, 0));
    while i < moves.len()
        invariant
            t.wf(),
            b.wf(),
            p.legal_position(),
            legal_line(p, moves@),
            i <= moves@.len(),
            b@ == played(p, moves@, i as int),
            n == move_number(p, i as int),
            line@ == movetext(p, moves@, i as int),
        decreases moves@.len() - i,
    {
        let m = moves[i];
        proof {
            law_legal_line_stays_legal(p, moves@, i as int);
            assert(legal_at(p, moves@, i as int));
            b@.lemma_legal_step(m);
        }
        if b.stm == WHITE {
            push_decimal(&mut line, n);
            line.append(". ");
        }
        line.append(move_to_san(t, &b, m).as_str());
        line.push(' ');
        if b.stm != WHITE {
            n = n + 1;
        }
        let _ = b.make(m);
        if i % 8 == 7 {
            line.push('\n');
        }
        i = i + 1;
    }
    line
}

/// A game in Portable Game Notation. The moves must be legal from the opening, in order.
pub fn to_pgn(
    t: &Tables,
    opening: &str,
    moves: &[u16],
    white: &str,
    black: &str,
    result: Outcome,
    round: usize,
) -> (s: String)
    requires
        t.wf(),
        position_of(opening@) is Ok,
        position_of(opening@)->Ok_0.ep_free(),
        legal_line(position_of(opening@)->Ok_0, moves@),
    ensures
        s@ == pgn(
            position_of(opening@)->Ok_0,
            opening@,
            moves@,
            white@,
            black@,
            result@,
            round as nat,
        ),
{
    let res = score_str(result);
    let term = match result {
        Outcome::Win(_) => "normal".to_owned(),
        Outcome::Draw(why) => why.to_owned(),
        Outcome::Forfeit(_, why) => {
            let mut x = "forfeit: ".to_owned();
            x.append(why);
            x
        },
        Outcome::Ongoing => "unfinished".to_owned(),
    };
    let mut s = "[Event \"High-Frequency Chess\"]\n[Round \"".to_owned();
    push_decimal(&mut s, round as u128);
    s.append("\"]\n[White \"");
    s.append(white);
    s.append("\"]\n[Black \"");
    s.append(black);
    s.append("\"]\n[Result \"");
    s.append(res);
    s.append("\"]\n[FEN \"");
    s.append(opening);
    s.append("\"]\n[SetUp \"1\"]\n[Termination \"");
    s.append(term.as_str());
    s.append("\"]\n\n");
    proof {
        crate::fen_laws::law_read_positions_are_real(opening@);
    }
    let b = Board::from_fen(t, opening);
    let mut line = moves_string(t, &b, moves);
    line.append(res);
    s.append(line.as_str());
    s.append("\n\n");
    s
}

} // verus!
