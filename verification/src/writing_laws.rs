//! How moves and games are written, character by character.
use vstd::prelude::*;

use crate::arbiter::GameLog;
use crate::fen_text::{
    letter, ranks_text, rights_text, row_of, row_run, row_text, square_text, with_run,
};
use crate::game::Verdict;
use crate::notation::{
    header, law_legal_line_stays_legal, legal_at, legal_line, movetext, pgn, played, score_text, termination,
    uci,
};
use crate::position::{Man, Pos, Rights};
use crate::stats::{number_list, with_line, Record};
use crate::tally::{ending, game_line, spaced, uci_list};
use crate::text::{contains, decimal, hex, join, occurs_at};

verus! {

/// A square is written as its file, a letter from a to h, and its rank, a figure from 1 to 8.
pub proof fn law_squares_are_written(sq: int)
    requires
        0 <= sq < 64,
    ensures
        square_text(sq).len() == 2,
        square_text(sq)[0] as int == 97 + sq % 8,
        square_text(sq)[1] as int == 49 + sq / 8,
{
}

/// A move is written as the square that it leaves and the square that it reaches, and a
/// promotion with the letter of the piece behind them: n, b, r or q.
pub proof fn law_moves_are_written_by_squares(m: u16)
    ensures
        uci(m).len() == if m as int / 4096 >= 8 {
            5int
        } else {
            4
        },
        uci(m)[0] as int == 97 + m as int % 8,
        uci(m)[1] as int == 49 + m as int % 64 / 8,
        uci(m)[2] as int == 97 + m as int / 64 % 8,
        uci(m)[3] as int == 49 + m as int / 64 % 64 / 8,
        m as int / 4096 >= 8 ==> uci(m)[4] == seq!['n', 'b', 'r', 'q'][m as int / 4096 % 4],
{
}

/// Each man has its letter, a capital for White and a small one for Black.
pub proof fn law_men_have_their_letters(m: Man)
    requires
        0 <= m.color < 2,
        0 <= m.kind < 6,
    ensures
        letter(m) == seq!['P', 'N', 'B', 'R', 'Q', 'K', 'p', 'n', 'b', 'r', 'q', 'k'][6 * m.color
            + m.kind],
{
}

/// Whether the moves of a list hold another than `m` that brings a man of the same kind to the
/// same square, from a square that `pick` admits.
pub open spec fn another_comes(p: Pos, m: u16, pick: spec_fn(int) -> bool) -> bool {
    exists|o: u16|
        #[trigger] p.legal(o) && o != m && o as int / 64 % 64 == m as int / 64 % 64 && p.at[o as int
            % 64]->0.kind == p.at[m as int % 64]->0.kind && pick(o as int % 64)
}

proof fn lemma_rivals(p: Pos, m: u16, pick: spec_fn(int) -> bool)
    requires
        p.movable(),
    ensures
        another_comes(p, m, pick) <==> exists|o: u16| #[trigger] p.rival(m, o) && pick(
            o as int % 64,
        ),
{
    if another_comes(p, m, pick) {
        let o = choose|o: u16|
            #[trigger] p.legal(o) && o != m && o as int / 64 % 64 == m as int / 64 % 64
                && p.at[o as int % 64]->0.kind == p.at[m as int % 64]->0.kind && pick(
                o as int % 64,
            );
        p.law_legal_list_is_legal(o);
        assert(p.rival(m, o));
    }
    if exists|o: u16| #[trigger] p.rival(m, o) && pick(o as int % 64) {
        let o = choose|o: u16| #[trigger] p.rival(m, o) && pick(o as int % 64);
        p.law_legal_list_is_legal(o);
        assert(p.legal(o));
    }
}

/// A man's square is named as far as it must be: not at all where no other of its kind may go
/// where it goes, by its file where none that may stands on that file, by its rank where one
/// does but none stands on that rank, and else in full.
pub proof fn law_origins_are_named_as_far_as_needed(p: Pos, m: u16)
    requires
        p.movable(),
    ensures
        ({
            let from = m as int % 64;
            let any = another_comes(p, m, |s: int| true);
            let on_file = another_comes(p, m, |s: int| s % 8 == from % 8);
            let on_rank = another_comes(p, m, |s: int| s / 8 == from / 8);
            let o = p.origin(m);
            &&& !any ==> o.len() == 0
            &&& any && !on_file ==> o.len() == 1 && o[0] as int == 97 + from % 8
            &&& any && on_file && !on_rank ==> o.len() == 1 && o[0] as int == 49 + from / 8
            &&& any && on_file && on_rank ==> o.len() == 2 && o[0] as int == 97 + from % 8
                && o[1] as int == 49 + from / 8
        }),
{
    let from = m as int % 64;
    let all = |s: int| true;
    let file = |s: int| s % 8 == from % 8;
    let rank = |s: int| s / 8 == from / 8;
    lemma_rivals(p, m, all);
    lemma_rivals(p, m, file);
    lemma_rivals(p, m, rank);
    if p.has_rival(m) {
        let o = choose|o: u16| p.rival(m, o);
        assert(p.rival(m, o) && all(o as int % 64));
    }
    if p.has_rival_on_file(m) {
        let o = choose|o: u16| #[trigger] p.rival(m, o) && o as int % 64 % 8 == from % 8;
        assert(p.rival(m, o) && file(o as int % 64));
    }
    if p.has_rival_on_rank(m) {
        let o = choose|o: u16| #[trigger] p.rival(m, o) && o as int % 64 / 8 == from / 8;
        assert(p.rival(m, o) && rank(o as int % 64));
    }
}

/// How the move of a piece is written: its letter, where it comes from as far as needed, an x
/// where it takes, and where it goes.
pub proof fn law_piece_moves_are_written(p: Pos, m: u16)
    requires
        1 <= p.at[m as int % 64]->0.kind <= 5,
        m as int / 4096 != 2,
        m as int / 4096 != 3,
    ensures
        ({
            let s = p.san_body(m);
            let o = p.origin(m).len() as int;
            let kind = m as int / 4096;
            let x = if 4 <= kind < 8 || kind >= 12 {
                1int
            } else {
                0
            };
            &&& s.len() == 3 + o + x
            &&& s[0] == seq!['N', 'B', 'R', 'Q', 'K'][p.at[m as int % 64]->0.kind - 1]
            &&& s.subrange(1, 1 + o) == p.origin(m)
            &&& x == 1 ==> s[1 + o] == 'x'
            &&& s[1 + o + x] as int == 97 + m as int / 64 % 8
            &&& s[2 + o + x] as int == 49 + m as int / 64 % 64 / 8
        }),
{
    let s = p.san_body(m);
    let o = p.origin(m);
    let to = square_text(m as int / 64 % 64);
    let letter = seq!['N', 'B', 'R', 'Q', 'K'][p.at[m as int % 64]->0.kind - 1];
    lemma_piece_layout(letter, o, to);
    let kind = m as int / 4096;
    if 4 <= kind < 8 || kind >= 12 {
        assert(s == (seq![letter] + o).push('x') + to);
    } else {
        assert(s == seq![letter] + o + to);
    }
}

proof fn lemma_piece_layout(letter: char, o: Seq<char>, to: Seq<char>)
    requires
        to.len() == 2,
    ensures
        ({
            let s = seq![letter] + o + to;
            let n = o.len() as int;
            &&& s.len() == 3 + n
            &&& s[0] == letter
            &&& s.subrange(1, 1 + n) == o
            &&& s[1 + n] == to[0]
            &&& s[2 + n] == to[1]
        }),
        ({
            let s = (seq![letter] + o).push('x') + to;
            let n = o.len() as int;
            &&& s.len() == 4 + n
            &&& s[0] == letter
            &&& s.subrange(1, 1 + n) == o
            &&& s[1 + n] == 'x'
            &&& s[2 + n] == to[0]
            &&& s[3 + n] == to[1]
        }),
{
    let n = o.len() as int;
    assert((seq![letter] + o + to).subrange(1, 1 + n) =~= o);
    assert(((seq![letter] + o).push('x') + to).subrange(1, 1 + n) =~= o);
}

/// How the move of a pawn is written: by where it goes; with the file it comes from and an x
/// before that where it takes; with an equals sign and the letter of the piece behind it where
/// it promotes.
pub proof fn law_pawn_moves_are_written(p: Pos, m: u16)
    requires
        p.at[m as int % 64]->0.kind == 0,
        m as int / 4096 != 2,
        m as int / 4096 != 3,
    ensures
        ({
            let s = p.san_body(m);
            let kind = m as int / 4096;
            let x = if 4 <= kind < 8 || kind >= 12 {
                2int
            } else {
                0
            };
            let q = if kind >= 8 {
                2int
            } else {
                0
            };
            &&& s.len() == 2 + x + q
            &&& x == 2 ==> s[0] as int == 97 + m as int % 8 && s[1] == 'x'
            &&& s[x] as int == 97 + m as int / 64 % 8
            &&& s[x + 1] as int == 49 + m as int / 64 % 64 / 8
            &&& q == 2 ==> s[x + 2] == '=' && s[x + 3] == seq!['N', 'B', 'R', 'Q'][kind % 4]
        }),
{
}

/// Castling is written with one O for each square between the king and the rook, and a stroke
/// between each two.
pub proof fn law_castling_is_written(p: Pos, m: u16)
    ensures
        m as int / 4096 == 2 ==> p.san_body(m) == seq!['O', '-', 'O'],
        m as int / 4096 == 3 ==> p.san_body(m) == seq!['O', '-', 'O', '-', 'O'],
{
    reveal_strlit("O-O");
    reveal_strlit("O-O-O");
    assert("O-O"@ =~= seq!['O', '-', 'O']);
    assert("O-O-O"@ =~= seq!['O', '-', 'O', '-', 'O']);
}

/// A move that leaves the other side attacked ends in a plus sign, in a hash sign where that
/// side has no legal move, and else in nothing more.
pub proof fn law_checks_and_mates_are_marked(p: Pos, m: u16)
    requires
        p.after(m).movable(),
    ensures
        ({
            let q = p.after(m);
            let check = q.in_check(1 - p.stm);
            let stuck = forall|n: u16| !q.legal(n);
            p.san(m) == p.san_body(m) + if check && stuck {
                seq!['#']
            } else if check {
                seq!['+']
            } else {
                Seq::<char>::empty()
            }
        }),
{
    let q = p.after(m);
    if q.legal_list().len() > 0 {
        let n = q.legal_list()[0];
        assert(q.legal_list().contains(n));
        q.law_legal_list_is_legal(n);
    } else {
        assert forall|n: u16| !q.legal(n) by {
            q.law_legal_list_is_legal(n);
        }
    }
}

/// The moves of a game are written one after the other, a space behind each and a new line
/// behind every eighth. White's have their number before them, counted from one; Black's have
/// none, but for one that the game starts with.
pub proof fn law_moves_are_numbered(p: Pos, moves: Seq<u16>, i: int)
    requires
        p.legal_position(),
        legal_line(p, moves),
        0 <= i < moves.len(),
    ensures
        movetext(p, moves, 0) == if p.stm == 0 {
            Seq::<char>::empty()
        } else {
            seq!['1', '.', '.', '.', ' ']
        },
        movetext(p, moves, i + 1) == movetext(p, moves, i) + (if (i + p.stm) % 2 == 0 {
            decimal(((i + p.stm) / 2 + 1) as nat) + seq!['.', ' ']
        } else {
            Seq::<char>::empty()
        }) + played(p, moves, i).san(moves[i]) + (if (i + 1) % 8 == 0 {
            seq![' ', '\n']
        } else {
            seq![' ']
        }),
{
    law_legal_line_stays_legal(p, moves, i);
    lemma_next_written(p, moves, i);
    lemma_first_written(p, moves);
}

proof fn lemma_first_written(p: Pos, moves: Seq<u16>)
    requires
        p.stm == 0 || p.stm == 1,
    ensures
        movetext(p, moves, 0) == if p.stm == 0 {
            Seq::<char>::empty()
        } else {
            seq!['1', '.', '.', '.', ' ']
        },
{
    reveal_strlit("... ");
    assert(decimal(1) =~= seq!['1']);
    assert(decimal(1) + "... "@ =~= seq!['1', '.', '.', '.', ' ']);
}

proof fn lemma_next_written(p: Pos, moves: Seq<u16>, i: int)
    requires
        0 <= i,
        p.stm == 0 || p.stm == 1,
        played(p, moves, i).stm == (p.stm + i) % 2,
    ensures
        movetext(p, moves, i + 1) == movetext(p, moves, i) + (if (i + p.stm) % 2 == 0 {
            decimal(((i + p.stm) / 2 + 1) as nat) + seq!['.', ' ']
        } else {
            Seq::<char>::empty()
        }) + played(p, moves, i).san(moves[i]) + (if (i + 1) % 8 == 0 {
            seq![' ', '\n']
        } else {
            seq![' ']
        }),
{
    let t = movetext(p, moves, i);
    let n = decimal(((i + p.stm) / 2 + 1) as nat);
    let san = played(p, moves, i).san(moves[i]);
    lemma_numbered(t, n, san);
    lemma_unfolded(p, moves, i, t, n, san);
}

proof fn lemma_unfolded(
    p: Pos,
    moves: Seq<u16>,
    i: int,
    t: Seq<char>,
    n: Seq<char>,
    san: Seq<char>,
)
    requires
        0 <= i,
        t == movetext(p, moves, i),
        n == decimal((1 + (i + p.stm) / 2) as nat),
        san == played(p, moves, i).san(moves[i]),
    ensures
        movetext(p, moves, i + 1) == {
            let numbered = if played(p, moves, i).stm == 0 {
                t + n + seq!['.', ' ']
            } else {
                t
            };
            if (i + 1) % 8 == 0 {
                (numbered + san).push(' ').push('\n')
            } else {
                (numbered + san).push(' ')
            }
        },
{
    reveal_strlit(". ");
    assert(". "@ =~= seq!['.', ' ']);
}

proof fn lemma_numbered(t: Seq<char>, n: Seq<char>, san: Seq<char>)
    ensures
        (t + n + seq!['.', ' '] + san).push(' ') == t + (n + seq!['.', ' ']) + san + seq![' '],
        (t + n + seq!['.', ' '] + san).push(' ').push('\n') == t + (n + seq!['.', ' ']) + san + seq![
            ' ',
            '\n',
        ],
        (t + san).push(' ') == t + Seq::<char>::empty() + san + seq![' '],
        (t + san).push(' ').push('\n') == t + Seq::<char>::empty() + san + seq![' ', '\n'],
{
    let u = t + n + seq!['.', ' '] + san;
    assert(t + (n + seq!['.', ' ']) + san =~= u);
    assert(u.push(' ') =~= u + seq![' ']);
    assert(u.push(' ').push('\n') =~= u + seq![' ', '\n']);
    assert(t + Seq::<char>::empty() =~= t);
    let v = t + san;
    assert(v.push(' ') =~= v + seq![' ']);
    assert(v.push(' ').push('\n') =~= v + seq![' ', '\n']);
}

/// A game stands on file with a position for each move: the start, and after each move what it
/// leads to.
pub proof fn law_a_line_is_played_move_by_move(p: Pos, moves: Seq<u16>, i: int)
    requires
        0 <= i < moves.len(),
    ensures
        played(p, moves, 0) == p,
        played(p, moves, i + 1) == played(p, moves, i).after(moves[i]),
        legal_line(p, moves) ==> played(p, moves, i).legal(moves[i]),
{
    assert(legal_line(p, moves) ==> legal_at(p, moves, i));
}

proof fn lemma_inside(a: Seq<char>, pat: Seq<char>, b: Seq<char>)
    ensures
        contains(a + pat, pat),
        contains(a + pat + b, pat),
{
    let i = a.len() as int;
    assert((a + pat).subrange(i, i + pat.len()) =~= pat);
    assert(occurs_at(a + pat, pat, i));
    assert((a + pat + b).subrange(i, i + pat.len()) =~= pat);
    assert(occurs_at(a + pat + b, pat, i));
}

proof fn lemma_further(s: Seq<char>, pat: Seq<char>, t: Seq<char>)
    requires
        contains(s, pat),
    ensures
        contains(s + t, pat),
{
    let i = choose|i: int| occurs_at(s, pat, i);
    assert((s + t).subrange(i, i + pat.len()) =~= s.subrange(i, i + pat.len()));
    assert(occurs_at(s + t, pat, i));
}

proof fn lemma_regroup(x: Seq<char>, y: Seq<char>, z: Seq<char>)
    ensures
        x + (y + z) == x + y + z,
{
    assert(x + (y + z) =~= x + y + z);
}

proof fn lemma_header(
    opening: Seq<char>,
    white: Seq<char>,
    black: Seq<char>,
    v: Verdict,
    round: nat,
    rest: Seq<char>,
)
    ensures
        ({
            let text = header(opening, white, black, v, round) + rest;
            &&& contains(
                text,
                "[Event \"High-Frequency Chess\"]\n[Round \""@ + decimal(round) + "\"]\n[White \""@,
            )
            &&& contains(text, "\"]\n[White \""@ + white + "\"]\n[Black \""@)
            &&& contains(text, "\"]\n[Black \""@ + black + "\"]\n[Result \""@)
            &&& contains(text, "\"]\n[Result \""@ + score_text(v) + "\"]\n[FEN \""@)
            &&& contains(
                text,
                "\"]\n[FEN \""@ + opening + "\"]\n[SetUp \"1\"]\n[Termination \""@,
            )
            &&& contains(
                text,
                "\"]\n[SetUp \"1\"]\n[Termination \""@ + termination(v) + "\"]\n\n"@,
            )
        }),
{
    let e = "[Event \"High-Frequency Chess\"]\n[Round \""@;
    let w = "\"]\n[White \""@;
    let b = "\"]\n[Black \""@;
    let r = "\"]\n[Result \""@;
    let f = "\"]\n[FEN \""@;
    let t = "\"]\n[SetUp \"1\"]\n[Termination \""@;
    let d = "\"]\n\n"@;
    let n = decimal(round);
    let s1 = e + n;
    let s2 = s1 + w + white;
    let s3 = s2 + b + black;
    let s4 = s3 + r + score_text(v);
    let s5 = s4 + f + opening;
    let s6 = s5 + t + termination(v);
    let none = Seq::<char>::empty();
    assert(none + (s1 + w) =~= s1 + w);
    lemma_inside(none, s1 + w, none);
    lemma_link(s1, w, white, b);
    lemma_link(s2, b, black, r);
    lemma_link(s3, r, score_text(v), f);
    lemma_link(s4, f, opening, t);
    lemma_link(s5, t, termination(v), d);
    let p1 = s1 + w;
    let p2 = w + white + b;
    let p3 = b + black + r;
    let p4 = r + score_text(v) + f;
    let p5 = f + opening + t;
    let p6 = t + termination(v) + d;
    lemma_further(s1 + w, p1, white);
    lemma_further(s2, p1, b);
    lemma_on(s2 + b, p1, black, r);
    lemma_on(s3 + r, p1, score_text(v), f);
    lemma_on(s4 + f, p1, opening, t);
    lemma_on(s5 + t, p1, termination(v), d);
    lemma_further(s6 + d, p1, rest);
    lemma_on(s2 + b, p2, black, r);
    lemma_on(s3 + r, p2, score_text(v), f);
    lemma_on(s4 + f, p2, opening, t);
    lemma_on(s5 + t, p2, termination(v), d);
    lemma_further(s6 + d, p2, rest);
    lemma_on(s3 + r, p3, score_text(v), f);
    lemma_on(s4 + f, p3, opening, t);
    lemma_on(s5 + t, p3, termination(v), d);
    lemma_further(s6 + d, p3, rest);
    lemma_on(s4 + f, p4, opening, t);
    lemma_on(s5 + t, p4, termination(v), d);
    lemma_further(s6 + d, p4, rest);
    lemma_on(s5 + t, p5, termination(v), d);
    lemma_further(s6 + d, p5, rest);
    lemma_further(s6 + d, p6, rest);
}

proof fn lemma_on(s: Seq<char>, pat: Seq<char>, x: Seq<char>, y: Seq<char>)
    requires
        contains(s, pat),
    ensures
        contains(s + x + y, pat),
{
    lemma_further(s, pat, x);
    lemma_further(s + x, pat, y);
}

proof fn lemma_link(s: Seq<char>, x: Seq<char>, y: Seq<char>, z: Seq<char>)
    ensures
        contains(s + x + y + z, x + y + z),
{
    lemma_inside(s, x + y + z, Seq::<char>::empty());
    lemma_regroup(s, x + y, z);
    lemma_regroup(s, x, y);
}

/// A written game names its round, both players, its result, its start and how it ended, each
/// under its own heading, and then holds its moves and its result.
pub proof fn law_a_written_game_says_who_and_how(
    p: Pos,
    opening: Seq<char>,
    moves: Seq<u16>,
    white: Seq<char>,
    black: Seq<char>,
    v: Verdict,
    round: nat,
)
    ensures
        ({
            let text = pgn(p, opening, moves, white, black, v, round);
            &&& contains(
                text,
                "[Event \"High-Frequency Chess\"]\n[Round \""@ + decimal(round) + "\"]\n[White \""@,
            )
            &&& contains(text, "\"]\n[White \""@ + white + "\"]\n[Black \""@)
            &&& contains(text, "\"]\n[Black \""@ + black + "\"]\n[Result \""@)
            &&& contains(text, "\"]\n[Result \""@ + score_text(v) + "\"]\n[FEN \""@)
            &&& contains(
                text,
                "\"]\n[FEN \""@ + opening + "\"]\n[SetUp \"1\"]\n[Termination \""@,
            )
            &&& contains(
                text,
                "\"]\n[SetUp \"1\"]\n[Termination \""@ + termination(v) + "\"]\n\n"@,
            )
            &&& contains(text, movetext(p, moves, moves.len() as int) + score_text(v) + "\n\n"@)
        }),
{
    let h = header(opening, white, black, v, round);
    let body = movetext(p, moves, moves.len() as int) + score_text(v);
    let end = "\n\n"@;
    lemma_header(opening, white, black, v, round, body + end);
    lemma_regroup(h, body, end);
    lemma_inside(h, body + end, Seq::<char>::empty());
}

/// A game that was forfeited or drawn says why; one that was mated ended normally.
pub proof fn law_endings_say_why(c: int, why: Seq<char>)
    ensures
        termination(Verdict::Win(c)) == "normal"@,
        termination(Verdict::Draw(why)) == why,
        termination(Verdict::Forfeit(c, why)) == "forfeit: "@ + why,
        ending(Verdict::Win(c)) == "checkmate"@,
        ending(Verdict::Draw(why)) == why,
        ending(Verdict::Forfeit(c, why)) == why,
{
}

/// The line of a game for machines holds its result, its start, its moves, what each cost and
/// how it ended, with a bar between each two.
pub proof fn law_a_game_line_has_five_fields(log: GameLog)
    ensures
        game_line(log) == join(
            seq![
                score_text(log.outcome@),
                log.opening@,
                uci_list(log.moves@),
                spaced(log.ply_cycles@),
                ending(log.outcome@),
            ],
            seq!['|'],
        ) + seq!['\n'],
{
    reveal_strlit("|");
    reveal_strlit("\n");
    assert("|"@ =~= seq!['|']);
    assert("\n"@ =~= seq!['\n']);
    let a = score_text(log.outcome@);
    let b = log.opening@;
    let c = uci_list(log.moves@);
    let d = spaced(log.ply_cycles@);
    let e = ending(log.outcome@);
    let g = seq!['|'];
    assert(seq![a, b, c, d, e].drop_last() =~= seq![a, b, c, d]);
    assert(seq![a, b, c, d].drop_last() =~= seq![a, b, c]);
    assert(seq![a, b, c].drop_last() =~= seq![a, b]);
    assert(seq![a, b].drop_last() =~= seq![a]);
    assert(join(seq![a], g) == a);
    assert(join(seq![a, b], g) == a + g + b);
    assert(join(seq![a, b, c], g) == a + g + b + g + c);
    assert(join(seq![a, b, c, d], g) == a + g + b + g + c + g + d);
    assert(join(seq![a, b, c, d, e], g) == a + g + b + g + c + g + d + g + e);
}

/// The men are written rank by rank, from the eighth down, with a slash between each two.
pub proof fn law_ranks_are_written_from_the_top(at: Seq<Option<Man>>, n: nat)
    requires
        n <= 8,
    ensures
        ranks_text(at, n as int) == join(
            Seq::new(n, |i: int| row_text(row_of(at, 7 - i))),
            seq!['/'],
        ),
        forall|r: int, f: int|
            0 <= f < 8 ==> #[trigger] row_of(at, r)[f] == at[r * 8 + f],
    decreases n,
{
    let rows = Seq::new(n, |i: int| row_text(row_of(at, 7 - i)));
    if n == 1 {
        assert(rows[0] == row_text(row_of(at, 7)));
    } else if n > 1 {
        law_ranks_are_written_from_the_top(at, (n - 1) as nat);
        let fewer = Seq::new((n - 1) as nat, |i: int| row_text(row_of(at, 7 - i)));
        assert(rows.drop_last() =~= fewer);
        let front = ranks_text(at, n - 1);
        assert(front.push('/') =~= front + seq!['/']);
    }
}

spec fn figure(c: char) -> bool {
    '0' as int <= c as int <= '9' as int
}

proof fn lemma_row_run(row: Seq<Option<Man>>)
    requires
        row.len() <= 8,
    ensures
        row_run(row).1 <= row.len(),
        row_run(row).0.len() > 0 ==> !figure(row_run(row).0.last()),
        forall|i: int|
            0 <= i < row_run(row).0.len() - 1 ==> !(figure(#[trigger] row_run(row).0[i]) && figure(
                row_run(row).0[i + 1],
            )),
    decreases row.len(),
{
    if row.len() > 0 {
        lemma_row_run(row.drop_last());
        let (t, free) = row_run(row.drop_last());
        if let Some(m) = row.last() {
            let u = with_run(t, free);
            if free > 0 {
                assert(decimal(free).len() == 1);
            }
            let w = u.push(letter(m));
            assert forall|i: int| 0 <= i < w.len() - 1 implies !(figure(#[trigger] w[i]) && figure(
                w[i + 1],
            )) by {
                if i + 1 < t.len() {
                    assert(w[i] == t[i] && w[i + 1] == t[i + 1]);
                }
            }
        }
    }
}

/// Empty squares that lie side by side are counted together: no two figures do.
pub proof fn law_empty_squares_are_counted_together(row: Seq<Option<Man>>, i: int)
    requires
        row.len() <= 8,
        0 <= i < row_text(row).len() - 1,
    ensures
        !('0' as int <= row_text(row)[i] as int <= '9' as int && '0' as int <= row_text(row)[i
            + 1] as int <= '9' as int),
{
    lemma_row_run(row);
    let (t, free) = row_run(row);
    if free > 0 {
        assert(decimal(free).len() == 1);
    }
    let w = row_text(row);
    if i + 1 < t.len() {
        assert(w[i] == t[i] && w[i + 1] == t[i + 1]);
        assert(!(figure(t[i]) && figure(t[i + 1])));
    } else {
        assert(w[i] == t.last());
    }
}

/// The rights to castle are written K, Q, k and q, in this order, those that are held, and as a
/// stroke where none is.
pub proof fn law_rights_are_written(r: Rights)
    ensures
        !r.wk && !r.wq && !r.bk && !r.bq ==> rights_text(r) == seq!['-'],
        r.wk || r.wq || r.bk || r.bq ==> rights_text(r) == (if r.wk {
            seq!['K']
        } else {
            Seq::<char>::empty()
        }) + (if r.wq {
            seq!['Q']
        } else {
            Seq::<char>::empty()
        }) + (if r.bk {
            seq!['k']
        } else {
            Seq::<char>::empty()
        }) + (if r.bq {
            seq!['q']
        } else {
            Seq::<char>::empty()
        }),
{
    if r.wk || r.wq || r.bk || r.bq {
        assert(rights_text(r) =~= (if r.wk {
            seq!['K']
        } else {
            Seq::<char>::empty()
        }) + (if r.wq {
            seq!['Q']
        } else {
            Seq::<char>::empty()
        }) + (if r.bk {
            seq!['k']
        } else {
            Seq::<char>::empty()
        }) + (if r.bq {
            seq!['q']
        } else {
            Seq::<char>::empty()
        }));
    }
}

/// Moves and numbers are listed with a space between each two.
pub proof fn law_lists_are_spaced(moves: Seq<u16>, m: u16, costs: Seq<u64>, c: u64)
    ensures
        uci_list(Seq::<u16>::empty()).len() == 0,
        uci_list(seq![m]) == uci(m),
        moves.len() > 0 ==> uci_list(moves.push(m)) == uci_list(moves) + seq![' '] + uci(m),
        spaced(Seq::<u64>::empty()).len() == 0,
        spaced(seq![c]) == decimal(c as nat),
        costs.len() > 0 ==> spaced(costs.push(c)) == spaced(costs) + seq![' '] + decimal(c as nat),
{
    reveal_strlit(" ");
    assert(" "@ =~= seq![' ']);
    let f = |m: u16| uci(m);
    let g = |n: u64| decimal(n as nat);
    assert(moves.push(m).map_values(f).drop_last() =~= moves.map_values(f));
    assert(costs.push(c).map_values(g).drop_last() =~= costs.map_values(g));
}

proof fn lemma_line_written(ls: Seq<Seq<char>>, t: Seq<char>, k: Seq<char>, v: Seq<char>)
    requires
        t == if ls.len() == 0 {
            Seq::<char>::empty()
        } else {
            join(ls, seq!['\n']) + seq!['\n']
        },
    ensures
        with_line(t, k, v) == join(ls.push(k + seq![' '] + v), seq!['\n']) + seq!['\n'],
{
    let l = k + seq![' '] + v;
    assert(ls.push(l).drop_last() =~= ls);
    assert(k.push(' ') =~= k + seq![' ']);
    assert(t + (k + seq![' ']) + v =~= t + l);
    assert((t + l).push('\n') =~= t + l + seq!['\n']);
    if ls.len() == 0 {
        assert(t + l =~= l);
    }
}

/// A record is written in twelve lines, each a key, a space and a value: the version, the
/// engines, their budgets, the book, the pairs, the wins of A with the draws and the wins of B,
/// the plies, the games, the cycles with the moves they are over, and the failures.
pub proof fn law_a_record_is_written_in_twelve_lines(r: Record)
    ensures
        ({
            let s = seq![' '];
            r.text() == join(
                seq![
                    "version"@ + s + "1"@,
                    "a"@ + s + r.a,
                    "b"@ + s + r.b,
                    "cycles_a"@ + s + decimal(r.cycles_a as nat),
                    "cycles_b"@ + s + decimal(r.cycles_b as nat),
                    "book"@ + s + hex(r.book as nat, 16),
                    "penta"@ + s + number_list(r.penta),
                    "wdl"@ + s + number_list(seq![r.wins_a, r.draws, r.wins_b]),
                    "plies"@ + s + decimal(r.plies as nat),
                    "games"@ + s + decimal(r.games as nat),
                    "cycles"@ + s + (decimal(r.cycles_sum as nat) + s + decimal(
                        r.cycles_n as nat,
                    )),
                    "failures"@ + s + number_list(r.failures),
                ],
                seq!['\n'],
            ) + seq!['\n']
        }),
{
    let s = seq![' '];
    let e = Seq::<char>::empty();
    let c = decimal(r.cycles_sum as nat).push(' ') + decimal(r.cycles_n as nat);
    assert(c =~= decimal(r.cycles_sum as nat) + s + decimal(r.cycles_n as nat));
    let l0 = Seq::<Seq<char>>::empty();
    let t0 = with_line(e, "version"@, "1"@);
    lemma_line_written(l0, e, "version"@, "1"@);
    let l1 = l0.push("version"@ + s + "1"@);
    let t1 = with_line(t0, "a"@, r.a);
    lemma_line_written(l1, t0, "a"@, r.a);
    let l2 = l1.push("a"@ + s + r.a);
    let t2 = with_line(t1, "b"@, r.b);
    lemma_line_written(l2, t1, "b"@, r.b);
    let l3 = l2.push("b"@ + s + r.b);
    let v = decimal(r.cycles_a as nat);
    let t3 = with_line(t2, "cycles_a"@, v);
    lemma_line_written(l3, t2, "cycles_a"@, v);
    let l4 = l3.push("cycles_a"@ + s + v);
    let v = decimal(r.cycles_b as nat);
    let t4 = with_line(t3, "cycles_b"@, v);
    lemma_line_written(l4, t3, "cycles_b"@, v);
    let l5 = l4.push("cycles_b"@ + s + v);
    let v = hex(r.book as nat, 16);
    let t5 = with_line(t4, "book"@, v);
    lemma_line_written(l5, t4, "book"@, v);
    let l6 = l5.push("book"@ + s + v);
    let v = number_list(r.penta);
    let t6 = with_line(t5, "penta"@, v);
    lemma_line_written(l6, t5, "penta"@, v);
    let l7 = l6.push("penta"@ + s + v);
    let v = number_list(seq![r.wins_a, r.draws, r.wins_b]);
    let t7 = with_line(t6, "wdl"@, v);
    lemma_line_written(l7, t6, "wdl"@, v);
    let l8 = l7.push("wdl"@ + s + v);
    let v = decimal(r.plies as nat);
    let t8 = with_line(t7, "plies"@, v);
    lemma_line_written(l8, t7, "plies"@, v);
    let l9 = l8.push("plies"@ + s + v);
    let v = decimal(r.games as nat);
    let t9 = with_line(t8, "games"@, v);
    lemma_line_written(l9, t8, "games"@, v);
    let l10 = l9.push("games"@ + s + v);
    let t10 = with_line(t9, "cycles"@, c);
    lemma_line_written(l10, t9, "cycles"@, c);
    let l11 = l10.push("cycles"@ + s + c);
    lemma_line_written(l11, t10, "failures"@, number_list(r.failures));
    assert(l11.push("failures"@ + s + number_list(r.failures)) =~= seq![
        "version"@ + s + "1"@,
        "a"@ + s + r.a,
        "b"@ + s + r.b,
        "cycles_a"@ + s + decimal(r.cycles_a as nat),
        "cycles_b"@ + s + decimal(r.cycles_b as nat),
        "book"@ + s + hex(r.book as nat, 16),
        "penta"@ + s + number_list(r.penta),
        "wdl"@ + s + number_list(seq![r.wins_a, r.draws, r.wins_b]),
        "plies"@ + s + decimal(r.plies as nat),
        "games"@ + s + decimal(r.games as nat),
        "cycles"@ + s + c,
        "failures"@ + s + number_list(r.failures),
    ]);
}

/// Several numbers are written in decimal with a comma between each two.
pub proof fn law_numbers_are_written_with_commas(s: Seq<u64>, n: u64)
    ensures
        number_list(Seq::<u64>::empty()).len() == 0,
        number_list(seq![n]) == decimal(n as nat),
        s.len() > 0 ==> number_list(s.push(n)) == number_list(s) + seq![','] + decimal(n as nat),
{
    reveal_strlit(",");
    assert(","@ =~= seq![',']);
    let f = |n: u64| decimal(n as nat);
    assert(s.push(n).map_values(f).drop_last() =~= s.map_values(f));
}

/// A position is written in six fields with a space between each two: the men, the side to
/// move, the rights to castle, the en passant square or a stroke, the clock and a one.
pub proof fn law_positions_are_written_in_six_fields(p: Pos)
    ensures
        p.fen() == join(
            seq![
                ranks_text(p.at, 8),
                if p.stm == 0 {
                    seq!['w']
                } else {
                    seq!['b']
                },
                rights_text(p.rights),
                if p.ep < 64 {
                    square_text(p.ep)
                } else {
                    seq!['-']
                },
                decimal(p.halfmove as nat),
                seq!['1'],
            ],
            seq![' '],
        ),
{
    let g = seq![' '];
    let a = ranks_text(p.at, 8);
    let b = if p.stm == 0 {
        seq!['w']
    } else {
        seq!['b']
    };
    let c = rights_text(p.rights);
    let d = if p.ep < 64 {
        square_text(p.ep)
    } else {
        seq!['-']
    };
    let e = decimal(p.halfmove as nat);
    let f = seq!['1'];
    assert(seq![a, b, c, d, e, f].drop_last() =~= seq![a, b, c, d, e]);
    assert(seq![a, b, c, d, e].drop_last() =~= seq![a, b, c, d]);
    assert(seq![a, b, c, d].drop_last() =~= seq![a, b, c]);
    assert(seq![a, b, c].drop_last() =~= seq![a, b]);
    assert(seq![a, b].drop_last() =~= seq![a]);
    assert(join(seq![a], g) == a);
    let t1 = a.push(' ') + b;
    assert(a.push(' ') =~= a + g);
    assert(join(seq![a, b], g) == t1);
    let t2 = t1.push(' ') + c;
    assert(t1.push(' ') =~= t1 + g);
    assert(join(seq![a, b, c], g) == t2);
    let t3 = t2.push(' ') + d;
    assert(t2.push(' ') =~= t2 + g);
    assert(join(seq![a, b, c, d], g) == t3);
    let t4 = t3.push(' ') + e;
    assert(t3.push(' ') =~= t3 + g);
    assert(join(seq![a, b, c, d, e], g) == t4);
    assert(t4.push(' ') =~= t4 + g);
    assert(join(seq![a, b, c, d, e, f], g) == t4.push(' ') + f);
    assert(b == seq![
        if p.stm == 0 {
            'w'
        } else {
            'b'
        },
    ]);
}

} // verus!
