//! What reading a position promises, and that the text of a position reads back.
use vstd::prelude::*;

use crate::fen::{
    castling, clock, color_of, en_passant, ep_pawn, king_fault, kind_of, laid_out,
    lemma_kings_counted, men_count, no_rights, placement, position_of, rank_cells, rank_rows,
    rights_named, side, square_named, wing_at_home, wing_of, with_right, word_at,
};
use crate::fen_text::{
    letter, ranks_text, right_text, rights_text, row_of, row_run, row_text, square_text,
};
use crate::geometry::{file_of, is_square, rank_of};
use crate::moves::{flag_of, from_of, to_of, F_DOUBLE, KING, PAWN};
use crate::position::{man, Man, Pos, Rights};
use crate::text::{
    decimal, digit_char, digit_value, is_space, just, law_decimal_reads_back, lemma_decimal,
    lemma_next_word, lemma_split_joined, lemma_split_plain, lemma_word, split, words,
};

verus! {

// --------------------------------------------------- what is read is a real position

/// A man in range, and no pawn on a first or last rank.
spec fn fits(cell: Option<Man>, r: int) -> bool {
    match cell {
        Some(m) => 0 <= m.color < 2 && 0 <= m.kind < 6 && (m.kind == PAWN ==> 1 <= r <= 6),
        None => true,
    }
}

proof fn lemma_cells_fit(r: int, s: Seq<char>)
    requires
        0 <= r < 8,
        rank_cells(r, s) is Ok,
    ensures
        forall|i: int|
            0 <= i < rank_cells(r, s)->Ok_0.len() ==> fits(#[trigger] rank_cells(r, s)->Ok_0[i], r),
    decreases s.len(),
{
    if s.len() > 0 {
        lemma_cells_fit(r, s.drop_last());
    }
}

proof fn lemma_rows_fit(ranks: Seq<Seq<char>>)
    requires
        ranks.len() <= 8,
        rank_rows(ranks) is Ok,
    ensures
        rank_rows(ranks)->Ok_0.len() == ranks.len(),
        forall|i: int, f: int|
            0 <= i < ranks.len() && 0 <= f < 8 ==> fits(
                #[trigger] rank_rows(ranks)->Ok_0[i][f],
                7 - i,
            ),
    decreases ranks.len(),
{
    if ranks.len() > 0 {
        lemma_rows_fit(ranks.drop_last());
        lemma_cells_fit(8 - ranks.len(), ranks.last());
    }
}

proof fn lemma_placement_fits(s: Seq<char>)
    requires
        placement(s) is Ok,
    ensures
        placement(s)->Ok_0.len() == 64,
        forall|q: int| is_square(q) ==> fits(#[trigger] placement(s)->Ok_0[q], rank_of(q)),
{
    let ranks = split(s, just('/'));
    lemma_rows_fit(ranks);
    let rows = rank_rows(ranks)->Ok_0;
    assert forall|q: int| is_square(q) implies fits(
        #[trigger] placement(s)->Ok_0[q],
        rank_of(q),
    ) by {
        assert(fits(rows[7 - rank_of(q)][file_of(q)], 7 - (7 - rank_of(q))));
    }
}

spec fn held_at_home(at: Seq<Option<Man>>, r: Rights) -> bool {
    &&& r.wk ==> wing_at_home(at, 0, true)
    &&& r.wq ==> wing_at_home(at, 0, false)
    &&& r.bk ==> wing_at_home(at, 1, true)
    &&& r.bq ==> wing_at_home(at, 1, false)
}

proof fn lemma_named_at_home(at: Seq<Option<Man>>, s: Seq<char>)
    requires
        rights_named(at, s) is Ok,
    ensures
        held_at_home(at, rights_named(at, s)->Ok_0),
    decreases s.len(),
{
    if s.len() > 0 {
        lemma_named_at_home(at, s.drop_last());
    }
}

/// Every position that is read is a real one: one king each, no pawn on a first or last
/// rank, castling rights only with king and rook at home, an en passant square only with
/// the pawn behind it and a pawn that could take it, and nobody in check who is not to move.
pub proof fn law_read_positions_are_real(s: Seq<char>)
    requires
        position_of(s) is Ok,
    ensures
        position_of(s)->Ok_0.readable(),
{
    let p = position_of(s)->Ok_0;
    let w = words(s);
    let first = if w.len() > 0 {
        w[0]
    } else {
        Seq::<char>::empty()
    };
    lemma_placement_fits(first);
    lemma_kings_counted(p, 0);
    lemma_kings_counted(p, 1);
    assert(held_at_home(p.at, p.rights)) by {
        match word_at(w, 2) {
            Some(x) => {
                if x != seq!['-'] {
                    lemma_named_at_home(p.at, x);
                }
            },
            None => {},
        }
    }
    assert forall|c: int, kingside: bool|
        0 <= c < 2 && #[trigger] p.may_castle(c, kingside) implies {
        &&& p.at[Pos::home(c) + 4] == man(c, KING as int)
        &&& p.at[Pos::home(c) + if kingside {
            7int
        } else {
            0int
        }] == man(c, crate::moves::ROOK as int)
    } by {
        assert(wing_at_home(p.at, c, kingside));
    }
    assert forall|q: int|
        is_square(q) && (#[trigger] p.at[q]) is Some && p.at[q]->0.kind == PAWN implies 1
        <= rank_of(q) <= 6 by {
        assert(fits(p.at[q], rank_of(q)));
    }
    assert forall|q: int| is_square(q) implies match #[trigger] p.at[q] {
        Some(m) => 0 <= m.color < 2 && 0 <= m.kind < 6,
        None => true,
    } by {
        assert(fits(p.at[q], rank_of(q)));
    }
}

// ------------------------------------------------------- what is written reads back

proof fn lemma_letter(m: Man)
    requires
        0 <= m.color < 2,
        0 <= m.kind < 6,
    ensures
        kind_of(letter(m)) == Some(m.kind),
        color_of(letter(m)) == m.color,
        digit_value(letter(m), 10) is None,
        !is_space(letter(m)),
        letter(m) != '/',
{
}

/// A text of characters that neither separate words nor ranks.
spec fn plain(t: Seq<char>) -> bool {
    forall|i: int| 0 <= i < t.len() ==> !is_space(#[trigger] t[i]) && t[i] != '/'
}

/// The text of squares reads back as those squares, up to the free ones at the end.
proof fn lemma_run_reads_back(r: int, row: Seq<Option<Man>>)
    requires
        0 <= r < 8,
        row.len() <= 8,
        forall|i: int| 0 <= i < row.len() ==> fits(#[trigger] row[i], r),
    ensures
        row_run(row).1 <= row.len(),
        rank_cells(r, row_run(row).0) == Ok::<Seq<Option<Man>>, Seq<char>>(
            row.take(row.len() - row_run(row).1),
        ),
        forall|i: int| row.len() - row_run(row).1 <= i < row.len() ==> #[trigger] row[i] is None,
        plain(row_run(row).0),
        rank_cells(r, row_text(row)) == Ok::<Seq<Option<Man>>, Seq<char>>(row),
        plain(row_text(row)),
        row.len() > 0 ==> row_text(row).len() > 0,
    decreases row.len(),
{
    let (t, free) = row_run(row);
    if row.len() == 0 {
        assert(row.take(0) =~= Seq::<Option<Man>>::empty());
        assert(row =~= Seq::<Option<Man>>::empty());
    } else {
        let less = row.drop_last();
        assert forall|i: int| 0 <= i < less.len() implies fits(#[trigger] less[i], r) by {
            assert(less[i] == row[i]);
        }
        lemma_run_reads_back(r, less);
        let (t0, free0) = row_run(less);
        assert(fits(row[row.len() - 1], r));
        match row.last() {
            None => {
                assert(row.take(row.len() - free) =~= less.take(less.len() - free0));
                assert forall|i: int| row.len() - free <= i < row.len() implies #[trigger] row[i]
                    is None by {
                    if i < less.len() {
                        assert(less[i] is None);
                    }
                }
            },
            Some(m) => {
                lemma_letter(m);
                let before = row_text(less);
                assert(t.drop_last() =~= before);
                assert(row.take(row.len() as int) =~= row);
                assert(less.push(row.last()) =~= row);
            },
        }
        if free > 0 {
            let whole = row_text(row);
            assert(decimal(free) =~= seq![digit_char(free as int)]);
            assert(whole.drop_last() =~= t);
            assert(whole.last() == digit_char(free as int));
            assert(digit_value(digit_char(free as int), 10) == Some(free));
            assert(row.take(row.len() - free) + Seq::new(free, |i: int| None::<Man>) =~= row);
            assert(plain(whole)) by {
                assert forall|i: int| 0 <= i < whole.len() implies !is_space(#[trigger] whole[i])
                    && whole[i] != '/' by {
                    if i < t.len() {
                        assert(whole[i] == t[i]);
                    }
                }
            }
        } else {
            assert(row.take(row.len() as int) =~= row);
        }
    }
}

proof fn lemma_ranks_read_back(p: Pos, n: int)
    requires
        p.wf(),
        p.pawns_between(),
        1 <= n <= 8,
    ensures
        split(ranks_text(p.at, n), just('/')) == Seq::new(
            n as nat,
            |i: int| row_text(row_of(p.at, 7 - i)),
        ),
        forall|i: int|
            0 <= i < ranks_text(p.at, n).len() ==> !is_space(#[trigger] ranks_text(p.at, n)[i]),
        ranks_text(p.at, n).len() > 0,
    decreases n,
{
    let r = 8 - n;
    let row = row_of(p.at, r);
    assert forall|i: int| 0 <= i < row.len() implies fits(#[trigger] row[i], r) by {
        let q = r * 8 + i;
        assert(is_square(q) && rank_of(q) == r);
        assert(p.at[q] == row[i]);
    }
    lemma_run_reads_back(r, row);
    let t = row_text(row);
    if n == 1 {
        lemma_split_plain(t, just('/'));
        assert(Seq::new(1, |i: int| row_text(row_of(p.at, 7 - i))) =~= seq![t]);
    } else {
        lemma_ranks_read_back(p, n - 1);
        lemma_split_joined(ranks_text(p.at, n - 1), '/', t, just('/'));
        assert(Seq::new((n - 1) as nat, |i: int| row_text(row_of(p.at, 7 - i))).push(t) =~= Seq::new(
            n as nat,
            |i: int| row_text(row_of(p.at, 7 - i)),
        ));
    }
}

proof fn lemma_rows_read_back(p: Pos, n: int)
    requires
        p.wf(),
        p.pawns_between(),
        0 <= n <= 8,
    ensures
        rank_rows(Seq::new(n as nat, |i: int| row_text(row_of(p.at, 7 - i)))) == Ok::<
            Seq<Seq<Option<Man>>>,
            Seq<char>,
        >(Seq::new(n as nat, |i: int| row_of(p.at, 7 - i))),
    decreases n,
{
    let texts = Seq::new(n as nat, |i: int| row_text(row_of(p.at, 7 - i)));
    let rows = Seq::new(n as nat, |i: int| row_of(p.at, 7 - i));
    if n == 0 {
        assert(rows =~= Seq::<Seq<Option<Man>>>::empty());
    } else {
        lemma_rows_read_back(p, n - 1);
        assert(texts.drop_last() =~= Seq::new(
            (n - 1) as nat,
            |i: int| row_text(row_of(p.at, 7 - i)),
        ));
        let r = 8 - n;
        let row = row_of(p.at, r);
        assert forall|i: int| 0 <= i < row.len() implies fits(#[trigger] row[i], r) by {
            let q = r * 8 + i;
            assert(is_square(q) && rank_of(q) == r);
            assert(p.at[q] == row[i]);
        }
        lemma_run_reads_back(r, row);
        assert(Seq::new((n - 1) as nat, |i: int| row_of(p.at, 7 - i)).push(row) =~= rows);
    }
}

proof fn lemma_placement_reads_back(p: Pos)
    requires
        p.wf(),
        p.pawns_between(),
    ensures
        placement(ranks_text(p.at, 8)) == Ok::<Seq<Option<Man>>, Seq<char>>(p.at),
{
    lemma_ranks_read_back(p, 8);
    lemma_rows_read_back(p, 8);
    let rows = Seq::new(8, |i: int| row_of(p.at, 7 - i));
    assert(laid_out(rows) =~= p.at);
}

pub proof fn lemma_only_king_counts(p: Pos, c: int, s: int, n: int)
    requires
        p.is_only_king(c, s),
        0 <= n <= 64,
    ensures
        men_count(p.at, c, KING as int, n) == if s < n {
            1int
        } else {
            0int
        },
    decreases n,
{
    if n > 0 {
        lemma_only_king_counts(p, c, s, n - 1);
        assert(p.at[n - 1] == man(c, KING as int) ==> n - 1 == s);
    }
}

proof fn lemma_kings_fine(p: Pos, c: int)
    requires
        p.one_king(c),
    ensures
        king_fault(p.at, c) is None,
{
    let s = choose|s: int| p.is_only_king(c, s);
    lemma_only_king_counts(p, c, s, 64);
}

/// One more letter of the castling field.
proof fn lemma_right_reads_back(
    at: Seq<Option<Man>>,
    t: Seq<char>,
    held: bool,
    ch: char,
    before: Rights,
    c: int,
    kingside: bool,
)
    requires
        wing_of(ch) == Some((c, kingside)),
        held ==> wing_at_home(at, c, kingside),
        rights_named(at, t) == Ok::<Rights, Seq<char>>(before),
        forall|i: int| 0 <= i < t.len() ==> !is_space(#[trigger] t[i]) && t[i] != '-',
    ensures
        rights_named(at, right_text(t, held, ch)) == Ok::<Rights, Seq<char>>(
            if held {
                with_right(before, c, kingside)
            } else {
                before
            },
        ),
        forall|i: int|
            0 <= i < right_text(t, held, ch).len() ==> !is_space(
                #[trigger] right_text(t, held, ch)[i],
            ) && right_text(t, held, ch)[i] != '-',
        right_text(t, held, ch).len() == t.len() + if held {
            1int
        } else {
            0int
        },
{
    if held {
        assert(t.push(ch).drop_last() =~= t);
    }
}

proof fn lemma_rights_read_back(p: Pos)
    requires
        p.rights_sound(),
    ensures
        castling(p.at, Some(rights_text(p.rights))) == Ok::<Rights, Seq<char>>(p.rights),
        rights_text(p.rights).len() > 0,
        forall|i: int|
            0 <= i < rights_text(p.rights).len() ==> !is_space(#[trigger] rights_text(p.rights)[i]),
{
    let r = p.rights;
    assert(p.may_castle(0, true) == r.wk);
    assert(p.may_castle(0, false) == r.wq);
    assert(p.may_castle(1, true) == r.bk);
    assert(p.may_castle(1, false) == r.bq);
    if r != no_rights() {
        let t0 = Seq::<char>::empty();
        let t1 = right_text(t0, r.wk, 'K');
        let t2 = right_text(t1, r.wq, 'Q');
        let t3 = right_text(t2, r.bk, 'k');
        let t4 = right_text(t3, r.bq, 'q');
        let r1 = Rights { wk: r.wk, ..no_rights() };
        let r2 = Rights { wq: r.wq, ..r1 };
        let r3 = Rights { bk: r.bk, ..r2 };
        lemma_right_reads_back(p.at, t0, r.wk, 'K', no_rights(), 0, true);
        lemma_right_reads_back(p.at, t1, r.wq, 'Q', r1, 0, false);
        lemma_right_reads_back(p.at, t2, r.bk, 'k', r2, 1, true);
        lemma_right_reads_back(p.at, t3, r.bq, 'q', r3, 1, false);
        if t4 == seq!['-'] {
            assert(t4[0] == '-');
        }
    }
}

proof fn lemma_ep_reads_back(p: Pos)
    requires
        p.wf(),
        p.ep < 64,
        p.ep_behind_pawn(),
        p.ep_usable(),
    ensures
        en_passant(p.at, p.stm, Some(square_text(p.ep))) == Ok::<int, Seq<char>>(p.ep),
        forall|i: int| 0 <= i < 2 ==> !is_space(#[trigger] square_text(p.ep)[i]),
{
    let x = square_text(p.ep);
    assert(x.len() == 2);
    assert(x[0] as int == 'a' as int + file_of(p.ep));
    assert(x[1] as int == '1' as int + rank_of(p.ep));
    assert(square_named(x) == Some(p.ep));
    assert(ep_pawn(p.stm, p.ep) == p.ep_victim(p.ep));
    assert(x != seq!['-']) by {
        assert(seq!['-'].len() == 1);
    }
}

/// The text of a position has six fields: the men, w or b for the side to move, the rights to
/// castle, the en passant square or a stroke, the clock, and the number of a first move.
pub proof fn law_fen_has_six_fields(p: Pos)
    requires
        p.readable(),
    ensures
        words(p.fen()) == seq![
            ranks_text(p.at, 8),
            seq![
                if p.stm == 0 {
                    'w'
                } else {
                    'b'
                },
            ],
            rights_text(p.rights),
            if p.ep < 64 {
                square_text(p.ep)
            } else {
                seq!['-']
            },
            decimal(p.halfmove as nat),
            seq!['1'],
        ],
{
    let men = ranks_text(p.at, 8);
    let turn_word = seq![
        if p.stm == 0 {
            'w'
        } else {
            'b'
        },
    ];
    let turn = men.push(' ') + turn_word;
    let castle_word = rights_text(p.rights);
    let castle = turn.push(' ') + castle_word;
    let ep_word = if p.ep < 64 {
        square_text(p.ep)
    } else {
        seq!['-']
    };
    let ep = castle.push(' ') + ep_word;
    let clock_word = decimal(p.halfmove as nat);
    let timed = ep.push(' ') + clock_word;
    lemma_ranks_read_back(p, 8);
    lemma_rights_read_back(p);
    if p.ep < 64 {
        lemma_ep_reads_back(p);
    }
    lemma_decimal(p.halfmove as nat);
    assert forall|i: int| 0 <= i < clock_word.len() implies !is_space(#[trigger] clock_word[i]) by {
        assert('0' as int <= clock_word[i] as int <= '9' as int);
    }
    lemma_word(men);
    lemma_next_word(men, turn_word);
    lemma_next_word(turn, castle_word);
    lemma_next_word(castle, ep_word);
    lemma_next_word(ep, clock_word);
    lemma_next_word(timed, seq!['1']);
    assert(words(p.fen()) =~= seq![
        men,
        turn_word,
        castle_word,
        ep_word,
        clock_word,
        seq!['1'],
    ]);
}

/// The text of a position reads back as that position.
pub proof fn law_fen_reads_back(p: Pos)
    requires
        p.readable(),
    ensures
        position_of(p.fen()) == Ok::<Pos, Seq<char>>(p),
{
    let turn_word = seq![
        if p.stm == 0 {
            'w'
        } else {
            'b'
        },
    ];
    law_fen_has_six_fields(p);
    lemma_ranks_read_back(p, 8);
    lemma_placement_reads_back(p);
    lemma_kings_fine(p, 0);
    lemma_kings_fine(p, 1);
    lemma_rights_read_back(p);
    if p.ep < 64 {
        lemma_ep_reads_back(p);
    }
    law_decimal_reads_back(p.halfmove as nat);
    let w = words(p.fen());
    assert(side(word_at(w, 1)) == Ok::<int, Seq<char>>(p.stm)) by {
        assert(turn_word[0] == 'w' || turn_word[0] == 'b');
        assert(seq!['w'][0] == 'w');
        assert(seq!['b'][0] == 'b');
    }
    assert(clock(word_at(w, 4)) == Ok::<int, Seq<char>>(p.halfmove));
}

/// Reading, and playing legal moves from what was read, never leaves the positions whose
/// texts read back.
pub proof fn law_legal_move_keeps_position_readable(p: Pos, m: u16)
    requires
        p.legal_position(),
        p.legal(m),
    ensures
        p.after(m).readable(),
        position_of(p.after(m).fen()) == Ok::<Pos, Seq<char>>(p.after(m)),
{
    p.law_legal_move_keeps_position_legal(m);
    let q = p.after(m);
    if q.ep < 64 {
        assert(flag_of(m) == F_DOUBLE);
        assert(q.ep == p.push(from_of(m)));
        assert(q.ep_victim(q.ep) == to_of(m));
    }
    law_fen_reads_back(q);
}

} // verus!
