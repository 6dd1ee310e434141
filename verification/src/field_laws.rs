//! What each field of a position's text may say, and what is read from it.
use vstd::prelude::*;

use crate::fen::{
    castling, clock, en_passant, kind_of, men_count, placement, position_of, rank_cells, rank_row,
    rank_rows, rights_named, side,
};
use crate::position::{Man, Pos, Rights};
use crate::text::{digit_value, just, number, split, words};

verus! {

/// The side to move is White unless it is named, by w for White or b for Black, and nothing
/// else names it.
pub proof fn law_sides_are_named(word: Seq<char>)
    ensures
        side(None) == Ok::<int, Seq<char>>(0),
        side(Some(word)) is Ok <==> word.len() == 1 && (word[0] == 'w' || word[0] == 'b'),
        word.len() == 1 && word[0] == 'w' ==> side(Some(word)) == Ok::<int, Seq<char>>(0),
        word.len() == 1 && word[0] == 'b' ==> side(Some(word)) == Ok::<int, Seq<char>>(1),
{
    if word.len() == 1 && word[0] == 'w' {
        assert(word =~= seq!['w']);
    }
    if word.len() == 1 && word[0] == 'b' {
        assert(word =~= seq!['b']);
    }
    assert(seq!['w'][0] == 'w' && seq!['b'][0] == 'b');
}

/// Whether a letter names a right to castle that the men on the board still allow: the king and
/// the rook of that side stand where the game begins.
pub open spec fn may_be_claimed(at: Seq<Option<Man>>, ch: char) -> bool {
    ||| ch == 'K' && at[4] == Some(Man { color: 0, kind: 5 }) && at[7] == Some(
        Man { color: 0, kind: 3 },
    )
    ||| ch == 'Q' && at[4] == Some(Man { color: 0, kind: 5 }) && at[0] == Some(
        Man { color: 0, kind: 3 },
    )
    ||| ch == 'k' && at[60] == Some(Man { color: 1, kind: 5 }) && at[63] == Some(
        Man { color: 1, kind: 3 },
    )
    ||| ch == 'q' && at[60] == Some(Man { color: 1, kind: 5 }) && at[56] == Some(
        Man { color: 1, kind: 3 },
    )
}

proof fn lemma_rights_named(at: Seq<Option<Man>>, word: Seq<char>)
    ensures
        rights_named(at, word) is Ok <==> forall|i: int|
            0 <= i < word.len() ==> may_be_claimed(at, #[trigger] word[i]),
        rights_named(at, word) matches Ok(r) ==> {
            &&& r.wk <==> word.contains('K')
            &&& r.wq <==> word.contains('Q')
            &&& r.bk <==> word.contains('k')
            &&& r.bq <==> word.contains('q')
        },
    decreases word.len(),
{
    if word.len() > 0 {
        let front = word.drop_last();
        let ch = word.last();
        lemma_rights_named(at, front);
        assert forall|c: char| #[trigger] word.contains(c) == (front.contains(c) || c == ch) by {
            if word.contains(c) {
                let i = choose|i: int| 0 <= i < word.len() && word[i] == c;
                if i < front.len() {
                    assert(front[i] == c);
                }
            }
            if front.contains(c) {
                let i = choose|i: int| 0 <= i < front.len() && front[i] == c;
                assert(word[i] == c);
            }
            if c == ch {
                assert(word[word.len() - 1] == c);
            }
        }
        assert(word.contains('K') == (front.contains('K') || ch == 'K'));
        assert(word.contains('Q') == (front.contains('Q') || ch == 'Q'));
        assert(word.contains('k') == (front.contains('k') || ch == 'k'));
        assert(word.contains('q') == (front.contains('q') || ch == 'q'));
        if forall|i: int| 0 <= i < word.len() ==> may_be_claimed(at, #[trigger] word[i]) {
            assert forall|i: int| 0 <= i < front.len() implies may_be_claimed(
                at,
                #[trigger] front[i],
            ) by {
                assert(may_be_claimed(at, word[i]));
            }
            assert(may_be_claimed(at, word[word.len() - 1]));
        }
        if may_be_claimed(at, ch) && forall|i: int|
            0 <= i < front.len() ==> may_be_claimed(at, #[trigger] front[i]) {
            assert forall|i: int| 0 <= i < word.len() implies may_be_claimed(
                at,
                #[trigger] word[i],
            ) by {
                if i < front.len() {
                    assert(may_be_claimed(at, front[i]));
                }
            }
        }
    }
}

/// The rights to castle are those named, K and Q for White and k and q for Black, each of which
/// the men on the board must allow. Without the field, or with a stroke in it, there are none.
pub proof fn law_rights_are_named(at: Seq<Option<Man>>, word: Seq<char>)
    ensures
        castling(at, None) == Ok::<Rights, Seq<char>>(
            (Rights { wk: false, wq: false, bk: false, bq: false }),
        ),
        word == seq!['-'] ==> castling(at, Some(word)) == Ok::<Rights, Seq<char>>(
            (Rights { wk: false, wq: false, bk: false, bq: false }),
        ),
        word != seq!['-'] ==> {
            &&& castling(at, Some(word)) is Ok <==> forall|i: int|
                0 <= i < word.len() ==> may_be_claimed(at, #[trigger] word[i])
            &&& castling(at, Some(word)) matches Ok(r) ==> {
                &&& r.wk <==> word.contains('K')
                &&& r.wq <==> word.contains('Q')
                &&& r.bk <==> word.contains('k')
                &&& r.bq <==> word.contains('q')
            }
        },
{
    lemma_rights_named(at, word);
}

/// The en passant square lies on the sixth rank with White to move and on the third with Black,
/// and a pawn that has just passed it stands beyond. It counts only where a pawn of the side to
/// move stands beside that pawn; without the field, or with a stroke in it, there is none.
pub proof fn law_en_passant_squares_are_named(at: Seq<Option<Man>>, stm: int, word: Seq<char>)
    requires
        0 <= stm < 2,
    ensures
        en_passant(at, stm, None) == Ok::<int, Seq<char>>(64),
        word == seq!['-'] ==> en_passant(at, stm, Some(word)) == Ok::<int, Seq<char>>(64),
        word != seq!['-'] ==> ({
            let f = word[0] as int - 97;
            let sq = if stm == 0 {
                40 + f
            } else {
                16 + f
            };
            let pawn = if stm == 0 {
                32 + f
            } else {
                24 + f
            };
            let sound = word.len() == 2 && 0 <= f < 8 && word[1] == (if stm == 0 {
                '6'
            } else {
                '3'
            }) && at[pawn] == Some(Man { color: 1 - stm, kind: 0 });
            let beside = (f > 0 && at[pawn - 1] == Some(Man { color: stm, kind: 0 })) || (f < 7
                && at[pawn + 1] == Some(Man { color: stm, kind: 0 }));
            &&& en_passant(at, stm, Some(word)) is Ok <==> sound
            &&& sound ==> en_passant(at, stm, Some(word)) == Ok::<int, Seq<char>>(
                if beside {
                    sq
                } else {
                    64
                },
            )
        }),
{
}

/// The clock is a number of at most two hundred and fifty-five, and nought where it is left
/// out.
pub proof fn law_clocks_are_numbers(word: Seq<char>)
    ensures
        clock(None) == Ok::<int, Seq<char>>(0),
        clock(Some(word)) is Ok <==> (number(word, 10) matches Some(n) && n <= 255),
        clock(Some(word)) matches Ok(h) ==> number(word, 10) == Some(h as nat) && h >= 0,
{
}

/// How many squares a character of a rank stands for: a figure from 1 to 8 for as many, the
/// letter of a man for one, and anything else for none.
pub open spec fn width_of(ch: char) -> int {
    if 49 <= ch as int <= 56 {
        ch as int - 48
    } else if seq!['p', 'n', 'b', 'r', 'q', 'k', 'P', 'N', 'B', 'R', 'Q', 'K'].contains(ch) {
        1
    } else {
        0
    }
}

/// How many squares the characters of a rank stand for together.
pub open spec fn width(s: Seq<char>) -> int
    decreases s.len(),
{
    if s.len() == 0 {
        0
    } else {
        width(s.drop_last()) + width_of(s.last())
    }
}

/// Whether a character may stand in the text of the rank `r`: a figure or the letter of a man,
/// but no pawn on the first or the last.
pub open spec fn stands_for_squares(r: int, ch: char) -> bool {
    width_of(ch) > 0 && ((r == 0 || r == 7) ==> ch != 'p' && ch != 'P')
}

pub proof fn lemma_widths(ch: char)
    ensures
        ({
            let kind = kind_of(ch);
            let figure = digit_value(ch, 10);
            &&& kind is Some <==> seq![
                'p',
                'n',
                'b',
                'r',
                'q',
                'k',
                'P',
                'N',
                'B',
                'R',
                'Q',
                'K',
            ].contains(ch)
            &&& kind is Some ==> figure is None && width_of(ch) == 1
            &&& figure is Some && 1 <= figure->0 <= 8 <==> 49 <= ch as int <= 56
            &&& figure is Some && 1 <= figure->0 <= 8 ==> figure->0 == width_of(ch)
        }),
{
    let all = seq!['p', 'n', 'b', 'r', 'q', 'k', 'P', 'N', 'B', 'R', 'Q', 'K'];
    assert(all[0] == 'p' && all[1] == 'n' && all[2] == 'b' && all[3] == 'r' && all[4] == 'q'
        && all[5] == 'k' && all[6] == 'P' && all[7] == 'N' && all[8] == 'B' && all[9] == 'R'
        && all[10] == 'Q' && all[11] == 'K');
}

proof fn lemma_rank_cells(r: int, s: Seq<char>)
    ensures
        width(s) >= 0,
        rank_cells(r, s) matches Ok(cells) ==> cells.len() == width(s) && forall|i: int|
            0 <= i < s.len() ==> stands_for_squares(r, #[trigger] s[i]),
        width(s) <= 8 && (forall|i: int|
            0 <= i < s.len() ==> stands_for_squares(r, #[trigger] s[i])) ==> rank_cells(r, s) is Ok,
    decreases s.len(),
{
    if s.len() > 0 {
        let front = s.drop_last();
        let ch = s.last();
        lemma_rank_cells(r, front);
        lemma_widths(ch);
        if rank_cells(r, s) is Ok {
            assert forall|i: int| 0 <= i < s.len() implies stands_for_squares(
                r,
                #[trigger] s[i],
            ) by {
                if i < front.len() {
                    assert(stands_for_squares(r, front[i]));
                }
            }
        }
        if width(s) <= 8 && forall|i: int|
            0 <= i < s.len() ==> stands_for_squares(r, #[trigger] s[i]) {
            assert(stands_for_squares(r, s[s.len() - 1]));
            assert forall|i: int| 0 <= i < front.len() implies stands_for_squares(
                r,
                #[trigger] front[i],
            ) by {
                assert(stands_for_squares(r, s[i]));
            }
        }
    }
}

/// The text of a rank is read just when every character may stand there and they stand for
/// eight squares together.
pub proof fn law_ranks_stand_for_eight_squares(r: int, s: Seq<char>)
    ensures
        rank_row(r, s) is Ok <==> width(s) == 8 && forall|i: int|
            0 <= i < s.len() ==> stands_for_squares(r, #[trigger] s[i]),
        rank_row(r, s) is Ok ==> rank_row(r, s)->Ok_0.len() == 8,
{
    lemma_rank_cells(r, s);
}

/// A figure leaves as many squares empty, and the letter of a man puts it on the next: a capital
/// a white one, a small letter a black one.
pub proof fn law_characters_fill_squares(r: int, s: Seq<char>, ch: char)
    requires
        rank_cells(r, s) is Ok,
        rank_cells(r, s.push(ch)) is Ok,
    ensures
        ({
            let before = rank_cells(r, s)->Ok_0;
            let after = rank_cells(r, s.push(ch))->Ok_0;
            let white = seq!['P', 'N', 'B', 'R', 'Q', 'K'];
            let black = seq!['p', 'n', 'b', 'r', 'q', 'k'];
            &&& rank_cells(r, Seq::<char>::empty())->Ok_0.len() == 0
            &&& after.len() == before.len() + width_of(ch)
            &&& forall|i: int| 0 <= i < before.len() ==> #[trigger] after[i] == before[i]
            &&& 49 <= ch as int <= 56 ==> forall|i: int|
                before.len() <= i < after.len() ==> #[trigger] after[i] is None
            &&& forall|k: int|
                0 <= k < 6 && #[trigger] white[k] == ch ==> after[before.len() as int] == Some(
                    Man { color: 0, kind: k },
                )
            &&& forall|k: int|
                0 <= k < 6 && #[trigger] black[k] == ch ==> after[before.len() as int] == Some(
                    Man { color: 1, kind: k },
                )
        }),
{
    assert(s.push(ch).drop_last() =~= s);
    lemma_rank_cells(r, s);
    lemma_rank_cells(r, s.push(ch));
    lemma_widths(ch);
}

proof fn lemma_rows(ranks: Seq<Seq<char>>)
    requires
        ranks.len() <= 8,
    ensures
        rank_rows(ranks) is Ok <==> forall|i: int|
            0 <= i < ranks.len() ==> rank_row(7 - i, #[trigger] ranks[i]) is Ok,
        rank_rows(ranks) matches Ok(rows) ==> rows.len() == ranks.len() && forall|i: int|
            0 <= i < ranks.len() ==> #[trigger] rows[i] == rank_row(7 - i, ranks[i])->Ok_0,
    decreases ranks.len(),
{
    if ranks.len() > 0 {
        let front = ranks.drop_last();
        let n = ranks.len() - 1;
        lemma_rows(front);
        assert(ranks.last() == ranks[n]);
        assert(7 - n == 8 - ranks.len());
        if forall|i: int| 0 <= i < ranks.len() ==> rank_row(7 - i, #[trigger] ranks[i]) is Ok {
            assert forall|i: int| 0 <= i < front.len() implies rank_row(
                7 - i,
                #[trigger] front[i],
            ) is Ok by {
                assert(rank_row(7 - i, ranks[i]) is Ok);
            }
        }
        if rank_rows(ranks) is Ok {
            let rows = rank_rows(ranks)->Ok_0;
            let above = rank_rows(front)->Ok_0;
            assert forall|i: int| 0 <= i < ranks.len() implies rank_row(
                7 - i,
                #[trigger] ranks[i],
            ) is Ok && rows[i] == rank_row(7 - i, ranks[i])->Ok_0 by {
                if i < front.len() {
                    assert(rank_row(7 - i, front[i]) is Ok);
                    assert(rows[i] == above[i]);
                    assert(front[i] == ranks[i]);
                }
            }
        }
    }
}

/// The men are given rank by rank, from the eighth down to the first, with a slash between each
/// two, and each rank from the a-file to the h-file.
pub proof fn law_ranks_come_from_the_top(s: Seq<char>, r: int, f: int)
    requires
        0 <= r < 8,
        0 <= f < 8,
    ensures
        ({
            let ranks = split(s, just('/'));
            &&& placement(s) is Ok <==> ranks.len() == 8 && forall|i: int|
                0 <= i < 8 ==> rank_row(7 - i, #[trigger] ranks[i]) is Ok
            &&& placement(s) is Ok ==> placement(s)->Ok_0[r * 8 + f] == rank_row(
                r,
                ranks[7 - r],
            )->Ok_0[f]
        }),
{
    let ranks = split(s, just('/'));
    if ranks.len() == 8 {
        lemma_rows(ranks);
        if placement(s) is Ok {
            let rows = rank_rows(ranks)->Ok_0;
            assert(rows[7 - r] == rank_row(7 - (7 - r), ranks[7 - r])->Ok_0);
            let q = r * 8 + f;
            assert(q / 8 == r && q % 8 == f);
        }
    }
}

/// The text of a position is read just when each of its fields can be, each side has one king,
/// and the side that is not to move is not in check. What is read is what the fields say; a
/// sixth and further ones say nothing.
pub proof fn law_texts_are_read_field_by_field(s: Seq<char>)
    ensures
        ({
            let w = words(s);
            let men = placement(
                if w.len() > 0 {
                    w[0]
                } else {
                    Seq::<char>::empty()
                },
            );
            let at = men->Ok_0;
            let stm = side(if w.len() > 1 { Some(w[1]) } else { None });
            let rights = castling(at, if w.len() > 2 { Some(w[2]) } else { None });
            let ep = en_passant(at, stm->Ok_0, if w.len() > 3 { Some(w[3]) } else { None });
            let halfmove = clock(if w.len() > 4 { Some(w[4]) } else { None });
            let p = Pos {
                at,
                stm: stm->Ok_0,
                rights: rights->Ok_0,
                ep: ep->Ok_0,
                halfmove: halfmove->Ok_0,
            };
            &&& position_of(s) is Ok <==> men is Ok && men_count(at, 0, 5, 64) == 1 && men_count(
                at,
                1,
                5,
                64,
            ) == 1 && stm is Ok && rights is Ok && ep is Ok && halfmove is Ok && !p.in_check(
                1 - p.stm,
            )
            &&& position_of(s) is Ok ==> position_of(s)->Ok_0 == p
        }),
{
}

proof fn lemma_count_range(at: Seq<Option<Man>>, c: int, k: int, n: int)
    ensures
        men_count(at, c, k, n) >= 0,
        men_count(at, c, k, n) == 0 <==> forall|s: int|
            0 <= s < n ==> #[trigger] at[s] != Some(Man { color: c, kind: k }),
    decreases n,
{
    if n > 0 {
        lemma_count_range(at, c, k, n - 1);
        let last = at[n - 1];
    }
}

/// Whether such a man stands on `s`, and on no other square below `n`.
pub open spec fn stands_alone(at: Seq<Option<Man>>, m: Man, n: int, s: int) -> bool {
    &&& 0 <= s < n
    &&& at[s] == Some(m)
    &&& forall|t: int| 0 <= t < n && t != s ==> #[trigger] at[t] != Some(m)
}

/// A side has one man of a kind just when there is a square with one and no other.
pub proof fn law_one_is_counted_once(at: Seq<Option<Man>>, c: int, k: int, n: int)
    ensures
        men_count(at, c, k, n) == 1 <==> exists|s: int|
            stands_alone(at, Man { color: c, kind: k }, n, s),
    decreases n,
{
    if n > 0 {
        let m = Man { color: c, kind: k };
        let below = n - 1;
        law_one_is_counted_once(at, c, k, below);
        lemma_count_range(at, c, k, below);
        if at[n - 1] == Some(m) {
            if men_count(at, c, k, n) == 1 {
                assert(stands_alone(at, m, n, n - 1));
            }
            if exists|s: int| stands_alone(at, m, n, s) {
                let s = choose|s: int| stands_alone(at, m, n, s);
                assert(s == n - 1);
            }
        } else {
            if men_count(at, c, k, n) == 1 {
                let s = choose|s: int| stands_alone(at, m, below, s);
                assert(stands_alone(at, m, n, s));
            }
            if exists|s: int| stands_alone(at, m, n, s) {
                let s = choose|s: int| stands_alone(at, m, n, s);
                assert(stands_alone(at, m, below, s));
            }
        }
    }
}

} // verus!
