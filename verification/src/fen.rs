//! Forsyth-Edwards Notation: which texts describe a position, and the text of a position.
use vstd::prelude::*;

use crate::bits::{count, count_below, group_bits, lemma_single_hit, on};
use crate::board::{rights_of, Board};
use crate::geometry::{file_of, is_square, rank_of};
use crate::moves::{BISHOP, BLACK, KING, KNIGHT, PAWN, QUEEN, ROOK, WHITE};
use crate::position::{man, Man, Pos, Rights};
use crate::tables::Tables;
use crate::text::{
    bounded_number, chars, decimal, digit_value, just, push_all, push_decimal, read_number, split,
    split_at, split_words, texts, value_of, words,
};

verus! {

broadcast use group_bits;

// ------------------------------------------------------------------ reading: rules

/// The kind that a letter of either case stands for.
pub open spec fn kind_of(ch: char) -> Option<int> {
    if ch == 'p' || ch == 'P' {
        Some(PAWN as int)
    } else if ch == 'n' || ch == 'N' {
        Some(KNIGHT as int)
    } else if ch == 'b' || ch == 'B' {
        Some(BISHOP as int)
    } else if ch == 'r' || ch == 'R' {
        Some(ROOK as int)
    } else if ch == 'q' || ch == 'Q' {
        Some(QUEEN as int)
    } else if ch == 'k' || ch == 'K' {
        Some(KING as int)
    } else {
        None
    }
}

/// White's men are in upper case.
pub open spec fn color_of(ch: char) -> int {
    if 'A' as int <= ch as int <= 'Z' as int {
        0
    } else {
        1
    }
}

/// How a complaint about rank `r` begins.
pub open spec fn on_rank(r: int) -> Seq<char> {
    "rank "@ + decimal((r + 1) as nat)
}

/// The squares of rank `r` that a text describes, from the a-file, or what is wrong with it.
pub open spec fn rank_cells(r: int, s: Seq<char>) -> Result<Seq<Option<Man>>, Seq<char>>
    decreases s.len(),
{
    if s.len() == 0 {
        Ok(Seq::<Option<Man>>::empty())
    } else {
        match rank_cells(r, s.drop_last()) {
            Err(e) => Err(e),
            Ok(cells) => {
                let ch = s.last();
                match (digit_value(ch, 10), kind_of(ch)) {
                    (Some(n), _) => if n == 0 || n > 8 {
                        Err((on_rank(r) + ": '"@).push(ch) + "' is not a run of 1-8"@)
                    } else {
                        Ok(cells + Seq::new(n, |i: int| None::<Man>))
                    },
                    (None, None) => Err((on_rank(r) + ": '"@).push(ch) + "' is not a piece"@),
                    (None, Some(k)) => if cells.len() > 7 {
                        Err(on_rank(r) + " describes more than 8 squares"@)
                    } else if k == PAWN && (r == 0 || r == 7) {
                        Err("a pawn on rank "@ + decimal((r + 1) as nat))
                    } else {
                        Ok(cells.push(man(color_of(ch), k)))
                    },
                }
            },
        }
    }
}

/// The eight squares of rank `r`.
pub open spec fn rank_row(r: int, s: Seq<char>) -> Result<Seq<Option<Man>>, Seq<char>> {
    match rank_cells(r, s) {
        Err(e) => Err(e),
        Ok(cells) => if cells.len() != 8 {
            Err(on_rank(r) + " describes "@ + decimal(cells.len()) + " squares, expected 8"@)
        } else {
            Ok(cells)
        },
    }
}

/// The rows that texts describe, from the eighth rank down.
pub open spec fn rank_rows(ranks: Seq<Seq<char>>) -> Result<
    Seq<Seq<Option<Man>>>,
    Seq<char>,
>
    decreases ranks.len(),
{
    if ranks.len() == 0 {
        Ok(Seq::<Seq<Option<Man>>>::empty())
    } else {
        match rank_rows(ranks.drop_last()) {
            Err(e) => Err(e),
            Ok(above) => match rank_row(8 - ranks.len(), ranks.last()) {
                Err(e) => Err(e),
                Ok(row) => Ok(above.push(row)),
            },
        }
    }
}

/// The men of rows that run from the eighth rank down.
pub open spec fn laid_out(rows: Seq<Seq<Option<Man>>>) -> Seq<Option<Man>> {
    Seq::new(64, |q: int| rows[7 - rank_of(q)][file_of(q)])
}

/// The men that a placement field describes.
pub open spec fn placement(s: Seq<char>) -> Result<Seq<Option<Man>>, Seq<char>> {
    let ranks = split(s, just('/'));
    if ranks.len() != 8 {
        Err("placement has "@ + decimal(ranks.len()) + " ranks, expected 8"@)
    } else {
        match rank_rows(ranks) {
            Err(e) => Err(e),
            Ok(rows) => Ok(laid_out(rows)),
        }
    }
}

/// How many squares below `n` hold a man of colour `c` and kind `k`.
pub open spec fn men_count(at: Seq<Option<Man>>, c: int, k: int, n: int) -> int
    decreases n,
{
    if n <= 0 {
        0
    } else {
        men_count(at, c, k, n - 1) + if at[n - 1] == man(c, k) {
            1int
        } else {
            0int
        }
    }
}

/// What is wrong with the number of kings of colour `c`.
pub open spec fn king_fault(at: Seq<Option<Man>>, c: int) -> Option<Seq<char>> {
    let n = men_count(at, c, KING as int, 64);
    let who = if c == 0 {
        "white"@
    } else {
        "black"@
    };
    if n != 1 {
        Some(who + " has "@ + decimal(n as nat) + " kings, expected 1"@)
    } else {
        None
    }
}

/// The side to move; White when nothing is said.
pub open spec fn side(word: Option<Seq<char>>) -> Result<int, Seq<char>> {
    match word {
        None => Ok(0),
        Some(x) => if x == seq!['w'] {
            Ok(0)
        } else if x == seq!['b'] {
            Ok(1)
        } else {
            Err("side to move is '"@ + x + "', expected w or b"@)
        },
    }
}

pub open spec fn no_rights() -> Rights {
    Rights { wk: false, wq: false, bk: false, bq: false }
}

/// The colour and the wing that a letter of the castling field names.
pub open spec fn wing_of(ch: char) -> Option<(int, bool)> {
    if ch == 'K' {
        Some((0, true))
    } else if ch == 'Q' {
        Some((0, false))
    } else if ch == 'k' {
        Some((1, true))
    } else if ch == 'q' {
        Some((1, false))
    } else {
        None
    }
}

pub open spec fn wing_name(c: int, kingside: bool) -> Seq<char> {
    if c == 0 {
        if kingside {
            "white kingside"@
        } else {
            "white queenside"@
        }
    } else {
        if kingside {
            "black kingside"@
        } else {
            "black queenside"@
        }
    }
}

pub open spec fn with_right(r: Rights, c: int, kingside: bool) -> Rights {
    Rights {
        wk: r.wk || (c == 0 && kingside),
        wq: r.wq || (c == 0 && !kingside),
        bk: r.bk || (c == 1 && kingside),
        bq: r.bq || (c == 1 && !kingside),
    }
}

/// Whether the king of colour `c` and its rook on that wing stand at home.
pub open spec fn wing_at_home(at: Seq<Option<Man>>, c: int, kingside: bool) -> bool {
    &&& at[Pos::home(c) + 4] == man(c, KING as int)
    &&& at[Pos::home(c) + if kingside {
        7int
    } else {
        0int
    }] == man(c, ROOK as int)
}

/// The rights that the letters of a castling field name.
pub open spec fn rights_named(at: Seq<Option<Man>>, s: Seq<char>) -> Result<Rights, Seq<char>>
    decreases s.len(),
{
    if s.len() == 0 {
        Ok(no_rights())
    } else {
        match rights_named(at, s.drop_last()) {
            Err(e) => Err(e),
            Ok(r) => match wing_of(s.last()) {
                None => Err("'"@.push(s.last()) + "' is not a castling right"@),
                Some((c, kingside)) => if wing_at_home(at, c, kingside) {
                    Ok(with_right(r, c, kingside))
                } else {
                    Err(
                        "claims "@ + wing_name(c, kingside)
                            + " castling, but the king or rook has moved"@,
                    )
                },
            },
        }
    }
}

/// The castling rights; none when nothing is said or a dash is.
pub open spec fn castling(at: Seq<Option<Man>>, word: Option<Seq<char>>) -> Result<
    Rights,
    Seq<char>,
> {
    match word {
        None => Ok(no_rights()),
        Some(x) => if x == seq!['-'] {
            Ok(no_rights())
        } else {
            rights_named(at, x)
        },
    }
}

/// The square that two characters name.
pub open spec fn square_named(s: Seq<char>) -> Option<int> {
    if s.len() == 2 && 'a' as int <= s[0] as int <= 'h' as int && '1' as int <= s[1] as int
        <= '8' as int {
        Some((s[1] as int - '1' as int) * 8 + (s[0] as int - 'a' as int))
    } else {
        None
    }
}

/// The rank on which the side to move finds an en passant square.
pub open spec fn ep_rank(stm: int) -> int {
    if stm == 0 {
        5
    } else {
        2
    }
}

/// The pawn that falls to an en passant capture on `sq` by `stm`.
pub open spec fn ep_pawn(stm: int, sq: int) -> int {
    if stm == 0 {
        sq - 8
    } else {
        sq + 8
    }
}

/// The en passant square: it must be on the right rank and have the pawn to capture behind
/// it, and it counts only while a pawn of the side to move stands beside that pawn.
pub open spec fn en_passant(
    at: Seq<Option<Man>>,
    stm: int,
    word: Option<Seq<char>>,
) -> Result<int, Seq<char>> {
    match word {
        None => Ok(64),
        Some(x) => if x == seq!['-'] {
            Ok(64)
        } else {
            match square_named(x) {
                None => Err("en passant square '"@ + x + "' is not a square"@),
                Some(sq) => if rank_of(sq) != ep_rank(stm) {
                    Err(
                        "en passant square '"@ + x + "' is not on rank "@ + decimal(
                            (ep_rank(stm) + 1) as nat,
                        ),
                    )
                } else if at[ep_pawn(stm, sq)] != man(1 - stm, PAWN as int) {
                    Err("en passant square '"@ + x + "' with no pawn to capture"@)
                } else if Pos::pawn_beside(at, stm, ep_pawn(stm, sq)) {
                    Ok(sq)
                } else {
                    Ok(64)
                },
            }
        },
    }
}

/// The halfmove clock, zero when nothing is said.
pub open spec fn clock(word: Option<Seq<char>>) -> Result<int, Seq<char>> {
    match word {
        None => Ok(0),
        Some(x) => match bounded_number(x, 10, 255) {
            Some(n) => Ok(n as int),
            None => Err("halfmove clock '"@ + x + "' is not a number"@),
        },
    }
}

pub open spec fn word_at(w: Seq<Seq<char>>, i: int) -> Option<Seq<char>> {
    if i < w.len() {
        Some(w[i])
    } else {
        None
    }
}

/// The position that a text describes, or the first thing that is wrong with it.
pub open spec fn position_of(s: Seq<char>) -> Result<Pos, Seq<char>> {
    let w = words(s);
    let first = if w.len() > 0 {
        w[0]
    } else {
        Seq::<char>::empty()
    };
    match placement(first) {
        Err(e) => Err(e),
        Ok(at) => match (king_fault(at, 0), king_fault(at, 1), side(word_at(w, 1))) {
            (Some(e), _, _) => Err(e),
            (None, Some(e), _) => Err(e),
            (None, None, Err(e)) => Err(e),
            (None, None, Ok(stm)) => match (
                castling(at, word_at(w, 2)),
                en_passant(at, stm, word_at(w, 3)),
                clock(word_at(w, 4)),
            ) {
                (Err(e), _, _) => Err(e),
                (Ok(_), Err(e), _) => Err(e),
                (Ok(_), Ok(_), Err(e)) => Err(e),
                (Ok(rights), Ok(ep), Ok(halfmove)) => {
                    let p = Pos { at, stm, rights, ep, halfmove };
                    if p.in_check(1 - stm) {
                        Err("the side not to move is in check"@)
                    } else {
                        Ok(p)
                    }
                },
            },
        },
    }
}

// ---------------------------------------------------------------- reading: execution

fn rank_text(r: u32) -> (e: String)
    requires
        r < 8,
    ensures
        e@ == on_rank(r as int),
{
    let mut e = "rank ".to_owned();
    push_decimal(&mut e, (r + 1) as u128);
    e
}

fn letter_kind(ch: char) -> (k: usize)
    ensures
        match kind_of(ch) {
            Some(x) => k == x,
            None => k == 6,
        },
{
    match ch {
        'p' | 'P' => PAWN,
        'n' | 'N' => KNIGHT,
        'b' | 'B' => BISHOP,
        'r' | 'R' => ROOK,
        'q' | 'Q' => QUEEN,
        'k' | 'K' => KING,
        _ => 6,
    }
}

fn letter_color(ch: char) -> (c: usize)
    ensures
        c == color_of(ch),
{
    let n = ch as u32;
    if 'A' as u32 <= n && n <= 'Z' as u32 {
        WHITE
    } else {
        BLACK
    }
}

/// The men of `at` with rank `r` replaced by the first eight of `cells`.
spec fn rank_filled(at: Seq<Option<Man>>, r: int, cells: Seq<Option<Man>>) -> Seq<Option<Man>> {
    Seq::new(
        64,
        |q: int|
            if rank_of(q) == r && file_of(q) < cells.len() {
                cells[file_of(q)]
            } else {
                at[q]
            },
    )
}

/// Reads rank `r` into the board, which must be free there.
fn read_rank(b: &mut Board, r: u32, s: &Vec<char>) -> (res: Result<(), String>)
    requires
        old(b).wf(),
        r < 8,
        forall|q: int| is_square(q) && rank_of(q) == r ==> #[trigger] old(b)@.at[q] is None,
    ensures
        match res {
            Err(e) => rank_row(r as int, s@) == Err::<Seq<Option<Man>>, Seq<char>>(e@),
            Ok(_) => {
                &&& rank_row(r as int, s@) is Ok
                &&& final(b).wf()
                &&& final(b)@ == (Pos {
                    at: rank_filled(old(b)@.at, r as int, rank_row(r as int, s@)->Ok_0),
                    ..old(b)@
                })
            },
        },
{
    let ghost start = b@;
    let ghost mut cells = Seq::<Option<Man>>::empty();
    let len = s.len();
    let mut f: u128 = 0;
    let mut i: usize = 0;
    assert(s@.take(0) =~= Seq::<char>::empty());
    assert(rank_filled(start.at, r as int, cells) =~= start.at);
    while i < s.len()
        invariant
            r < 8,
            i <= s@.len(),
            len == s@.len(),
            b.wf(),
            start.at.len() == 64,
            forall|q: int| is_square(q) && rank_of(q) == r ==> #[trigger] start.at[q] is None,
            rank_cells(r as int, s@.take(i as int)) == Ok::<Seq<Option<Man>>, Seq<char>>(cells),
            f == cells.len(),
            f <= 8 * i,
            b@ == (Pos { at: rank_filled(start.at, r as int, cells), ..start }),
        decreases s@.len() - i,
    {
        let ch = s[i];
        assert(s@.take(i + 1).drop_last() =~= s@.take(i as int));
        assert(s@.take(i + 1).last() == ch);
        let ghost next = rank_cells(r as int, s@.take(i + 1));
        match value_of(ch, 10) {
            Some(n) => {
                if n == 0 || n > 8 {
                    let mut e = rank_text(r);
                    e.append(": '");
                    e.push(ch);
                    e.append("' is not a run of 1-8");
                    proof {
                        lemma_rank_error(r as int, s@, i + 1, e@);
                    }
                    return Err(e);
                }
                proof {
                    let more = cells + Seq::new(n as nat, |i: int| None::<Man>);
                    assert(rank_filled(start.at, r as int, more) =~= rank_filled(
                        start.at,
                        r as int,
                        cells,
                    ));
                    cells = more;
                }
                f = f + n as u128;
            },
            None => {
                let p = letter_kind(ch);
                if p == 6 {
                    let mut e = rank_text(r);
                    e.append(": '");
                    e.push(ch);
                    e.append("' is not a piece");
                    proof {
                        lemma_rank_error(r as int, s@, i + 1, e@);
                    }
                    return Err(e);
                }
                if f > 7 {
                    let mut e = rank_text(r);
                    e.append(" describes more than 8 squares");
                    proof {
                        lemma_rank_error(r as int, s@, i + 1, e@);
                    }
                    return Err(e);
                }
                if p == PAWN && (r == 0 || r == 7) {
                    let mut e = "a pawn on rank ".to_owned();
                    push_decimal(&mut e, (r + 1) as u128);
                    proof {
                        lemma_rank_error(r as int, s@, i + 1, e@);
                    }
                    return Err(e);
                }
                let color = letter_color(ch);
                let sq = r * 8 + f as u32;
                assert(b@.at[sq as int] is None);
                b.place(color, p, sq);
                proof {
                    let more = cells.push(man(color as int, p as int));
                    assert(b@.at =~= rank_filled(start.at, r as int, more));
                    cells = more;
                }
                f = f + 1;
            },
        }
        i = i + 1;
    }
    assert(s@.take(i as int) =~= s@);
    if f != 8 {
        let mut e = rank_text(r);
        e.append(" describes ");
        push_decimal(&mut e, f);
        e.append(" squares, expected 8");
        return Err(e);
    }
    Ok(())
}

/// The first fault of a rank is the fault of the rank.
proof fn lemma_rank_error(r: int, s: Seq<char>, n: int, e: Seq<char>)
    requires
        0 <= n <= s.len(),
        rank_cells(r, s.take(n)) == Err::<Seq<Option<Man>>, Seq<char>>(e),
    ensures
        rank_row(r, s) == Err::<Seq<Option<Man>>, Seq<char>>(e),
    decreases s.len() - n,
{
    if n < s.len() {
        assert(s.take(n + 1).drop_last() =~= s.take(n));
        lemma_rank_error(r, s, n + 1, e);
    } else {
        assert(s.take(n) =~= s);
    }
}

proof fn lemma_rows_error(ranks: Seq<Seq<char>>, n: int, e: Seq<char>)
    requires
        0 <= n <= ranks.len(),
        rank_rows(ranks.take(n)) == Err::<Seq<Seq<Option<Man>>>, Seq<char>>(e),
    ensures
        rank_rows(ranks) == Err::<Seq<Seq<Option<Man>>>, Seq<char>>(e),
    decreases ranks.len() - n,
{
    if n < ranks.len() {
        assert(ranks.take(n + 1).drop_last() =~= ranks.take(n));
        lemma_rows_error(ranks, n + 1, e);
    } else {
        assert(ranks.take(n) =~= ranks);
    }
}

/// The men of the first rows, with nothing on the ranks below.
spec fn laid_part(rows: Seq<Seq<Option<Man>>>) -> Seq<Option<Man>> {
    Seq::new(
        64,
        |q: int|
            if 7 - rank_of(q) < rows.len() {
                rows[7 - rank_of(q)][file_of(q)]
            } else {
                None
            },
    )
}

fn read_placement(s: &Vec<char>) -> (res: Result<Board, String>)
    ensures
        match res {
            Err(e) => placement(s@) == Err::<Seq<Option<Man>>, Seq<char>>(e@),
            Ok(b) => {
                &&& b.wf()
                &&& placement(s@) == Ok::<Seq<Option<Man>>, Seq<char>>(b@.at)
                &&& b@.stm == 0
                &&& b@.ep == 64
                &&& b@.halfmove == 0
                &&& b.castle == 0
            },
        },
{
    let ranks = split_at(s, '/');
    let ghost all = texts(ranks@);
    if ranks.len() != 8 {
        let mut e = "placement has ".to_owned();
        push_decimal(&mut e, ranks.len() as u128);
        e.append(" ranks, expected 8");
        return Err(e);
    }
    let mut b = Board::empty();
    let ghost mut rows = Seq::<Seq<Option<Man>>>::empty();
    let mut i: usize = 0;
    assert(all.take(0) =~= Seq::<Seq<char>>::empty());
    assert(b@.at =~= laid_part(rows));
    proof {
        lemma_grant(0);
    }
    while i < 8
        invariant
            i <= 8,
            ranks@.len() == 8,
            all == texts(ranks@),
            all == split(s@, just('/')),
            b.wf(),
            b@ == (Pos { at: laid_part(rows), ..b@ }),
            b@.stm == 0,
            b@.ep == 64,
            b@.halfmove == 0,
            b@.rights == rights_of(0),
            rows.len() == i,
            rank_rows(all.take(i as int)) == Ok::<Seq<Seq<Option<Man>>>, Seq<char>>(rows),
        decreases 8 - i,
    {
        let r: u32 = 7 - i as u32;
        assert(all.take(i + 1).drop_last() =~= all.take(i as int));
        assert(all.take(i + 1).last() == ranks@[i as int]@);
        match read_rank(&mut b, r, &ranks[i]) {
            Err(e) => {
                proof {
                    lemma_rows_error(all, i + 1, e@);
                }
                return Err(e);
            },
            Ok(_) => {},
        }
        proof {
            let row = rank_row(r as int, ranks@[i as int]@)->Ok_0;
            let more = rows.push(row);
            assert(b@.at =~= laid_part(more));
            rows = more;
        }
        i = i + 1;
    }
    assert(all.take(8) =~= all);
    assert(laid_part(rows) =~= laid_out(rows));
    proof {
        crate::board::lemma_rights_injective(b.castle, 0);
    }
    Ok(b)
}

proof fn lemma_men_count(b: &Board, c: int, k: int, bb: u64, n: int)
    requires
        b.wf(),
        0 <= c < 2,
        0 <= k < 6,
        bb == b.pieces@[k] & b.colors@[c],
        0 <= n <= 64,
    ensures
        men_count(b@.at, c, k, n) == count_below(bb, n),
    decreases n,
{
    if n > 0 {
        lemma_men_count(b, c, k, bb, n - 1);
        b.lemma_fields();
        let s = n - 1;
        assert(on(bb, s) == (on(b.pieces@[k], s) && on(b.colors@[c], s)));
        assert(is_square(s));
    }
}

/// How many men of colour `c` and kind `k` there are.
pub fn count_men(b: &Board, c: usize, k: usize) -> (n: u32)
    requires
        b.wf(),
        c < 2,
        k < 6,
    ensures
        n == men_count(b@.at, c as int, k as int, 64),
        n <= 64,
{
    proof {
        lemma_men_count(b, c as int, k as int, b.pieces@[k as int] & b.colors@[c as int], 64);
    }
    count(b.pieces[k] & b.colors[c])
}

fn kings_wrong(b: &Board, c: usize) -> (res: Option<String>)
    requires
        b.wf(),
        c < 2,
    ensures
        match res {
            Some(e) => king_fault(b@.at, c as int) == Some(e@),
            None => king_fault(b@.at, c as int) is None,
        },
{
    let n = count_men(b, c, KING);
    if n != 1 {
        let mut e = if c == WHITE {
            "white".to_owned()
        } else {
            "black".to_owned()
        };
        e.append(" has ");
        push_decimal(&mut e, n as u128);
        e.append(" kings, expected 1");
        Some(e)
    } else {
        None
    }
}

fn is_char(s: &Vec<char>, ch: char) -> (r: bool)
    ensures
        r == (s@ == seq![ch]),
{
    if s.len() == 1 && s[0] == ch {
        assert(s@ =~= seq![ch]);
        true
    } else {
        assert(s@.len() == 1 ==> s@[0] != ch);
        false
    }
}

/// The view of an optional word.
spec fn word_text(word: Option<&Vec<char>>) -> Option<Seq<char>> {
    match word {
        Some(w) => Some(w@),
        None => None,
    }
}

fn nth_word(w: &Vec<Vec<char>>, i: usize) -> (r: Option<&Vec<char>>)
    ensures
        word_text(r) == word_at(texts(w@), i as int),
{
    if i < w.len() {
        Some(&w[i])
    } else {
        None
    }
}

fn read_side(word: Option<&Vec<char>>) -> (res: Result<usize, String>)
    ensures
        match res {
            Err(e) => side(word_text(word)) == Err::<int, Seq<char>>(e@),
            Ok(c) => side(word_text(word)) == Ok::<int, Seq<char>>(c as int) && c < 2,
        },
{
    match word {
        None => Ok(WHITE),
        Some(x) => {
            if is_char(x, 'w') {
                Ok(WHITE)
            } else if is_char(x, 'b') {
                Ok(BLACK)
            } else {
                let mut e = "side to move is '".to_owned();
                push_all(&mut e, x);
                e.append("', expected w or b");
                Err(e)
            }
        },
    }
}

proof fn lemma_grant(castle: u8)
    requires
        castle < 16,
    ensures
        castle | 1u8 < 16,
        castle | 2u8 < 16,
        castle | 4u8 < 16,
        castle | 8u8 < 16,
        rights_of(castle | 1u8) == with_right(rights_of(castle), 0, true),
        rights_of(castle | 2u8) == with_right(rights_of(castle), 0, false),
        rights_of(castle | 4u8) == with_right(rights_of(castle), 1, true),
        rights_of(castle | 8u8) == with_right(rights_of(castle), 1, false),
        rights_of(0) == no_rights(),
{
    let x = castle;
    assert({
        &&& x | 1u8 < 16 && x | 2u8 < 16 && x | 4u8 < 16 && x | 8u8 < 16
        &&& (x | 1u8) & 1u8 != 0 && (x | 2u8) & 2u8 != 0 && (x | 4u8) & 4u8 != 0 && (x | 8u8) & 8u8
            != 0
        &&& (x | 1u8) & 2u8 == x & 2u8 && (x | 1u8) & 4u8 == x & 4u8 && (x | 1u8) & 8u8 == x & 8u8
        &&& (x | 2u8) & 1u8 == x & 1u8 && (x | 2u8) & 4u8 == x & 4u8 && (x | 2u8) & 8u8 == x & 8u8
        &&& (x | 4u8) & 1u8 == x & 1u8 && (x | 4u8) & 2u8 == x & 2u8 && (x | 4u8) & 8u8 == x & 8u8
        &&& (x | 8u8) & 1u8 == x & 1u8 && (x | 8u8) & 2u8 == x & 2u8 && (x | 8u8) & 4u8 == x & 4u8
        &&& 0u8 & 1u8 == 0 && 0u8 & 2u8 == 0 && 0u8 & 4u8 == 0 && 0u8 & 8u8 == 0
    }) by (bit_vector)
        requires
            x < 16,
    ;
}

impl Board {
    /// Whether a man of colour `c` and kind `k` stands on `sq`.
    pub(crate) fn stands(&self, c: usize, k: usize, sq: u32) -> (r: bool)
        requires
            self.wf(),
            c < 2,
            k < 6,
            sq < 64,
        ensures
            r == (self@.at[sq as int] == man(c as int, k as int)),
    {
        proof {
            self.lemma_fields();
            lemma_single_hit(self.pieces@[k as int] & self.colors@[c as int], sq);
            assert(is_square(sq as int));
            assert(on(self.pieces@[k as int], sq as int) == (self@.at[sq as int] is Some
                && self@.at[sq as int]->0.kind == k));
            assert(on(self.colors@[c as int], sq as int) == self@.owns(c as int, sq as int));
        }
        (self.pieces[k] & self.colors[c]) & (1u64 << sq) != 0
    }
}

proof fn lemma_rights_error(at: Seq<Option<Man>>, s: Seq<char>, n: int, e: Seq<char>)
    requires
        0 <= n <= s.len(),
        rights_named(at, s.take(n)) == Err::<Rights, Seq<char>>(e),
    ensures
        rights_named(at, s) == Err::<Rights, Seq<char>>(e),
    decreases s.len() - n,
{
    if n < s.len() {
        assert(s.take(n + 1).drop_last() =~= s.take(n));
        lemma_rights_error(at, s, n + 1, e);
    } else {
        assert(s.take(n) =~= s);
    }
}

fn read_rights(b: &Board, word: Option<&Vec<char>>) -> (res: Result<u8, String>)
    requires
        b.wf(),
    ensures
        match res {
            Err(e) => castling(b@.at, word_text(word)) == Err::<Rights, Seq<char>>(e@),
            Ok(castle) => castling(b@.at, word_text(word)) == Ok::<Rights, Seq<char>>(
                rights_of(castle),
            ) && castle < 16,
        },
{
    proof {
        lemma_grant(0);
    }
    let s = match word {
        None => {
            return Ok(0);
        },
        Some(s) => s,
    };
    if is_char(s, '-') {
        return Ok(0);
    }
    let mut castle: u8 = 0;
    let mut i: usize = 0;
    assert(s@.take(0) =~= Seq::<char>::empty());
    while i < s.len()
        invariant
            i <= s@.len(),
            b.wf(),
            castle < 16,
            word_text(word) == Some(s@),
            s@ != seq!['-'],
            rights_named(b@.at, s@.take(i as int)) == Ok::<Rights, Seq<char>>(rights_of(castle)),
        decreases s@.len() - i,
    {
        let ch = s[i];
        assert(s@.take(i + 1).drop_last() =~= s@.take(i as int));
        assert(s@.take(i + 1).last() == ch);
        proof {
            lemma_grant(castle);
        }
        let (bit, king, rook, side, kingside): (u8, u32, u32, usize, bool) = match ch {
            'K' => (1, 4, 7, WHITE, true),
            'Q' => (2, 4, 0, WHITE, false),
            'k' => (4, 60, 63, BLACK, true),
            'q' => (8, 60, 56, BLACK, false),
            _ => {
                let mut e = "'".to_owned();
                e.push(ch);
                e.append("' is not a castling right");
                proof {
                    lemma_rights_error(b@.at, s@, i + 1, e@);
                }
                return Err(e);
            },
        };
        if !b.stands(side, KING, king) || !b.stands(side, ROOK, rook) {
            let mut e = "claims ".to_owned();
            if side == WHITE {
                if kingside {
                    e.append("white kingside");
                } else {
                    e.append("white queenside");
                }
            } else {
                if kingside {
                    e.append("black kingside");
                } else {
                    e.append("black queenside");
                }
            }
            e.append(" castling, but the king or rook has moved");
            proof {
                lemma_rights_error(b@.at, s@, i + 1, e@);
            }
            return Err(e);
        }
        castle = castle | bit;
        i = i + 1;
    }
    assert(s@.take(i as int) =~= s@);
    Ok(castle)
}

fn code(c: char) -> (n: u32)
    ensures
        n == c as int,
{
    c as u32
}

fn ep_fault(x: &Vec<char>, what: &str) -> (e: String)
    ensures
        e@ == "en passant square '"@ + x@ + what@,
{
    let mut e = "en passant square '".to_owned();
    push_all(&mut e, x);
    e.append(what);
    e
}

fn read_ep(b: &Board, stm: usize, word: Option<&Vec<char>>) -> (res: Result<u8, String>)
    requires
        b.wf(),
        stm < 2,
    ensures
        match res {
            Err(e) => en_passant(b@.at, stm as int, word_text(word)) == Err::<int, Seq<char>>(e@),
            Ok(ep) => en_passant(b@.at, stm as int, word_text(word)) == Ok::<int, Seq<char>>(
                ep as int,
            ) && ep <= 64,
        },
{
    let x = match word {
        None => {
            return Ok(64);
        },
        Some(x) => x,
    };
    if is_char(x, '-') {
        return Ok(64);
    }
    if x.len() != 2 {
        return Err(ep_fault(x, "' is not a square"));
    }
    let f = code(x[0]);
    let k = code(x[1]);
    if f < 'a' as u32 || f > 'h' as u32 || k < '1' as u32 || k > '8' as u32 {
        return Err(ep_fault(x, "' is not a square"));
    }
    let sq: u32 = (k - '1' as u32) * 8 + (f - 'a' as u32);
    assert(square_named(x@) == Some(sq as int));
    let want: u32 = if stm == WHITE {
        5
    } else {
        2
    };
    if sq / 8 != want {
        let mut e = ep_fault(x, "' is not on rank ");
        push_decimal(&mut e, (want + 1) as u128);
        return Err(e);
    }
    let pawn: u32 = if stm == WHITE {
        sq - 8
    } else {
        sq + 8
    };
    if !b.stands(1 - stm, PAWN, pawn) {
        return Err(ep_fault(x, "' with no pawn to capture"));
    }
    if b.pawn_beside(stm, pawn) {
        Ok(sq as u8)
    } else {
        Ok(64)
    }
}

fn read_clock(word: Option<&Vec<char>>) -> (res: Result<u8, String>)
    ensures
        match res {
            Err(e) => clock(word_text(word)) == Err::<int, Seq<char>>(e@),
            Ok(n) => clock(word_text(word)) == Ok::<int, Seq<char>>(n as int),
        },
{
    let x = match word {
        None => {
            return Ok(0);
        },
        Some(x) => x,
    };
    match read_number(x, 10, 255) {
        Some(n) => Ok(n as u8),
        None => {
            let mut e = "halfmove clock '".to_owned();
            push_all(&mut e, x);
            e.append("' is not a number");
            Err(e)
        },
    }
}

/// A count of one means that there is one, and no other.
proof fn lemma_one_king(at: Seq<Option<Man>>, c: int, n: int)
    requires
        0 <= n <= 64,
    ensures
        men_count(at, c, KING as int, n) >= 0,
        men_count(at, c, KING as int, n) == 0 ==> forall|s: int|
            0 <= s < n ==> #[trigger] at[s] != man(c, KING as int),
        men_count(at, c, KING as int, n) == 1 ==> exists|s: int|
            0 <= s < n && #[trigger] at[s] == man(c, KING as int) && forall|u: int|
                0 <= u < n && #[trigger] at[u] == man(c, KING as int) ==> u == s,
    decreases n,
{
    if n > 0 {
        lemma_one_king(at, c, n - 1);
        if men_count(at, c, KING as int, n) == 1 {
            if at[n - 1] == man(c, KING as int) {
                assert(forall|u: int|
                    0 <= u < n && #[trigger] at[u] == man(c, KING as int) ==> u == n - 1);
            } else {
                let s = choose|s: int|
                    0 <= s < n - 1 && #[trigger] at[s] == man(c, KING as int) && forall|u: int|
                        0 <= u < n - 1 && #[trigger] at[u] == man(c, KING as int) ==> u == s;
                assert(at[s] == man(c, KING as int));
                assert(forall|u: int|
                    0 <= u < n && #[trigger] at[u] == man(c, KING as int) ==> u == s);
            }
        }
    }
}

/// A position without a fault in its kings has one king of each colour.
pub proof fn lemma_kings_counted(p: Pos, c: int)
    requires
        king_fault(p.at, c) is None,
    ensures
        p.one_king(c),
        p.has_king(c),
{
    lemma_one_king(p.at, c, 64);
    let s = choose|s: int|
        0 <= s < 64 && #[trigger] p.at[s] == man(c, KING as int) && forall|u: int|
            0 <= u < 64 && #[trigger] p.at[u] == man(c, KING as int) ==> u == s;
    assert(p.is_only_king(c, s));
}

/// Whether `res` is what reading `fen` gives: a well-formed board in its position, or the
/// words of what is wrong.
pub open spec fn is_read(fen: Seq<char>, res: Result<Board, String>) -> bool {
    match res {
        Ok(b) => b.wf() && position_of(fen) == Ok::<Pos, Seq<char>>(b@),
        Err(e) => position_of(fen) == Err::<Pos, Seq<char>>(e@),
    }
}

/// A text reads in one way: what is accepted once is accepted always, and as the same board.
/// So a text that [`Board::try_from_fen`] accepts is one that [`Board::from_fen`] can be asked
/// to read, and it gives that board; and one that the first refuses, the second is not given.
pub proof fn law_a_text_reads_in_one_way(
    fen: Seq<char>,
    x: Result<Board, String>,
    y: Result<Board, String>,
)
    requires
        is_read(fen, x),
        is_read(fen, y),
    ensures
        x is Ok <==> position_of(fen) is Ok,
        x is Ok <==> y is Ok,
        x is Ok ==> x->Ok_0 == y->Ok_0,
        x is Err ==> x->Err_0@ == y->Err_0@,
{
    if x is Ok {
        Board::lemma_view_injective(&x->Ok_0, &y->Ok_0);
    }
}

impl Board {
    /// Reads a position, refusing a text that does not describe a real one. Material, for
    /// one, is not policed: an odd but playable position is accepted.
    pub fn try_from_fen(t: &Tables, fen: &str) -> (res: Result<Board, String>)
        requires
            t.wf(),
        ensures
            is_read(fen@, res),
    {
        let w = split_words(&chars(fen));
        let none: Vec<char> = Vec::new();
        assert(none@ =~= Seq::<char>::empty());
        let first = if w.len() > 0 {
            &w[0]
        } else {
            &none
        };
        let mut b = match read_placement(first) {
            Err(e) => {
                return Err(e);
            },
            Ok(b) => b,
        };
        let ghost at = b@.at;
        match kings_wrong(&b, WHITE) {
            Some(e) => {
                return Err(e);
            },
            None => {},
        }
        match kings_wrong(&b, BLACK) {
            Some(e) => {
                return Err(e);
            },
            None => {},
        }
        let stm = match read_side(nth_word(&w, 1)) {
            Err(e) => {
                return Err(e);
            },
            Ok(c) => c,
        };
        let castle = match read_rights(&b, nth_word(&w, 2)) {
            Err(e) => {
                return Err(e);
            },
            Ok(r) => r,
        };
        let ep = match read_ep(&b, stm, nth_word(&w, 3)) {
            Err(e) => {
                return Err(e);
            },
            Ok(sq) => sq,
        };
        let halfmove = match read_clock(nth_word(&w, 4)) {
            Err(e) => {
                return Err(e);
            },
            Ok(n) => n,
        };
        b.stm = stm;
        b.castle = castle;
        b.ep = ep;
        b.halfmove = halfmove;
        assert(b@.at =~= at);
        proof {
            lemma_kings_counted(b@, 0);
            lemma_kings_counted(b@, 1);
        }
        if b.in_check(t, 1 - stm) {
            return Err("the side not to move is in check".to_owned());
        }
        Ok(b)
    }

    /// Reads a position that is known to be good: a literal, or a text that was checked on
    /// the way in.
    pub fn from_fen(t: &Tables, fen: &str) -> (b: Board)
        requires
            t.wf(),
            position_of(fen@) is Ok,
        ensures
            b.wf(),
            position_of(fen@) == Ok::<Pos, Seq<char>>(b@),
            is_read(fen@, Ok::<Board, String>(b)),
    {
        match Board::try_from_fen(t, fen) {
            Ok(b) => b,
            Err(_) => Board::empty(),
        }
    }
}

} // verus!
