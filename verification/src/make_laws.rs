//! What a move does to the board, square by square, read off the bits of its word: the low six
//! bits are the square it leaves, the next six the square it reaches, and the top four say
//! what kind of move it is.
use vstd::prelude::*;

use crate::geometry::is_square;
use crate::position::{Man, Pos};

verus! {

/// How many men stand on the squares below `n`.
pub open spec fn census(at: Seq<Option<Man>>, n: int) -> int
    decreases n,
{
    if n <= 0 {
        0
    } else {
        census(at, n - 1) + if at[n - 1] is Some {
            1int
        } else {
            0
        }
    }
}

proof fn lemma_census_update(at: Seq<Option<Man>>, s: int, x: Option<Man>, n: int)
    requires
        0 <= s < at.len(),
        0 <= n <= at.len(),
    ensures
        census(at.update(s, x), n) == census(at, n) + if s < n {
            (if x is Some {
                1int
            } else {
                0
            }) - (if at[s] is Some {
                1int
            } else {
                0
            })
        } else {
            0
        },
    decreases n,
{
    if n > 0 {
        lemma_census_update(at, s, x, n - 1);
    }
}

/// A promotion puts on the board the piece that the move names, a knight, a bishop, a rook or
/// a queen, of the colour that moved, whichever colour that is.
pub proof fn law_promotion_lands_the_piece_it_names(p: Pos, m: u16)
    requires
        p.wf(),
        p.playable(m),
        m as int / 4096 >= 8,
    ensures
        ({
            let there = p.after(m).at[m as int / 64 % 64];
            &&& there is Some
            &&& there->0.color == p.stm
            &&& m as int / 4096 == 8 || m as int / 4096 == 12 ==> there->0.kind == 1
            &&& m as int / 4096 == 9 || m as int / 4096 == 13 ==> there->0.kind == 2
            &&& m as int / 4096 == 10 || m as int / 4096 == 14 ==> there->0.kind == 3
            &&& m as int / 4096 == 11 || m as int / 4096 == 15 ==> there->0.kind == 4
        }),
{
}

/// Promotions of one pawn to different pieces lead to different positions, wherever the pawn
/// goes.
pub proof fn law_different_promotions_lead_to_different_positions(p: Pos, a: u16, b: u16)
    requires
        p.wf(),
        p.playable(a),
        p.playable(b),
        a as int / 4096 >= 8,
        b as int / 4096 >= 8,
        a as int / 4096 % 4 != b as int / 4096 % 4,
    ensures
        p.after(a).at != p.after(b).at,
        p.after(a) != p.after(b),
{
    let x = a as int / 64 % 64;
    let y = b as int / 64 % 64;
    if p.after(a).at == p.after(b).at {
        assert(p.after(a).at[x] == p.after(b).at[x]);
        assert(p.after(a).at[y] == p.after(b).at[y]);
        let f = a as int % 64;
        let g = b as int % 64;
        assert(p.after(a).at[f] is None);
        assert(p.after(b).at[g] is None);
        if x != y {
            // What stands on `x` after `b` stood there before, but `a` may not take its own.
            assert(p.after(b).at[x] == p.at[x]);
            assert(p.at[x] is Some && p.at[x]->0.color == p.stm);
        }
    }
}

/// Any other move takes a man as it is from one square to the other, and leaves the square it
/// came from free.
pub proof fn law_a_man_moves_as_it_is(p: Pos, m: u16)
    requires
        p.wf(),
        p.playable(m),
    ensures
        m as int / 4096 < 8 ==> p.after(m).at[m as int / 64 % 64] == p.at[m as int % 64],
        p.after(m).at[m as int % 64] is None,
        p.after(m).at.len() == 64,
{
}

/// No other square changes: but for the pawn that falls en passant beside the square it came
/// from, and the rook that castling takes over the king.
pub proof fn law_a_move_touches_nothing_else(p: Pos, m: u16, s: int)
    requires
        p.wf(),
        p.playable(m),
        0 <= s < 64,
        s != m as int % 64,
        s != m as int / 64 % 64,
    ensures
        m as int / 4096 == 5 && p.stm == 0 && s == m as int / 64 % 64 - 8 ==> p.after(m).at[s]
            is None,
        m as int / 4096 == 5 && p.stm == 1 && s == m as int / 64 % 64 + 8 ==> p.after(m).at[s]
            is None,
        m as int / 4096 == 2 && s == 56 * p.stm + 7 ==> p.after(m).at[s] is None,
        m as int / 4096 == 3 && s == 56 * p.stm ==> p.after(m).at[s] is None,
        m as int / 4096 == 2 && s == 56 * p.stm + 5 ==> p.after(m).at[s] == Some(
            Man { color: p.stm, kind: 3 },
        ),
        m as int / 4096 == 3 && s == 56 * p.stm + 3 ==> p.after(m).at[s] == Some(
            Man { color: p.stm, kind: 3 },
        ),
        p.after(m).at[s] == p.at[s] || (m as int / 4096 == 5 && s == m as int / 64 % 64 - 8 + 16
            * p.stm) || (m as int / 4096 == 2 && (s == 56 * p.stm + 7 || s == 56 * p.stm + 5)) || (
        m as int / 4096 == 3 && (s == 56 * p.stm || s == 56 * p.stm + 3)),
{
}

/// The other side is to move.
pub proof fn law_sides_take_turns(p: Pos, m: u16)
    ensures
        p.after(m).stm + p.stm == 1,
{
}

/// A capture takes one man off the board, and nothing else does; no man comes onto it. The
/// clock stands at nothing exactly after a capture or the move of a pawn, and otherwise counts
/// on as far as it goes.
pub proof fn law_a_capture_costs_one_man_and_resets_the_clock(p: Pos, m: u16)
    requires
        p.wf(),
        p.playable(m),
    ensures
        census(p.after(m).at, 64) == census(p.at, 64) - if m as int / 4096 == 5
            || p.at[m as int / 64 % 64] is Some {
            1int
        } else {
            0
        },
        census(p.after(m).at, 64) < census(p.at, 64) || p.at[m as int % 64]->0.kind == 0
            ==> p.after(m).halfmove == 0,
        census(p.after(m).at, 64) == census(p.at, 64) && p.at[m as int % 64]->0.kind != 0
            ==> p.after(m).halfmove == if p.halfmove == 255 {
            255
        } else {
            p.halfmove + 1
        },
{
    let from = m as int % 64;
    let to = m as int / 64 % 64;
    let flag = m as int / 4096;
    let cleared = if flag == 5 {
        p.at.update(p.ep_victim(to), None)
    } else {
        p.at
    };
    if flag == 5 {
        lemma_census_update(p.at, p.ep_victim(to), None, 64);
    }
    let lifted = cleared.update(from, None);
    lemma_census_update(cleared, from, None, 64);
    let moved = lifted.update(to, Some(p.landed(m)));
    lemma_census_update(lifted, to, Some(p.landed(m)), 64);
    if flag == 2 || flag == 3 {
        let out = if flag == 2 {
            56 * p.stm + 7
        } else {
            56 * p.stm
        };
        let gone = moved.update(out, None);
        lemma_census_update(moved, out, None, 64);
        let back = if flag == 2 {
            56 * p.stm + 5
        } else {
            56 * p.stm + 3
        };
        lemma_census_update(gone, back, Some(Man { color: p.stm, kind: 3 }), 64);
    }
}

/// A castling right survives exactly the moves that neither leave nor reach the home squares
/// of its king and its rook.
pub proof fn law_rights_go_with_the_king_and_the_rook(p: Pos, m: u16)
    ensures
        ({
            let from = m as int % 64;
            let to = m as int / 64 % 64;
            let q = p.after(m).rights;
            &&& q.wk <==> p.rights.wk && from != 4 && to != 4 && from != 7 && to != 7
            &&& q.wq <==> p.rights.wq && from != 4 && to != 4 && from != 0 && to != 0
            &&& q.bk <==> p.rights.bk && from != 60 && to != 60 && from != 63 && to != 63
            &&& q.bq <==> p.rights.bq && from != 60 && to != 60 && from != 56 && to != 56
        }),
{
}

/// An en passant square is recorded exactly after a double push past a pawn that could take
/// there: a pawn of the other side on the same rank as the pawn that was pushed and on the file
/// next to it. It is the square between the two ends of the push.
pub proof fn law_en_passant_is_recorded_when_a_pawn_can_take(p: Pos, m: u16)
    requires
        p.movable(),
        p.pseudo_legal(m),
    ensures
        p.after(m).ep == 64 || 2 * p.after(m).ep == m as int % 64 + m as int / 64 % 64,
        p.after(m).ep != 64 <==> m as int / 4096 == 1 && exists|s: int|
            0 <= s < 64 && s / 8 == (m as int / 64 % 64) / 8 && (s == m as int / 64 % 64 + 1 || s
                == m as int / 64 % 64 - 1) && #[trigger] p.after(m).at[s] == Some(
                Man { color: 1 - p.stm, kind: 0 },
            ),
{
    let to = m as int / 64 % 64;
    let foe = Some(Man { color: 1 - p.stm, kind: 0 });
    if m as int / 4096 == 1 {
        assert(is_square(p.push(m as int % 64)));
        if to % 8 > 0 && p.after(m).at[to - 1] == foe {
            assert((to - 1) / 8 == to / 8);
        }
        if to % 8 < 7 && p.after(m).at[to + 1] == foe {
            assert((to + 1) / 8 == to / 8);
        }
        if exists|s: int|
            0 <= s < 64 && s / 8 == to / 8 && (s == to + 1 || s == to - 1)
                && #[trigger] p.after(m).at[s] == foe {
            let s = choose|s: int|
                0 <= s < 64 && s / 8 == to / 8 && (s == to + 1 || s == to - 1)
                    && #[trigger] p.after(m).at[s] == foe;
            assert(p.after(m).at[s] == foe);
        }
    }
}

} // verus!
