//! Why a history may forget what lies before a capture or a pawn move.
use vstd::prelude::*;

use crate::geometry::rank_of;
use crate::moves::{flag_of, from_of, to_of, F_EP, PAWN, ROOK};
use crate::notation::{law_legal_line_stays_legal, legal_at, legal_line, played};
use crate::position::{castles, man, rook_from, rook_to, Man, Pos};

verus! {

/// What a man can still lose: itself, and for a pawn the ranks it has yet to cross.
pub open spec fn weight(m: Option<Man>, s: int) -> int {
    match m {
        None => 0,
        Some(x) => if x.kind != PAWN {
            9
        } else if x.color == 0 {
            16 - rank_of(s)
        } else {
            9 + rank_of(s)
        },
    }
}

/// What all men together can still lose.
pub open spec fn burden(at: Seq<Option<Man>>) -> int
    decreases at.len(),
{
    if at.len() == 0 {
        0
    } else {
        burden(at.drop_last()) + weight(at.last(), at.len() - 1)
    }
}

proof fn lemma_burden_update(at: Seq<Option<Man>>, s: int, m: Option<Man>)
    requires
        0 <= s < at.len(),
    ensures
        burden(at.update(s, m)) == burden(at) - weight(at[s], s) + weight(m, s),
    decreases at.len(),
{
    let new = at.update(s, m);
    if s == at.len() - 1 {
        assert(new.drop_last() =~= at.drop_last());
    } else {
        lemma_burden_update(at.drop_last(), s, m);
        assert(new.drop_last() =~= at.drop_last().update(s, m));
    }
}

/// A capture or a pawn move loses something for good; no other move changes the burden.
proof fn lemma_burden_after(p: Pos, m: u16)
    requires
        p.movable(),
        p.pseudo_legal(m),
    ensures
        p.after(m).halfmove == 0 ==> burden(p.after(m).at) < burden(p.at),
        p.after(m).halfmove != 0 ==> burden(p.after(m).at) == burden(p.at),
{
    p.law_pseudo_legal_is_playable(m);
    assert(p.may_castle(p.stm, true) || !p.may_castle(p.stm, true));
    assert(p.may_castle(p.stm, false) || !p.may_castle(p.stm, false));
    let from = from_of(m);
    let to = to_of(m);
    let victim = p.ep_victim(to);
    let cleared = if flag_of(m) == F_EP {
        p.at.update(victim, None)
    } else {
        p.at
    };
    if flag_of(m) == F_EP {
        lemma_burden_update(p.at, victim, None);
    }
    let lifted = cleared.update(from, None);
    lemma_burden_update(cleared, from, None);
    let moved = lifted.update(to, Some(p.landed(m)));
    lemma_burden_update(lifted, to, Some(p.landed(m)));
    if castles(m) {
        let gone = moved.update(rook_from(p.stm, m), None);
        lemma_burden_update(moved, rook_from(p.stm, m), None);
        lemma_burden_update(
            gone,
            rook_to(p.stm, m),
            man(p.stm, ROOK as int),
        );
    }
}

/// The burden never grows along a legal line, and is less after a capture or a pawn move.
proof fn lemma_burden_falls(p: Pos, moves: Seq<u16>, i: int, k: int)
    requires
        p.legal_position(),
        legal_line(p, moves),
        0 <= i <= k <= moves.len(),
    ensures
        burden(played(p, moves, k).at) <= burden(played(p, moves, i).at),
        i < k && played(p, moves, k).halfmove == 0 ==> burden(played(p, moves, k).at) < burden(
            played(p, moves, i).at,
        ),
    decreases k,
{
    if i < k {
        lemma_burden_falls(p, moves, i, k - 1);
        law_legal_line_stays_legal(p, moves, k - 1);
        let q = played(p, moves, k - 1);
        q.lemma_sound();
        assert(legal_at(p, moves, k - 1));
        lemma_burden_after(q, moves[k - 1]);
    }
}

/// No position before a capture or a pawn move recurs after it: the men never again stand
/// as they did.
pub proof fn law_nothing_recurs_across_an_irreversible_move(
    p: Pos,
    moves: Seq<u16>,
    i: int,
    j: int,
    k: int,
)
    requires
        p.legal_position(),
        legal_line(p, moves),
        0 <= i < j <= k <= moves.len(),
        played(p, moves, j).halfmove == 0,
    ensures
        played(p, moves, k).at != played(p, moves, i).at,
{
    lemma_burden_falls(p, moves, i, j);
    lemma_burden_falls(p, moves, j, k);
}

proof fn lemma_clock_counts(p: Pos, moves: Seq<u16>, n: int, d: int)
    requires
        0 <= d <= n <= moves.len(),
        d <= played(p, moves, n).halfmove < 255,
    ensures
        played(p, moves, n - d).halfmove == played(p, moves, n).halfmove - d,
    decreases d,
{
    if d > 0 {
        lemma_clock_counts(p, moves, n, d - 1);
        let q = played(p, moves, n - d);
        assert(played(p, moves, n - d + 1) == q.after(moves[n - d]));
    }
}

/// A position from further back than the halfmove clock has counted cannot be the one on
/// the board, so that counting repetitions within the recent history misses none.
pub proof fn law_recent_history_misses_no_repetition(p: Pos, moves: Seq<u16>, i: int)
    requires
        p.legal_position(),
        legal_line(p, moves),
        played(p, moves, moves.len() as int).halfmove < 255,
        0 <= i < moves.len() - played(p, moves, moves.len() as int).halfmove,
    ensures
        played(p, moves, i).at != played(p, moves, moves.len() as int).at,
{
    let n = moves.len() as int;
    let h = played(p, moves, n).halfmove;
    law_legal_line_stays_legal(p, moves, n);
    lemma_clock_counts(p, moves, n, h);
    law_nothing_recurs_across_an_irreversible_move(p, moves, i, n - h, n);
}

} // verus!
