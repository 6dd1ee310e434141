//! Trying a move on a legal position and taking it back.
//!
//! The predicates here stand for conditions that are long when written out; they are kept
//! folded so that the loops that try moves stay small.
use vstd::prelude::*;

use crate::board::{Board, Undo};
use crate::ordering::{best_first, lemma_best_first_contains};
use crate::position::Pos;
use crate::search::weight;
use crate::tables::Tables;

verus! {

/// A legal position, kept folded.
#[verifier::opaque]
pub open spec fn fair(p: Pos) -> bool {
    p.legal_position()
}

/// A pseudo-legal move, kept folded; with `caps` a capture or a promotion.
#[verifier::opaque]
pub open spec fn candidate(p: Pos, m: u16, caps: bool) -> bool {
    p.pseudo_legal(m) && (caps ==> p.forcing(m))
}

/// A legal move, kept folded.
#[verifier::opaque]
pub open spec fn open_move(p: Pos, m: u16) -> bool {
    p.legal(m) && candidate(p, m, false) && m != 0
}

/// A legal move is not the empty word.
pub proof fn lemma_move_not_zero(p: Pos, m: u16)
    requires
        p.pseudo_legal(m),
    ensures
        m != 0,
{
}

pub proof fn lemma_open_legal(p: Pos, m: u16)
    requires
        p.legal(m),
    ensures
        open_move(p, m),
{
    reveal(open_move);
    reveal(candidate);
    lemma_move_not_zero(p, m);
}

pub proof fn lemma_open_move(p: Pos, m: u16)
    requires
        open_move(p, m),
    ensures
        m != 0,
{
    reveal(open_move);
}

pub proof fn lemma_safe_move(p: Pos, m: u16)
    requires
        open_move(p, m),
    ensures
        p.keeps_king_safe(m),
        candidate(p, m, false),
{
    reveal(open_move);
}

/// What is generated and ordered is what can be tried.
pub proof fn lemma_candidate(p: Pos, all: Seq<u16>, moves: Seq<u16>, j: int, caps: bool)
    requires
        p.movable(),
        all == p.generated(caps),
        moves == best_first(all, |m: u16| p.promise(m)),
        0 <= j < moves.len(),
    ensures
        candidate(p, moves[j], caps),
{
    reveal(candidate);
    let m = moves[j];
    assert(moves.contains(m));
    lemma_best_first_contains(all, |m: u16| p.promise(m), m);
    p.lemma_kings_home();
    p.law_generated_is_pseudo_legal(caps, m);
}

/// What is generated in a legal position can be tried, and is not the empty word.
pub proof fn lemma_fair_moves(p: Pos)
    requires
        fair(p),
    ensures
        p.pawns_can_push(),
        forall|j: int|
            0 <= j < p.generated(false).len() ==> candidate(
                p,
                #[trigger] p.generated(false)[j],
                false,
            ) && p.generated(false)[j] != 0,
{
    reveal(fair);
    reveal(candidate);
    p.lemma_sound();
    let all = p.generated(false);
    assert forall|j: int| 0 <= j < all.len() implies candidate(p, #[trigger] all[j], false)
        && all[j] != 0 by {
        assert(all.contains(all[j]));
        p.law_generated_is_pseudo_legal(false, all[j]);
    }
}

/// Makes `m` if it is legal.
pub(crate) fn try_move(t: &Tables, b: &mut Board, m: u16, caps: Ghost<bool>) -> (r: Option<Undo>)
    requires
        t.wf(),
        old(b).wf(),
        fair(old(b)@),
        candidate(old(b)@, m, caps@),
    ensures
        match r {
            None => *final(b) == *old(b) && !old(b)@.keeps_king_safe(m),
            Some(u) => {
                &&& pending(*old(b), m, u)
                &&& old(b)@.keeps_king_safe(m)
                &&& old(b)@.legal(m)
                &&& final(b).wf()
                &&& final(b)@ == old(b)@.after(m)
                &&& fair(final(b)@)
                &&& caps@ ==> weight(final(b)@.at, 64) < weight(old(b)@.at, 64)
            },
        },
{
    let ghost start = *b;
    let ghost p = b@;
    proof {
        reveal(fair);
        reveal(candidate);
        reveal(pending);
        p.lemma_sound();
        p.law_pseudo_legal_is_playable(m);
    }
    let u = b.make(m);
    if b.in_check(t, 1 - b.stm) {
        b.unmake(m, u);
        proof {
            Board::lemma_view_injective(b, &start);
        }
        None
    } else {
        proof {
            p.lemma_legal_step(m);
            if caps@ {
                p.lemma_weight_drops(m);
            }
        }
        Some(u)
    }
}

/// `u` is what taking `m` back to the board `start` needs.
#[verifier::opaque]
pub open spec fn pending(start: Board, m: u16, u: Undo) -> bool {
    &&& start.wf()
    &&& u.wf()
    &&& u@ == start@.lost(m)
    &&& start@.after(m).undoable(m, u@)
    &&& start@.after(m).before(m, u@) == start@
}

/// Takes `m` back.
pub(crate) fn take_back(b: &mut Board, m: u16, u: Undo, start: Ghost<Board>)
    requires
        old(b).wf(),
        old(b)@ == start@@.after(m),
        pending(start@, m, u),
    ensures
        *final(b) == start@,
{
    reveal(pending);
    b.unmake(m, u);
    proof {
        Board::lemma_view_injective(b, &start@);
    }
}

} // verus!
