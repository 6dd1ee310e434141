//! What a search is worth, said over the legal moves themselves: whichever side is to move,
//! whatever the order in which moves are tried.
use vstd::prelude::*;

use crate::geometry::is_square;
use crate::position::{man, Man, Pos};

verus! {

proof fn lemma_king_stands(p: Pos, k: int)
    requires
        p.legal_position(),
        is_square(k),
        p.at[k] == Some(Man { color: p.stm, kind: 5 }),
    ensures
        p.king_square(p.stm) == k,
{
    let u = choose|u: int| p.is_only_king(p.stm, u);
    p.lemma_only_king(p.stm, u);
    assert(p.at[k] == man(p.stm, 5));
}

pub proof fn lemma_no_moves(p: Pos)
    requires
        p.legal_position(),
    ensures
        p.legal_list().len() == 0 <==> forall|m: u16| !p.legal(m),
{
    p.lemma_sound();
    if p.legal_list().len() > 0 {
        let m = p.legal_list()[0];
        assert(p.legal_list().contains(m));
        p.law_legal_list_is_legal(m);
    } else {
        assert forall|m: u16| !p.legal(m) by {
            p.law_legal_list_is_legal(m);
        }
    }
}

/// A side with no legal move whose king on `k` is attacked by a man on `s` is mated, White as
/// much as Black, however deep the search still goes: it loses by thirty thousand, less what
/// the plies played so far make up for.
pub proof fn law_a_mated_side_loses(p: Pos, k: int, s: int, depth: int, ply: int)
    requires
        p.legal_position(),
        depth > 0,
        forall|m: u16| !p.legal(m),
        is_square(k),
        p.at[k] == Some(Man { color: p.stm, kind: 5 }),
        is_square(s),
        p.at[s] is Some,
        p.at[s]->0.color == 1 - p.stm,
        p.attacks(1 - p.stm, p.at[s]->0.kind, s, k),
    ensures
        p.deep_value(depth, ply) == -30000 + ply,
{
    lemma_no_moves(p);
    lemma_king_stands(p, k);
    assert(p.attacked_from(k, 1 - p.stm, s));
}

/// A side with no legal move whose king nobody attacks is worth nothing.
pub proof fn law_a_stalemated_side_draws(p: Pos, k: int, depth: int, ply: int)
    requires
        p.legal_position(),
        depth > 0,
        forall|m: u16| !p.legal(m),
        is_square(k),
        p.at[k] == Some(Man { color: p.stm, kind: 5 }),
        forall|s: int|
            is_square(s) && (#[trigger] p.at[s]) is Some && p.at[s]->0.color == 1 - p.stm
                ==> !p.attacks(1 - p.stm, p.at[s]->0.kind, s, k),
    ensures
        p.deep_value(depth, ply) == 0,
{
    lemma_no_moves(p);
    lemma_king_stands(p, k);
    assert forall|s: int| !#[trigger] p.attacked_from(k, 1 - p.stm, s) by {
        if is_square(s) {
            let cell = p.at[s];
        }
    }
}

/// A side with a legal move is worth what its best one leaves it: no legal move leaves it more,
/// and one leaves it as much. What a move leaves a side is the opposite of what the other side
/// then has, one ply further on and looked at one ply less deep.
pub proof fn law_the_best_legal_move_counts(p: Pos, depth: int, ply: int)
    requires
        p.legal_position(),
        depth > 0,
        exists|m: u16| p.legal(m),
    ensures
        forall|m: u16| #[trigger]
            p.legal(m) ==> p.deep_value(depth, ply) >= -p.after(m).deep_value(depth - 1, ply + 1),
        exists|m: u16| #[trigger]
            p.legal(m) && p.deep_value(depth, ply) == -p.after(m).deep_value(depth - 1, ply + 1),
{
    let n = p.legal_list().len() as int;
    lemma_no_moves(p);
    p.lemma_sound();
    p.lemma_deep_best(depth, ply, n);
    assert forall|m: u16| #[trigger] p.legal(m) implies p.deep_value(depth, ply) >= -p.after(
        m,
    ).deep_value(depth - 1, ply + 1) by {
        p.law_legal_list_is_legal(m);
        let j = choose|j: int| 0 <= j < n && p.legal_list()[j] == m;
        assert(-p.after(p.legal_list()[j]).deep_value(depth - 1, ply + 1) <= p.deep_best(
            depth,
            ply,
            n,
        ));
    }
    let j = choose|j: int|
        0 <= j < n && p.deep_best(depth, ply, n) == -p.after(
            #[trigger] p.legal_list()[j],
        ).deep_value(depth - 1, ply + 1);
    p.lemma_legal_at(j);
}

/// With no depth left, a position is worth what stopping brings or what the best of its legal
/// captures and promotions leaves, whichever is more. Captures, en passant among them, and
/// promotions are the moves whose kind is four or more.
pub proof fn law_stop_or_take(p: Pos, depth: int, ply: int)
    requires
        p.legal_position(),
    ensures
        depth <= 0 ==> p.deep_value(depth, ply) == p.quiet_value(),
        p.quiet_value() >= p.eval(),
        forall|m: u16|
            #[trigger] p.legal(m) && m as int / 4096 >= 4 ==> p.quiet_value() >= -p.after(
                m,
            ).quiet_value(),
        p.quiet_value() == p.eval() || exists|m: u16|
            #[trigger] p.legal(m) && m as int / 4096 >= 4 && p.quiet_value() == -p.after(
                m,
            ).quiet_value(),
{
    let n = p.legal_caps().len() as int;
    p.lemma_sound();
    p.lemma_quiet_best(n);
    assert forall|m: u16|
        #[trigger] p.legal(m) && m as int / 4096 >= 4 implies p.quiet_value() >= -p.after(
        m,
    ).quiet_value() by {
        p.lemma_legal_caps(m);
        let j = choose|j: int| 0 <= j < n && p.legal_caps()[j] == m;
        assert(-p.after(p.legal_caps()[j]).quiet_value() <= p.quiet_best(n));
    }
    if p.quiet_value() != p.eval() {
        let j = choose|j: int|
            0 <= j < n && p.quiet_best(n) == -p.after(#[trigger] p.legal_caps()[j]).quiet_value();
        let m = p.legal_caps()[j];
        assert(p.legal_caps().contains(m));
        p.lemma_legal_caps(m);
        assert(p.legal(m) && m as int / 4096 >= 4);
    }
}

/// A legal move that mates is as good as a move can be at its ply: looked at two plies deep or
/// deeper, its side wins by thirty thousand less the plies that it takes.
pub proof fn law_a_mating_move_wins(p: Pos, m: u16, k: int, s: int, depth: int, ply: int)
    requires
        p.legal_position(),
        p.legal(m),
        depth > 1,
        forall|n: u16| !p.after(m).legal(n),
        is_square(k),
        p.after(m).at[k] == Some(Man { color: 1 - p.stm, kind: 5 }),
        is_square(s),
        p.after(m).at[s] is Some,
        p.after(m).at[s]->0.color == p.stm,
        p.after(m).attacks(p.stm, p.after(m).at[s]->0.kind, s, k),
    ensures
        p.deep_value(depth, ply) >= 30000 - (ply + 1),
{
    p.lemma_legal_step(m);
    law_a_mated_side_loses(p.after(m), k, s, depth - 1, ply + 1);
    law_the_best_legal_move_counts(p, depth, ply);
}

} // verus!
