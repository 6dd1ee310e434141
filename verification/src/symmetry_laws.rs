//! The two sides are alike: a position seen from the other side of the board, with the colours
//! exchanged, has the same moves and the same value.
use vstd::prelude::*;

use crate::evaluation::{law_eval_is_symmetric, mirrored};
use crate::geometry::is_square;
use crate::movement_laws::{law_men_attack, on_the_way, squared, way_clear};
use crate::moves::{encode, law_move_word_round_trip};
use crate::position::{man, rook_from, rook_to, Man, Pos, Rights};
use crate::search::weight;
use crate::search_laws::{law_stop_or_take, law_the_best_legal_move_counts, lemma_no_moves};

verus! {

/// The square on the same file of the rank that is as far from the other side of the board.
pub open spec fn across(s: int) -> int {
    56 - 8 * (s / 8) + s % 8
}

/// A man of the other colour.
pub open spec fn recoloured(cell: Option<Man>) -> Option<Man> {
    match cell {
        Some(m) => Some(Man { color: 1 - m.color, kind: m.kind }),
        None => None,
    }
}

/// A position seen from the other side, with the colours exchanged.
pub open spec fn turned(p: Pos) -> Pos {
    Pos {
        at: Seq::new(64, |s: int| recoloured(p.at[across(s)])),
        stm: 1 - p.stm,
        rights: Rights { wk: p.rights.bk, wq: p.rights.bq, bk: p.rights.wk, bq: p.rights.wq },
        ep: if p.ep < 64 {
            across(p.ep)
        } else {
            64
        },
        halfmove: p.halfmove,
    }
}

/// The same move there.
pub open spec fn turned_move(m: u16) -> u16 {
    encode(across(m as int % 64), across(m as int / 64 % 64), m as int / 4096)
}

proof fn lemma_across(s: int)
    requires
        is_square(s),
    ensures
        is_square(across(s)),
        across(s) % 8 == s % 8,
        across(s) / 8 == 7 - s / 8,
        across(across(s)) == s,
{
}

proof fn lemma_turned_move(m: u16)
    ensures
        turned_move(m) as int % 64 == across(m as int % 64),
        turned_move(m) as int / 64 % 64 == across(m as int / 64 % 64),
        turned_move(m) as int / 4096 == m as int / 4096,
        turned_move(turned_move(m)) == m,
{
    let from = m as int % 64;
    let to = m as int / 64 % 64;
    let flag = m as int / 4096;
    lemma_across(from);
    lemma_across(to);
    law_move_word_round_trip(across(from), across(to), flag, m);
    law_move_word_round_trip(from, to, flag, m);
}

proof fn lemma_turned(p: Pos)
    requires
        p.wf(),
    ensures
        turned(p).wf(),
        turned(turned(p)) == p,
        forall|s: int| is_square(s) ==> #[trigger] turned(p).at[s] == recoloured(p.at[across(s)]),
{
    let q = turned(p);
    assert forall|s: int| is_square(s) implies match #[trigger] q.at[s] {
        Some(m) => 0 <= m.color < 2 && 0 <= m.kind < 6,
        None => true,
    } by {
        lemma_across(s);
        let cell = p.at[across(s)];
    }
    if p.ep < 64 {
        lemma_across(p.ep);
    }
    assert forall|s: int| is_square(s) implies #[trigger] turned(q).at[s] == p.at[s] by {
        lemma_across(s);
        assert(q.at[across(s)] == recoloured(p.at[s]));
        let cell = p.at[s];
    }
    assert(turned(q).at =~= p.at);
    assert(turned(q) == p);
}

proof fn lemma_on_the_way_across(a: int, t: int, b: int)
    requires
        is_square(a),
        is_square(t),
        is_square(b),
    ensures
        on_the_way(across(a), across(t), across(b)) == on_the_way(a, t, b),
{
    lemma_across(a);
    lemma_across(t);
    lemma_across(b);
}

proof fn lemma_way_across(p: Pos, a: int, b: int)
    requires
        p.wf(),
        is_square(a),
        is_square(b),
    ensures
        way_clear(p, a, b) ==> way_clear(turned(p), across(a), across(b)),
{
    let q = turned(p);
    if way_clear(p, a, b) {
        assert forall|t: int| is_square(t) && on_the_way(across(a), t, across(b)) implies (
        #[trigger] q.at[t]) is None by {
            lemma_across(t);
            lemma_across(a);
            lemma_across(b);
            lemma_on_the_way_across(a, across(t), b);
            assert(p.at[across(t)] is None);
        }
    }
}

proof fn lemma_squared_sign(x: int)
    ensures
        squared(-x) == squared(x),
{
    assert((-x) * (-x) == x * x) by (nonlinear_arith);
}

proof fn lemma_attacks_across(p: Pos, c: int, k: int, a: int, b: int)
    requires
        p.wf(),
        0 <= c < 2,
        0 <= k < 6,
        is_square(a),
        is_square(b),
    ensures
        turned(p).attacks(1 - c, k, across(a), across(b)) == p.attacks(c, k, a, b),
{
    let q = turned(p);
    lemma_turned(p);
    lemma_across(a);
    lemma_across(b);
    law_men_attack(p, c, a, b);
    law_men_attack(q, 1 - c, across(a), across(b));
    lemma_way_across(p, a, b);
    lemma_way_across(q, across(a), across(b));
    lemma_squared_sign(b / 8 - a / 8);
    assert(across(b) / 8 - across(a) / 8 == -(b / 8 - a / 8));
}

proof fn lemma_attacked_one_way(p: Pos, x: int, by: int)
    requires
        p.wf(),
        0 <= by < 2,
        is_square(x),
        p.attacked(x, by),
    ensures
        turned(p).attacked(across(x), 1 - by),
{
    let q = turned(p);
    lemma_turned(p);
    let s = choose|s: int| #[trigger] p.attacked_from(x, by, s);
    lemma_across(s);
    let cell = p.at[s];
    lemma_attacks_across(p, by, p.at[s]->0.kind, s, x);
    assert(q.at[across(s)] == recoloured(p.at[s]));
    assert(q.attacked_from(across(x), 1 - by, across(s)));
}

proof fn lemma_attacked_across(p: Pos, x: int, by: int)
    requires
        p.wf(),
        0 <= by < 2,
        is_square(x),
    ensures
        turned(p).attacked(across(x), 1 - by) == p.attacked(x, by),
{
    let q = turned(p);
    lemma_turned(p);
    lemma_across(x);
    if p.attacked(x, by) {
        lemma_attacked_one_way(p, x, by);
    }
    if q.attacked(across(x), 1 - by) {
        lemma_attacked_one_way(q, across(x), 1 - by);
    }
}

proof fn lemma_king_across(p: Pos, c: int, k: int)
    requires
        p.wf(),
        0 <= c < 2,
        p.is_only_king(c, k),
    ensures
        turned(p).is_only_king(1 - c, across(k)),
        turned(p).in_check(1 - c) == p.in_check(c),
{
    let q = turned(p);
    lemma_turned(p);
    lemma_across(k);
    assert(q.at[across(k)] == man(1 - c, 5));
    assert forall|u: int| is_square(u) && #[trigger] q.at[u] == man(1 - c, 5) implies u == across(
        k,
    ) by {
        lemma_across(u);
        let cell = p.at[across(u)];
        assert(p.at[across(u)] == man(c, 5));
        assert(across(u) == k);
    }
    assert(q.is_only_king(1 - c, across(k)));
    q.lemma_only_king(1 - c, across(k));
    p.lemma_only_king(c, k);
    lemma_attacked_across(p, k, 1 - c);
}

proof fn lemma_legal_position_across(p: Pos)
    requires
        p.legal_position(),
    ensures
        turned(p).legal_position(),
{
    let q = turned(p);
    lemma_turned(p);
    let a = choose|k: int| p.is_only_king(0, k);
    let b = choose|k: int| p.is_only_king(1, k);
    lemma_king_across(p, 0, a);
    lemma_king_across(p, 1, b);
    assert(q.one_king(0) && q.one_king(1));
    assert forall|s: int|
        is_square(s) && (#[trigger] q.at[s]) is Some && q.at[s]->0.kind == 0 implies 1 <= s / 8
        <= 6 by {
        lemma_across(s);
        let cell = p.at[across(s)];
    }
    assert forall|c: int, kingside: bool| 0 <= c < 2 && #[trigger] q.may_castle(c, kingside) implies {
        &&& q.at[Pos::home(c) + 4] == man(c, 5)
        &&& q.at[Pos::home(c) + if kingside {
            7int
        } else {
            0int
        }] == man(c, 3)
    } by {
        assert(p.may_castle(1 - c, kingside));
        let h = Pos::home(1 - c);
        assert(p.at[h + 4] == man(1 - c, 5));
        let r = h + if kingside {
            7int
        } else {
            0int
        };
        assert(p.at[r] == man(1 - c, 3));
        lemma_across(h + 4);
        lemma_across(r);
        assert(q.at[across(h + 4)] == recoloured(p.at[h + 4]));
        assert(q.at[across(r)] == recoloured(p.at[r]));
    }
    if p.ep < 64 {
        lemma_across(p.ep);
        let v = p.ep_victim(p.ep);
        lemma_across(v);
        assert(q.at[across(v)] == recoloured(p.at[v]));
        assert(q.at[across(p.ep)] == recoloured(p.at[p.ep]));
        assert(q.ep_victim(q.ep) == across(v));
    }
}

proof fn lemma_castle_across(p: Pos, kingside: bool)
    requires
        p.wf(),
    ensures
        turned(p).can_castle(kingside) == p.can_castle(kingside),
{
    let q = turned(p);
    let h = Pos::home(p.stm);
    lemma_turned(p);
    assert(across(h + 1) == Pos::home(q.stm) + 1 && across(h + 2) == Pos::home(q.stm) + 2 && across(
        h + 3,
    ) == Pos::home(q.stm) + 3 && across(h + 4) == Pos::home(q.stm) + 4 && across(h + 5)
        == Pos::home(q.stm) + 5 && across(h + 6) == Pos::home(q.stm) + 6);
    lemma_attacked_across(p, h + 2, 1 - p.stm);
    lemma_attacked_across(p, h + 3, 1 - p.stm);
    lemma_attacked_across(p, h + 4, 1 - p.stm);
    lemma_attacked_across(p, h + 5, 1 - p.stm);
    lemma_attacked_across(p, h + 6, 1 - p.stm);
    lemma_cell(p, h + 1);
    lemma_cell(p, h + 2);
    lemma_cell(p, h + 3);
    lemma_cell(p, h + 5);
    lemma_cell(p, h + 6);
}

proof fn lemma_cell(p: Pos, s: int)
    requires
        p.wf(),
        is_square(s),
    ensures
        is_square(across(s)),
        turned(p).at[across(s)] == recoloured(p.at[s]),
        turned(p).free(across(s)) == p.free(s),
        turned(p).owns(turned(p).stm, across(s)) == p.owns(p.stm, s),
        turned(p).owns(1 - turned(p).stm, across(s)) == p.owns(1 - p.stm, s),
{
    lemma_turned(p);
    lemma_across(s);
    let cell = p.at[s];
}

proof fn lemma_push_across(p: Pos, s: int)
    requires
        p.wf(),
        is_square(s),
    ensures
        is_square(p.push(s)) ==> turned(p).push(across(s)) == across(p.push(s)),
        is_square(turned(p).push(across(s))) == is_square(p.push(s)),
        turned(p).about_to_promote(across(s)) == p.about_to_promote(s),
        turned(p).on_start_rank(across(s)) == p.on_start_rank(s),
{
    lemma_across(s);
    let x = p.push(s);
    assert(x == s + 8 || x == s - 8);
    if is_square(x) {
        lemma_across(x);
    }
}

proof fn lemma_home_across(c: int)
    requires
        0 <= c < 2,
    ensures
        across(Pos::home(c)) == Pos::home(1 - c),
        across(Pos::home(c) + 2) == Pos::home(1 - c) + 2,
        across(Pos::home(c) + 3) == Pos::home(1 - c) + 3,
        across(Pos::home(c) + 4) == Pos::home(1 - c) + 4,
        across(Pos::home(c) + 5) == Pos::home(1 - c) + 5,
        across(Pos::home(c) + 6) == Pos::home(1 - c) + 6,
        across(Pos::home(c) + 7) == Pos::home(1 - c) + 7,
{
}

proof fn lemma_pseudo_one_way(p: Pos, m: u16)
    requires
        p.wf(),
        p.pseudo_legal(m),
    ensures
        turned(p).pseudo_legal(turned_move(m)),
{
    let q = turned(p);
    let n = turned_move(m);
    let from = m as int % 64;
    let to = m as int / 64 % 64;
    let flag = m as int / 4096;
    let kind = p.at[from]->0.kind;
    lemma_turned_move(m);
    lemma_cell(p, from);
    lemma_cell(p, to);
    let cell = p.at[from];
    assert(0 <= kind < 6 && 0 <= p.stm < 2);
    assert(q.at[across(from)]->0.kind == kind);
    assert(q.owns(q.stm, across(from)));
    if flag == 2 || flag == 3 {
        lemma_castle_across(p, true);
        lemma_castle_across(p, false);
        lemma_home_across(p.stm);
    } else if kind == 0 {
        lemma_push_across(p, from);
        if flag == 1 {
            let x = p.push(from);
            lemma_cell(p, x);
            lemma_push_across(p, x);
        }
        lemma_attacks_across(p, p.stm, 0, from, to);
    } else {
        lemma_attacks_across(p, p.stm, kind, from, to);
    }
}

proof fn lemma_pseudo_across(p: Pos, m: u16)
    requires
        p.wf(),
    ensures
        turned(p).pseudo_legal(turned_move(m)) == p.pseudo_legal(m),
{
    lemma_turned(p);
    lemma_turned_move(m);
    if p.pseudo_legal(m) {
        lemma_pseudo_one_way(p, m);
    }
    if turned(p).pseudo_legal(turned_move(m)) {
        lemma_pseudo_one_way(turned(p), turned_move(m));
    }
}

proof fn lemma_after_across(p: Pos, m: u16)
    requires
        p.wf(),
        p.playable(m),
    ensures
        turned(p).after(turned_move(m)) == turned(p.after(m)),
{
    let q = turned(p);
    let n = turned_move(m);
    let from = m as int % 64;
    let to = m as int / 64 % 64;
    lemma_turned(p);
    lemma_turned_move(m);
    lemma_cell(p, from);
    lemma_cell(p, to);
    lemma_across(from);
    lemma_across(to);
    lemma_board_across(p, m);
    lemma_passant_across(p, m);
    assert(q.captured(n) == p.captured(m));
    assert(q.after(n).at =~= turned(p.after(m)).at);
    assert(q.after(n).rights == turned(p.after(m)).rights);
}

/// What updates a board updates it across.
proof fn lemma_update_across(at: Seq<Option<Man>>, over: Seq<Option<Man>>, s: int, x: Option<Man>)
    requires
        at.len() == 64,
        over.len() == 64,
        is_square(s),
        forall|t: int| is_square(t) ==> #[trigger] over[t] == recoloured(at[across(t)]),
    ensures
        forall|t: int|
            is_square(t) ==> #[trigger] over.update(across(s), recoloured(x))[t] == recoloured(
                at.update(s, x)[across(t)],
            ),
        is_square(across(s)),
{
    lemma_across(s);
    assert forall|t: int| is_square(t) implies #[trigger] over.update(across(s), recoloured(x))[t]
        == recoloured(at.update(s, x)[across(t)]) by {
        lemma_across(t);
        let cell = over[t];
    }
}

proof fn lemma_board_across(p: Pos, m: u16)
    requires
        p.wf(),
        p.playable(m),
    ensures
        turned(p).at_after(turned_move(m)).len() == 64,
        forall|t: int|
            is_square(t) ==> #[trigger] turned(p).at_after(turned_move(m))[t] == recoloured(
                p.at_after(m)[across(t)],
            ),
{
    let q = turned(p);
    let n = turned_move(m);
    let from = m as int % 64;
    let to = m as int / 64 % 64;
    let flag = m as int / 4096;
    let v = p.ep_victim(to);
    lemma_turned(p);
    lemma_turned_move(m);
    lemma_cell(p, from);
    let none = None::<Man>;
    let land = Some(p.landed(m));
    assert(recoloured(land) == Some(q.landed(n)));
    let at0 = p.at;
    let over0 = q.at;
    let at1 = if flag == 5 {
        at0.update(v, none)
    } else {
        at0
    };
    let over1 = if flag == 5 {
        over0.update(across(v), none)
    } else {
        over0
    };
    if flag == 5 {
        lemma_update_across(at0, over0, v, none);
        lemma_victim_across(p, to);
    }
    lemma_update_across(at1, over1, from, none);
    let at2 = at1.update(from, none);
    let over2 = over1.update(across(from), none);
    lemma_update_across(at2, over2, to, land);
    let at3 = at2.update(to, land);
    let over3 = over2.update(across(to), recoloured(land));
    let a = rook_from(p.stm, m);
    let b = rook_to(p.stm, m);
    let rook = man(p.stm, 3);
    lemma_home_across(p.stm);
    lemma_update_across(at3, over3, a, none);
    let at4 = at3.update(a, none);
    let over4 = over3.update(across(a), none);
    lemma_update_across(at4, over4, b, rook);
    assert(rook_from(q.stm, n) == across(a));
    assert(rook_to(q.stm, n) == across(b));
    if flag == 2 || flag == 3 {
        assert(p.at_after(m) == at4.update(b, rook));
        assert(q.at_after(n) == over4.update(across(b), recoloured(rook)));
    } else {
        assert(p.at_after(m) == at3);
        assert(q.at_after(n) == over3);
    }
}

proof fn lemma_victim_across(p: Pos, to: int)
    requires
        p.wf(),
        is_square(to),
        is_square(p.ep_victim(to)),
    ensures
        turned(p).ep_victim(across(to)) == across(p.ep_victim(to)),
{
    lemma_across(to);
    lemma_across(p.ep_victim(to));
}

proof fn lemma_passant_across(p: Pos, m: u16)
    requires
        p.wf(),
        p.playable(m),
    ensures
        turned(p).ep_after(turned_move(m)) == turned(p.after(m)).ep,
{
    let q = turned(p);
    let n = turned_move(m);
    let from = m as int % 64;
    let to = m as int / 64 % 64;
    lemma_turned_move(m);
    lemma_board_across(p, m);
    lemma_push_across(p, from);
    lemma_beside_across(p.at_after(m), q.at_after(n), 1 - p.stm, to);
}

proof fn lemma_beside_across(at: Seq<Option<Man>>, over: Seq<Option<Man>>, c: int, s: int)
    requires
        at.len() == 64,
        over.len() == 64,
        is_square(s),
        forall|t: int| is_square(t) ==> #[trigger] over[t] == recoloured(at[across(t)]),
    ensures
        Pos::pawn_beside(over, 1 - c, across(s)) == Pos::pawn_beside(at, c, s),
{
    lemma_across(s);
    if s % 8 > 0 {
        lemma_across(s - 1);
        assert(across(s - 1) == across(s) - 1);
        assert(over[across(s) - 1] == recoloured(at[s - 1]));
        let cell = at[s - 1];
    }
    if s % 8 < 7 {
        lemma_across(s + 1);
        assert(across(s + 1) == across(s) + 1);
        assert(over[across(s) + 1] == recoloured(at[s + 1]));
        let cell = at[s + 1];
    }
}

/// What one side may do, the other may do in its place, and it leads to the same.
pub proof fn law_both_sides_have_the_same_moves(p: Pos, m: u16)
    requires
        p.legal_position(),
    ensures
        turned(p).legal_position(),
        turned(p).legal(turned_move(m)) == p.legal(m),
        p.legal(m) ==> turned(p).after(turned_move(m)) == turned(p.after(m)),
        turned(p).in_check(turned(p).stm) == p.in_check(p.stm),
{
    let q = turned(p);
    let n = turned_move(m);
    lemma_legal_position_across(p);
    lemma_turned(p);
    let k = choose|k: int| p.is_only_king(p.stm, k);
    lemma_king_across(p, p.stm, k);
    lemma_pseudo_across(p, m);
    if p.pseudo_legal(m) {
        p.lemma_sound();
        p.law_pseudo_legal_is_playable(m);
        lemma_after_across(p, m);
        p.lemma_kings_after(m);
        let r = p.after(m);
        let k = choose|k: int| r.is_only_king(p.stm, k);
        assert(r.one_king(p.stm));
        lemma_king_across(r, p.stm, k);
    }
}

proof fn lemma_eval_across(p: Pos)
    requires
        p.wf(),
    ensures
        turned(p).eval() == p.eval(),
{
    let q = turned(p);
    lemma_turned(p);
    assert forall|s: int| is_square(s) implies #[trigger] q.at[mirrored(s)]
        == match p.at[s] {
        Some(m) => man(1 - m.color, m.kind),
        None => None,
    } by {
        lemma_across(s);
        assert(mirrored(s) == across(s));
        assert(q.at[across(s)] == recoloured(p.at[s]));
    }
    law_eval_is_symmetric(p, q);
}

proof fn lemma_quiet_across(p: Pos)
    requires
        p.legal_position(),
    ensures
        turned(p).quiet_value() == p.quiet_value(),
    decreases weight(p.at, 64),
{
    let q = turned(p);
    lemma_legal_position_across(p);
    lemma_turned(p);
    lemma_eval_across(p);
    law_stop_or_take(p, 0, 0);
    law_stop_or_take(q, 0, 0);
    p.lemma_sound();
    if p.quiet_value() != p.eval() {
        let m = choose|m: u16|
            #[trigger] p.legal(m) && m as int / 4096 >= 4 && p.quiet_value() == -p.after(
                m,
            ).quiet_value();
        lemma_turned_move(m);
        law_both_sides_have_the_same_moves(p, m);
        p.lemma_legal_step(m);
        p.lemma_weight_drops(m);
        lemma_quiet_across(p.after(m));
        assert(q.legal(turned_move(m)));
    }
    if q.quiet_value() != q.eval() {
        let n = choose|n: u16|
            #[trigger] q.legal(n) && n as int / 4096 >= 4 && q.quiet_value() == -q.after(
                n,
            ).quiet_value();
        let m = turned_move(n);
        lemma_turned_move(n);
        law_both_sides_have_the_same_moves(p, m);
        p.lemma_legal_step(m);
        p.lemma_weight_drops(m);
        lemma_quiet_across(p.after(m));
        assert(p.legal(m));
    }
}

/// A position is worth as much to the side to move as the same position seen from the other
/// side, with the colours exchanged, is to the other side, however deep it is looked at.
pub proof fn law_both_sides_have_the_same_chances(p: Pos, depth: int, ply: int)
    requires
        p.legal_position(),
    ensures
        turned(p).legal_position(),
        turned(p).eval() == p.eval(),
        turned(p).quiet_value() == p.quiet_value(),
        turned(p).deep_value(depth, ply) == p.deep_value(depth, ply),
    decreases depth,
{
    let q = turned(p);
    lemma_legal_position_across(p);
    lemma_turned(p);
    lemma_eval_across(p);
    lemma_quiet_across(p);
    if depth > 0 {
        lemma_no_moves(p);
        lemma_no_moves(q);
        if exists|m: u16| p.legal(m) {
            let m = choose|m: u16| p.legal(m);
            law_both_sides_have_the_same_moves(p, m);
            assert(q.legal(turned_move(m)));
            law_the_best_legal_move_counts(p, depth, ply);
            law_the_best_legal_move_counts(q, depth, ply);
            let m = choose|m: u16| #[trigger]
                p.legal(m) && p.deep_value(depth, ply) == -p.after(m).deep_value(
                    depth - 1,
                    ply + 1,
                );
            law_both_sides_have_the_same_moves(p, m);
            p.lemma_legal_step(m);
            law_both_sides_have_the_same_chances(p.after(m), depth - 1, ply + 1);
            assert(q.legal(turned_move(m)));
            let n = choose|n: u16| #[trigger]
                q.legal(n) && q.deep_value(depth, ply) == -q.after(n).deep_value(
                    depth - 1,
                    ply + 1,
                );
            let o = turned_move(n);
            lemma_turned_move(n);
            law_both_sides_have_the_same_moves(p, o);
            p.lemma_legal_step(o);
            law_both_sides_have_the_same_chances(p.after(o), depth - 1, ply + 1);
            assert(p.legal(o));
        } else {
            law_both_sides_have_the_same_moves(p, 0);
            assert forall|n: u16| !q.legal(n) by {
                lemma_turned_move(n);
                law_both_sides_have_the_same_moves(p, turned_move(n));
            }
        }
    }
}

} // verus!
