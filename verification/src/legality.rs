//! Sound positions, legal moves, and what playing legal moves preserves.
use vstd::prelude::*;

use crate::board::Board;
use crate::geometry::{is_square, rank_of};
use crate::movegen::copy_moves;
use crate::moves::{from_of, is_promotion, to_of, KING, PAWN, ROOK};
use crate::position::{law_unmake_restores, man, Pos};
use crate::tables::Tables;

verus! {

impl Pos {
    /// Whether `s` holds the only king of colour `c`.
    pub open spec fn is_only_king(self, c: int, s: int) -> bool {
        &&& is_square(s)
        &&& self.at[s] == man(c, KING as int)
        &&& forall|u: int| is_square(u) && #[trigger] self.at[u] == man(c, KING as int) ==> u == s
    }

    pub open spec fn one_king(self, c: int) -> bool {
        exists|s: int| self.is_only_king(c, s)
    }

    /// No pawn stands on a first or a last rank.
    pub open spec fn pawns_between(self) -> bool {
        forall|s: int|
            is_square(s) && (#[trigger] self.at[s]) is Some && self.at[s]->0.kind == PAWN ==> 1
                <= rank_of(s) <= 6
    }

    /// A castling right is held only while the king and that rook are at home.
    pub open spec fn rights_sound(self) -> bool {
        forall|c: int, kingside: bool|
            0 <= c < 2 && #[trigger] self.may_castle(c, kingside) ==> {
                &&& self.at[Self::home(c) + 4] == man(c, KING as int)
                &&& self.at[Self::home(c) + if kingside {
                    7int
                } else {
                    0int
                }] == man(c, ROOK as int)
            }
    }

    /// An en passant square is on the right rank and has behind it the pawn that just
    /// passed over it.
    pub open spec fn ep_behind_pawn(self) -> bool {
        self.ep < 64 ==> {
            &&& rank_of(self.ep) == if self.stm == 0 {
                5int
            } else {
                2int
            }
            &&& self.at[self.ep_victim(self.ep)] == man(1 - self.stm, PAWN as int)
        }
    }

    /// The en passant square, where there is one, is free.
    pub open spec fn ep_free(self) -> bool {
        self.ep < 64 ==> self.free(self.ep)
    }

    /// A position in which every pseudo-legal move can be carried out and judged: there is
    /// a king to keep safe, no pawn is past its last rank, and the castling rights and the
    /// en passant square are true.
    pub open spec fn movable(self) -> bool {
        &&& self.wf()
        &&& self.has_king(self.stm)
        &&& self.pawns_can_push()
        &&& self.rights_sound()
        &&& self.ep_behind_pawn()
        &&& self.ep_free()
    }

    /// A movable position as games produce it: one king each, and pawns only where pawns
    /// can be.
    pub open spec fn sound(self) -> bool {
        &&& self.wf()
        &&& self.one_king(0)
        &&& self.one_king(1)
        &&& self.pawns_between()
        &&& self.rights_sound()
        &&& self.ep_behind_pawn()
        &&& self.ep_free()
    }

    /// A sound position whose side to move cannot take the other king.
    pub open spec fn legal_position(self) -> bool {
        self.sound() && !self.in_check(1 - self.stm)
    }

    /// Whether `m` leaves the king of the side to move safe.
    pub open spec fn keeps_king_safe(self, m: u16) -> bool {
        !self.after(m).in_check(self.stm)
    }

    /// The legal moves.
    pub open spec fn legal(self, m: u16) -> bool {
        self.pseudo_legal(m) && self.keeps_king_safe(m)
    }

    /// The legal moves in the order in which they are generated.
    pub open spec fn legal_list(self) -> Seq<u16> {
        self.generated(false).filter(|m: u16| self.keeps_king_safe(m))
    }

    pub proof fn lemma_only_king(self, c: int, s: int)
        requires
            self.is_only_king(c, s),
        ensures
            self.king_square(c) == s,
            self.has_king(c),
    {
        assert(self.is_first_king(c, s));
        self.lemma_first_king(c, s);
    }

    pub proof fn lemma_sound(self)
        requires
            self.sound(),
        ensures
            self.movable(),
            self.pawns_can_push(),
            self.kings_home(),
            self.has_king(0),
            self.has_king(1),
    {
        let a = choose|s: int| self.is_only_king(0, s);
        let b = choose|s: int| self.is_only_king(1, s);
        self.lemma_only_king(0, a);
        self.lemma_only_king(1, b);
        assert forall|s: int| is_square(s) && #[trigger] self.at[s] == man(
            self.stm,
            PAWN as int,
        ) implies is_square(self.push(s)) by {}
    }

    /// In a movable position every pseudo-legal move can be carried out and taken back.
    pub proof fn law_pseudo_legal_is_playable(self, m: u16)
        requires
            self.movable(),
            self.pseudo_legal(m),
        ensures
            self.playable(m),
            is_promotion(m) ==> self.at[from_of(m)]->0.kind == PAWN,
            self.after(m).wf(),
            self.after(m).undoable(m, self.lost(m)),
            self.after(m).before(m, self.lost(m)) == self,
            self.after(m).has_king(self.stm),
    {
        assert(self.may_castle(self.stm, true) || !self.may_castle(self.stm, true));
        assert(self.may_castle(self.stm, false) || !self.may_castle(self.stm, false));
        assert(self.playable(m));
        law_unmake_restores(self, m);
        let k = choose|s: int| is_square(s) && #[trigger] self.at[s] == man(self.stm, KING as int);
        let k2 = if from_of(m) == k {
            to_of(m)
        } else {
            k
        };
        assert(self.after(m).at[k2] == man(self.stm, KING as int));
    }

    /// The listed moves are exactly the legal moves.
    pub proof fn law_legal_list_is_legal(self, m: u16)
        requires
            self.movable(),
        ensures
            self.legal_list().contains(m) <==> self.legal(m),
    {
        let pred = |m: u16| self.keeps_king_safe(m);
        let all = self.generated(false);
        self.lemma_kings_home();
        self.law_generated_is_pseudo_legal(false, m);
        lemma_filter_keeps(all, pred, m);
    }

    pub proof fn lemma_kings_home(self)
        requires
            self.rights_sound(),
        ensures
            self.kings_home(),
    {
        assert forall|c: int, kingside: bool| 0 <= c < 2 && #[trigger] self.may_castle(
            c,
            kingside,
        ) implies self.at[Self::home(c) + 4] == man(c, KING as int) by {}
    }

    /// A pseudo-legal move of a legal position does not take a king.
    pub proof fn lemma_no_king_capture(self, m: u16)
        requires
            self.legal_position(),
            self.pseudo_legal(m),
        ensures
            self.captured(m) != KING,
            self.at[to_of(m)] != man(1 - self.stm, KING as int),
    {
        let them = 1 - self.stm;
        let to = to_of(m);
        if self.at[to] == man(them, KING as int) {
            let k = choose|s: int| self.is_only_king(them, s);
            self.lemma_only_king(them, k);
            assert(k == to);
            assert(self.attacked_from(to, self.stm, from_of(m)));
        }
    }

    /// The kings after a pseudo-legal move of a legal position: that of the side to move is
    /// where the move took it, the other one stays.
    pub proof fn lemma_kings_after(self, m: u16)
        requires
            self.legal_position(),
            self.pseudo_legal(m),
        ensures
            self.after(m).one_king(0),
            self.after(m).one_king(1),
    {
        let us = self.stm;
        let them = 1 - us;
        let q = self.after(m);
        let from = from_of(m);
        let to = to_of(m);
        self.lemma_sound();
        self.law_pseudo_legal_is_playable(m);
        self.lemma_no_king_capture(m);
        let a = choose|s: int| self.is_only_king(us, s);
        let b = choose|s: int| self.is_only_king(them, s);
        let a2 = if from == a {
            to
        } else {
            a
        };
        assert(q.is_only_king(us, a2)) by {
            assert forall|u: int| is_square(u) && #[trigger] q.at[u] == man(
                us,
                KING as int,
            ) implies u == a2 by {
                assert(u != to ==> self.at[u] == man(us, KING as int));
            }
        }
        assert(q.is_only_king(them, b)) by {
            assert forall|u: int| is_square(u) && #[trigger] q.at[u] == man(
                them,
                KING as int,
            ) implies u == b by {
                assert(self.at[u] == man(them, KING as int));
            }
        }
    }

    /// A legal move takes a legal position to a legal position: the kings stay on the board,
    /// rights and en passant square stay true, and the side that moved is not in check.
    pub proof fn law_legal_move_keeps_position_legal(self, m: u16)
        requires
            self.legal_position(),
            self.legal(m),
        ensures
            self.after(m).legal_position(),
    {
        let us = self.stm;
        let q = self.after(m);
        self.lemma_sound();
        self.law_pseudo_legal_is_playable(m);
        self.lemma_kings_after(m);
        assert(q.pawns_between());
        assert(q.rights_sound()) by {
            assert forall|c: int, kingside: bool| 0 <= c < 2 && #[trigger] q.may_castle(
                c,
                kingside,
            ) implies {
                &&& q.at[Self::home(c) + 4] == man(c, KING as int)
                &&& q.at[Self::home(c) + if kingside {
                    7int
                } else {
                    0int
                }] == man(c, ROOK as int)
            } by {
                assert(self.may_castle(c, kingside));
            }
        }
        assert(q.ep_behind_pawn());
        assert(q.ep_free());
    }
}

impl Pos {
    /// What a legal move of a legal position gives, in one place.
    pub proof fn lemma_legal_step(self, m: u16)
        requires
            self.legal_position(),
            self.legal(m),
        ensures
            self.movable(),
            self.playable(m),
            self.after(m).legal_position(),
            self.after(m).movable(),
            self.after(m).stm == 1 - self.stm,
    {
        self.lemma_sound();
        self.law_pseudo_legal_is_playable(m);
        self.law_legal_move_keeps_position_legal(m);
        self.after(m).lemma_sound();
    }
}

impl Board {
    /// The legal moves.
    pub fn legal_moves(&self, t: &Tables) -> (out: Vec<u16>)
        requires
            t.wf(),
            self.wf(),
            self@.movable(),
        ensures
            out@ == self@.legal_list(),
    {
        let ghost p = self@;
        let ghost pred = |m: u16| p.keeps_king_safe(m);
        let all = self.gen_list::<false>(t);
        let mut out: Vec<u16> = Vec::new();
        let mut b = *self;
        let mut i: usize = 0;
        while i < all.len()
            invariant
                t.wf(),
                self.wf(),
                b == *self,
                p == self@,
                p.movable(),
                pred == (|m: u16| p.keeps_king_safe(m)),
                all@ == p.generated(false),
                i <= all@.len(),
                out@ == all@.take(i as int).filter(pred),
            decreases all@.len() - i,
        {
            let m = all[i];
            proof {
                p.lemma_kings_home();
                assert(all@.contains(all@[i as int]));
                p.law_generated_is_pseudo_legal(false, m);
                p.law_pseudo_legal_is_playable(m);
                lemma_filter_step(all@, pred, i as int);
            }
            let u = b.make(m);
            if !b.in_check(t, 1 - b.stm) {
                out.push(m);
            }
            b.unmake(m, u);
            proof {
                Board::lemma_view_injective(&b, self);
            }
            i = i + 1;
        }
        assert(all@.take(i as int) =~= all@);
        out
    }

    /// Writes the legal moves into `out` and returns their number.
    pub fn legal_moves_into(&self, t: &Tables, out: &mut [u16; 256]) -> (n: usize)
        requires
            t.wf(),
            self.wf(),
            self@.movable(),
            self@.legal_list().len() <= 256,
        ensures
            n == self@.legal_list().len(),
            final(out)@.take(n as int) == self@.legal_list(),
            final(out)@.skip(n as int) == old(out)@.skip(n as int),
    {
        let list = self.legal_moves(t);
        copy_moves(&list, out)
    }
}

pub proof fn lemma_filter_keeps<A>(s: Seq<A>, pred: spec_fn(A) -> bool, x: A)
    ensures
        s.filter(pred).contains(x) <==> s.contains(x) && pred(x),
{
    broadcast use {Seq::lemma_filter_contains_rev, Seq::lemma_filter_contains, Seq::lemma_filter_pred};

    if s.contains(x) && pred(x) {
        let i = choose|i: int| 0 <= i < s.len() && s[i] == x;
        assert(s.filter(pred).contains(s[i]));
    }
}

/// Filtering one element further.
pub proof fn lemma_filter_step<A>(s: Seq<A>, pred: spec_fn(A) -> bool, i: int)
    requires
        0 <= i < s.len(),
    ensures
        s.take(i + 1).filter(pred) == if pred(s[i]) {
            s.take(i).filter(pred).push(s[i])
        } else {
            s.take(i).filter(pred)
        },
{
    reveal_with_fuel(Seq::filter, 2);
    assert(s.take(i + 1).drop_last() =~= s.take(i));
    assert(s.take(i + 1).last() == s[i]);
}

} // verus!
