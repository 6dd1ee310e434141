//! The rules of chess over a mathematical position: what each man attacks, which moves it
//! has, and what a move does.
use vstd::prelude::*;

use crate::geometry::{file_of, forward, is_square, king_step, knight_step, pawn_step, rank_of};
use crate::moves::{
    flag_of, from_of, is_promotion, promoted_kind, to_of, BISHOP, F_CAPTURE, F_DOUBLE, F_EP,
    F_KCASTLE, F_QCASTLE, F_QUIET, KING, KNIGHT, PAWN, QUEEN, ROOK,
};
use crate::tables::{bishop_reaches, rook_reaches};

verus! {

/// A man on the board: colour `0` is White, and the kinds run from pawn to king.
pub struct Man {
    pub color: int,
    pub kind: int,
}

/// The castling rights that are left.
pub struct Rights {
    pub wk: bool,
    pub wq: bool,
    pub bk: bool,
    pub bq: bool,
}

/// A position. `ep` is `64` when there is no en passant square.
#[verifier::ext_equal]
pub struct Pos {
    pub at: Seq<Option<Man>>,
    pub stm: int,
    pub rights: Rights,
    pub ep: int,
    pub halfmove: int,
}

pub open spec fn man(color: int, kind: int) -> Option<Man> {
    Some(Man { color, kind })
}

impl Pos {
    /// The values are in range.
    pub open spec fn wf(self) -> bool {
        &&& self.at.len() == 64
        &&& forall|s: int|
            is_square(s) ==> match #[trigger] self.at[s] {
                Some(m) => 0 <= m.color < 2 && 0 <= m.kind < 6,
                None => true,
            }
        &&& 0 <= self.stm < 2
        &&& 0 <= self.ep <= 64
        &&& 0 <= self.halfmove < 256
    }

    /// Whether a man of colour `c` stands on `s`.
    pub open spec fn owns(self, c: int, s: int) -> bool {
        is_square(s) && self.at[s] is Some && self.at[s]->0.color == c
    }

    pub open spec fn free(self, s: int) -> bool {
        is_square(s) && self.at[s] is None
    }

    pub open spec fn occ(self) -> spec_fn(int) -> bool {
        |s: int| is_square(s) && self.at[s] is Some
    }

    /// Whether a man of colour `c` and kind `k` on `s` attacks `x`.
    pub open spec fn attacks(self, c: int, k: int, s: int, x: int) -> bool {
        if k == PAWN {
            pawn_step(c, s, x)
        } else if k == KNIGHT {
            knight_step(s, x)
        } else if k == BISHOP {
            bishop_reaches(self.occ(), s, x)
        } else if k == ROOK {
            rook_reaches(self.occ(), s, x)
        } else if k == QUEEN {
            rook_reaches(self.occ(), s, x) || bishop_reaches(self.occ(), s, x)
        } else {
            king_step(s, x)
        }
    }

    /// Whether a man of colour `by` that stands on `s` attacks `x`.
    pub open spec fn attacked_from(self, x: int, by: int, s: int) -> bool {
        self.owns(by, s) && self.attacks(by, self.at[s]->0.kind, s, x)
    }

    /// Whether some man of colour `by` attacks `x`.
    pub open spec fn attacked(self, x: int, by: int) -> bool {
        exists|s: int| #[trigger] self.attacked_from(x, by, s)
    }

    pub open spec fn is_first_king(self, c: int, s: int) -> bool {
        &&& is_square(s)
        &&& self.at[s] == man(c, KING as int)
        &&& forall|u: int| 0 <= u < s ==> #[trigger] self.at[u] != man(c, KING as int)
    }

    /// The lowest square with a king of colour `c`, or `64` without one.
    pub open spec fn king_square(self, c: int) -> int {
        if exists|s: int| self.is_first_king(c, s) {
            choose|s: int| self.is_first_king(c, s)
        } else {
            64
        }
    }

    pub open spec fn has_king(self, c: int) -> bool {
        exists|s: int| is_square(s) && #[trigger] self.at[s] == man(c, KING as int)
    }

    /// Whether the king of colour `c` is attacked.
    pub open spec fn in_check(self, c: int) -> bool {
        self.attacked(self.king_square(c), 1 - c)
    }

    /// The first square of the home rank of colour `c`.
    pub open spec fn home(c: int) -> int {
        if c == 0 {
            0
        } else {
            56
        }
    }

    pub open spec fn may_castle(self, c: int, kingside: bool) -> bool {
        if c == 0 {
            if kingside {
                self.rights.wk
            } else {
                self.rights.wq
            }
        } else {
            if kingside {
                self.rights.bk
            } else {
                self.rights.bq
            }
        }
    }

    /// Whether the side to move may castle at once: it has the right, the squares between
    /// king and rook are free, and its king neither stands on, crosses nor reaches an
    /// attacked square.
    pub open spec fn can_castle(self, kingside: bool) -> bool {
        let h = Self::home(self.stm);
        let them = 1 - self.stm;
        &&& self.may_castle(self.stm, kingside)
        &&& !self.attacked(h + 4, them)
        &&& if kingside {
            &&& self.free(h + 5)
            &&& self.free(h + 6)
            &&& !self.attacked(h + 5, them)
            &&& !self.attacked(h + 6, them)
        } else {
            &&& self.free(h + 1)
            &&& self.free(h + 2)
            &&& self.free(h + 3)
            &&& !self.attacked(h + 3, them)
            &&& !self.attacked(h + 2, them)
        }
    }

    /// The square in front of a pawn of the side to move.
    pub open spec fn push(self, s: int) -> int {
        s + 8 * forward(self.stm)
    }

    /// Whether `s` is on the rank from which the side to move promotes.
    pub open spec fn about_to_promote(self, s: int) -> bool {
        rank_of(s) == if self.stm == 0 {
            6int
        } else {
            1int
        }
    }

    /// Whether `s` is on the rank where the pawns of the side to move start.
    pub open spec fn on_start_rank(self, s: int) -> bool {
        rank_of(s) == if self.stm == 0 {
            1int
        } else {
            6int
        }
    }

    /// The moves of the side to move, without regard to the safety of its king.
    pub open spec fn pseudo_legal(self, m: u16) -> bool {
        let from = from_of(m);
        let to = to_of(m);
        let flag = flag_of(m);
        let us = self.stm;
        let them = 1 - us;
        let kind = self.at[from]->0.kind;
        let pawn = kind == PAWN;
        &&& self.owns(us, from)
        &&& if flag == F_QUIET {
            self.free(to) && if pawn {
                to == self.push(from) && !self.about_to_promote(from)
            } else {
                self.attacks(us, kind, from, to)
            }
        } else if flag == F_DOUBLE {
            pawn && self.on_start_rank(from) && to == self.push(self.push(from)) && self.free(
                self.push(from),
            ) && self.free(to)
        } else if flag == F_KCASTLE {
            from == Self::home(us) + 4 && to == Self::home(us) + 6 && self.can_castle(true)
        } else if flag == F_QCASTLE {
            from == Self::home(us) + 4 && to == Self::home(us) + 2 && self.can_castle(false)
        } else if flag == F_CAPTURE {
            self.owns(them, to) && self.attacks(us, kind, from, to) && !(pawn
                && self.about_to_promote(from))
        } else if flag == F_EP {
            pawn && self.ep < 64 && to == self.ep && self.attacks(us, kind, from, to)
        } else if 8 <= flag < 12 {
            pawn && self.about_to_promote(from) && to == self.push(from) && self.free(to)
        } else if 12 <= flag {
            pawn && self.about_to_promote(from) && self.owns(them, to) && self.attacks(
                us,
                kind,
                from,
                to,
            )
        } else {
            false
        }
    }

    /// Whether `m` takes a man or promotes.
    pub open spec fn forcing(self, m: u16) -> bool {
        flag_of(m) >= 4
    }

    // ------------------------------------------------------------ making a move

    /// Whether the side to move can carry `m` out: it moves a man of its own to a square
    /// that holds none of its own, an en passant capture takes a pawn, and castling finds
    /// the rook on its corner and the rook's new square free.
    pub open spec fn playable(self, m: u16) -> bool {
        let from = from_of(m);
        let to = to_of(m);
        let us = self.stm;
        &&& self.owns(us, from)
        &&& !self.owns(us, to)
        &&& flag_of(m) == F_EP ==> {
            &&& is_square(self.ep_victim(to))
            &&& self.at[self.ep_victim(to)] == man(1 - us, PAWN as int)
            &&& self.free(to)
        }
        &&& castles(m) ==> {
            &&& self.at[rook_from(us, m)] == man(us, ROOK as int)
            &&& self.free(rook_to(us, m))
            &&& from != rook_from(us, m)
            &&& to != rook_to(us, m)
        }
    }

    /// The square of the pawn that falls to an en passant capture on `to`.
    pub open spec fn ep_victim(self, to: int) -> int {
        to - 8 * forward(self.stm)
    }

    /// The kind that `m` captures, `6` for none.
    pub open spec fn captured(self, m: u16) -> int {
        if flag_of(m) == F_EP {
            PAWN as int
        } else if self.owns(1 - self.stm, to_of(m)) {
            self.at[to_of(m)]->0.kind
        } else {
            6
        }
    }

    /// The man that stands on the to-square after `m`.
    pub open spec fn landed(self, m: u16) -> Man {
        Man {
            color: self.stm,
            kind: if is_promotion(m) {
                promoted_kind(m)
            } else {
                self.at[from_of(m)]->0.kind
            },
        }
    }

    /// The men after `m`.
    pub open spec fn at_after(self, m: u16) -> Seq<Option<Man>> {
        let cleared = if flag_of(m) == F_EP {
            self.at.update(self.ep_victim(to_of(m)), None)
        } else {
            self.at
        };
        let moved = cleared.update(from_of(m), None).update(to_of(m), Some(self.landed(m)));
        if castles(m) {
            moved.update(rook_from(self.stm, m), None).update(
                rook_to(self.stm, m),
                man(self.stm, ROOK as int),
            )
        } else {
            moved
        }
    }

    /// A right is lost when a move leaves or reaches the king's or the rook's home square.
    pub open spec fn rights_after(self, m: u16) -> Rights {
        Rights {
            wk: self.rights.wk && !touches(m, 4) && !touches(m, 7),
            wq: self.rights.wq && !touches(m, 4) && !touches(m, 0),
            bk: self.rights.bk && !touches(m, 60) && !touches(m, 63),
            bq: self.rights.bq && !touches(m, 60) && !touches(m, 56),
        }
    }

    /// Whether a pawn of colour `c` stands beside `s` on the same rank.
    pub open spec fn pawn_beside(at: Seq<Option<Man>>, c: int, s: int) -> bool {
        (file_of(s) > 0 && at[s - 1] == man(c, PAWN as int)) || (file_of(s) < 7 && at[s + 1] == man(
            c,
            PAWN as int,
        ))
    }

    /// The en passant square after `m`: the square that a double push crossed, and only if
    /// a pawn of the other side stands beside the pawn that was pushed.
    pub open spec fn ep_after(self, m: u16) -> int {
        if flag_of(m) == F_DOUBLE && is_square(self.push(from_of(m))) && Self::pawn_beside(
            self.at_after(m),
            1 - self.stm,
            to_of(m),
        ) {
            self.push(from_of(m))
        } else {
            64
        }
    }

    pub open spec fn halfmove_after(self, m: u16) -> int {
        if self.at[from_of(m)]->0.kind == PAWN || self.captured(m) != 6 {
            0
        } else if self.halfmove < 255 {
            self.halfmove + 1
        } else {
            255
        }
    }

    /// The position after `m`.
    pub open spec fn after(self, m: u16) -> Pos {
        Pos {
            at: self.at_after(m),
            stm: 1 - self.stm,
            rights: self.rights_after(m),
            ep: self.ep_after(m),
            halfmove: self.halfmove_after(m),
        }
    }
}

pub open spec fn castles(m: u16) -> bool {
    flag_of(m) == F_KCASTLE || flag_of(m) == F_QCASTLE
}

/// The corner that the rook of colour `c` leaves when castling.
pub open spec fn rook_from(c: int, m: u16) -> int {
    Pos::home(c) + if flag_of(m) == F_KCASTLE {
        7int
    } else {
        0int
    }
}

/// The square that the rook of colour `c` reaches when castling.
pub open spec fn rook_to(c: int, m: u16) -> int {
    Pos::home(c) + if flag_of(m) == F_KCASTLE {
        5int
    } else {
        3int
    }
}

pub open spec fn touches(m: u16, s: int) -> bool {
    from_of(m) == s || to_of(m) == s
}

/// What taking a move back needs beside the move.
pub struct Lost {
    pub captured: int,
    pub rights: Rights,
    pub ep: int,
    pub halfmove: int,
}

impl Pos {
    /// What `m` makes the position forget.
    pub open spec fn lost(self, m: u16) -> Lost {
        Lost {
            captured: self.captured(m),
            rights: self.rights,
            ep: self.ep,
            halfmove: self.halfmove,
        }
    }

    /// Whether `m` can be taken back: the side that just moved has a man on the to-square,
    /// the squares that the move vacated are free, and castling left the rook beside the
    /// king.
    pub open spec fn undoable(self, m: u16, u: Lost) -> bool {
        let from = from_of(m);
        let to = to_of(m);
        let us = 1 - self.stm;
        &&& self.owns(us, to)
        &&& self.free(from)
        &&& 0 <= u.captured <= 6
        &&& (flag_of(m) == F_EP && u.captured != 6) ==> {
            &&& u.captured == PAWN
            &&& self.free(to - 8 * forward(us))
            &&& to - 8 * forward(us) != from
        }
        &&& castles(m) ==> {
            &&& self.at[rook_to(us, m)] == man(us, ROOK as int)
            &&& self.free(rook_from(us, m))
            &&& from != rook_from(us, m)
            &&& to != rook_to(us, m)
            &&& to != rook_from(us, m)
        }
    }

    /// The position before `m`, given what `m` lost.
    pub open spec fn before(self, m: u16, u: Lost) -> Pos {
        let from = from_of(m);
        let to = to_of(m);
        let us = 1 - self.stm;
        let orig = if is_promotion(m) {
            PAWN as int
        } else {
            self.at[to]->0.kind
        };
        let back = self.at.update(to, None).update(from, man(us, orig));
        let castled = if castles(m) {
            back.update(rook_to(us, m), None).update(rook_from(us, m), man(us, ROOK as int))
        } else {
            back
        };
        let at = if u.captured == 6 {
            castled
        } else if flag_of(m) == F_EP {
            castled.update(to - 8 * forward(us), man(self.stm, PAWN as int))
        } else {
            castled.update(to, man(self.stm, u.captured))
        };
        Pos { at, stm: us, rights: u.rights, ep: u.ep, halfmove: u.halfmove }
    }
}

impl Pos {
    /// The first king is the one that `king_square` names.
    pub proof fn lemma_first_king(self, c: int, s: int)
        requires
            self.is_first_king(c, s),
        ensures
            self.king_square(c) == s,
    {
        let k = self.king_square(c);
        assert(self.is_first_king(c, k));
        if k < s {
            assert(self.at[k] != man(c, KING as int));
        }
        if s < k {
            assert(self.at[s] != man(c, KING as int));
        }
    }
}

/// Taking a move back restores the position it was made in, for every playable move that
/// promotes nothing but a pawn.
pub proof fn law_unmake_restores(p: Pos, m: u16)
    requires
        p.wf(),
        p.playable(m),
        is_promotion(m) ==> p.at[from_of(m)]->0.kind == PAWN,
    ensures
        p.after(m).wf(),
        p.after(m).undoable(m, p.lost(m)),
        p.after(m).before(m, p.lost(m)) == p,
{
    let q = p.after(m);
    assert(q.before(m, p.lost(m)).at =~= p.at);
}

} // verus!
