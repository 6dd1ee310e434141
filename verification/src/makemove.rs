//! Making a move on the board and taking it back.
use vstd::prelude::*;

use crate::bits::{group_bits, lemma_zero, on};
use crate::board::{rights_of, Board, Undo};
use crate::geometry::is_square;
use crate::moves::{
    mv_flag, mv_from, mv_is_promo, mv_promo_piece, mv_to, F_DOUBLE, F_EP, F_KCASTLE, F_QCASTLE,
    PAWN, ROOK, WHITE,
};
use crate::position::{man, Pos};

verus! {

broadcast use group_bits;

/// The rights that survive a move which leaves or reaches `sq`.
fn castle_mask(sq: u32) -> (r: u8)
    ensures
        (r & 1u8 != 0) == (sq != 4 && sq != 7),
        (r & 2u8 != 0) == (sq != 4 && sq != 0),
        (r & 4u8 != 0) == (sq != 60 && sq != 63),
        (r & 8u8 != 0) == (sq != 60 && sq != 56),
{
    let r: u8 = if sq == 0 {
        13
    } else if sq == 4 {
        12
    } else if sq == 7 {
        14
    } else if sq == 56 {
        7
    } else if sq == 60 {
        3
    } else if sq == 63 {
        11
    } else {
        15
    };
    assert((r & 1u8 != 0) == (r % 2 == 1) && (r & 2u8 != 0) == (r / 2 % 2 == 1) && (r & 4u8 != 0)
        == (r / 4 % 2 == 1) && (r & 8u8 != 0) == (r / 8 % 2 == 1)) by (bit_vector);
    r
}

proof fn lemma_masked(c: u8, a: u8, b: u8)
    requires
        c < 16,
    ensures
        c & (a & b) < 16,
        ((c & (a & b)) & 1u8 != 0) == (c & 1u8 != 0 && a & 1u8 != 0 && b & 1u8 != 0),
        ((c & (a & b)) & 2u8 != 0) == (c & 2u8 != 0 && a & 2u8 != 0 && b & 2u8 != 0),
        ((c & (a & b)) & 4u8 != 0) == (c & 4u8 != 0 && a & 4u8 != 0 && b & 4u8 != 0),
        ((c & (a & b)) & 8u8 != 0) == (c & 8u8 != 0 && a & 8u8 != 0 && b & 8u8 != 0),
{
    assert(c & (a & b) < 16 && ((c & (a & b)) & 1u8 != 0) == (c & 1u8 != 0 && a & 1u8 != 0 && b
        & 1u8 != 0) && ((c & (a & b)) & 2u8 != 0) == (c & 2u8 != 0 && a & 2u8 != 0 && b & 2u8 != 0)
        && ((c & (a & b)) & 4u8 != 0) == (c & 4u8 != 0 && a & 4u8 != 0 && b & 4u8 != 0) && ((c & (a
        & b)) & 8u8 != 0) == (c & 8u8 != 0 && a & 8u8 != 0 && b & 8u8 != 0)) by (bit_vector)
        requires
            c < 16,
    ;
}

impl Board {
    /// Takes the man of colour `c` and kind `k` off `sq`.
    pub(crate) fn lift(&mut self, c: usize, k: usize, sq: u32)
        requires
            old(self).wf(),
            c < 2,
            k < 6,
            sq < 64,
            old(self)@.at[sq as int] == man(c as int, k as int),
        ensures
            final(self).wf(),
            final(self)@ == (Pos { at: old(self)@.at.update(sq as int, None), ..old(self)@ }),
            final(self).castle == old(self).castle,
    {
        let b: u64 = 1u64 << sq;
        proof {
            self.lemma_fields();
        }
        self.pieces[k] = self.pieces[k] & !b;
        self.colors[c] = self.colors[c] & !b;
        self.mailbox[sq as usize] = 6;
        proof {
            old(self).lemma_fields();
            assert(self@.at =~= old(self)@.at.update(sq as int, None)) by {
                assert forall|s: int| is_square(s) implies self@.at[s] == old(self)@.at.update(
                    sq as int,
                    None,
                )[s] by {
                    assert(on(self.colors@[0], s) == (on(old(self).colors@[0], s) && !(c == 0 && s
                        == sq)));
                }
            }
        }
    }

    /// Puts a man of colour `c` and kind `k` on the free square `sq`.
    pub(crate) fn place(&mut self, c: usize, k: usize, sq: u32)
        requires
            old(self).wf(),
            c < 2,
            k < 6,
            sq < 64,
            old(self)@.at[sq as int] is None,
        ensures
            final(self).wf(),
            final(self)@ == (Pos {
                at: old(self)@.at.update(sq as int, man(c as int, k as int)),
                ..old(self)@
            }),
            final(self).castle == old(self).castle,
    {
        let b: u64 = 1u64 << sq;
        proof {
            self.lemma_fields();
        }
        self.pieces[k] = self.pieces[k] | b;
        self.colors[c] = self.colors[c] | b;
        self.mailbox[sq as usize] = k as u8;
        proof {
            old(self).lemma_fields();
            assert(self@.at =~= old(self)@.at.update(sq as int, man(c as int, k as int))) by {
                assert forall|s: int| is_square(s) implies self@.at[s] == old(self)@.at.update(
                    sq as int,
                    man(c as int, k as int),
                )[s] by {
                    assert(on(self.colors@[0], s) == (on(old(self).colors@[0], s) || (c == 0 && s
                        == sq)));
                }
            }
        }
    }

    /// Whether a pawn of colour `c` stands beside `sq` on the same rank.
    pub(crate) fn pawn_beside(&self, c: usize, sq: u32) -> (r: bool)
        requires
            self.wf(),
            c < 2,
            sq < 64,
        ensures
            r == Pos::pawn_beside(self@.at, c as int, sq as int),
    {
        let file: u32 = sq % 8;
        let mut beside: u64 = 0;
        if file > 0 {
            beside = beside | (1u64 << (sq - 1));
        }
        if file < 7 {
            beside = beside | (1u64 << (sq + 1));
        }
        let hits = self.pieces[PAWN] & self.colors[c] & beside;
        proof {
            self.lemma_fields();
            lemma_zero(hits);
            assert forall|s: int| is_square(s) implies #[trigger] on(hits, s) == (self@.at[s] == man(
                c as int,
                PAWN as int,
            ) && ((file > 0 && s == sq - 1) || (file < 7 && s == sq + 1))) by {}
            if hits == 0 {
                assert(!on(hits, sq - 1));
                assert(!on(hits, sq + 1));
            }
        }
        hits != 0
    }

    /// Plays `m` and returns what [`Board::unmake`] needs to take it back.
    pub fn make(&mut self, m: u16) -> (u: Undo)
        requires
            old(self).wf(),
            old(self)@.playable(m),
        ensures
            final(self).wf(),
            final(self)@ == old(self)@.after(m),
            u.wf(),
            u@ == old(self)@.lost(m),
    {
        let ghost p = self@;
        let us = self.stm;
        let them = 1 - us;
        let from = mv_from(m);
        let to = mv_to(m);
        let flag = mv_flag(m);
        proof {
            self.lemma_fields();
        }
        let mut u = Undo {
            captured: 6,
            castle: self.castle,
            ep: self.ep,
            halfmove: self.halfmove,
        };
        let moving = self.piece_at(from);

        // remove captured
        if flag == F_EP {
            let cap_sq: u32 = if us == WHITE {
                to - 8
            } else {
                to + 8
            };
            self.lift(them, PAWN, cap_sq);
            u.captured = PAWN as u8;
        } else {
            let tbit: u64 = 1u64 << to;
            let hit = self.colors[them] & tbit;
            proof {
                lemma_zero(hit);
                assert(on(hit, to as int) == p.owns(them as int, to as int));
            }
            if hit != 0 {
                let cp = self.piece_at(to);
                self.lift(them, cp, to);
                u.captured = cp as u8;
            }
        }

        // move the piece
        let ghost q = self@;
        assert(q.at[to as int] is None);
        self.lift(us, moving, from);
        let landed = if mv_is_promo(m) {
            mv_promo_piece(m)
        } else {
            moving
        };
        self.place(us, landed, to);

        // rook for castling
        if flag == F_KCASTLE {
            let (rf, rt): (u32, u32) = if us == WHITE {
                (7, 5)
            } else {
                (63, 61)
            };
            self.lift(us, ROOK, rf);
            self.place(us, ROOK, rt);
        } else if flag == F_QCASTLE {
            let (rf, rt): (u32, u32) = if us == WHITE {
                (0, 3)
            } else {
                (56, 59)
            };
            self.lift(us, ROOK, rf);
            self.place(us, ROOK, rt);
        }
        assert(self@.at =~= p.at_after(m));

        let kept_from = castle_mask(from);
        let kept_to = castle_mask(to);
        proof {
            lemma_masked(self.castle, kept_from, kept_to);
        }
        let castle = self.castle & (kept_from & kept_to);
        // Only an en passant square that a pawn can capture into is recorded: two positions
        // with the same moves are the same position and must hash alike.
        let ep: u8 = if flag == F_DOUBLE && self.pawn_beside(them, to) {
            crossed(us, from)
        } else {
            64
        };
        let halfmove: u8 = if moving == PAWN || u.captured != 6 {
            0
        } else if self.halfmove < 255 {
            self.halfmove + 1
        } else {
            255
        };
        self.set_state(them, castle, ep, halfmove);
        assert(self@ =~= p.after(m));
        u
    }

    /// Replaces everything but the men.
    fn set_state(&mut self, stm: usize, castle: u8, ep: u8, halfmove: u8)
        requires
            old(self).wf(),
            stm < 2,
            castle < 16,
            ep <= 64,
        ensures
            final(self).wf(),
            final(self)@ == (Pos {
                at: old(self)@.at,
                stm: stm as int,
                rights: rights_of(castle),
                ep: ep as int,
                halfmove: halfmove as int,
            }),
    {
        let ghost at = self@.at;
        self.stm = stm;
        self.castle = castle;
        self.ep = ep;
        self.halfmove = halfmove;
        assert(self@.at =~= at);
    }

    /// Takes back `m`, which [`Board::make`] answered with `u`.
    pub fn unmake(&mut self, m: u16, u: Undo)
        requires
            old(self).wf(),
            u.wf(),
            old(self)@.undoable(m, u@),
        ensures
            final(self).wf(),
            final(self)@ == old(self)@.before(m, u@),
    {
        let ghost q = self@;
        let them = self.stm;
        let us = 1 - them;
        self.stm = us;
        let from = mv_from(m);
        let to = mv_to(m);
        let flag = mv_flag(m);
        proof {
            self.lemma_fields();
        }
        let landed = self.piece_at(to);
        let orig = if mv_is_promo(m) {
            PAWN
        } else {
            landed
        };
        assert(self@.at =~= q.at);
        self.lift(us, landed, to);
        self.place(us, orig, from);

        if flag == F_KCASTLE {
            let (rf, rt): (u32, u32) = if us == WHITE {
                (7, 5)
            } else {
                (63, 61)
            };
            self.lift(us, ROOK, rt);
            self.place(us, ROOK, rf);
        } else if flag == F_QCASTLE {
            let (rf, rt): (u32, u32) = if us == WHITE {
                (0, 3)
            } else {
                (56, 59)
            };
            self.lift(us, ROOK, rt);
            self.place(us, ROOK, rf);
        }
        if u.captured != 6 {
            if flag == F_EP {
                let cap_sq: u32 = if us == WHITE {
                    to - 8
                } else {
                    to + 8
                };
                self.place(them, PAWN, cap_sq);
            } else {
                self.place(them, u.captured as usize, to);
            }
        }
        assert(self@.at =~= q.before(m, u@).at);
        self.set_state(us, u.castle, u.ep, u.halfmove);
    }
}

/// The square in front of a pawn of colour `us` on `from`; none at the edge of the board.
fn crossed(us: usize, from: u32) -> (r: u8)
    requires
        us < 2,
        from < 64,
    ensures
        r == if us == 0 {
            if from < 56 {
                from + 8
            } else {
                64
            }
        } else {
            if from >= 8 {
                from - 8
            } else {
                64
            }
        },
{
    if us == WHITE {
        if from < 56 {
            (from + 8) as u8
        } else {
            64
        }
    } else {
        if from >= 8 {
            (from - 8) as u8
        } else {
            64
        }
    }
}

} // verus!
