//! Pseudo-legal move generation.
use vstd::prelude::*;

use crate::bits::{group_bits, lemma_drop_lowest, lemma_lowest, lemma_zero, on};
use crate::board::{lemma_squares, Board};
use crate::geometry::{is_square, pawn_step};
use crate::moves::{
    encode, mv, BISHOP, F_CAPTURE, F_DOUBLE, F_EP, F_KCASTLE, F_PROMO_N, F_QCASTLE, F_QUIET, KING,
    KNIGHT, PAWN, QUEEN, ROOK, WHITE,
};
use crate::position::{man, Pos};
use crate::tables::{bishop_att, queen_att, rook_att, Tables};

verus! {

broadcast use group_bits;

impl Pos {
    /// Whether a man of kind `k` on `s` that belongs to the side to move has `x` as a target.
    pub open spec fn target(self, caps: bool, k: int, s: int, x: int) -> bool {
        &&& self.attacks(self.stm, k, s, x)
        &&& !self.owns(self.stm, x)
        &&& caps ==> self.owns(1 - self.stm, x)
    }

    pub open spec fn step_flag(self, x: int) -> int {
        if self.owns(1 - self.stm, x) {
            F_CAPTURE as int
        } else {
            F_QUIET as int
        }
    }

    /// The moves of a man of kind `k` on `s`, by ascending target, to the squares below `n`.
    pub open spec fn step_moves(self, caps: bool, k: int, s: int, n: int) -> Seq<u16>
        decreases n,
    {
        if n <= 0 {
            seq![]
        } else if self.target(caps, k, s, n - 1) {
            self.step_moves(caps, k, s, n - 1).push(encode(s, n - 1, self.step_flag(n - 1)))
        } else {
            self.step_moves(caps, k, s, n - 1)
        }
    }

    /// The moves of the men of kind `k`, by ascending square, that stand below `n`.
    pub open spec fn piece_moves(self, caps: bool, k: int, n: int) -> Seq<u16>
        decreases n,
    {
        if n <= 0 {
            seq![]
        } else if self.at[n - 1] == man(self.stm, k) {
            self.piece_moves(caps, k, n - 1) + self.step_moves(caps, k, n - 1, 64)
        } else {
            self.piece_moves(caps, k, n - 1)
        }
    }

    /// The promotions to knight, bishop, rook and queen, with `flag` for the knight.
    pub open spec fn promotions(s: int, x: int, flag: int) -> Seq<u16> {
        seq![
            encode(s, x, flag),
            encode(s, x, flag + 1),
            encode(s, x, flag + 2),
            encode(s, x, flag + 3),
        ]
    }

    pub open spec fn pawn_pushes(self, caps: bool, s: int) -> Seq<u16> {
        let x = self.push(s);
        if !self.free(x) || (caps && !self.about_to_promote(s)) {
            seq![]
        } else if self.about_to_promote(s) {
            Self::promotions(s, x, F_PROMO_N as int)
        } else if self.on_start_rank(s) && self.free(self.push(x)) {
            seq![encode(s, x, F_QUIET as int), encode(s, self.push(x), F_DOUBLE as int)]
        } else {
            seq![encode(s, x, F_QUIET as int)]
        }
    }

    /// The captures of a pawn on `s`, by ascending target, on the squares below `n`.
    pub open spec fn pawn_captures(self, s: int, n: int) -> Seq<u16>
        decreases n,
    {
        if n <= 0 {
            seq![]
        } else if pawn_step(self.stm, s, n - 1) && self.owns(1 - self.stm, n - 1) {
            if self.about_to_promote(s) {
                self.pawn_captures(s, n - 1) + Self::promotions(s, n - 1, 12)
            } else {
                self.pawn_captures(s, n - 1).push(encode(s, n - 1, F_CAPTURE as int))
            }
        } else {
            self.pawn_captures(s, n - 1)
        }
    }

    pub open spec fn pawn_ep(self, s: int) -> Seq<u16> {
        if self.ep < 64 && pawn_step(self.stm, s, self.ep) {
            seq![encode(s, self.ep, F_EP as int)]
        } else {
            seq![]
        }
    }

    /// The moves of a pawn on `s`: pushes, captures, en passant.
    pub open spec fn pawn_moves_from(self, caps: bool, s: int) -> Seq<u16> {
        self.pawn_pushes(caps, s) + self.pawn_captures(s, 64) + self.pawn_ep(s)
    }

    /// The moves of the pawns, by ascending square, that stand below `n`.
    pub open spec fn pawn_moves(self, caps: bool, n: int) -> Seq<u16>
        decreases n,
    {
        if n <= 0 {
            seq![]
        } else if self.at[n - 1] == man(self.stm, PAWN as int) {
            self.pawn_moves(caps, n - 1) + self.pawn_moves_from(caps, n - 1)
        } else {
            self.pawn_moves(caps, n - 1)
        }
    }

    pub open spec fn kingside_move(self) -> Seq<u16> {
        let h = Self::home(self.stm);
        if self.can_castle(true) {
            seq![encode(h + 4, h + 6, F_KCASTLE as int)]
        } else {
            seq![]
        }
    }

    pub open spec fn queenside_move(self) -> Seq<u16> {
        let h = Self::home(self.stm);
        if self.can_castle(false) {
            seq![encode(h + 4, h + 2, F_QCASTLE as int)]
        } else {
            seq![]
        }
    }

    /// The pseudo-legal moves in the order in which they are generated: pawns, knights,
    /// king, bishops, rooks, queens, castling. With `caps` only captures and promotions.
    pub open spec fn generated(self, caps: bool) -> Seq<u16> {
        let men = self.pawn_moves(caps, 64) + self.piece_moves(caps, KNIGHT as int, 64)
            + self.piece_moves(caps, KING as int, 64) + self.piece_moves(caps, BISHOP as int, 64)
            + self.piece_moves(caps, ROOK as int, 64) + self.piece_moves(caps, QUEEN as int, 64);
        if caps {
            men
        } else {
            men + self.kingside_move() + self.queenside_move()
        }
    }

    /// Every pawn of the side to move has a square in front of it.
    pub open spec fn pawns_can_push(self) -> bool {
        forall|s: int|
            is_square(s) && #[trigger] self.at[s] == man(self.stm, PAWN as int) ==> is_square(
                self.push(s),
            )
    }

    proof fn lemma_step_skip(self, caps: bool, k: int, s: int, a: int, b: int)
        requires
            0 <= a <= b,
            forall|x: int| a <= x < b ==> !#[trigger] self.target(caps, k, s, x),
        ensures
            self.step_moves(caps, k, s, b) == self.step_moves(caps, k, s, a),
        decreases b,
    {
        if a < b {
            self.lemma_step_skip(caps, k, s, a, b - 1);
        }
    }

    proof fn lemma_piece_skip(self, caps: bool, k: int, a: int, b: int)
        requires
            0 <= a <= b,
            forall|s: int| a <= s < b ==> #[trigger] self.at[s] != man(self.stm, k),
        ensures
            self.piece_moves(caps, k, b) == self.piece_moves(caps, k, a),
        decreases b,
    {
        if a < b {
            self.lemma_piece_skip(caps, k, a, b - 1);
        }
    }

    proof fn lemma_captures_skip(self, s: int, a: int, b: int)
        requires
            0 <= a <= b,
            forall|x: int|
                a <= x < b ==> !(#[trigger] pawn_step(self.stm, s, x) && self.owns(
                    1 - self.stm,
                    x,
                )),
        ensures
            self.pawn_captures(s, b) == self.pawn_captures(s, a),
        decreases b,
    {
        if a < b {
            self.lemma_captures_skip(s, a, b - 1);
        }
    }

    proof fn lemma_pawn_skip(self, caps: bool, a: int, b: int)
        requires
            0 <= a <= b,
            forall|s: int| a <= s < b ==> #[trigger] self.at[s] != man(self.stm, PAWN as int),
        ensures
            self.pawn_moves(caps, b) == self.pawn_moves(caps, a),
        decreases b,
    {
        if a < b {
            self.lemma_pawn_skip(caps, a, b - 1);
        }
    }
}

/// The lowest square of `rest`, and `rest` without it.
#[inline(always)]
fn pop(rest: &mut u64) -> (sq: u32)
    requires
        *old(rest) != 0,
    ensures
        sq < 64,
        on(*old(rest), sq as int),
        forall|s: int| 0 <= s < sq ==> !on(*old(rest), s),
        forall|s: int| #[trigger] on(*final(rest), s) == (on(*old(rest), s) && s != sq),
{
    proof {
        lemma_lowest(*rest);
        lemma_drop_lowest(*rest);
    }
    let sq = rest.trailing_zeros();
    *rest = *rest & (*rest - 1);
    sq
}

impl Board {
    /// Appends the four promotions of a pawn.
    fn push_promotions(out: &mut Vec<u16>, from: u32, to: u32, flag: u16)
        requires
            from < 64,
            to < 64,
            flag <= 12,
        ensures
            final(out)@ == old(out)@ + Pos::promotions(from as int, to as int, flag as int),
    {
        out.push(mv(from, to, flag));
        out.push(mv(from, to, flag + 1));
        out.push(mv(from, to, flag + 2));
        out.push(mv(from, to, flag + 3));
        assert(out@ =~= old(out)@ + Pos::promotions(from as int, to as int, flag as int));
    }

    /// Appends the moves of the pawn on `from`.
    fn push_pawn<const CAPS: bool>(&self, t: &Tables, out: &mut Vec<u16>, from: u32)
        requires
            t.wf(),
            self.wf(),
            from < 64,
            self@.at[from as int] == man(self@.stm, PAWN as int),
            is_square(self@.push(from as int)),
        ensures
            final(out)@ == old(out)@ + self@.pawn_moves_from(CAPS, from as int),
    {
        let ghost p = self@;
        let us = self.stm;
        let opp = self.colors[1 - us];
        let occ = self.occ();
        let rank: u32 = from / 8;
        let (to, promotes, starts): (u32, bool, bool) = if us == WHITE {
            (from + 8, rank == 6, rank == 1)
        } else {
            (from - 8, rank == 1, rank == 6)
        };
        proof {
            self.lemma_fields();
        }
        let ahead = occ & (1u64 << to);
        proof {
            lemma_zero(ahead);
            assert(on(ahead, to as int) == p.occ()(to as int));
        }
        if ahead == 0 && (!CAPS || promotes) {
            if promotes {
                Self::push_promotions(out, from, to, F_PROMO_N);
            } else {
                out.push(mv(from, to, F_QUIET));
                if starts {
                    let to2: u32 = if us == WHITE {
                        to + 8
                    } else {
                        to - 8
                    };
                    let ahead2 = occ & (1u64 << to2);
                    proof {
                        lemma_zero(ahead2);
                        assert(on(ahead2, to2 as int) == p.occ()(to2 as int));
                    }
                    if ahead2 == 0 {
                        out.push(mv(from, to2, F_DOUBLE));
                    }
                }
            }
        }
        assert(out@ =~= old(out)@ + p.pawn_pushes(CAPS, from as int));
        let ghost pushed = out@;
        let mut caps: u64 = t.pawn[us][from as usize] & opp;
        let ghost mut c: int = 0;
        proof {
            assert forall|s: int| is_square(s) implies #[trigger] on(caps, s) == (pawn_step(
                p.stm,
                from as int,
                s,
            ) && p.owns(1 - p.stm, s) && s >= c) by {
                assert(on(t.pawn@[us as int]@[from as int], s) == pawn_step(
                    us as int,
                    from as int,
                    s,
                ));
            }
        }
        while caps != 0
            invariant
                p == self@,
                self.wf(),
                from < 64,
                promotes == p.about_to_promote(from as int),
                0 <= c <= 64,
                forall|s: int|
                    is_square(s) ==> #[trigger] on(caps, s) == (pawn_step(p.stm, from as int, s)
                        && p.owns(1 - p.stm, s) && s >= c),
                out@ == pushed + p.pawn_captures(from as int, c),
            decreases 64 - c,
        {
            let ghost before = caps;
            let ghost sofar = out@;
            let x = pop(&mut caps);
            proof {
                assert forall|s: int| c <= s < x implies !(#[trigger] pawn_step(
                    p.stm,
                    from as int,
                    s,
                ) && p.owns(1 - p.stm, s)) by {
                    assert(!on(before, s));
                }
                p.lemma_captures_skip(from as int, c, x as int);
            }
            if promotes {
                Self::push_promotions(out, from, x, F_PROMO_N + F_CAPTURE);
            } else {
                out.push(mv(from, x, F_CAPTURE));
            }
            proof {
                c = x + 1;
                assert(out@ =~= pushed + p.pawn_captures(from as int, c));
            }
        }
        proof {
            lemma_zero(caps);
            assert forall|s: int| c <= s < 64 implies !(#[trigger] pawn_step(p.stm, from as int, s)
                && p.owns(1 - p.stm, s)) by {
                assert(!on(caps, s));
            }
            p.lemma_captures_skip(from as int, c, 64);
        }
        let ghost captured = out@;
        if self.ep < 64 {
            let ep = self.ep as u32;
            let hit = t.pawn[us][from as usize] & (1u64 << ep);
            proof {
                lemma_zero(hit);
                assert(on(t.pawn@[us as int]@[from as int], ep as int) == pawn_step(
                    us as int,
                    from as int,
                    ep as int,
                ));
                assert(on(hit, ep as int) == pawn_step(us as int, from as int, ep as int));
            }
            if hit != 0 {
                out.push(mv(from, ep, F_EP));
            }
        }
        assert(out@ =~= captured + p.pawn_ep(from as int));
        assert(out@ =~= old(out)@ + p.pawn_moves_from(CAPS, from as int));
    }

    /// Appends the moves of all pawns.
    fn push_pawns<const CAPS: bool>(&self, t: &Tables, out: &mut Vec<u16>)
        requires
            t.wf(),
            self.wf(),
            self@.pawns_can_push(),
        ensures
            final(out)@ == old(out)@ + self@.pawn_moves(CAPS, 64),
    {
        let ghost p = self@;
        let ghost start = out@;
        let mut rest: u64 = self.pieces[PAWN] & self.colors[self.stm];
        let ghost mut c: int = 0;
        proof {
            self.lemma_fields();
        }
        assert(out@ =~= start + p.pawn_moves(CAPS, 0));
        while rest != 0
            invariant
                t.wf(),
                self.wf(),
                p == self@,
                p.pawns_can_push(),
                0 <= c <= 64,
                forall|s: int|
                    is_square(s) ==> #[trigger] on(rest, s) == (p.at[s] == man(p.stm, PAWN as int)
                        && s >= c),
                out@ == start + p.pawn_moves(CAPS, c),
            decreases 64 - c,
        {
            let ghost before = rest;
            let from = pop(&mut rest);
            proof {
                assert forall|s: int| c <= s < from implies #[trigger] p.at[s] != man(
                    p.stm,
                    PAWN as int,
                ) by {
                    assert(!on(before, s));
                }
                p.lemma_pawn_skip(CAPS, c, from as int);
            }
            self.push_pawn::<CAPS>(t, out, from);
            proof {
                c = from + 1;
                assert(out@ =~= start + p.pawn_moves(CAPS, c));
            }
        }
        proof {
            lemma_zero(rest);
            assert forall|s: int| c <= s < 64 implies #[trigger] p.at[s] != man(
                p.stm,
                PAWN as int,
            ) by {
                assert(!on(rest, s));
            }
            p.lemma_pawn_skip(CAPS, c, 64);
        }
    }

    /// Appends the moves of a man of kind `k` on `from` to the squares of `targets`.
    fn push_steps<const CAPS: bool>(
        &self,
        out: &mut Vec<u16>,
        Ghost(k): Ghost<int>,
        from: u32,
        targets: u64,
    )
        requires
            self.wf(),
            from < 64,
            forall|x: int|
                is_square(x) ==> #[trigger] on(targets, x) == self@.target(
                    CAPS,
                    k,
                    from as int,
                    x,
                ),
        ensures
            final(out)@ == old(out)@ + self@.step_moves(CAPS, k, from as int, 64),
    {
        let ghost p = self@;
        let ghost start = out@;
        let opp = self.colors[1 - self.stm];
        let mut a: u64 = targets;
        let ghost mut c: int = 0;
        assert(out@ =~= start + p.step_moves(CAPS, k, from as int, 0));
        while a != 0
            invariant
                self.wf(),
                p == self@,
                from < 64,
                opp == self.colors@[1 - self.stm],
                0 <= c <= 64,
                forall|x: int|
                    is_square(x) ==> #[trigger] on(a, x) == (p.target(CAPS, k, from as int, x) && x
                        >= c),
                out@ == start + p.step_moves(CAPS, k, from as int, c),
            decreases 64 - c,
        {
            let ghost before = a;
            let to = pop(&mut a);
            let there = opp & (1u64 << to);
            proof {
                self.lemma_fields();
                lemma_zero(there);
                assert(on(there, to as int) == p.owns(1 - p.stm, to as int));
                assert forall|x: int| c <= x < to implies !#[trigger] p.target(CAPS, k, from as int, x) by {
                    assert(!on(before, x));
                }
                p.lemma_step_skip(CAPS, k, from as int, c, to as int);
            }
            let fl = if there != 0 {
                F_CAPTURE
            } else {
                F_QUIET
            };
            out.push(mv(from, to, fl));
            proof {
                c = to + 1;
                assert(out@ =~= start + p.step_moves(CAPS, k, from as int, c));
            }
        }
        proof {
            lemma_zero(a);
            assert forall|x: int| c <= x < 64 implies !#[trigger] p.target(CAPS, k, from as int, x) by {
                assert(!on(a, x));
            }
            p.lemma_step_skip(CAPS, k, from as int, c, 64);
        }
    }

    /// Appends the moves of the men of kind `k`, which is not a pawn.
    fn push_pieces<const CAPS: bool>(&self, t: &Tables, out: &mut Vec<u16>, k: usize)
        requires
            t.wf(),
            self.wf(),
            1 <= k < 6,
        ensures
            final(out)@ == old(out)@ + self@.piece_moves(CAPS, k as int, 64),
    {
        let ghost p = self@;
        let ghost start = out@;
        let own = self.colors[self.stm];
        let opp = self.colors[1 - self.stm];
        let occ = self.occ();
        let mut rest: u64 = self.pieces[k] & own;
        let ghost mut c: int = 0;
        proof {
            self.lemma_fields();
            lemma_squares(occ, p);
        }
        assert(out@ =~= start + p.piece_moves(CAPS, k as int, 0));
        while rest != 0
            invariant
                t.wf(),
                self.wf(),
                p == self@,
                1 <= k < 6,
                own == self.colors@[self.stm as int],
                opp == self.colors@[1 - self.stm],
                crate::tables::squares(occ) == p.occ(),
                0 <= c <= 64,
                forall|s: int|
                    is_square(s) ==> #[trigger] on(rest, s) == (p.at[s] == man(p.stm, k as int) && s
                        >= c),
                out@ == start + p.piece_moves(CAPS, k as int, c),
            decreases 64 - c,
        {
            let ghost before = rest;
            let from = pop(&mut rest);
            let reach: u64 = if k == KNIGHT {
                t.knight[from as usize]
            } else if k == KING {
                t.king[from as usize]
            } else if k == BISHOP {
                bishop_att(t, from, occ)
            } else if k == ROOK {
                rook_att(t, from, occ)
            } else {
                queen_att(t, from, occ)
            };
            let mut a: u64 = reach & !own;
            if CAPS {
                a = a & opp;
            }
            proof {
                self.lemma_fields();
                assert forall|x: int| is_square(x) implies #[trigger] on(a, x) == p.target(
                    CAPS,
                    k as int,
                    from as int,
                    x,
                ) by {
                    assert(on(reach, x) == p.attacks(p.stm, k as int, from as int, x));
                }
                assert forall|s: int| c <= s < from implies #[trigger] p.at[s] != man(
                    p.stm,
                    k as int,
                ) by {
                    assert(!on(before, s));
                }
                p.lemma_piece_skip(CAPS, k as int, c, from as int);
            }
            self.push_steps::<CAPS>(out, Ghost(k as int), from, a);
            proof {
                c = from + 1;
                assert(out@ =~= start + p.piece_moves(CAPS, k as int, c));
            }
        }
        proof {
            lemma_zero(rest);
            assert forall|s: int| c <= s < 64 implies #[trigger] p.at[s] != man(
                p.stm,
                k as int,
            ) by {
                assert(!on(rest, s));
            }
            p.lemma_piece_skip(CAPS, k as int, c, 64);
        }
    }

    /// Appends the castling moves.
    fn push_castles(&self, t: &Tables, out: &mut Vec<u16>)
        requires
            t.wf(),
            self.wf(),
        ensures
            final(out)@ == old(out)@ + self@.kingside_move() + self@.queenside_move(),
    {
        let ghost p = self@;
        let us = self.stm;
        let them = 1 - us;
        let occ = self.occ();
        let (ks_bit, qs_bit, h): (u8, u8, u32) = if us == WHITE {
            (1, 2, 0)
        } else {
            (4, 8, 56)
        };
        let kpath = occ & ((1u64 << (h + 5)) | (1u64 << (h + 6)));
        let qpath = occ & ((1u64 << (h + 3)) | (1u64 << (h + 2)) | (1u64 << (h + 1)));
        proof {
            self.lemma_fields();
            lemma_zero(kpath);
            lemma_zero(qpath);
            assert forall|s: int| is_square(s) implies #[trigger] on(kpath, s) == (p.occ()(s) && (s
                == h + 5 || s == h + 6)) by {}
            assert forall|s: int| is_square(s) implies #[trigger] on(qpath, s) == (p.occ()(s) && (s
                == h + 1 || s == h + 2 || s == h + 3)) by {}
            if kpath == 0 {
                assert(!on(kpath, h + 5) && !on(kpath, h + 6));
            }
            if qpath == 0 {
                assert(!on(qpath, h + 1) && !on(qpath, h + 2) && !on(qpath, h + 3));
            }
        }
        if self.castle & ks_bit != 0 && kpath == 0 && !self.attacked(t, h + 4, them)
            && !self.attacked(t, h + 5, them) && !self.attacked(t, h + 6, them) {
            out.push(mv(h + 4, h + 6, F_KCASTLE));
        }
        assert(out@ =~= old(out)@ + p.kingside_move());
        if self.castle & qs_bit != 0 && qpath == 0 && !self.attacked(t, h + 4, them)
            && !self.attacked(t, h + 3, them) && !self.attacked(t, h + 2, them) {
            out.push(mv(h + 4, h + 2, F_QCASTLE));
        }
        assert(out@ =~= old(out)@ + p.kingside_move() + p.queenside_move());
    }

    /// The pseudo-legal moves; with `CAPS` only captures and promotions.
    pub fn gen_list<const CAPS: bool>(&self, t: &Tables) -> (out: Vec<u16>)
        requires
            t.wf(),
            self.wf(),
            self@.pawns_can_push(),
        ensures
            out@ == self@.generated(CAPS),
    {
        let mut out: Vec<u16> = Vec::new();
        self.push_pawns::<CAPS>(t, &mut out);
        self.push_pieces::<CAPS>(t, &mut out, KNIGHT);
        self.push_pieces::<CAPS>(t, &mut out, KING);
        self.push_pieces::<CAPS>(t, &mut out, BISHOP);
        self.push_pieces::<CAPS>(t, &mut out, ROOK);
        self.push_pieces::<CAPS>(t, &mut out, QUEEN);
        assert(out@ =~= self@.pawn_moves(CAPS, 64) + self@.piece_moves(CAPS, KNIGHT as int, 64)
            + self@.piece_moves(CAPS, KING as int, 64) + self@.piece_moves(CAPS, BISHOP as int, 64)
            + self@.piece_moves(CAPS, ROOK as int, 64) + self@.piece_moves(
            CAPS,
            QUEEN as int,
            64,
        ));
        if CAPS {
            return out;
        }
        self.push_castles(t, &mut out);
        out
    }

    /// Writes the pseudo-legal moves into `out` and returns their number; with `CAPS` only
    /// captures and promotions.
    pub fn gen<const CAPS: bool>(&self, t: &Tables, out: &mut [u16; 256]) -> (n: usize)
        requires
            t.wf(),
            self.wf(),
            self@.pawns_can_push(),
            self@.generated(CAPS).len() <= 256,
        ensures
            n == self@.generated(CAPS).len(),
            final(out)@.take(n as int) == self@.generated(CAPS),
            final(out)@.skip(n as int) == old(out)@.skip(n as int),
    {
        let list = self.gen_list::<CAPS>(t);
        copy_moves(&list, out)
    }

    #[inline(always)]
    pub fn gen_moves(&self, t: &Tables, out: &mut [u16; 256]) -> (n: usize)
        requires
            t.wf(),
            self.wf(),
            self@.pawns_can_push(),
            self@.generated(false).len() <= 256,
        ensures
            n == self@.generated(false).len(),
            final(out)@.take(n as int) == self@.generated(false),
            final(out)@.skip(n as int) == old(out)@.skip(n as int),
    {
        self.gen::<false>(t, out)
    }

    #[inline(always)]
    pub fn gen_caps(&self, t: &Tables, out: &mut [u16; 256]) -> (n: usize)
        requires
            t.wf(),
            self.wf(),
            self@.pawns_can_push(),
            self@.generated(true).len() <= 256,
        ensures
            n == self@.generated(true).len(),
            final(out)@.take(n as int) == self@.generated(true),
            final(out)@.skip(n as int) == old(out)@.skip(n as int),
    {
        self.gen::<true>(t, out)
    }
}

/// Copies `list` to the front of `out`.
pub(crate) fn copy_moves(list: &Vec<u16>, out: &mut [u16; 256]) -> (n: usize)
    requires
        list@.len() <= 256,
    ensures
        n == list@.len(),
        final(out)@.take(n as int) == list@,
        final(out)@.skip(n as int) == old(out)@.skip(n as int),
{
    let mut i: usize = 0;
    while i < list.len()
        invariant
            i <= list@.len() <= 256,
            forall|j: int| 0 <= j < i ==> out@[j] == list@[j],
            forall|j: int| i <= j < 256 ==> out@[j] == old(out)@[j],
        decreases list@.len() - i,
    {
        out[i] = list[i];
        i = i + 1;
    }
    assert(out@.take(i as int) =~= list@);
    assert(out@.skip(i as int) =~= old(out)@.skip(i as int));
    i
}

} // verus!
