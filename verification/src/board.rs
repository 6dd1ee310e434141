//! The board: bitboards by kind and by colour, and a mailbox that says what stands where.
use vstd::prelude::*;

use crate::bits::{group_bits, lemma_ext, lemma_lowest, lemma_zero, on};
use crate::geometry::{is_square, lemma_slides_back, opposite, slides};
use crate::moves::{BISHOP, KING, KNIGHT, PAWN, QUEEN, ROOK, WHITE};
use crate::position::{man, Lost, Man, Pos, Rights};
use crate::tables::{bishop_att, bishop_reaches, rook_att, rook_reaches, squares, Tables};

verus! {

broadcast use group_bits;

/// The board as it is handed to engines.
#[derive(Clone, Copy)]
pub struct Board {
    /// By kind, pawn to king.
    pub pieces: [u64; 6],
    pub colors: [u64; 2],
    /// The kind on each square, `6` for none.
    pub mailbox: [u8; 64],
    pub stm: usize,
    /// 1 = white kingside, 2 = white queenside, 4 and 8 the same for Black.
    pub castle: u8,
    /// The en passant square, `64` for none.
    pub ep: u8,
    pub halfmove: u8,
}

/// What [`Board::make`] gives [`Board::unmake`] to restore.
#[derive(Clone, Copy)]
pub struct Undo {
    /// The captured kind, `6` for none.
    pub captured: u8,
    pub castle: u8,
    pub ep: u8,
    pub halfmove: u8,
}

/// The rights that the four low bits of `castle` stand for.
pub open spec fn rights_of(castle: u8) -> Rights {
    Rights {
        wk: castle & 1u8 != 0,
        wq: castle & 2u8 != 0,
        bk: castle & 4u8 != 0,
        bq: castle & 8u8 != 0,
    }
}

impl Undo {
    pub open spec fn view(&self) -> Lost {
        Lost {
            captured: self.captured as int,
            rights: rights_of(self.castle),
            ep: self.ep as int,
            halfmove: self.halfmove as int,
        }
    }

    pub open spec fn wf(&self) -> bool {
        self.captured <= 6 && self.castle < 16 && self.ep <= 64
    }
}

impl Board {
    /// The man on `s` as the bitboards and the mailbox tell it.
    pub open spec fn man_on(&self, s: int) -> Option<Man> {
        if self.mailbox@[s] < 6 {
            man(
                if on(self.colors@[0], s) {
                    0int
                } else {
                    1int
                },
                self.mailbox@[s] as int,
            )
        } else {
            None
        }
    }

    /// The position that the board stands for.
    pub open spec fn view(&self) -> Pos {
        Pos {
            at: Seq::new(64, |s: int| self.man_on(s)),
            stm: self.stm as int,
            rights: rights_of(self.castle),
            ep: self.ep as int,
            halfmove: self.halfmove as int,
        }
    }

    /// The mailbox and the bitboards agree, and the small fields are in range.
    pub open spec fn wf(&self) -> bool {
        &&& forall|s: int| is_square(s) ==> #[trigger] self.mailbox@[s] <= 6
        &&& forall|s: int, k: int|
            is_square(s) && 0 <= k < 6 ==> #[trigger] on(self.pieces@[k], s) == (self.mailbox@[s]
                == k)
        &&& forall|s: int|
            is_square(s) ==> (#[trigger] on(self.colors@[0], s) || on(self.colors@[1], s)) == (
            self.mailbox@[s] < 6)
        &&& forall|s: int|
            is_square(s) ==> !(#[trigger] on(self.colors@[0], s) && on(self.colors@[1], s))
        &&& self.stm < 2
        &&& self.castle < 16
        &&& self.ep <= 64
    }

    /// The fields of a well-formed board read as the position.
    pub proof fn lemma_fields(&self)
        requires
            self.wf(),
        ensures
            self@.wf(),
            forall|s: int, k: int|
                is_square(s) && 0 <= k < 6 ==> #[trigger] on(self.pieces@[k], s) == (self@.at[s]
                    is Some && self@.at[s]->0.kind == k),
            forall|s: int, c: int|
                is_square(s) && 0 <= c < 2 ==> #[trigger] on(self.colors@[c], s) == self@.owns(
                    c,
                    s,
                ),
            forall|s: int|
                is_square(s) ==> #[trigger] self.mailbox@[s] == match self@.at[s] {
                    Some(m) => m.kind,
                    None => 6,
                },
    {
        assert forall|s: int, c: int| is_square(s) && 0 <= c < 2 implies #[trigger] on(
            self.colors@[c],
            s,
        ) == self@.owns(c, s) by {
            assert(on(self.colors@[0], s) || on(self.colors@[1], s) <==> self.mailbox@[s] < 6);
            assert(self@.at[s] == self.man_on(s));
        }
    }

    /// A well-formed board is determined by its position.
    pub proof fn lemma_view_injective(a: &Board, b: &Board)
        requires
            a.wf(),
            b.wf(),
            a@ == b@,
        ensures
            a == b,
    {
        a.lemma_fields();
        b.lemma_fields();
        assert forall|k: int| 0 <= k < 6 implies a.pieces@[k] == b.pieces@[k] by {
            assert forall|s: int| is_square(s) implies on(a.pieces@[k], s) == on(
                b.pieces@[k],
                s,
            ) by {
                assert(on(a.pieces@[k], s) == (a@.at[s] is Some && a@.at[s]->0.kind == k));
            }
            lemma_ext(a.pieces@[k], b.pieces@[k]);
        }
        assert forall|c: int| 0 <= c < 2 implies a.colors@[c] == b.colors@[c] by {
            assert forall|s: int| is_square(s) implies on(a.colors@[c], s) == on(
                b.colors@[c],
                s,
            ) by {
                assert(on(a.colors@[c], s) == a@.owns(c, s));
            }
            lemma_ext(a.colors@[c], b.colors@[c]);
        }
        assert forall|s: int| is_square(s) implies a.mailbox@[s] == b.mailbox@[s] by {
            assert(a.mailbox@[s] as int == match a@.at[s] {
                Some(m) => m.kind,
                None => 6,
            });
            assert(b.mailbox@[s] as int == match b@.at[s] {
                Some(m) => m.kind,
                None => 6,
            });
        }
        assert(a.pieces =~= b.pieces);
        assert(a.colors =~= b.colors);
        assert(a.mailbox =~= b.mailbox);
        lemma_rights_injective(a.castle, b.castle);
    }

    pub fn empty() -> (b: Board)
        ensures
            b.wf(),
            b@ == (Pos {
                at: Seq::new(64, |s: int| None),
                stm: 0,
                rights: Rights { wk: false, wq: false, bk: false, bq: false },
                ep: 64,
                halfmove: 0,
            }),
    {
        let b = Board {
            pieces: [0u64;6],
            colors: [0u64;2],
            mailbox: [6u8;64],
            stm: WHITE,
            castle: 0,
            ep: 64,
            halfmove: 0,
        };
        assert(0u8 & 1u8 == 0 && 0u8 & 2u8 == 0 && 0u8 & 4u8 == 0 && 0u8 & 8u8 == 0)
            by (bit_vector);
        assert(b@.at =~= Seq::new(64, |s: int| None));
        b
    }

    /// The occupied squares.
    #[inline(always)]
    pub fn occ(&self) -> (r: u64)
        ensures
            r == self.colors@[0] | self.colors@[1],
            self.wf() ==> forall|s: int| is_square(s) ==> #[trigger] on(r, s) == self@.occ()(s),
    {
        proof {
            if self.wf() {
                self.lemma_fields();
            }
        }
        self.colors[0] | self.colors[1]
    }

    /// The kind on `sq`, `6` for none.
    #[inline(always)]
    pub fn piece_at(&self, sq: u32) -> (r: usize)
        requires
            sq < 64,
        ensures
            r == self.mailbox@[sq as int],
            self.wf() ==> r == match self@.at[sq as int] {
                Some(m) => m.kind,
                None => 6,
            },
    {
        proof {
            if self.wf() {
                self.lemma_fields();
            }
        }
        self.mailbox[sq as usize] as usize
    }

    /// Whether a man of colour `by` attacks `sq`.
    pub fn attacked(&self, t: &Tables, sq: u32, by: usize) -> (r: bool)
        requires
            t.wf(),
            self.wf(),
            sq < 64,
            by < 2,
        ensures
            r == self@.attacked(sq as int, by as int),
    {
        let occ = self.occ();
        let them = self.colors[by];
        let ghost p = self@;
        let ghost x = sq as int;
        let ghost c = by as int;
        proof {
            self.lemma_fields();
            lemma_squares(occ, p);
        }
        let pawns = t.pawn[1 - by][sq as usize] & self.pieces[PAWN] & them;
        let knights = t.knight[sq as usize] & self.pieces[KNIGHT] & them;
        let kings = t.king[sq as usize] & self.pieces[KING] & them;
        let bq = (self.pieces[BISHOP] | self.pieces[QUEEN]) & them;
        let rq = (self.pieces[ROOK] | self.pieces[QUEEN]) & them;
        proof {
            lemma_zero(pawns);
            lemma_zero(knights);
            lemma_zero(kings);
            lemma_zero(bq);
            lemma_zero(rq);
        }
        if pawns != 0 {
            proof {
                let s = choose|s: int| is_square(s) && on(pawns, s);
                assert(p.attacked_from(x, c, s));
            }
            return true;
        }
        if knights != 0 {
            proof {
                let s = choose|s: int| is_square(s) && on(knights, s);
                assert(p.attacked_from(x, c, s));
            }
            return true;
        }
        if kings != 0 {
            proof {
                let s = choose|s: int| is_square(s) && on(kings, s);
                assert(p.attacked_from(x, c, s));
            }
            return true;
        }
        if bq != 0 {
            let hits = bishop_att(t, sq, occ) & bq;
            proof {
                lemma_zero(hits);
            }
            if hits != 0 {
                proof {
                    let s = choose|s: int| is_square(s) && on(hits, s);
                    lemma_reach_back(p.occ(), x, s);
                    assert(p.attacked_from(x, c, s));
                }
                return true;
            }
        }
        if rq != 0 {
            let hits = rook_att(t, sq, occ) & rq;
            proof {
                lemma_zero(hits);
            }
            if hits != 0 {
                proof {
                    let s = choose|s: int| is_square(s) && on(hits, s);
                    lemma_reach_back(p.occ(), x, s);
                    assert(p.attacked_from(x, c, s));
                }
                return true;
            }
        }
        proof {
            if p.attacked(x, c) {
                let s = choose|s: int| #[trigger] p.attacked_from(x, c, s);
                lemma_reach_back(p.occ(), s, x);
                assert(on(them, s));
                assert(!on(pawns, s));
                assert(!on(knights, s));
                assert(!on(kings, s));
                assert(on(bq, s) == (p.at[s]->0.kind == BISHOP || p.at[s]->0.kind == QUEEN));
                assert(on(rq, s) == (p.at[s]->0.kind == ROOK || p.at[s]->0.kind == QUEEN));
            }
        }
        false
    }

    /// The lowest square with a king of colour `c`, `64` without one.
    #[inline(always)]
    pub fn king_sq(&self, c: usize) -> (r: u32)
        requires
            self.wf(),
            c < 2,
        ensures
            r == self@.king_square(c as int),
            r < 64 <==> self@.has_king(c as int),
    {
        let kings = self.pieces[KING] & self.colors[c];
        proof {
            self.lemma_fields();
            lemma_zero(kings);
            let p = self@;
            if kings != 0 {
                lemma_lowest(kings);
                let s = vstd::std_specs::bits::u64_trailing_zeros(kings) as int;
                assert forall|u: int| 0 <= u < s implies #[trigger] p.at[u] != man(
                    c as int,
                    KING as int,
                ) by {
                    assert(!on(kings, u));
                }
                assert(p.at[s] == man(c as int, KING as int));
                assert(p.is_first_king(c as int, s));
                p.lemma_first_king(c as int, s);
            } else {
                vstd::std_specs::bits::axiom_u64_trailing_zeros(kings);
                assert forall|u: int| is_square(u) implies #[trigger] p.at[u] != man(
                    c as int,
                    KING as int,
                ) by {
                    assert(!on(kings, u));
                }
            }
        }
        kings.trailing_zeros()
    }

    /// Whether the king of colour `c` is attacked.
    pub fn in_check(&self, t: &Tables, c: usize) -> (r: bool)
        requires
            t.wf(),
            self.wf(),
            c < 2,
            self@.has_king(c as int),
        ensures
            r == self@.in_check(c as int),
    {
        self.attacked(t, self.king_sq(c), 1 - c)
    }
}

/// Rights determine the four low bits.
pub proof fn lemma_rights_injective(a: u8, b: u8)
    requires
        a < 16,
        b < 16,
        rights_of(a) == rights_of(b),
    ensures
        a == b,
{
    assert(a == b) by (bit_vector)
        requires
            a < 16,
            b < 16,
            (a & 1u8 != 0) == (b & 1u8 != 0),
            (a & 2u8 != 0) == (b & 2u8 != 0),
            (a & 4u8 != 0) == (b & 4u8 != 0),
            (a & 8u8 != 0) == (b & 8u8 != 0),
    ;
}

/// A slider's reach is the same over the occupied bitboard and over the position.
pub proof fn lemma_squares(occ: u64, p: Pos)
    requires
        p.at.len() == 64,
        forall|s: int| is_square(s) ==> #[trigger] on(occ, s) == p.occ()(s),
    ensures
        squares(occ) == p.occ(),
{
    assert forall|s: int| #[trigger] squares(occ)(s) == p.occ()(s) by {
        if is_square(s) {
            assert(on(occ, s) == p.occ()(s));
        }
    }
    assert(squares(occ) =~= p.occ());
}

/// Sliding is symmetric.
pub proof fn lemma_reach_back(occ: spec_fn(int) -> bool, a: int, b: int)
    requires
        is_square(a),
        is_square(b),
    ensures
        rook_reaches(occ, a, b) == rook_reaches(occ, b, a),
        bishop_reaches(occ, a, b) == bishop_reaches(occ, b, a),
{
    assert forall|d: int| 0 <= d < 8 && #[trigger] slides(occ, a, d, b) implies slides(
        occ,
        b,
        opposite(d),
        a,
    ) by {
        lemma_slides_back(occ, a, d, b);
    }
    assert forall|d: int| 0 <= d < 8 && #[trigger] slides(occ, b, d, a) implies slides(
        occ,
        a,
        opposite(d),
        b,
    ) by {
        lemma_slides_back(occ, b, d, a);
    }
}

} // verus!
