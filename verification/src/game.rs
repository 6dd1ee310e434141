//! A game in progress and how it ends.
use vstd::prelude::*;

use crate::bits::{count, count_below, group_bits, lemma_zero, on};
use crate::board::Board;
use crate::fen::position_of;
use crate::geometry::{file_of, is_square, rank_of};
use crate::moves::{BISHOP, KNIGHT, PAWN, QUEEN, ROOK};
use crate::position::Pos;
use crate::tables::Tables;

verus! {

broadcast use group_bits;

#[derive(Clone, Copy, PartialEq, Eq, Debug)]
pub enum Outcome {
    Ongoing,
    /// The colour that won.
    Win(usize),
    Draw(&'static str),
    /// The colour that lost, and why.
    Forfeit(usize, &'static str),
}

/// An outcome with its texts as characters.
pub enum Verdict {
    Ongoing,
    Win(int),
    Draw(Seq<char>),
    Forfeit(int, Seq<char>),
}

impl Outcome {
    pub open spec fn view(&self) -> Verdict {
        match *self {
            Outcome::Ongoing => Verdict::Ongoing,
            Outcome::Win(c) => Verdict::Win(c as int),
            Outcome::Draw(why) => Verdict::Draw(why@),
            Outcome::Forfeit(c, why) => Verdict::Forfeit(c as int, why@),
        }
    }
}

/// The squares of the colour of a1.
pub open spec fn is_dark(s: int) -> bool {
    (file_of(s) + rank_of(s)) % 2 == 0
}

impl Pos {
    pub open spec fn has_kind(self, s: int, k: int) -> bool {
        is_square(s) && self.at[s] is Some && self.at[s]->0.kind == k
    }

    /// How many knights and bishops stand below `n`.
    pub open spec fn minors(self, n: int) -> int
        decreases n,
    {
        if n <= 0 {
            0
        } else {
            self.minors(n - 1) + if self.has_kind(n - 1, KNIGHT as int) || self.has_kind(
                n - 1,
                BISHOP as int,
            ) {
                1int
            } else {
                0int
            }
        }
    }

    /// Neither side can ever give mate: there are no pawns, rooks or queens, and either at
    /// most one minor piece, or only bishops, all on squares of one colour.
    pub open spec fn insufficient_material(self) -> bool {
        &&& forall|s: int|
            is_square(s) ==> !(#[trigger] self.has_kind(s, PAWN as int)) && !self.has_kind(
                s,
                ROOK as int,
            ) && !self.has_kind(s, QUEEN as int)
        &&& {
            ||| self.minors(64) <= 1
            ||| {
                &&& forall|s: int| is_square(s) ==> !#[trigger] self.has_kind(s, KNIGHT as int)
                &&& {
                    ||| forall|s: int| #[trigger] self.has_kind(s, BISHOP as int) ==> is_dark(s)
                    ||| forall|s: int| #[trigger] self.has_kind(s, BISHOP as int) ==> !is_dark(s)
                }
            }
        }
    }
}

/// How often `x` occurs.
pub open spec fn occurrences(s: Seq<u64>, x: u64) -> nat
    decreases s.len(),
{
    if s.len() == 0 {
        0
    } else {
        occurrences(s.drop_last(), x) + if s.last() == x {
            1nat
        } else {
            0nat
        }
    }
}

/// How a game stands in position `p` after the positions of `history`, the last of which is
/// `p`, when the side to move has `legal` moves.
pub open spec fn verdict(p: Pos, history: Seq<u64>, legal: nat) -> Verdict {
    if legal == 0 {
        if p.in_check(p.stm) {
            Verdict::Win(1 - p.stm)
        } else {
            Verdict::Draw("stalemate"@)
        }
    } else if p.halfmove >= 100 {
        Verdict::Draw("fifty-move"@)
    } else if p.insufficient_material() {
        Verdict::Draw("insufficient material"@)
    } else if occurrences(history, history.last()) >= 3 {
        Verdict::Draw("threefold repetition"@)
    } else {
        Verdict::Ongoing
    }
}

/// Counts the occurrences of `x`.
pub fn count_of(s: &Vec<u64>, x: u64) -> (n: usize)
    ensures
        n == occurrences(s@, x),
{
    let mut n: usize = 0;
    let mut i: usize = 0;
    assert(s@.take(0) =~= Seq::<u64>::empty());
    while i < s.len()
        invariant
            n <= i <= s@.len(),
            n == occurrences(s@.take(i as int), x),
        decreases s@.len() - i,
    {
        assert(s@.take(i + 1).drop_last() =~= s@.take(i as int));
        if s[i] == x {
            n = n + 1;
        }
        i = i + 1;
    }
    assert(s@.take(i as int) =~= s@);
    n
}

/// The bitboard of the squares of the colour of a1.
const DARK: u64 = 0xAA55_AA55_AA55_AA55;

proof fn lemma_dark(s: int)
    requires
        is_square(s),
    ensures
        on(DARK, s) == is_dark(s),
{
    reveal(on);
    let u = s as u64;
    assert(((0xAA55_AA55_AA55_AA55u64 >> u) & 1u64 == 1u64) == ((u % 8 + u / 8) % 2 == 0))
        by (bit_vector)
        requires
            u < 64,
    ;
}

proof fn lemma_minors(b: &Board, bb: u64, n: int)
    requires
        b.wf(),
        bb == b.pieces@[KNIGHT as int] | b.pieces@[BISHOP as int],
        0 <= n <= 64,
    ensures
        b@.minors(n) == count_below(bb, n),
    decreases n,
{
    if n > 0 {
        lemma_minors(b, bb, n - 1);
        b.lemma_fields();
        let s = n - 1;
        assert(is_square(s));
        assert(on(b.pieces@[KNIGHT as int], s) == b@.has_kind(s, KNIGHT as int));
        assert(on(b.pieces@[BISHOP as int], s) == b@.has_kind(s, BISHOP as int));
        assert(on(bb, s) == (on(b.pieces@[KNIGHT as int], s) || on(b.pieces@[BISHOP as int], s)));
    }
}

impl Board {
    /// Whether neither side can ever give mate.
    pub fn insufficient_material(&self) -> (r: bool)
        requires
            self.wf(),
        ensures
            r == self@.insufficient_material(),
    {
        let ghost p = self@;
        let heavy = self.pieces[PAWN] | self.pieces[ROOK] | self.pieces[QUEEN];
        proof {
            self.lemma_fields();
            lemma_zero(heavy);
            assert forall|s: int| is_square(s) implies #[trigger] on(heavy, s) == (p.has_kind(
                s,
                PAWN as int,
            ) || p.has_kind(s, ROOK as int) || p.has_kind(s, QUEEN as int)) by {}
        }
        if heavy != 0 {
            proof {
                let s = choose|s: int| 0 <= s < 64 && on(heavy, s);
                assert(p.has_kind(s, PAWN as int) || !p.has_kind(s, PAWN as int));
            }
            return false;
        }
        assert forall|s: int| is_square(s) implies !(#[trigger] p.has_kind(s, PAWN as int))
            && !p.has_kind(s, ROOK as int) && !p.has_kind(s, QUEEN as int) by {
            assert(!on(heavy, s));
        }
        proof {
            lemma_minors(self, self.pieces@[KNIGHT as int] | self.pieces@[BISHOP as int], 64);
        }
        if count(self.pieces[KNIGHT] | self.pieces[BISHOP]) <= 1 {
            return true;
        }
        let knights = self.pieces[KNIGHT];
        let bishops = self.pieces[BISHOP];
        proof {
            lemma_zero(knights);
            assert forall|s: int| is_square(s) implies (#[trigger] on(knights, s)) == p.has_kind(
                s,
                KNIGHT as int,
            ) by {}
            assert forall|s: int| is_square(s) implies (#[trigger] on(bishops, s)) == p.has_kind(
                s,
                BISHOP as int,
            ) by {}
        }
        if knights == 0 {
            let on_dark = bishops & DARK;
            let on_light = bishops & !DARK;
            proof {
                lemma_zero(on_dark);
                lemma_zero(on_light);
                assert forall|s: int| is_square(s) implies #[trigger] on(on_dark, s) == (p.has_kind(
                    s,
                    BISHOP as int,
                ) && is_dark(s)) && on(on_light, s) == (p.has_kind(s, BISHOP as int) && !is_dark(
                    s,
                )) by {
                    lemma_dark(s);
                    assert(on(bishops, s) == p.has_kind(s, BISHOP as int));
                }
                assert forall|s: int| is_square(s) implies !#[trigger] p.has_kind(
                    s,
                    KNIGHT as int,
                ) by {
                    assert(!on(knights, s));
                }
                if on_dark == 0 {
                    assert forall|s: int| #[trigger] p.has_kind(s, BISHOP as int) implies !is_dark(
                        s,
                    ) by {
                        assert(!on(on_dark, s));
                    }
                } else {
                    let s = choose|s: int| 0 <= s < 64 && on(on_dark, s);
                    assert(p.has_kind(s, BISHOP as int) && is_dark(s));
                }
                if on_light == 0 {
                    assert forall|s: int| #[trigger] p.has_kind(s, BISHOP as int) implies is_dark(
                        s,
                    ) by {
                        assert(on(on_dark, s) == (p.has_kind(s, BISHOP as int) && is_dark(s)));
                        assert(!on(on_light, s));
                    }
                } else {
                    let s = choose|s: int| 0 <= s < 64 && on(on_light, s);
                    assert(on(on_dark, s) == (p.has_kind(s, BISHOP as int) && is_dark(s)));
                    assert(p.has_kind(s, BISHOP as int) && !is_dark(s));
                }
            }
            return on_dark == 0 || on_light == 0;
        }
        proof {
            let s = choose|s: int| 0 <= s < 64 && on(knights, s);
            assert(p.has_kind(s, KNIGHT as int));
        }
        false
    }

    /// Whether the en passant square, where there is one, is free. Reading a position does
    /// not ask for it, and moving from one does.
    pub fn ep_is_free(&self) -> (r: bool)
        requires
            self.wf(),
        ensures
            r == self@.ep_free(),
    {
        proof {
            self.lemma_fields();
        }
        self.ep >= 64 || self.mailbox[self.ep as usize] == 6
    }
}

/// A game: the board, the hashes of its positions from the first, and the moves between.
pub struct Game {
    pub board: Board,
    pub history: Vec<u64>,
    pub moves: Vec<u16>,
}

impl Game {
    /// The board is legal, and the history runs from the first position to this one.
    pub open spec fn wf(&self) -> bool {
        &&& self.board.wf()
        &&& self.board@.legal_position()
        &&& self.history@.len() == self.moves@.len() + 1
        &&& self.history@.last() == self.board@.hash()
    }

    /// Starts a game from a position that is known to be good.
    pub fn from_fen(t: &Tables, fen: &str) -> (g: Game)
        requires
            t.wf(),
            position_of(fen@) is Ok,
        ensures
            g.board.wf(),
            position_of(fen@) == Ok::<Pos, Seq<char>>(g.board@),
            g.history@ == seq![g.board@.hash()],
            g.moves@ == Seq::<u16>::empty(),
            g.board@.ep_free() ==> g.wf(),
    {
        let board = Board::from_fen(t, fen);
        let h = board.hash();
        let mut history: Vec<u64> = Vec::new();
        history.push(h);
        proof {
            crate::fen_laws::law_read_positions_are_real(fen@);
        }
        let g = Game { board, history, moves: Vec::new() };
        assert(g.history@ =~= seq![board@.hash()]);
        g
    }

    /// Plays a move.
    pub fn apply(&mut self, m: u16)
        requires
            old(self).board.wf(),
            old(self).board@.playable(m),
        ensures
            final(self).board.wf(),
            final(self).board@ == old(self).board@.after(m),
            final(self).moves@ == old(self).moves@.push(m),
            final(self).history@ == old(self).history@.push(final(self).board@.hash()),
            old(self).wf() && old(self).board@.legal(m) ==> final(self).wf(),
    {
        let ghost p = self.board@;
        let _ = self.board.make(m);
        self.moves.push(m);
        let h = self.board.hash();
        self.history.push(h);
        proof {
            if old(self).wf() && p.legal(m) {
                p.law_legal_move_keeps_position_legal(m);
            }
        }
    }

    /// How the game stands.
    pub fn outcome(&self, t: &Tables) -> (o: Outcome)
        requires
            t.wf(),
            self.board.wf(),
            self.board@.movable(),
            self.history@.len() > 0,
        ensures
            o@ == verdict(self.board@, self.history@, self.board@.legal_list().len()),
    {
        self.outcome_with(t, self.board.legal_moves(t).len())
    }

    /// How the game stands, given the number of legal moves: the arbiter needs the list
    /// anyway.
    pub fn outcome_with(&self, t: &Tables, legal: usize) -> (o: Outcome)
        requires
            t.wf(),
            self.board.wf(),
            self.board@.has_king(self.board@.stm),
            self.history@.len() > 0,
        ensures
            o@ == verdict(self.board@, self.history@, legal as nat),
    {
        if legal == 0 {
            return if self.board.in_check(t, self.board.stm) {
                Outcome::Win(1 - self.board.stm)
            } else {
                Outcome::Draw("stalemate")
            };
        }
        if self.board.halfmove >= 100 {
            return Outcome::Draw("fifty-move");
        }
        if self.board.insufficient_material() {
            return Outcome::Draw("insufficient material");
        }
        let last = self.history[self.history.len() - 1];
        if count_of(&self.history, last) >= 3 {
            return Outcome::Draw("threefold repetition");
        }
        Outcome::Ongoing
    }
}

/// The list of legal moves is empty exactly when no move is legal, so that a game is won by
/// the side that gave check, or drawn by stalemate, exactly when its opponent cannot move.
pub proof fn law_game_ends_without_moves(p: Pos, history: Seq<u64>)
    requires
        p.movable(),
    ensures
        (p.legal_list().len() == 0) == (forall|m: u16| !p.legal(m)),
        verdict(p, history, p.legal_list().len()) == Verdict::Win(1 - p.stm) <==> p.in_check(p.stm)
            && forall|m: u16| !p.legal(m),
        (forall|m: u16| !p.legal(m)) && !p.in_check(p.stm) ==> verdict(
            p,
            history,
            p.legal_list().len(),
        ) == Verdict::Draw("stalemate"@),
{
    let list = p.legal_list();
    if list.len() == 0 {
        assert forall|m: u16| !p.legal(m) by {
            p.law_legal_list_is_legal(m);
        }
    } else {
        p.law_legal_list_is_legal(list[0]);
        assert(list.contains(list[0]));
        assert(p.legal(list[0]));
    }
}

} // verus!
