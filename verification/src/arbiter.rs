//! The arbiter of one game: whose turn it is, what an answer does, and how the game ends.
use vstd::prelude::*;

use crate::fen::position_of;
use crate::game::{verdict, Game, Outcome, Verdict};
use crate::moves::{
    flag_of, from_of, is_promotion, law_move_word_round_trip, mv_from, mv_is_promo, mv_promo_piece,
    mv_to, promoted_kind, to_of, WHITE,
};
use crate::native::{opt_text, Answer, MoveOut};
use crate::notation::{legal_at, legal_line, move_to_uci, played, uci};
use crate::position::Pos;
use crate::tables::Tables;
use crate::text::{hex, push_hex};

verus! {

/// The terms of a game.
#[derive(Clone, Copy)]
pub struct Rules {
    /// Budget by colour, White first: unequal budgets price what compute is worth.
    pub move_cycles: [u64; 2],
    /// The length at which a game is drawn.
    pub max_plies: usize,
}

/// The record of a game.
pub struct GameLog {
    pub outcome: Outcome,
    pub plies: usize,
    pub moves: Vec<u16>,
    pub opening: String,
    /// What each move cost, by colour.
    pub cycles: [Vec<u64>; 2],
    /// The same in the order of the plies.
    pub ply_cycles: Vec<u64>,
    pub note: Option<String>,
}

/// What is to be done next.
pub enum Turn {
    /// The game is over.
    Over(Outcome),
    /// This colour is to be asked for a move.
    Ask(usize),
}

// ------------------------------------------------------------------- which move is meant

/// An engine's word names a move by its squares and the piece it promotes to; its other bits
/// are not read.
pub open spec fn names(m: u16, lm: u16) -> bool {
    &&& from_of(lm) == from_of(m)
    &&& to_of(lm) == to_of(m)
    &&& is_promotion(lm) == is_promotion(m)
    &&& is_promotion(lm) ==> promoted_kind(lm) == promoted_kind(m)
}

/// The first move of a list that `m` names.
pub open spec fn named_in(list: Seq<u16>, m: u16) -> Option<u16>
    decreases list.len(),
{
    if list.len() == 0 {
        None
    } else {
        match named_in(list.drop_last(), m) {
            Some(lm) => Some(lm),
            None => if names(m, list.last()) {
                Some(list.last())
            } else {
                None
            },
        }
    }
}

/// Squares and promotion piece tell the legal moves of a position apart: the other flags
/// follow from the board.
pub proof fn law_parts_name_the_move(p: Pos, a: u16, b: u16)
    requires
        p.movable(),
        p.pseudo_legal(a),
        p.pseudo_legal(b),
        names(a, b),
    ensures
        a == b,
{
    assert(p.may_castle(p.stm, true) || !p.may_castle(p.stm, true));
    assert(p.may_castle(p.stm, false) || !p.may_castle(p.stm, false));
    assert(flag_of(a) == flag_of(b));
    law_move_word_round_trip(0, 0, 0, a);
    law_move_word_round_trip(0, 0, 0, b);
}

proof fn lemma_named(list: Seq<u16>, m: u16)
    ensures
        match named_in(list, m) {
            Some(lm) => list.contains(lm) && names(m, lm),
            None => forall|lm: u16| list.contains(lm) ==> !names(m, lm),
        },
    decreases list.len(),
{
    if list.len() > 0 {
        let less = list.drop_last();
        lemma_named(less, m);
        match named_in(less, m) {
            Some(lm) => {
                let i = choose|i: int| 0 <= i < less.len() && less[i] == lm;
                assert(list[i] == lm);
            },
            None => {
                assert(list.contains(list[list.len() - 1]));
                assert forall|lm: u16| list.contains(lm) implies (lm == list.last()
                    || less.contains(lm)) by {
                    let i = choose|i: int| 0 <= i < list.len() && list[i] == lm;
                    if i < less.len() {
                        assert(less[i] == lm);
                    }
                }
            },
        }
    }
}

/// The legal move that an answer names is the only one it names, and an answer that is
/// itself a legal move names itself.
pub proof fn law_answer_names_one_legal_move(p: Pos, m: u16, lm: u16)
    requires
        p.movable(),
        p.legal(lm),
        names(m, lm),
    ensures
        named_in(p.legal_list(), m) == Some(lm),
{
    lemma_named(p.legal_list(), m);
    p.law_legal_list_is_legal(lm);
    let x = named_in(p.legal_list(), m)->0;
    p.law_legal_list_is_legal(x);
    law_parts_name_the_move(p, x, lm);
}

/// An answer is played exactly when it names some legal move, and then a legal move is
/// played.
pub proof fn law_only_legal_moves_are_played(p: Pos, m: u16)
    requires
        p.movable(),
    ensures
        match named_in(p.legal_list(), m) {
            Some(lm) => p.legal(lm) && names(m, lm),
            None => forall|lm: u16| #[trigger] p.legal(lm) ==> !names(m, lm),
        },
{
    lemma_named(p.legal_list(), m);
    match named_in(p.legal_list(), m) {
        Some(lm) => {
            p.law_legal_list_is_legal(lm);
        },
        None => {
            assert forall|lm: u16| #[trigger] p.legal(lm) implies !names(m, lm) by {
                p.law_legal_list_is_legal(lm);
            }
        },
    }
}

/// Finds the first move of a list that `m` names.
pub fn find_named(list: &Vec<u16>, m: u16) -> (r: Option<u16>)
    ensures
        r == named_in(list@, m),
{
    let mut i: usize = 0;
    assert(list@.take(0) =~= Seq::<u16>::empty());
    while i < list.len()
        invariant
            i <= list@.len(),
            named_in(list@.take(i as int), m) is None,
        decreases list@.len() - i,
    {
        let lm = list[i];
        assert(list@.take(i + 1).drop_last() =~= list@.take(i as int));
        assert(list@.take(i + 1).last() == lm);
        if mv_from(lm) == mv_from(m) && mv_to(lm) == mv_to(m) && mv_is_promo(lm) == mv_is_promo(m)
            && (!mv_is_promo(lm) || mv_promo_piece(lm) == mv_promo_piece(m)) {
            proof {
                lemma_named_prefix(list@, m, i + 1);
            }
            return Some(lm);
        }
        i = i + 1;
    }
    assert(list@.take(i as int) =~= list@);
    None
}

proof fn lemma_named_prefix(list: Seq<u16>, m: u16, n: int)
    requires
        0 <= n <= list.len(),
        named_in(list.take(n), m) is Some,
    ensures
        named_in(list, m) == named_in(list.take(n), m),
    decreases list.len() - n,
{
    if n < list.len() {
        assert(list.take(n + 1).drop_last() =~= list.take(n));
        lemma_named_prefix(list, m, n + 1);
    } else {
        assert(list.take(n) =~= list);
    }
}

// ---------------------------------------------------------------------------- the game

/// What is said of an answer that names no legal move.
pub open spec fn illegal_text(name: Seq<char>, m: u16, p: Pos) -> Seq<char> {
    name + " played illegal move "@ + uci(m) + " (0x"@ + hex(m as nat, 4) + ") in position "@
        + p.fen()
}

/// The end of a game's hashes that lies after the last capture or pawn move: as far back as
/// the halfmove clock has counted, or to the opening if that is nearer.
#[verifier::opaque]
pub open spec fn recent(hashes: Seq<u64>, halfmove: int, moves: nat) -> Seq<u64> {
    let kept = 1 + if halfmove < moves {
        halfmove
    } else {
        moves as int
    };
    hashes.skip(hashes.len() - kept)
}

proof fn lemma_recent(hashes: Seq<u64>, halfmove: int, moves: nat)
    requires
        hashes.len() == moves + 1,
        0 <= halfmove,
    ensures
        1 <= recent(hashes, halfmove, moves).len() <= halfmove + 1,
        moves == 0 ==> recent(hashes, halfmove, moves) == hashes,
{
    reveal(recent);
    if moves == 0 {
        assert(hashes.skip(0) =~= hashes);
    }
}

proof fn lemma_recent_grows(hashes: Seq<u64>, halfmove: int, moves: nat, h: u64)
    requires
        hashes.len() == moves + 1,
        0 <= halfmove,
    ensures
        recent(hashes.push(h), 0, moves + 1) == seq![h],
        recent(hashes.push(h), halfmove + 1, moves + 1) == recent(hashes, halfmove, moves).push(h),
{
    reveal(recent);
    assert(recent(hashes.push(h), 0, moves + 1) =~= seq![h]);
    assert(recent(hashes.push(h), halfmove + 1, moves + 1) =~= recent(hashes, halfmove, moves).push(
        h,
    ));
}

/// A game under way.
pub struct Arbiter {
    pub game: Game,
    /// The hashes since the last capture or pawn move: nothing before it can be repeated.
    pub history: Vec<u64>,
    pub cycles_white: Vec<u64>,
    pub cycles_black: Vec<u64>,
    pub ply_cycles: Vec<u64>,
    pub note: Option<String>,
    pub opening: String,
    pub max_plies: usize,
    /// The legal moves, once the turn has been decided.
    pub legal: Vec<u16>,
    /// The position the game began in.
    pub start: Ghost<Pos>,
}

impl Arbiter {
    /// The moves are legal from the opening, the board is where they lead, and the history
    /// goes back to the last capture or pawn move, or to the opening.
    pub open spec fn wf(&self) -> bool {
        &&& self.game.wf()
        &&& self.start@.legal_position()
        &&& position_of(self.opening@) == Ok::<Pos, Seq<char>>(self.start@)
        &&& legal_line(self.start@, self.game.moves@)
        &&& self.game.board@ == played(
            self.start@,
            self.game.moves@,
            self.game.moves@.len() as int,
        )
        &&& self.history@ == recent(
            self.game.history@,
            self.game.board@.halfmove,
            self.game.moves@.len(),
        )
    }

    /// Begins a game from an opening that is known to be good.
    pub fn new(t: &Tables, opening: &str, rules: &Rules) -> (a: Arbiter)
        requires
            t.wf(),
            position_of(opening@) is Ok,
            position_of(opening@)->Ok_0.ep_free(),
        ensures
            a.wf(),
            a.start@ == position_of(opening@)->Ok_0,
            a.opening@ == opening@,
            a.max_plies == rules.max_plies,
            a.game.board@ == a.start@,
            a.game.moves@ == Seq::<u16>::empty(),
            a.history@ == seq![a.start@.hash()],
            a.cycles_white@ == Seq::<u64>::empty(),
            a.cycles_black@ == Seq::<u64>::empty(),
            a.ply_cycles@ == Seq::<u64>::empty(),
            a.note is None,
    {
        let game = Game::from_fen(t, opening);
        let h = game.board.hash();
        let mut history: Vec<u64> = Vec::new();
        history.push(h);
        let a = Arbiter {
            game,
            history,
            cycles_white: Vec::new(),
            cycles_black: Vec::new(),
            ply_cycles: Vec::new(),
            note: None,
            opening: opening.to_owned(),
            max_plies: rules.max_plies,
            legal: Vec::new(),
            start: Ghost(position_of(opening@)->Ok_0),
        };
        proof {
            a.game.board.lemma_fields();
            assert(a.history@ =~= seq![a.start@.hash()]);
            lemma_recent(a.history@, a.start@.halfmove, 0);
        }
        a
    }

    /// Decides the turn: the game may be over by the rules or by its length, or else the
    /// side to move is to be asked. An engine is never handed a longer history than the
    /// fifty-move rule allows.
    pub fn next(&mut self, t: &Tables) -> (turn: Turn)
        requires
            t.wf(),
            old(self).wf(),
        ensures
            final(self).wf(),
            final(self).game == old(self).game,
            final(self).history == old(self).history,
            final(self).cycles_white == old(self).cycles_white,
            final(self).cycles_black == old(self).cycles_black,
            final(self).ply_cycles == old(self).ply_cycles,
            final(self).note == old(self).note,
            final(self).opening == old(self).opening,
            final(self).max_plies == old(self).max_plies,
            final(self).start == old(self).start,
            final(self).legal@ == old(self).game.board@.legal_list(),
            ({
                let p = old(self).game.board@;
                let v = verdict(p, old(self).game.history@, p.legal_list().len());
                match turn {
                    Turn::Over(o) => if v != Verdict::Ongoing {
                        o@ == v
                    } else {
                        &&& old(self).game.moves@.len() >= old(self).max_plies
                        &&& o@ == Verdict::Draw("move limit"@)
                    },
                    Turn::Ask(c) => {
                        &&& v == Verdict::Ongoing
                        &&& old(self).game.moves@.len() < old(self).max_plies
                        &&& c == p.stm
                        &&& p.halfmove < 100
                        &&& p.legal_list().len() > 0
                        &&& old(self).history@.len() <= 100
                    },
                }
            }),
    {
        proof {
            self.game.board@.lemma_sound();
            lemma_recent(
                self.game.history@,
                self.game.board@.halfmove,
                self.game.moves@.len(),
            );
        }
        self.legal = self.game.board.legal_moves(t);
        let n = self.legal.len();
        let o = self.game.outcome_with(t, n);
        match o {
            Outcome::Ongoing => {},
            _ => {
                return Turn::Over(o);
            },
        }
        if self.game.moves.len() >= self.max_plies {
            return Turn::Over(Outcome::Draw("move limit"));
        }
        Turn::Ask(self.game.board.stm)
    }

    /// Takes the answer of the engine that was asked, and what it cost. A legal move is
    /// played, as the arbiter's own copy of it; anything else loses the game.
    pub fn reply(&mut self, name: &str, result: MoveOut, spent: u64) -> (over: Option<Outcome>)
        requires
            old(self).wf(),
            old(self).legal@ == old(self).game.board@.legal_list(),
            old(self).game.board@.halfmove < 100,
        ensures
            final(self).wf(),
            final(self).opening == old(self).opening,
            final(self).max_plies == old(self).max_plies,
            final(self).start == old(self).start,
            final(self).ply_cycles@ == tallied(old(self).ply_cycles@, spent),
            final(self).cycles_white@ == if old(self).game.board@.stm == 0 {
                tallied(old(self).cycles_white@, spent)
            } else {
                old(self).cycles_white@
            },
            final(self).cycles_black@ == if old(self).game.board@.stm == 0 {
                old(self).cycles_black@
            } else {
                tallied(old(self).cycles_black@, spent)
            },
            ({
                let p = old(self).game.board@;
                let q = final(self).game.board@;
                match result@ {
                    Answer::Forfeit(why) => {
                        &&& over is Some
                        &&& over->0@ == Verdict::Forfeit(p.stm, "engine failure"@)
                        &&& opt_text(final(self).note) == Some(name@ + ": "@ + why)
                        &&& final(self).game == old(self).game
                        &&& final(self).history == old(self).history
                    },
                    Answer::Move(m) => match named_in(p.legal_list(), m) {
                        None => {
                            &&& over is Some
                            &&& over->0@ == Verdict::Forfeit(p.stm, "illegal move"@)
                            &&& opt_text(final(self).note) == Some(illegal_text(name@, m, p))
                            &&& final(self).game == old(self).game
                            &&& final(self).history == old(self).history
                        },
                        Some(lm) => {
                            &&& over is None
                            &&& final(self).note == old(self).note
                            &&& q == p.after(lm)
                            &&& final(self).game.moves@ == old(self).game.moves@.push(lm)
                            &&& final(self).game.history@ == old(self).game.history@.push(q.hash())
                            &&& final(self).history@ == if q.halfmove == 0 {
                                seq![q.hash()]
                            } else {
                                old(self).history@.push(q.hash())
                            }
                        },
                    },
                }
            }),
    {
        let stm = self.game.board.stm;
        if spent > 0 {
            if stm == WHITE {
                self.cycles_white.push(spent);
            } else {
                self.cycles_black.push(spent);
            }
            self.ply_cycles.push(spent);
        }
        let m = match result {
            MoveOut::Forfeit(why) => {
                let mut note = name.to_owned();
                note.append(": ");
                note.append(why.as_str());
                self.note = Some(note);
                return Some(Outcome::Forfeit(stm, "engine failure"));
            },
            MoveOut::Move(m) => m,
        };
        let lm = match find_named(&self.legal, m) {
            None => {
                let mut note = name.to_owned();
                note.append(" played illegal move ");
                note.append(move_to_uci(m).as_str());
                note.append(" (0x");
                push_hex(&mut note, m as u64, 4);
                note.append(") in position ");
                note.append(self.game.board.to_fen().as_str());
                self.note = Some(note);
                return Some(Outcome::Forfeit(stm, "illegal move"));
            },
            Some(lm) => lm,
        };
        let ghost p = self.game.board@;
        proof {
            lemma_named(p.legal_list(), m);
            p.lemma_sound();
            p.law_legal_list_is_legal(lm);
            p.lemma_legal_step(lm);
            lemma_line_grows(self.start@, self.game.moves@, lm);
        }
        let ghost before = self.game.history@;
        let ghost moves = self.game.moves@.len();
        self.game.apply(lm);
        if self.game.board.halfmove == 0 {
            self.history.clear();
        }
        let h = self.game.board.hash();
        self.history.push(h);
        proof {
            lemma_recent_grows(before, p.halfmove, moves, h);
            if p.after(lm).halfmove == 0 {
                assert(self.history@ =~= seq![h]);
            }
        }
        None
    }

    /// The record of a game that ended so.
    pub fn into_log(self, outcome: Outcome) -> (log: GameLog)
        requires
            self.wf(),
        ensures
            log.outcome == outcome,
            log.plies == self.game.moves@.len(),
            log.moves == self.game.moves,
            log.opening == self.opening,
            log.cycles@ == seq![self.cycles_white, self.cycles_black],
            log.ply_cycles == self.ply_cycles,
            log.note == self.note,
            log.wf(),
    {
        let plies = self.game.moves.len();
        GameLog {
            outcome,
            plies,
            moves: self.game.moves,
            opening: self.opening,
            cycles: [self.cycles_white, self.cycles_black],
            ply_cycles: self.ply_cycles,
            note: self.note,
        }
    }
}

impl GameLog {
    /// The moves are legal from the opening.
    pub open spec fn wf(&self) -> bool {
        &&& position_of(self.opening@) is Ok
        &&& position_of(self.opening@)->Ok_0.ep_free()
        &&& legal_line(position_of(self.opening@)->Ok_0, self.moves@)
        &&& self.plies == self.moves@.len()
    }
}

/// A cost is kept where there was one: zero means that nothing was measured.
pub open spec fn tallied(s: Seq<u64>, spent: u64) -> Seq<u64> {
    if spent > 0 {
        s.push(spent)
    } else {
        s
    }
}

/// A legal move at the end of a legal line makes a legal line.
proof fn lemma_line_grows(p: Pos, moves: Seq<u16>, m: u16)
    requires
        legal_line(p, moves),
        played(p, moves, moves.len() as int).legal(m),
    ensures
        legal_line(p, moves.push(m)),
        played(p, moves.push(m), moves.len() as int + 1) == played(
            p,
            moves,
            moves.len() as int,
        ).after(m),
{
    let more = moves.push(m);
    lemma_same_start(p, moves, m, moves.len() as int);
    assert forall|i: int| 0 <= i < more.len() implies #[trigger] legal_at(p, more, i) by {
        if i < moves.len() {
            lemma_same_start(p, moves, m, i);
            assert(legal_at(p, moves, i));
        }
    }
}

proof fn lemma_same_start(p: Pos, moves: Seq<u16>, m: u16, n: int)
    requires
        0 <= n <= moves.len(),
    ensures
        played(p, moves.push(m), n) == played(p, moves, n),
    decreases n,
{
    if n > 0 {
        lemma_same_start(p, moves, m, n - 1);
    }
}

} // verus!
