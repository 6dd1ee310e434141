//! The generated moves are the pseudo-legal moves, each of them once, and the captures among
//! them come in the same order.
use vstd::prelude::*;
use vstd::seq_lib::{
    lemma_seq_concat_contains_all_elements, lemma_seq_contains_after_push,
    lemma_seq_empty_contains_nothing,
};

use crate::geometry::{is_square, pawn_step};
use crate::moves::{
    encode, flag_of, from_of, is_capture, is_promotion, law_move_word_round_trip, to_of, BISHOP,
    F_CAPTURE, F_DOUBLE, F_EP, F_KCASTLE, F_PROMO_N, F_QCASTLE, F_QUIET, KING, KNIGHT, PAWN, QUEEN,
    ROOK,
};
use crate::position::{man, Pos};

verus! {

broadcast use {
    lemma_seq_concat_contains_all_elements,
    lemma_seq_contains_after_push,
    lemma_seq_empty_contains_nothing,
};

/// `m` is the word of these parts exactly when these are its parts.
proof fn lemma_parts(s: int, x: int, f: int, m: u16)
    requires
        is_square(s),
        is_square(x),
        0 <= f < 16,
    ensures
        m == encode(s, x, f) <==> from_of(m) == s && to_of(m) == x && flag_of(m) == f,
{
    law_move_word_round_trip(s, x, f, m);
}

impl Pos {
    proof fn lemma_step_contains(self, caps: bool, k: int, s: int, n: int, m: u16)
        requires
            is_square(s),
            0 <= n <= 64,
        ensures
            self.step_moves(caps, k, s, n).contains(m) <==> from_of(m) == s && to_of(m) < n
                && self.target(caps, k, s, to_of(m)) && flag_of(m) == self.step_flag(to_of(m)),
        decreases n,
    {
        if n > 0 {
            self.lemma_step_contains(caps, k, s, n - 1, m);
            lemma_parts(s, n - 1, self.step_flag(n - 1), m);
        }
    }

    proof fn lemma_piece_contains(self, caps: bool, k: int, n: int, m: u16)
        requires
            0 <= n <= 64,
        ensures
            self.piece_moves(caps, k, n).contains(m) <==> from_of(m) < n && self.at[from_of(m)]
                == man(self.stm, k) && self.target(caps, k, from_of(m), to_of(m)) && flag_of(m)
                == self.step_flag(to_of(m)),
        decreases n,
    {
        if n > 0 {
            self.lemma_piece_contains(caps, k, n - 1, m);
            self.lemma_step_contains(caps, k, n - 1, 64, m);
        }
    }

    proof fn lemma_promotions_contain(s: int, x: int, flag: int, m: u16)
        requires
            is_square(s),
            is_square(x),
            0 <= flag <= 12,
        ensures
            Self::promotions(s, x, flag).contains(m) <==> from_of(m) == s && to_of(m) == x && flag
                <= flag_of(m) < flag + 4,
    {
        let q = Self::promotions(s, x, flag);
        lemma_parts(s, x, flag, m);
        lemma_parts(s, x, flag + 1, m);
        lemma_parts(s, x, flag + 2, m);
        lemma_parts(s, x, flag + 3, m);
        if from_of(m) == s && to_of(m) == x && flag <= flag_of(m) < flag + 4 {
            assert(q[flag_of(m) - flag] == m);
        }
    }

    proof fn lemma_captures_contain(self, s: int, n: int, m: u16)
        requires
            is_square(s),
            0 <= n <= 64,
        ensures
            self.pawn_captures(s, n).contains(m) <==> from_of(m) == s && to_of(m) < n && pawn_step(
                self.stm,
                s,
                to_of(m),
            ) && self.owns(1 - self.stm, to_of(m)) && if self.about_to_promote(s) {
                12 <= flag_of(m)
            } else {
                flag_of(m) == F_CAPTURE
            },
        decreases n,
    {
        if n > 0 {
            self.lemma_captures_contain(s, n - 1, m);
            lemma_parts(s, n - 1, F_CAPTURE as int, m);
            Self::lemma_promotions_contain(s, n - 1, 12, m);
        }
    }

    /// What a pawn of the side to move on `s` may do, as the flags tell it.
    spec fn pawn_may(self, caps: bool, s: int, m: u16) -> bool {
        let to = to_of(m);
        let flag = flag_of(m);
        &&& from_of(m) == s
        &&& if flag == F_QUIET {
            !caps && self.free(to) && to == self.push(s) && !self.about_to_promote(s)
        } else if flag == F_DOUBLE {
            !caps && self.on_start_rank(s) && to == self.push(self.push(s)) && self.free(
                self.push(s),
            ) && self.free(to)
        } else if flag == F_CAPTURE {
            self.owns(1 - self.stm, to) && pawn_step(self.stm, s, to) && !self.about_to_promote(s)
        } else if flag == F_EP {
            self.ep < 64 && to == self.ep && pawn_step(self.stm, s, to)
        } else if 8 <= flag < 12 {
            self.about_to_promote(s) && to == self.push(s) && self.free(to)
        } else if 12 <= flag {
            self.about_to_promote(s) && self.owns(1 - self.stm, to) && pawn_step(self.stm, s, to)
        } else {
            false
        }
    }

    proof fn lemma_pawn_from_contains(self, caps: bool, s: int, m: u16)
        requires
            self.wf(),
            is_square(s),
            is_square(self.push(s)),
        ensures
            self.pawn_moves_from(caps, s).contains(m) <==> self.pawn_may(caps, s, m),
    {
        let x = self.push(s);
        self.lemma_captures_contain(s, 64, m);
        Self::lemma_promotions_contain(s, x, F_PROMO_N as int, m);
        lemma_parts(s, x, F_QUIET as int, m);
        if self.on_start_rank(s) {
            lemma_parts(s, self.push(x), F_DOUBLE as int, m);
        }
        if self.ep < 64 {
            lemma_parts(s, self.ep, F_EP as int, m);
        }
        let two = seq![encode(s, x, F_QUIET as int), encode(s, self.push(x), F_DOUBLE as int)];
        assert(two.contains(m) <==> m == two[0] || m == two[1]) by {
            assert(two.contains(two[0]) && two.contains(two[1]));
        }
        let one = seq![encode(s, x, F_QUIET as int)];
        assert(one.contains(m) <==> m == one[0]) by {
            assert(one.contains(one[0]));
        }
        let ep = seq![encode(s, self.ep, F_EP as int)];
        assert(ep.contains(m) <==> m == ep[0]) by {
            assert(ep.contains(ep[0]));
        }
        assert(self.pawn_pushes(caps, s).contains(m) || self.pawn_captures(s, 64).contains(m)
            || self.pawn_ep(s).contains(m) <==> self.pawn_moves_from(caps, s).contains(m));
    }

    proof fn lemma_pawn_contains(self, caps: bool, n: int, m: u16)
        requires
            self.wf(),
            self.pawns_can_push(),
            0 <= n <= 64,
        ensures
            self.pawn_moves(caps, n).contains(m) <==> from_of(m) < n && self.at[from_of(m)] == man(
                self.stm,
                PAWN as int,
            ) && self.pawn_may(caps, from_of(m), m),
        decreases n,
    {
        if n > 0 {
            self.lemma_pawn_contains(caps, n - 1, m);
            if self.at[n - 1] == man(self.stm, PAWN as int) {
                self.lemma_pawn_from_contains(caps, n - 1, m);
            }
        }
    }

    proof fn lemma_castles_contain(self, m: u16)
        requires
            self.wf(),
        ensures
            self.kingside_move().contains(m) <==> self.can_castle(true) && from_of(m) == Self::home(
                self.stm,
            ) + 4 && to_of(m) == Self::home(self.stm) + 6 && flag_of(m) == F_KCASTLE,
            self.queenside_move().contains(m) <==> self.can_castle(false) && from_of(m)
                == Self::home(self.stm) + 4 && to_of(m) == Self::home(self.stm) + 2 && flag_of(m)
                == F_QCASTLE,
    {
        let h = Self::home(self.stm);
        lemma_parts(h + 4, h + 6, F_KCASTLE as int, m);
        lemma_parts(h + 4, h + 2, F_QCASTLE as int, m);
        let a = seq![encode(h + 4, h + 6, F_KCASTLE as int)];
        let b = seq![encode(h + 4, h + 2, F_QCASTLE as int)];
        assert(a.contains(m) <==> m == a[0]) by {
            assert(a.contains(a[0]));
        }
        assert(b.contains(m) <==> m == b[0]) by {
            assert(b.contains(b[0]));
        }
    }

    /// Castling rights are held only while the king is at home.
    pub open spec fn kings_home(self) -> bool {
        forall|c: int, kingside: bool|
            0 <= c < 2 && #[trigger] self.may_castle(c, kingside) ==> self.at[Self::home(c) + 4]
                == man(c, KING as int)
    }

    /// The generator finds exactly the pseudo-legal moves; restricted to captures and
    /// promotions, exactly those among them that capture or promote.
    pub proof fn law_generated_is_pseudo_legal(self, caps: bool, m: u16)
        requires
            self.wf(),
            self.pawns_can_push(),
            self.kings_home(),
        ensures
            self.generated(caps).contains(m) <==> self.pseudo_legal(m) && (caps ==> self.forcing(
                m,
            )),
    {
        self.lemma_pawn_contains(caps, 64, m);
        self.lemma_piece_contains(caps, KNIGHT as int, 64, m);
        self.lemma_piece_contains(caps, KING as int, 64, m);
        self.lemma_piece_contains(caps, BISHOP as int, 64, m);
        self.lemma_piece_contains(caps, ROOK as int, 64, m);
        self.lemma_piece_contains(caps, QUEEN as int, 64, m);
        self.lemma_castles_contain(m);
        assert(self.may_castle(self.stm, true) || !self.may_castle(self.stm, true));
        assert(self.may_castle(self.stm, false) || !self.may_castle(self.stm, false));
        let from = from_of(m);
        if self.at[from] is Some {
            let k = self.at[from]->0.kind;
            assert(0 <= k < 6);
            assert(self.at[from] == man(self.at[from]->0.color, k));
        }
    }
}

/// Two lists without duplicates and without a common element join without duplicates.
proof fn lemma_join(a: Seq<u16>, b: Seq<u16>)
    requires
        a.no_duplicates(),
        b.no_duplicates(),
        forall|m: u16| !(#[trigger] a.contains(m) && b.contains(m)),
    ensures
        (a + b).no_duplicates(),
{
    let q = a + b;
    assert forall|i: int, j: int| 0 <= i < j < q.len() implies q[i] != q[j] by {
        if i < a.len() && a.len() <= j {
            assert(a.contains(a[i]));
            assert(b.contains(b[j - a.len()]));
        }
    }
}

impl Pos {
    proof fn lemma_step_once(self, caps: bool, k: int, s: int, n: int)
        requires
            is_square(s),
            0 <= n <= 64,
        ensures
            self.step_moves(caps, k, s, n).no_duplicates(),
        decreases n,
    {
        if n > 0 {
            self.lemma_step_once(caps, k, s, n - 1);
            let last = encode(s, n - 1, self.step_flag(n - 1));
            self.lemma_step_contains(caps, k, s, n - 1, last);
            lemma_parts(s, n - 1, self.step_flag(n - 1), last);
            let rest = self.step_moves(caps, k, s, n - 1);
            assert forall|i: int| 0 <= i < rest.len() implies rest[i] != last by {
                assert(rest.contains(rest[i]));
            }
        }
    }

    proof fn lemma_piece_once(self, caps: bool, k: int, n: int)
        requires
            0 <= n <= 64,
        ensures
            self.piece_moves(caps, k, n).no_duplicates(),
        decreases n,
    {
        if n > 0 {
            self.lemma_piece_once(caps, k, n - 1);
            self.lemma_step_once(caps, k, n - 1, 64);
            let a = self.piece_moves(caps, k, n - 1);
            let b = self.step_moves(caps, k, n - 1, 64);
            assert forall|m: u16| !(#[trigger] a.contains(m) && b.contains(m)) by {
                self.lemma_piece_contains(caps, k, n - 1, m);
                self.lemma_step_contains(caps, k, n - 1, 64, m);
            }
            lemma_join(a, b);
        }
    }

    proof fn lemma_promotions_once(s: int, x: int, flag: int)
        requires
            is_square(s),
            is_square(x),
            0 <= flag <= 12,
        ensures
            Self::promotions(s, x, flag).no_duplicates(),
    {
        assert forall|f: int| flag <= f < flag + 4 implies #[trigger] flag_of(encode(s, x, f))
            == f by {
            lemma_parts(s, x, f, encode(s, x, f));
        }
    }

    proof fn lemma_captures_once(self, s: int, n: int)
        requires
            is_square(s),
            0 <= n <= 64,
        ensures
            self.pawn_captures(s, n).no_duplicates(),
        decreases n,
    {
        if n > 0 {
            self.lemma_captures_once(s, n - 1);
            let a = self.pawn_captures(s, n - 1);
            let last = encode(s, n - 1, F_CAPTURE as int);
            Self::lemma_promotions_once(s, n - 1, 12);
            let b = Self::promotions(s, n - 1, 12);
            assert forall|m: u16| !(#[trigger] a.contains(m) && (b.contains(m) || m == last)) by {
                self.lemma_captures_contain(s, n - 1, m);
                Self::lemma_promotions_contain(s, n - 1, 12, m);
                lemma_parts(s, n - 1, F_CAPTURE as int, m);
            }
            lemma_join(a, b);
            lemma_join(a, seq![last]);
            assert(a.push(last) =~= a + seq![last]);
        }
    }

    proof fn lemma_pawn_from_once(self, caps: bool, s: int)
        requires
            self.wf(),
            is_square(s),
            is_square(self.push(s)),
        ensures
            self.pawn_moves_from(caps, s).no_duplicates(),
    {
        let x = self.push(s);
        let a = self.pawn_pushes(caps, s);
        let b = self.pawn_captures(s, 64);
        let c = self.pawn_ep(s);
        self.lemma_captures_once(s, 64);
        Self::lemma_promotions_once(s, x, F_PROMO_N as int);
        assert forall|m: u16| #[trigger] a.contains(m) implies flag_of(m) != F_CAPTURE && flag_of(m)
            != F_EP && flag_of(m) < 12 by {
            Self::lemma_promotions_contain(s, x, F_PROMO_N as int, m);
            lemma_parts(s, x, F_QUIET as int, m);
            if self.on_start_rank(s) {
                lemma_parts(s, self.push(x), F_DOUBLE as int, m);
            }
        }
        assert forall|m: u16| #[trigger] b.contains(m) implies flag_of(m) == F_CAPTURE || flag_of(m)
            >= 12 by {
            self.lemma_captures_contain(s, 64, m);
        }
        assert forall|m: u16| #[trigger] c.contains(m) implies flag_of(m) == F_EP by {
            lemma_parts(s, self.ep, F_EP as int, m);
        }
        assert(a.no_duplicates()) by {
            if self.on_start_rank(s) && is_square(self.push(x)) {
                lemma_parts(s, x, F_QUIET as int, encode(s, x, F_QUIET as int));
                lemma_parts(
                    s,
                    self.push(x),
                    F_DOUBLE as int,
                    encode(s, self.push(x), F_DOUBLE as int),
                );
            }
        }
        lemma_join(a, b);
        lemma_join(a + b, c);
    }

    proof fn lemma_pawn_once(self, caps: bool, n: int)
        requires
            self.wf(),
            self.pawns_can_push(),
            0 <= n <= 64,
        ensures
            self.pawn_moves(caps, n).no_duplicates(),
        decreases n,
    {
        if n > 0 {
            self.lemma_pawn_once(caps, n - 1);
            if self.at[n - 1] == man(self.stm, PAWN as int) {
                self.lemma_pawn_from_once(caps, n - 1);
                let a = self.pawn_moves(caps, n - 1);
                let b = self.pawn_moves_from(caps, n - 1);
                assert forall|m: u16| !(#[trigger] a.contains(m) && b.contains(m)) by {
                    self.lemma_pawn_contains(caps, n - 1, m);
                    self.lemma_pawn_from_contains(caps, n - 1, m);
                }
                lemma_join(a, b);
            }
        }
    }

    /// Joining the moves of the men of one kind to moves of other men.
    proof fn lemma_join_pieces(self, caps: bool, rest: Seq<u16>, k: int)
        requires
            self.wf(),
            rest.no_duplicates(),
            forall|m: u16| #[trigger] rest.contains(m) ==> self.at[from_of(m)] != man(self.stm, k),
        ensures
            (rest + self.piece_moves(caps, k, 64)).no_duplicates(),
            forall|m: u16| #[trigger]
                (rest + self.piece_moves(caps, k, 64)).contains(m) ==> rest.contains(m)
                    || self.at[from_of(m)] == man(self.stm, k) && flag_of(m) == self.step_flag(
                    to_of(m),
                ),
    {
        let b = self.piece_moves(caps, k, 64);
        self.lemma_piece_once(caps, k, 64);
        assert forall|m: u16| #[trigger] b.contains(m) implies self.at[from_of(m)] == man(
            self.stm,
            k,
        ) && flag_of(m) == self.step_flag(to_of(m)) by {
            self.lemma_piece_contains(caps, k, 64, m);
        }
        lemma_join(rest, b);
    }

    /// No move is generated twice.
    pub proof fn law_generated_once(self, caps: bool)
        requires
            self.wf(),
            self.pawns_can_push(),
        ensures
            self.generated(caps).no_duplicates(),
    {
        let p = self.pawn_moves(caps, 64);
        self.lemma_pawn_once(caps, 64);
        assert forall|m: u16| #[trigger] p.contains(m) implies self.at[from_of(m)] == man(
            self.stm,
            PAWN as int,
        ) && flag_of(m) != F_KCASTLE && flag_of(m) != F_QCASTLE by {
            self.lemma_pawn_contains(caps, 64, m);
        }
        let n = p + self.piece_moves(caps, KNIGHT as int, 64);
        self.lemma_join_pieces(caps, p, KNIGHT as int);
        let k = n + self.piece_moves(caps, KING as int, 64);
        self.lemma_join_pieces(caps, n, KING as int);
        let b = k + self.piece_moves(caps, BISHOP as int, 64);
        self.lemma_join_pieces(caps, k, BISHOP as int);
        let r = b + self.piece_moves(caps, ROOK as int, 64);
        self.lemma_join_pieces(caps, b, ROOK as int);
        let q = r + self.piece_moves(caps, QUEEN as int, 64);
        self.lemma_join_pieces(caps, r, QUEEN as int);
        if !caps {
            let ks = self.kingside_move();
            let qs = self.queenside_move();
            assert forall|m: u16|
                (#[trigger] ks.contains(m) ==> flag_of(m) == F_KCASTLE) && (qs.contains(m)
                    ==> flag_of(m) == F_QCASTLE) by {
                self.lemma_castles_contain(m);
            }
            assert forall|m: u16| #[trigger] q.contains(m) implies flag_of(m) != F_KCASTLE
                && flag_of(m) != F_QCASTLE by {}
            lemma_join(q, ks);
            assert forall|m: u16| #[trigger] qs.contains(m) implies flag_of(m) == F_QCASTLE by {
                self.lemma_castles_contain(m);
            }
            lemma_join(q + ks, qs);
        }
    }
}

// --------------------------------------------------------------- captures among the rest

/// Whether a move word captures or promotes.
pub open spec fn bites() -> spec_fn(u16) -> bool {
    |m: u16| is_capture(m) || is_promotion(m)
}

proof fn lemma_filter_push(s: Seq<u16>, m: u16)
    ensures
        s.push(m).filter(bites()) == if bites()(m) {
            s.filter(bites()).push(m)
        } else {
            s.filter(bites())
        },
{
    reveal(Seq::filter);
    assert(s.push(m).drop_last() =~= s);
}

proof fn lemma_filter_join(a: Seq<u16>, b: Seq<u16>)
    ensures
        (a + b).filter(bites()) == a.filter(bites()) + b.filter(bites()),
{
    Seq::filter_distributes_over_add(a, b, bites());
}

/// Filtering keeps a list of nothing but captures and promotions, and empties one without.
proof fn lemma_filter_all(s: Seq<u16>, all: bool)
    requires
        forall|i: int| 0 <= i < s.len() ==> bites()(#[trigger] s[i]) == all,
    ensures
        s.filter(bites()) == if all {
            s
        } else {
            seq![]
        },
    decreases s.len(),
{
    reveal(Seq::filter);
    if s.len() > 0 {
        let less = s.drop_last();
        assert forall|i: int| 0 <= i < less.len() implies bites()(#[trigger] less[i]) == all by {
            assert(less[i] == s[i]);
        }
        lemma_filter_all(less, all);
        assert(bites()(s[s.len() - 1]) == all);
        assert(less.push(s.last()) =~= s);
    }
}

impl Pos {
    proof fn lemma_step_bites(self, k: int, s: int, n: int)
        requires
            is_square(s),
            0 <= n <= 64,
        ensures
            self.step_moves(true, k, s, n) == self.step_moves(false, k, s, n).filter(bites()),
        decreases n,
    {
        if n > 0 {
            self.lemma_step_bites(k, s, n - 1);
            let m = encode(s, n - 1, self.step_flag(n - 1));
            law_move_word_round_trip(s, n - 1, self.step_flag(n - 1), m);
            lemma_filter_push(self.step_moves(false, k, s, n - 1), m);
        } else {
            lemma_filter_all(seq![], true);
        }
    }

    proof fn lemma_piece_bites(self, k: int, n: int)
        requires
            0 <= n <= 64,
        ensures
            self.piece_moves(true, k, n) == self.piece_moves(false, k, n).filter(bites()),
        decreases n,
    {
        if n > 0 {
            self.lemma_piece_bites(k, n - 1);
            self.lemma_step_bites(k, n - 1, 64);
            lemma_filter_join(self.piece_moves(false, k, n - 1), self.step_moves(false, k, n - 1, 64));
        } else {
            lemma_filter_all(seq![], true);
        }
    }

    proof fn lemma_promotions_bite(s: int, x: int, flag: int)
        requires
            is_square(s),
            is_square(x),
            8 <= flag <= 12,
        ensures
            forall|i: int|
                0 <= i < Self::promotions(s, x, flag).len() ==> bites()(
                    #[trigger] Self::promotions(s, x, flag)[i],
                ),
    {
        let m = 0u16;
        law_move_word_round_trip(s, x, flag, m);
        law_move_word_round_trip(s, x, flag + 1, m);
        law_move_word_round_trip(s, x, flag + 2, m);
        law_move_word_round_trip(s, x, flag + 3, m);
    }

    proof fn lemma_pawn_captures_bite(self, s: int, n: int)
        requires
            is_square(s),
            0 <= n <= 64,
        ensures
            forall|i: int|
                0 <= i < self.pawn_captures(s, n).len() ==> bites()(
                    #[trigger] self.pawn_captures(s, n)[i],
                ),
        decreases n,
    {
        if n > 0 {
            self.lemma_pawn_captures_bite(s, n - 1);
            law_move_word_round_trip(s, n - 1, F_CAPTURE as int, 0u16);
            Self::lemma_promotions_bite(s, n - 1, 12);
            let less = self.pawn_captures(s, n - 1);
            let more = self.pawn_captures(s, n);
            assert forall|i: int| 0 <= i < more.len() implies bites()(#[trigger] more[i]) by {
                if i < less.len() {
                    assert(more[i] == less[i]);
                } else if self.about_to_promote(s) {
                    assert(more[i] == Self::promotions(s, n - 1, 12)[i - less.len()]);
                } else {
                    assert(more[i] == encode(s, n - 1, F_CAPTURE as int));
                }
            }
        }
    }

    proof fn lemma_pawn_from_bites(self, s: int)
        requires
            self.wf(),
            is_square(s),
            is_square(self.push(s)),
        ensures
            self.pawn_moves_from(true, s) == self.pawn_moves_from(false, s).filter(bites()),
    {
        let x = self.push(s);
        let quiet = self.pawn_pushes(false, s);
        let pushes = self.pawn_pushes(true, s);
        let takes = self.pawn_captures(s, 64);
        let ep = self.pawn_ep(s);
        Self::lemma_promotions_bite(s, x, F_PROMO_N as int);
        self.lemma_pawn_captures_bite(s, 64);
        law_move_word_round_trip(s, x, F_QUIET as int, 0u16);
        if self.on_start_rank(s) {
            law_move_word_round_trip(s, self.push(x), F_DOUBLE as int, 0u16);
        }
        if self.ep < 64 {
            law_move_word_round_trip(s, self.ep, F_EP as int, 0u16);
        }
        assert(pushes == quiet.filter(bites())) by {
            lemma_filter_all(quiet, self.about_to_promote(s));
        }
        lemma_filter_all(takes, true);
        lemma_filter_all(ep, true);
        lemma_filter_join(quiet, takes);
        lemma_filter_join(quiet + takes, ep);
    }

    proof fn lemma_pawn_bites(self, n: int)
        requires
            self.wf(),
            self.pawns_can_push(),
            0 <= n <= 64,
        ensures
            self.pawn_moves(true, n) == self.pawn_moves(false, n).filter(bites()),
        decreases n,
    {
        if n > 0 {
            self.lemma_pawn_bites(n - 1);
            if self.at[n - 1] == man(self.stm, PAWN as int) {
                self.lemma_pawn_from_bites(n - 1);
                lemma_filter_join(self.pawn_moves(false, n - 1), self.pawn_moves_from(false, n - 1));
            }
        } else {
            lemma_filter_all(seq![], true);
        }
    }

    /// The captures and promotions are generated in the order that they have among all moves,
    /// and quiet promotions are among them.
    pub proof fn law_captures_keep_their_order(self)
        requires
            self.wf(),
            self.pawns_can_push(),
        ensures
            self.generated(true) == self.generated(false).filter(
                |m: u16| is_capture(m) || is_promotion(m),
            ),
    {
        let h = Self::home(self.stm);
        let p = self.pawn_moves(false, 64);
        let n = self.piece_moves(false, KNIGHT as int, 64);
        let k = self.piece_moves(false, KING as int, 64);
        let b = self.piece_moves(false, BISHOP as int, 64);
        let r = self.piece_moves(false, ROOK as int, 64);
        let q = self.piece_moves(false, QUEEN as int, 64);
        self.lemma_pawn_bites(64);
        self.lemma_piece_bites(KNIGHT as int, 64);
        self.lemma_piece_bites(KING as int, 64);
        self.lemma_piece_bites(BISHOP as int, 64);
        self.lemma_piece_bites(ROOK as int, 64);
        self.lemma_piece_bites(QUEEN as int, 64);
        lemma_filter_join(p, n);
        lemma_filter_join(p + n, k);
        lemma_filter_join(p + n + k, b);
        lemma_filter_join(p + n + k + b, r);
        lemma_filter_join(p + n + k + b + r, q);
        let men = p + n + k + b + r + q;
        law_move_word_round_trip(h + 4, h + 6, F_KCASTLE as int, 0u16);
        law_move_word_round_trip(h + 4, h + 2, F_QCASTLE as int, 0u16);
        lemma_filter_all(self.kingside_move(), false);
        lemma_filter_all(self.queenside_move(), false);
        lemma_filter_join(men, self.kingside_move());
        lemma_filter_join(men + self.kingside_move(), self.queenside_move());
        assert(self.generated(true) =~= self.generated(false).filter(bites()));
    }

    /// A pseudo-legal move is marked as a capture exactly when a man of the other side stands
    /// on its to-square, or it captures en passant.
    pub proof fn law_capture_flag_tells_captures(self, m: u16)
        requires
            self.wf(),
            self.pseudo_legal(m),
        ensures
            is_capture(m) <==> self.owns(1 - self.stm, to_of(m)) || flag_of(m) == F_EP,
    {
    }
}

} // verus!
