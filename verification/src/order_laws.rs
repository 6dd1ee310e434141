//! The order in which moves are generated.
use vstd::prelude::*;

use crate::geometry::{is_square, pawn_step};
use crate::moves::{encode, law_move_word_round_trip};
use crate::position::{man, Pos};

verus! {

/// Where a move stands in the order. First come the moves of the pawns, then those of the
/// knights, the king, the bishops, the rooks and the queens, then castling to the king's side
/// and to the queen's. Within each kind they come by the square that they leave. Of one pawn
/// come the single step, the double step, the captures and en passant; of one man they come by
/// the square that they reach, and promotions by the piece, the knight first.
pub open spec fn turn_of(p: Pos, m: u16) -> int {
    let from = m as int % 64;
    let to = m as int / 64 % 64;
    let kind = m as int / 4096;
    let man = p.at[from]->0.kind;
    let class = if kind == 2 {
        6int
    } else if kind == 3 {
        7
    } else if man == 0 {
        0
    } else if man == 1 {
        1
    } else if man == 5 {
        2
    } else {
        man + 1
    };
    let step = if man != 0 {
        0int
    } else if kind == 0 || 8 <= kind < 12 {
        0
    } else if kind == 1 {
        1
    } else if kind == 5 {
        3
    } else {
        2
    };
    class * 262144 + from * 4096 + step * 1024 + to * 16 + kind
}

/// Moves in order, whose turns lie from `lo` up to `hi`.
spec fn rising(p: Pos, s: Seq<u16>, lo: int, hi: int) -> bool {
    &&& forall|i: int| 0 <= i < s.len() ==> lo <= turn_of(p, #[trigger] s[i]) < hi
    &&& forall|i: int, j: int|
        0 <= i < j < s.len() ==> turn_of(p, #[trigger] s[i]) < turn_of(p, #[trigger] s[j])
}

proof fn lemma_rising_joined(p: Pos, a: Seq<u16>, b: Seq<u16>, lo: int, mid: int, hi: int)
    requires
        rising(p, a, lo, mid),
        rising(p, b, mid, hi),
        lo <= mid <= hi,
    ensures
        rising(p, a + b, lo, hi),
{
    let s = a + b;
    assert forall|i: int| 0 <= i < s.len() implies lo <= turn_of(p, #[trigger] s[i]) < hi by {
        if i < a.len() {
            assert(s[i] == a[i]);
        } else {
            assert(s[i] == b[i - a.len()]);
        }
    }
    assert forall|i: int, j: int| 0 <= i < j < s.len() implies turn_of(p, #[trigger] s[i])
        < turn_of(p, #[trigger] s[j]) by {
        if j < a.len() {
            assert(s[i] == a[i] && s[j] == a[j]);
        } else if i >= a.len() {
            assert(s[i] == b[i - a.len()] && s[j] == b[j - a.len()]);
        } else {
            assert(s[i] == a[i] && s[j] == b[j - a.len()]);
        }
    }
}

proof fn lemma_rising_one(p: Pos, m: u16, lo: int, hi: int)
    requires
        lo <= turn_of(p, m) < hi,
    ensures
        rising(p, seq![m], lo, hi),
{
}

proof fn lemma_rising_wider(p: Pos, s: Seq<u16>, lo: int, hi: int, low: int, high: int)
    requires
        rising(p, s, lo, hi),
        low <= lo,
        hi <= high,
    ensures
        rising(p, s, low, high),
{
}

/// The turn of a move built from its parts.
proof fn lemma_turn(p: Pos, from: int, to: int, flag: int)
    requires
        is_square(from),
        is_square(to),
        0 <= flag < 16,
    ensures
        encode(from, to, flag) as int % 64 == from,
        encode(from, to, flag) as int / 64 % 64 == to,
        encode(from, to, flag) as int / 4096 == flag,
{
    law_move_word_round_trip(from, to, flag, 0);
}

spec fn class_of(k: int) -> int {
    if k == 0 {
        0
    } else if k == 1 {
        1
    } else if k == 5 {
        2
    } else {
        k + 1
    }
}

proof fn lemma_steps(p: Pos, caps: bool, k: int, s: int, n: int)
    requires
        p.wf(),
        is_square(s),
        1 <= k < 6,
        p.at[s] == man(p.stm, k),
        0 <= n <= 64,
    ensures
        rising(
            p,
            p.step_moves(caps, k, s, n),
            class_of(k) * 262144 + s * 4096,
            class_of(k) * 262144 + s * 4096 + n * 16,
        ),
    decreases n,
{
    if n > 0 {
        lemma_steps(p, caps, k, s, n - 1);
        let front = p.step_moves(caps, k, s, n - 1);
        let lo = class_of(k) * 262144 + s * 4096;
        if p.target(caps, k, s, n - 1) {
            let m = encode(s, n - 1, p.step_flag(n - 1));
            lemma_turn(p, s, n - 1, p.step_flag(n - 1));
            lemma_rising_one(p, m, lo + (n - 1) * 16, lo + n * 16);
            lemma_rising_joined(p, front, seq![m], lo, lo + (n - 1) * 16, lo + n * 16);
            assert(front.push(m) =~= front + seq![m]);
        }
    }
}

proof fn lemma_pieces(p: Pos, caps: bool, k: int, n: int)
    requires
        p.wf(),
        1 <= k < 6,
        0 <= n <= 64,
    ensures
        rising(
            p,
            p.piece_moves(caps, k, n),
            class_of(k) * 262144,
            class_of(k) * 262144 + n * 4096,
        ),
    decreases n,
{
    if n > 0 {
        lemma_pieces(p, caps, k, n - 1);
        let lo = class_of(k) * 262144;
        if p.at[n - 1] == man(p.stm, k) {
            lemma_steps(p, caps, k, n - 1, 64);
            lemma_rising_wider(
                p,
                p.step_moves(caps, k, n - 1, 64),
                lo + (n - 1) * 4096,
                lo + (n - 1) * 4096 + 1024,
                lo + (n - 1) * 4096,
                lo + n * 4096,
            );
            lemma_rising_joined(
                p,
                p.piece_moves(caps, k, n - 1),
                p.step_moves(caps, k, n - 1, 64),
                lo,
                lo + (n - 1) * 4096,
                lo + n * 4096,
            );
        }
    }
}

proof fn lemma_promotions(p: Pos, s: int, x: int, flag: int)
    requires
        p.wf(),
        is_square(s),
        is_square(x),
        p.at[s] == man(p.stm, 0),
        flag == 8 || flag == 12,
    ensures
        ({
            let step = if flag == 8 {
                0int
            } else {
                2
            };
            let lo = s * 4096 + step * 1024 + x * 16;
            rising(p, Pos::promotions(s, x, flag), lo, lo + 16)
        }),
{
    lemma_turn(p, s, x, flag);
    lemma_turn(p, s, x, flag + 1);
    lemma_turn(p, s, x, flag + 2);
    lemma_turn(p, s, x, flag + 3);
}

proof fn lemma_pawn_captures(p: Pos, s: int, n: int)
    requires
        p.wf(),
        is_square(s),
        p.at[s] == man(p.stm, 0),
        0 <= n <= 64,
    ensures
        rising(p, p.pawn_captures(s, n), s * 4096 + 2048, s * 4096 + 2048 + n * 16),
    decreases n,
{
    if n > 0 {
        lemma_pawn_captures(p, s, n - 1);
        let front = p.pawn_captures(s, n - 1);
        let lo = s * 4096 + 2048;
        if pawn_step(p.stm, s, n - 1) && p.owns(1 - p.stm, n - 1) {
            if p.about_to_promote(s) {
                lemma_promotions(p, s, n - 1, 12);
                lemma_rising_joined(
                    p,
                    front,
                    Pos::promotions(s, n - 1, 12),
                    lo,
                    lo + (n - 1) * 16,
                    lo + n * 16,
                );
            } else {
                let m = encode(s, n - 1, 4);
                lemma_turn(p, s, n - 1, 4);
                lemma_rising_one(p, m, lo + (n - 1) * 16, lo + n * 16);
                lemma_rising_joined(p, front, seq![m], lo, lo + (n - 1) * 16, lo + n * 16);
                assert(front.push(m) =~= front + seq![m]);
            }
        }
    }
}

proof fn lemma_pawn_pushes(p: Pos, caps: bool, s: int)
    requires
        p.wf(),
        is_square(s),
        p.at[s] == man(p.stm, 0),
    ensures
        rising(p, p.pawn_pushes(caps, s), s * 4096, s * 4096 + 2048),
{
    let x = p.push(s);
    let lo = s * 4096;
    if p.free(x) {
        if p.about_to_promote(s) {
            lemma_promotions(p, s, x, 8);
            lemma_rising_wider(
                p,
                Pos::promotions(s, x, 8),
                lo + x * 16,
                lo + x * 16 + 16,
                lo,
                lo + 2048,
            );
        } else {
            lemma_turn(p, s, x, 0);
            if p.free(p.push(x)) {
                lemma_turn(p, s, p.push(x), 1);
            }
        }
    }
}

proof fn lemma_pawn(p: Pos, caps: bool, s: int)
    requires
        p.wf(),
        is_square(s),
        p.at[s] == man(p.stm, 0),
    ensures
        rising(p, p.pawn_moves_from(caps, s), s * 4096, s * 4096 + 4096),
{
    let lo = s * 4096;
    lemma_pawn_pushes(p, caps, s);
    lemma_pawn_captures(p, s, 64);
    lemma_rising_joined(
        p,
        p.pawn_pushes(caps, s),
        p.pawn_captures(s, 64),
        lo,
        lo + 2048,
        lo + 3072,
    );
    if p.ep < 64 && pawn_step(p.stm, s, p.ep) {
        lemma_turn(p, s, p.ep, 5);
        lemma_rising_one(p, encode(s, p.ep, 5), lo + 3072, lo + 4096);
    }
    lemma_rising_joined(
        p,
        p.pawn_pushes(caps, s) + p.pawn_captures(s, 64),
        p.pawn_ep(s),
        lo,
        lo + 3072,
        lo + 4096,
    );
}

proof fn lemma_pawns(p: Pos, caps: bool, n: int)
    requires
        p.wf(),
        0 <= n <= 64,
    ensures
        rising(p, p.pawn_moves(caps, n), 0, n * 4096),
    decreases n,
{
    if n > 0 {
        lemma_pawns(p, caps, n - 1);
        if p.at[n - 1] == man(p.stm, 0) {
            lemma_pawn(p, caps, n - 1);
            lemma_rising_joined(
                p,
                p.pawn_moves(caps, n - 1),
                p.pawn_moves_from(caps, n - 1),
                0,
                (n - 1) * 4096,
                n * 4096,
            );
        }
    }
}

proof fn lemma_generated(p: Pos, caps: bool)
    requires
        p.wf(),
    ensures
        rising(p, p.generated(caps), 0, 2097152),
{
    let c: int = 262144;
    let pawns = p.pawn_moves(caps, 64);
    let knights = p.piece_moves(caps, 1, 64);
    let kings = p.piece_moves(caps, 5, 64);
    let bishops = p.piece_moves(caps, 2, 64);
    let rooks = p.piece_moves(caps, 3, 64);
    let queens = p.piece_moves(caps, 4, 64);
    lemma_pawns(p, caps, 64);
    lemma_pieces(p, caps, 1, 64);
    lemma_pieces(p, caps, 5, 64);
    lemma_pieces(p, caps, 2, 64);
    lemma_pieces(p, caps, 3, 64);
    lemma_pieces(p, caps, 4, 64);
    lemma_rising_joined(p, pawns, knights, 0, c, 2 * c);
    lemma_rising_joined(p, pawns + knights, kings, 0, 2 * c, 3 * c);
    lemma_rising_joined(p, pawns + knights + kings, bishops, 0, 3 * c, 4 * c);
    lemma_rising_joined(p, pawns + knights + kings + bishops, rooks, 0, 4 * c, 5 * c);
    lemma_rising_joined(p, pawns + knights + kings + bishops + rooks, queens, 0, 5 * c, 6 * c);
    let men = pawns + knights + kings + bishops + rooks + queens;
    let h = Pos::home(p.stm);
    lemma_turn(p, h + 4, h + 6, 2);
    lemma_turn(p, h + 4, h + 2, 3);
    lemma_rising_one(p, encode(h + 4, h + 6, 2), 6 * c, 7 * c);
    lemma_rising_one(p, encode(h + 4, h + 2, 3), 7 * c, 8 * c);
    lemma_rising_joined(p, men, p.kingside_move(), 0, 6 * c, 7 * c);
    lemma_rising_joined(p, men + p.kingside_move(), p.queenside_move(), 0, 7 * c, 8 * c);
    lemma_rising_wider(p, men, 0, 6 * c, 0, 8 * c);
}

/// Moves are generated in their order, each once.
pub proof fn law_moves_come_in_order(p: Pos, caps: bool, i: int, j: int)
    requires
        p.wf(),
        0 <= i < j < p.generated(caps).len(),
    ensures
        turn_of(p, p.generated(caps)[i]) < turn_of(p, p.generated(caps)[j]),
{
    lemma_generated(p, caps);
}

proof fn lemma_filter_rises(p: Pos, s: Seq<u16>, pred: spec_fn(u16) -> bool, hi: int)
    requires
        rising(p, s, 0, hi),
    ensures
        rising(p, s.filter(pred), 0, hi),
    decreases s.len(),
{
    reveal(Seq::filter);
    if s.len() > 0 {
        let m = s.last();
        let front = s.drop_last();
        let t = turn_of(p, m);
        assert(s[s.len() - 1] == m);
        assert forall|i: int| 0 <= i < front.len() implies 0 <= turn_of(p, #[trigger] front[i])
            < t by {
            assert(front[i] == s[i]);
        }
        assert forall|i: int, j: int| 0 <= i < j < front.len() implies turn_of(
            p,
            #[trigger] front[i],
        ) < turn_of(p, #[trigger] front[j]) by {
            assert(front[i] == s[i] && front[j] == s[j]);
        }
        lemma_filter_rises(p, front, pred, t);
        let kept = front.filter(pred);
        if pred(m) {
            lemma_rising_one(p, m, t, hi);
            lemma_rising_joined(p, kept, seq![m], 0, t, hi);
            assert(kept.push(m) =~= kept + seq![m]);
        } else {
            lemma_rising_wider(p, kept, 0, t, 0, hi);
        }
    }
}

/// Legal moves are listed in the same order.
pub proof fn law_legal_moves_come_in_order(p: Pos, i: int, j: int)
    requires
        p.wf(),
        0 <= i < j < p.legal_list().len(),
    ensures
        turn_of(p, p.legal_list()[i]) < turn_of(p, p.legal_list()[j]),
{
    lemma_generated(p, false);
    lemma_filter_rises(p, p.generated(false), |m: u16| p.keeps_king_safe(m), 2097152);
}

} // verus!
